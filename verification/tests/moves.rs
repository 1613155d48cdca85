use tictactoe::moves::{InLineMoves, Moves, MovesX, MovesY, Position};

#[test]
fn get_all_horizontal_moves_in_invalid_position() {
    let invalid_actual_position = (4usize, 4usize);
    let moves = InLineMoves::HORIZONTAL.get_all_linear_moves(&invalid_actual_position, 3);

    let possible_moves: Vec<Position> = vec![];

    assert_eq!(moves, possible_moves);
}

#[test]
fn get_all_horizontal_moves_in_center() {
    let center = ((3usize - 1) / 2, (3usize - 1) / 2);
    let moves = InLineMoves::HORIZONTAL.get_all_linear_moves(&center, 3);

    let mut possible_moves: Vec<Position> = vec![
        Moves::Move(MovesX::NONE, MovesY::NONE),
        Moves::Move(MovesX::LEFT, MovesY::NONE),
        Moves::Move(MovesX::RIGHT, MovesY::NONE),
    ]
    .iter()
    .map(|m| m.ret_index(&center).unwrap())
    .collect();

    possible_moves.sort();

    assert_eq!(moves, possible_moves);
}

#[test]
fn get_all_vertical_moves_in_center() {
    let center = ((3usize - 1) / 2, (3usize - 1) / 2);
    let moves = InLineMoves::VERTICAL.get_all_linear_moves(&center, 3);

    let mut possible_moves: Vec<Position> = vec![
        Moves::Move(MovesX::NONE, MovesY::NONE),
        Moves::Move(MovesX::NONE, MovesY::UP),
        Moves::Move(MovesX::NONE, MovesY::DOWN),
    ]
    .iter()
    .map(|m| m.ret_index(&center).unwrap())
    .collect();

    possible_moves.sort();

    assert_eq!(moves, possible_moves);
}

#[test]
fn get_all_diagonaldes_moves_in_center() {
    let center = ((3usize - 1) / 2, (3usize - 1) / 2);
    let moves = InLineMoves::DIAGONALDES.get_all_linear_moves(&center, 3);

    let mut possible_moves: Vec<Position> = vec![
        Moves::Move(MovesX::NONE, MovesY::NONE),
        Moves::Move(MovesX::LEFT, MovesY::UP),
        Moves::Move(MovesX::RIGHT, MovesY::DOWN),
    ]
    .iter()
    .map(|m| m.ret_index(&center).unwrap())
    .collect();

    possible_moves.sort();

    assert_eq!(moves, possible_moves);
}

#[test]
fn get_all_diagonalasc_moves_in_center() {
    let center = ((3usize - 1) / 2, (3usize - 1) / 2);
    let moves = InLineMoves::DIAGONALASC.get_all_linear_moves(&center, 3);

    let mut possible_moves: Vec<Position> = vec![
        Moves::Move(MovesX::NONE, MovesY::NONE),
        Moves::Move(MovesX::LEFT, MovesY::DOWN),
        Moves::Move(MovesX::RIGHT, MovesY::UP),
    ]
    .iter()
    .map(|m| m.ret_index(&center).unwrap())
    .collect();

    possible_moves.sort();

    assert_eq!(moves, possible_moves);
}

#[test]
fn get_all_possible_moves_in_invalid_position() {
    let invalid_actual_position = (4usize, 4usize);
    let moves = Moves::get_all_simple_moves(&invalid_actual_position, 3);

    let possible_moves: Vec<Moves> = vec![];

    assert_eq!(moves, possible_moves);
}

#[test]
fn get_all_possible_moves_in_bottom_right_corner() {
    let actual_position = (3usize - 1, 3usize - 1);
    let moves = Moves::get_all_simple_moves(&actual_position, 3);

    let possible_moves = vec![
        Moves::Move(MovesX::LEFT, MovesY::NONE),
        Moves::Move(MovesX::LEFT, MovesY::UP),
        Moves::Move(MovesX::NONE, MovesY::UP),
    ];

    assert_eq!(moves, possible_moves);
}

#[test]
fn get_all_possible_moves_in_the_top_left_corner() {
    let actual_position = (0usize, 0usize);
    let moves = Moves::get_all_simple_moves(&actual_position, 3);

    let possible_moves = vec![
        Moves::Move(MovesX::RIGHT, MovesY::NONE),
        Moves::Move(MovesX::RIGHT, MovesY::DOWN),
        Moves::Move(MovesX::NONE, MovesY::DOWN),
    ];

    assert_eq!(moves, possible_moves);
}

#[test]
fn lines_through_corners_are_cut_by_the_grid() {
    let origin = (0usize, 0usize);
    let asc = InLineMoves::DIAGONALASC.get_all_linear_moves(&origin, 3);
    assert_eq!(asc, vec![(0usize, 0usize)]);

    let top_right = (2usize, 0usize);
    let des = InLineMoves::DIAGONALDES.get_all_linear_moves(&top_right, 3);
    assert_eq!(des, vec![(2usize, 0usize)]);

    let anti = InLineMoves::DIAGONALASC.get_all_linear_moves(&top_right, 3);
    assert_eq!(anti, vec![(0usize, 2usize), (1usize, 1usize), (2usize, 0usize)]);
}

#[test]
fn line_is_independent_of_its_starting_position() {
    let left = InLineMoves::HORIZONTAL.get_all_linear_moves(&(0usize, 1usize), 3);
    let right = InLineMoves::HORIZONTAL.get_all_linear_moves(&(2usize, 1usize), 3);
    assert_eq!(left, right);
    assert_eq!(left, vec![(0usize, 1usize), (1usize, 1usize), (2usize, 1usize)]);
}

#[test]
fn lines_follow_the_configured_side_length() {
    let row = InLineMoves::HORIZONTAL.get_all_linear_moves(&(1usize, 2usize), 4);
    assert_eq!(
        row,
        vec![(0usize, 2usize), (1usize, 2usize), (2usize, 2usize), (3usize, 2usize)]
    );
}
