use tictactoe::game_checker::{GameChecker, Verdict};
use tictactoe::table::Table;

#[test]
fn board_of_only_first_side_marks_is_indeterminate() {
    let table = Table::from_string(&["XXX", "XXX", "XXX"], 3);
    assert_eq!(GameChecker::check_table(&table), Verdict::Indeterminate);
}

#[test]
fn opposing_full_columns_are_indeterminate() {
    let table = Table::from_string(&["O X", "O X", "O X"], 3);
    assert_eq!(GameChecker::check_table(&table), Verdict::Indeterminate);
}

#[test]
fn empty_board_is_indeterminate() {
    let table = Table::from_string(&["   ", "   ", "   "], 3);
    assert_eq!(GameChecker::check_table(&table), Verdict::Indeterminate);
}

#[test]
fn lone_diagonal_without_opposing_marks_is_indeterminate() {
    let table = Table::from_string(&["X  ", " X ", "  X"], 3);
    assert_eq!(GameChecker::check_table(&table), Verdict::Indeterminate);
}

#[test]
fn first_side_wins_with_a_top_row_and_one_extra_mark() {
    let table = Table::from_string(&["XXX", "OO ", "   "], 3);
    assert_eq!(GameChecker::check_table(&table), Verdict::SideA);
}

#[test]
fn second_side_wins_with_a_left_column_and_balanced_counts() {
    let table = Table::from_string(&["OXX", "O X", "O  "], 3);
    assert_eq!(GameChecker::check_table(&table), Verdict::SideB);
}

#[test]
fn full_board_without_a_run_and_consistent_counts_is_a_draw() {
    let table = Table::from_string(&["XOX", "XOO", "OXX"], 3);
    assert_eq!(GameChecker::check_table(&table), Verdict::Draw);
}

#[test]
fn consistent_counts_without_a_full_board_are_not_a_draw() {
    let table = Table::from_string(&["X  ", "   ", "   "], 3);
    assert_eq!(GameChecker::check_table(&table), Verdict::Indeterminate);
}

#[test]
fn diagonal_win_anchored_at_the_center_is_detected() {
    let table = Table::from_string(&["XO ", "OX ", "  X"], 3);
    assert_eq!(GameChecker::check_table(&table), Verdict::SideA);
}

#[test]
fn evaluating_the_same_board_twice_yields_the_same_verdict() {
    let table = Table::from_string(&["OXX", "XOO", "X O"], 3);
    let first = GameChecker::check_table(&table);
    let second = GameChecker::check_table(&table);
    assert_eq!(first, second);
}

#[test]
fn every_verdict_is_one_of_the_four_kinds() {
    let layouts = [
        ["XXX", "OO ", "   "],
        ["OXX", "O X", "O  "],
        ["XOX", "XOO", "OXX"],
        ["   ", "   ", "   "],
    ];
    for layout in layouts {
        let verdict = GameChecker::check_table(&Table::from_string(&layout, 3));
        assert!(matches!(
            verdict,
            Verdict::SideA | Verdict::SideB | Verdict::Draw | Verdict::Indeterminate
        ));
    }
}
