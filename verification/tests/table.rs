use tictactoe::markers::Markers;
use tictactoe::table::Table;

#[test]
fn from_string_all_x_test() {
    let init_string: Vec<&str> = vec![vec!["X"; 3]; 3].into_iter().flatten().collect();
    assert_eq!(Table::from_string(&init_string, 3), Table::all_x(3))
}

#[test]
fn from_string_all_o_test() {
    let init_string: Vec<&str> = vec![vec!["O"; 3]; 3].into_iter().flatten().collect();
    assert_eq!(Table::from_string(&init_string, 3), Table::all_o(3))
}

#[test]
fn from_string_mixed_test() {
    let init_string: Vec<&str> = vec![vec![" "; 3]; 1].into_iter().flatten().collect();
    let x_row = vec!["X"; 3];
    let o_row = vec!["O"; 3];

    let init_string = vec![x_row, init_string].concat();
    let init_string = vec![init_string, o_row].concat();

    assert_eq!(Table::from_string(&init_string, 3), Table::mixed(3))
}

#[test]
fn from_string_reads_rows_case_insensitively() {
    let table = Table::from_string(&["xO ", "  X", "o  "], 3);
    assert_eq!(table.get(0, 0), Markers::X);
    assert_eq!(table.get(1, 0), Markers::O);
    assert_eq!(table.get(2, 0), Markers::NotMarked);
    assert_eq!(table.get(2, 1), Markers::X);
    assert_eq!(table.get(0, 2), Markers::O);
    assert_eq!(table.get(2, 2), Markers::NotMarked);
}

#[test]
fn count_tallies_each_mark() {
    let table = Table::mixed(3);
    assert_eq!(table.count(Markers::X), 3);
    assert_eq!(table.count(Markers::O), 3);
    assert_eq!(table.count(Markers::NotMarked), 3);
}
