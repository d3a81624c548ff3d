use axis_table::{all_rows, join_series, rows_of_group, value_at, Cell};

fn ints(v: &[i64]) -> Vec<Cell> {
    v.iter().map(|n| Cell::Int(*n)).collect()
}

fn texts(v: &[&str]) -> Vec<Cell> {
    v.iter().map(|s| Cell::Text(s.to_string())).collect()
}

#[test]
fn all_rows_chooses_every_row() {
    assert_eq!(all_rows(3), vec![true, true, true]);
    assert_eq!(all_rows(0), Vec::<bool>::new());
}

#[test]
fn rows_of_group_compares_texts() {
    let g = vec![
        Cell::Text("east".to_string()),
        Cell::Text("west".to_string()),
        Cell::Null,
        Cell::Text("east".to_string()),
        Cell::Int(7),
    ];
    assert_eq!(rows_of_group(&g, &"east".to_string()), vec![true, false, false, true, false]);
    assert_eq!(rows_of_group(&g, &"7".to_string()), vec![false, false, false, false, true]);
    assert_eq!(rows_of_group(&g, &"south".to_string()), vec![false; 5]);
}

#[test]
fn rows_of_group_never_choose_a_null() {
    let g = vec![Cell::Null, Cell::Text("null".to_string())];
    assert_eq!(rows_of_group(&g, &"null".to_string()), vec![false, true]);
}

#[test]
fn value_at_takes_the_first_row_with_the_key() {
    let x = ints(&[1, 2, 1, 3]);
    let v = ints(&[10, 20, 30, 40]);
    let rows = all_rows(4);
    assert_eq!(value_at(&x, &rows, &v, &Cell::Int(1)), Cell::Int(10));
    assert_eq!(value_at(&x, &rows, &v, &Cell::Int(3)), Cell::Int(40));
    assert_eq!(value_at(&x, &rows, &v, &Cell::Int(4)), Cell::Null);
}

#[test]
fn value_at_skips_rows_that_are_not_chosen() {
    let x = ints(&[1, 1, 1]);
    let v = ints(&[10, 20, 30]);
    assert_eq!(value_at(&x, &vec![false, true, true], &v, &Cell::Int(1)), Cell::Int(20));
    assert_eq!(value_at(&x, &vec![false, false, false], &v, &Cell::Int(1)), Cell::Null);
}

#[test]
fn value_at_keeps_a_null_value_of_the_first_row() {
    let x = ints(&[1, 1]);
    let v = vec![Cell::Null, Cell::Int(5)];
    assert_eq!(value_at(&x, &all_rows(2), &v, &Cell::Int(1)), Cell::Null);
}

#[test]
fn join_keeps_one_cell_for_each_key() {
    let keys = ints(&[1, 2, 3, 4]);
    let x = ints(&[4, 2, 2, 9]);
    let v = texts(&["d", "b", "B", "z"]);
    let joined = join_series(&keys, &x, &all_rows(4), &v);
    assert_eq!(
        joined,
        vec![Cell::Null, Cell::Text("b".to_string()), Cell::Null, Cell::Text("d".to_string())]
    );
}

#[test]
fn join_of_no_rows_is_all_null() {
    let keys = ints(&[1, 2, 3]);
    let x = ints(&[1, 2, 3]);
    let v = ints(&[7, 8, 9]);
    let joined = join_series(&keys, &x, &vec![false, false, false], &v);
    assert_eq!(joined, vec![Cell::Null, Cell::Null, Cell::Null]);
}

#[test]
fn join_on_an_empty_axis_is_empty() {
    let joined = join_series(&Vec::new(), &ints(&[1]), &all_rows(1), &ints(&[2]));
    assert_eq!(joined, Vec::<Cell>::new());
}

#[test]
fn join_reads_only_rows_that_all_three_have() {
    let keys = ints(&[1, 2]);
    let x = ints(&[1, 2]);
    let v = ints(&[10]);
    assert_eq!(join_series(&keys, &x, &all_rows(2), &v), vec![Cell::Int(10), Cell::Null]);
}
