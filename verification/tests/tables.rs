use axis_table::{find_column, get_columns, Cell, Column, Error, Table};

fn column(name: &str, cells: Vec<Cell>) -> Column {
    Column { name: name.to_string(), cells }
}

fn ints(v: &[i64]) -> Vec<Cell> {
    v.iter().map(|n| Cell::Int(*n)).collect()
}

#[test]
fn new_accepts_columns_of_one_length() {
    let t = Table::new(vec![column("a", ints(&[1, 2])), column("b", ints(&[3, 4]))]).unwrap();
    assert_eq!(t.width(), 2);
    assert_eq!(t.height(), 2);
    assert_eq!(t.columns()[1], column("b", ints(&[3, 4])));
}

#[test]
fn new_accepts_no_columns() {
    let t = Table::new(Vec::new()).unwrap();
    assert_eq!(t.width(), 0);
    assert_eq!(t.height(), 0);
    assert_eq!(get_columns(&t), Vec::<String>::new());
}

#[test]
fn new_rejects_ragged_columns_as_malformed_source() {
    let r = Table::new(vec![column("a", ints(&[1, 2])), column("b", ints(&[3]))]);
    assert_eq!(r, Err(Error::Source));
}

#[test]
fn new_rejects_repeated_names_as_schema_fault() {
    let r = Table::new(vec![
        column("a", ints(&[1])),
        column("b", ints(&[2])),
        column("a", ints(&[3])),
    ]);
    assert_eq!(r, Err(Error::Schema));
}

#[test]
fn new_reports_ragged_before_repeated_names() {
    let r = Table::new(vec![column("a", ints(&[1])), column("a", ints(&[2, 3]))]);
    assert_eq!(r, Err(Error::Source));
}

#[test]
fn get_columns_lists_names_in_order() {
    let t = Table::new(vec![
        column("date", ints(&[1])),
        column("region", ints(&[2])),
        column("sales", ints(&[3])),
    ])
    .unwrap();
    assert_eq!(get_columns(&t), vec!["date".to_string(), "region".to_string(), "sales".to_string()]);
}

#[test]
fn column_finds_by_name() {
    let t = Table::new(vec![column("a", ints(&[1, 2])), column("b", ints(&[3, 4]))]).unwrap();
    assert_eq!(t.column(&"b".to_string()), Some(&column("b", ints(&[3, 4]))));
    assert_eq!(t.column(&"c".to_string()), None);
    assert_eq!(t.column(&"".to_string()), None);
}

#[test]
fn find_column_gives_the_first_place() {
    let cs = vec![column("a", ints(&[])), column("b", ints(&[])), column("a", ints(&[]))];
    assert_eq!(find_column(&cs, &"a".to_string()), Some(0));
    assert_eq!(find_column(&cs, &"b".to_string()), Some(1));
    assert_eq!(find_column(&cs, &"z".to_string()), None);
}

#[test]
fn column_clone_keeps_name_and_cells() {
    let c = column("a", vec![Cell::Null, Cell::Int(1), Cell::Text("t".to_string())]);
    assert_eq!(c.clone(), c);
}
