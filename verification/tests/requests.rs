use axis_table::{
    get_data_for_analytics, get_data_for_chart, get_data_for_table, get_x_axis_frame, Cell,
    Column, Error, Table, GROUP_CAP,
};

fn column(name: &str, cells: Vec<Cell>) -> Column {
    Column { name: name.to_string(), cells }
}

fn ints(v: &[i64]) -> Vec<Cell> {
    v.iter().map(|n| Cell::Int(*n)).collect()
}

fn opt_ints(v: &[Option<i64>]) -> Vec<Cell> {
    v.iter().map(|n| match n {
        Some(n) => Cell::Int(*n),
        None => Cell::Null,
    }).collect()
}

fn texts(v: &[&str]) -> Vec<Cell> {
    v.iter().map(|s| Cell::Text(s.to_string())).collect()
}

fn s(v: &str) -> String {
    v.to_string()
}

fn names(t: &Table) -> Vec<String> {
    t.columns().iter().map(|c| c.name.clone()).collect()
}

/// Sales of three regions on five dates; not every region sold on every date,
/// the rows are not in order, and one (date, region) pair occurs twice.
fn sales() -> Table {
    Table::new(vec![
        column(
            "date",
            texts(&[
                "2024-01-03", "2024-01-01", "2024-01-02", "2024-01-01", "2024-01-05",
                "2024-01-04", "2024-01-03", "2024-01-01", "2024-01-02", "2024-01-05",
                "2024-01-01",
            ]),
        ),
        column(
            "region",
            texts(&[
                "west", "east", "east", "west", "north", "east", "east", "north", "west", "west",
                "east",
            ]),
        ),
        column("sales", ints(&[30, 10, 20, 11, 52, 40, 31, 12, 21, 50, 99])),
    ])
    .unwrap()
}

fn dates() -> Vec<Cell> {
    texts(&["2024-01-01", "2024-01-02", "2024-01-03", "2024-01-04", "2024-01-05"])
}

#[test]
fn chart_of_sales_by_region() {
    let t = get_data_for_chart(&sales(), s("sales"), s("date"), Some(s("region")), None, None)
        .unwrap();
    assert_eq!(t.height(), 5);
    assert_eq!(names(&t), vec![s("x_axis"), s("east"), s("north"), s("west")]);
    assert_eq!(t.columns()[0].cells, dates());
    assert_eq!(
        t.columns()[1].cells,
        opt_ints(&[Some(10), Some(20), Some(31), Some(40), None])
    );
    assert_eq!(t.columns()[2].cells, opt_ints(&[Some(12), None, None, None, Some(52)]));
    assert_eq!(
        t.columns()[3].cells,
        opt_ints(&[Some(11), Some(21), Some(30), None, Some(50)])
    );
}

#[test]
fn chart_without_groups_has_the_one_series() {
    let t = get_data_for_chart(&sales(), s("sales"), s("date"), None, None, None).unwrap();
    assert_eq!(names(&t), vec![s("x_axis"), s("sales")]);
    assert_eq!(t.columns()[0].cells, dates());
    assert_eq!(t.columns()[1].cells, ints(&[10, 20, 30, 40, 52]));
}

#[test]
fn chart_of_a_page() {
    let t = get_data_for_chart(&sales(), s("sales"), s("date"), Some(s("region")), Some(1), Some(2))
        .unwrap();
    assert_eq!(t.height(), 2);
    assert_eq!(t.columns()[0].cells, texts(&["2024-01-02", "2024-01-03"]));
    assert_eq!(t.columns()[1].cells, ints(&[20, 31]));
    assert_eq!(t.columns()[2].cells, vec![Cell::Null, Cell::Null]);
    assert_eq!(t.columns()[3].cells, ints(&[21, 30]));
}

#[test]
fn chart_keeps_groups_that_the_page_does_not_reach() {
    let t = get_data_for_chart(&sales(), s("sales"), s("date"), Some(s("region")), Some(3), Some(1))
        .unwrap();
    assert_eq!(names(&t), vec![s("x_axis"), s("east"), s("north"), s("west")]);
    assert_eq!(t.height(), 1);
    assert_eq!(t.columns()[1].cells, ints(&[40]));
    assert_eq!(t.columns()[2].cells, vec![Cell::Null]);
    assert_eq!(t.columns()[3].cells, vec![Cell::Null]);
}

#[test]
fn table_of_sales_by_region_bears_the_axis_name() {
    let t = get_data_for_table(
        &sales(),
        s("date"),
        Some(s("sales")),
        Some(s("region")),
        None,
        None,
    )
    .unwrap();
    assert_eq!(names(&t), vec![s("date"), s("east"), s("north"), s("west")]);
    assert_eq!(t.height(), 5);
    assert_eq!(t.columns()[0].cells, dates());
    assert_eq!(
        t.columns()[3].cells,
        opt_ints(&[Some(11), Some(21), Some(30), None, Some(50)])
    );
}

#[test]
fn table_without_groups_has_every_other_column() {
    let t = get_data_for_table(&sales(), s("date"), None, None, None, None).unwrap();
    assert_eq!(names(&t), vec![s("date"), s("region"), s("sales")]);
    assert_eq!(t.columns()[0].cells, dates());
    assert_eq!(t.columns()[1].cells, texts(&["east", "east", "west", "east", "north"]));
    assert_eq!(t.columns()[2].cells, ints(&[10, 20, 30, 40, 52]));
}

#[test]
fn table_needs_both_names_to_be_grouped() {
    let wide = get_data_for_table(&sales(), s("date"), None, None, None, None).unwrap();
    let only_y = get_data_for_table(&sales(), s("date"), Some(s("sales")), None, None, None);
    let only_g = get_data_for_table(&sales(), s("date"), None, Some(s("region")), None, None);
    assert_eq!(only_y, Ok(wide));
    let wide = get_data_for_table(&sales(), s("date"), None, None, None, None).unwrap();
    assert_eq!(only_g, Ok(wide));
}

#[test]
fn table_that_is_not_grouped_ignores_names_it_does_not_use() {
    let t = get_data_for_table(&sales(), s("date"), Some(s("absent")), None, None, None);
    assert!(t.is_ok());
    let t = get_data_for_table(&sales(), s("date"), None, Some(s("absent")), None, None);
    assert!(t.is_ok());
}

#[test]
fn table_over_another_axis() {
    let t = get_data_for_table(&sales(), s("region"), None, None, Some(-2), Some(5)).unwrap();
    assert_eq!(names(&t), vec![s("region"), s("date"), s("sales")]);
    assert_eq!(t.columns()[0].cells, texts(&["north", "west"]));
    assert_eq!(t.columns()[1].cells, texts(&["2024-01-05", "2024-01-03"]));
    assert_eq!(t.columns()[2].cells, ints(&[52, 30]));
}

#[test]
fn rows_of_the_joined_table_are_those_of_the_axis() {
    let source = sales();
    for (offset, len) in [(None, None), (Some(0), Some(0)), (Some(2), Some(2)), (Some(-1), Some(9))] {
        let axis = get_x_axis_frame(&source, &s("date"), offset, len).unwrap();
        let chart =
            get_data_for_chart(&source, s("sales"), s("date"), Some(s("region")), offset, len)
                .unwrap();
        let wide = get_data_for_table(&source, s("date"), None, None, offset, len).unwrap();
        assert_eq!(chart.height(), axis.height());
        assert_eq!(wide.height(), axis.height());
        for c in chart.columns().iter().chain(wide.columns().iter()) {
            assert_eq!(c.cells.len(), axis.height());
        }
        assert_eq!(chart.columns()[0].cells, axis.columns()[0].cells);
    }
}

fn many_groups() -> Table {
    let n = 13i64;
    Table::new(vec![
        column("k", (0..n).map(|i| Cell::Int(i % 4)).collect()),
        column("g", (0..n).map(|i| Cell::Int(i)).collect()),
        column("v", (0..n).map(|i| Cell::Int(100 + i)).collect()),
    ])
    .unwrap()
}

#[test]
fn only_the_first_ten_groups_become_series() {
    assert_eq!(GROUP_CAP, 10);
    let t = get_data_for_chart(&many_groups(), s("v"), s("k"), Some(s("g")), None, None).unwrap();
    assert_eq!(t.width(), 11);
    assert_eq!(
        names(&t),
        vec![
            s("x_axis"), s("0"), s("1"), s("10"), s("11"), s("12"), s("2"), s("3"), s("4"), s("5"),
            s("6"),
        ]
    );
    // group 10 has the one row with key 10 % 4
    assert_eq!(t.columns()[3].cells, opt_ints(&[None, None, Some(110), None]));
    let t = get_data_for_table(&many_groups(), s("k"), Some(s("v")), Some(s("g")), None, None)
        .unwrap();
    assert_eq!(t.width(), 11);
    assert_eq!(names(&t)[0], "k");
    assert_eq!(names(&t)[10], "6");
}

#[test]
fn exactly_ten_groups_are_all_series() {
    let t = Table::new(vec![
        column("k", ints(&[1; 10])),
        column("g", ints(&[9, 8, 7, 6, 5, 4, 3, 2, 1, 0])),
        column("v", ints(&[0, 1, 2, 3, 4, 5, 6, 7, 8, 9])),
    ])
    .unwrap();
    let t = get_data_for_chart(&t, s("v"), s("k"), Some(s("g")), None, None).unwrap();
    assert_eq!(t.width(), 11);
    assert_eq!(t.columns()[1], column("0", ints(&[9])));
    assert_eq!(t.columns()[10], column("9", ints(&[0])));
}

#[test]
fn group_of_nulls_is_a_series_of_nulls() {
    let source = Table::new(vec![
        column("k", ints(&[1, 2, 3])),
        column("g", vec![Cell::Text(s("a")), Cell::Null, Cell::Text(s("a"))]),
        column("v", ints(&[10, 20, 30])),
    ])
    .unwrap();
    let t = get_data_for_chart(&source, s("v"), s("k"), Some(s("g")), None, None).unwrap();
    assert_eq!(names(&t), vec![s("x_axis"), s("a"), s("null")]);
    assert_eq!(t.columns()[1].cells, opt_ints(&[Some(10), None, Some(30)]));
    assert_eq!(t.columns()[2].cells, vec![Cell::Null, Cell::Null, Cell::Null]);
    let found =
        get_data_for_analytics(&source, s("k"), Some(s("v")), Some(s("g")), None, None).unwrap();
    assert_eq!(found[1].0, "null");
    assert_eq!(found[1].1.count, 0);
    assert_eq!(found[1].1.n_unique, 0);
    assert_eq!(found[1].1.min, Cell::Null);
}

#[test]
fn the_same_request_gives_the_same_table() {
    let a = get_data_for_table(&sales(), s("date"), Some(s("sales")), Some(s("region")), Some(1), Some(3));
    let b = get_data_for_table(&sales(), s("date"), Some(s("sales")), Some(s("region")), Some(1), Some(3));
    assert_eq!(a, b);
    let a = get_data_for_table(&sales(), s("date"), None, None, None, None);
    let b = get_data_for_table(&sales(), s("date"), None, None, None, None);
    assert_eq!(format!("{:?}", a), format!("{:?}", b));
}

#[test]
fn analytics_of_sales_by_region() {
    let found =
        get_data_for_analytics(&sales(), s("date"), Some(s("sales")), Some(s("region")), None, None)
            .unwrap();
    let labels: Vec<&str> = found.iter().map(|f| f.0.as_str()).collect();
    assert_eq!(labels, vec!["east", "north", "west"]);
    assert_eq!((found[0].1.count, found[0].1.n_unique), (4, 4));
    assert_eq!((found[0].1.min.clone(), found[0].1.max.clone()), (Cell::Int(10), Cell::Int(40)));
    assert_eq!((found[1].1.count, found[1].1.n_unique), (2, 2));
    assert_eq!(found[1].1.median_low, Cell::Int(12));
    assert_eq!(found[1].1.median_high, Cell::Int(52));
    assert_eq!(found[2].1.count, 4);
}

#[test]
fn analytics_without_groups_cover_every_column() {
    let found = get_data_for_analytics(&sales(), s("date"), None, None, None, None).unwrap();
    let labels: Vec<&str> = found.iter().map(|f| f.0.as_str()).collect();
    assert_eq!(labels, vec!["date", "region", "sales"]);
    assert_eq!((found[0].1.count, found[0].1.n_unique), (5, 5));
    assert_eq!(found[0].1.min, Cell::Text(s("2024-01-01")));
    assert_eq!((found[1].1.count, found[1].1.n_unique), (5, 3));
    assert_eq!((found[2].1.count, found[2].1.n_unique), (5, 5));
    assert_eq!(found[2].1.median_low, Cell::Int(30));
}

#[test]
fn analytics_are_taken_along_the_axis_not_over_the_source() {
    // the source holds 99 for a date whose first row holds 10: the series does not
    let found = get_data_for_analytics(&sales(), s("date"), None, None, None, None).unwrap();
    assert_eq!(found[2].1.max, Cell::Int(52));
    let found =
        get_data_for_analytics(&sales(), s("date"), None, None, Some(0), Some(2)).unwrap();
    assert_eq!((found[2].1.count, found[2].1.max.clone()), (2, Cell::Int(20)));
}

#[test]
fn missing_columns_are_schema_faults() {
    let t = sales();
    assert_eq!(
        get_data_for_chart(&t, s("sales"), s("day"), None, None, None),
        Err(Error::Schema)
    );
    assert_eq!(
        get_data_for_chart(&t, s("price"), s("date"), None, None, None),
        Err(Error::Schema)
    );
    assert_eq!(
        get_data_for_chart(&t, s("sales"), s("date"), Some(s("area")), None, None),
        Err(Error::Schema)
    );
    assert_eq!(get_data_for_table(&t, s("day"), None, None, None, None), Err(Error::Schema));
    assert_eq!(
        get_data_for_table(&t, s("date"), Some(s("price")), Some(s("region")), None, None),
        Err(Error::Schema)
    );
    assert_eq!(
        get_data_for_table(&t, s("date"), Some(s("sales")), Some(s("area")), None, None),
        Err(Error::Schema)
    );
    assert_eq!(
        get_data_for_analytics(&t, s("day"), None, None, None, None),
        Err(Error::Schema)
    );
    assert_eq!(
        get_data_for_analytics(&t, s("date"), Some(s("price")), Some(s("region")), None, None),
        Err(Error::Schema)
    );
    assert_eq!(
        get_data_for_analytics(&t, s("date"), Some(s("sales")), Some(s("area")), None, None),
        Err(Error::Schema)
    );
}

#[test]
fn a_series_named_like_the_key_column_is_a_schema_fault() {
    let source = Table::new(vec![
        column("k", ints(&[1, 2])),
        column("g", texts(&["x_axis", "k"])),
        column("v", ints(&[10, 20])),
        column("x_axis", ints(&[7, 8])),
    ])
    .unwrap();
    // chart: the key column is named x_axis
    assert_eq!(
        get_data_for_chart(&source, s("v"), s("k"), Some(s("g")), None, None),
        Err(Error::Schema)
    );
    assert_eq!(
        get_data_for_chart(&source, s("x_axis"), s("k"), None, None, None),
        Err(Error::Schema)
    );
    // table: the key column is named k
    assert_eq!(
        get_data_for_table(&source, s("k"), Some(s("v")), Some(s("g")), None, None),
        Err(Error::Schema)
    );
    // all other columns never collide with the key column
    let wide = get_data_for_table(&source, s("k"), None, None, None, None).unwrap();
    assert_eq!(names(&wide), vec![s("k"), s("g"), s("v"), s("x_axis")]);
    // statistics build no table, so names cannot collide
    let found =
        get_data_for_analytics(&source, s("k"), Some(s("v")), Some(s("g")), None, None).unwrap();
    assert_eq!(found.len(), 2);
}

#[test]
fn chart_of_the_axis_column_itself() {
    let t = get_data_for_chart(&sales(), s("date"), s("date"), None, None, None).unwrap();
    assert_eq!(names(&t), vec![s("x_axis"), s("date")]);
    assert_eq!(t.columns()[1].cells, dates());
}

#[test]
fn requests_on_a_source_without_rows() {
    let empty = Table::new(vec![column("k", Vec::new()), column("v", Vec::new())]).unwrap();
    let t = get_data_for_chart(&empty, s("v"), s("k"), Some(s("v")), None, None).unwrap();
    assert_eq!(names(&t), vec![s("x_axis")]);
    assert_eq!(t.height(), 0);
    let t = get_data_for_table(&empty, s("k"), None, None, Some(-3), Some(3)).unwrap();
    assert_eq!(names(&t), vec![s("k"), s("v")]);
    assert_eq!(t.height(), 0);
    let found = get_data_for_analytics(&empty, s("k"), None, None, None, None).unwrap();
    assert_eq!(found.len(), 2);
    assert_eq!(found[0].1.count, 0);
}

#[test]
fn a_long_source_is_served() {
    let n: i64 = 60_000;
    let source = Table::new(vec![
        column("k", (0..n).map(|i| Cell::Int((i * 7919) % 50_021)).collect()),
        column("v", (0..n).map(|i| Cell::Int(i)).collect()),
    ])
    .unwrap();
    let t = get_data_for_table(&source, s("k"), None, None, None, None).unwrap();
    assert_eq!(t.height(), 50_021);
    let keys = &t.columns()[0].cells;
    let values = &t.columns()[1].cells;
    assert_eq!(keys[0], Cell::Int(0));
    assert_eq!(keys[50_020], Cell::Int(50_020));
    // the first row with key k is row i where i * 7919 = k modulo 50021, the least such i
    assert_eq!(values[0], Cell::Int(0));
    assert_eq!(values[7919], Cell::Int(1));
    assert_eq!(values[(2 * 7919) % 50_021], Cell::Int(2));
    for (r, key) in keys.iter().enumerate() {
        assert_eq!(*key, Cell::Int(r as i64));
        match &values[r] {
            Cell::Int(i) => assert!(*i < 50_021 && (*i * 7919) % 50_021 == r as i64),
            other => panic!("no value at {}: {:?}", r, other),
        }
    }
}
