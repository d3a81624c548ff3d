use axis_table::{axis_cells, get_x_axis_frame, Cell, Column, Error, Table};

fn column(name: &str, cells: Vec<Cell>) -> Column {
    Column { name: name.to_string(), cells }
}

fn ints(v: &[i64]) -> Vec<Cell> {
    v.iter().map(|n| Cell::Int(*n)).collect()
}

fn text(s: &str) -> Cell {
    Cell::Text(s.to_string())
}

fn source() -> Table {
    Table::new(vec![
        column(
            "day",
            vec![
                Cell::Int(5),
                Cell::Int(3),
                Cell::Null,
                Cell::Int(5),
                Cell::Int(1),
                Cell::Int(4),
                Cell::Null,
                Cell::Int(2),
                Cell::Int(3),
            ],
        ),
        column("v", ints(&[1, 2, 3, 4, 5, 6, 7, 8, 9])),
    ])
    .unwrap()
}

fn keys_of(t: &Table) -> Vec<Cell> {
    assert_eq!(t.width(), 1);
    assert_eq!(t.columns()[0].name, "x_axis");
    t.columns()[0].cells.clone()
}

#[test]
fn axis_is_distinct_sorted_and_without_nulls() {
    let t = get_x_axis_frame(&source(), &"day".to_string(), None, None).unwrap();
    assert_eq!(keys_of(&t), ints(&[1, 2, 3, 4, 5]));
}

#[test]
fn axis_ascends_strictly_on_mixed_input() {
    let cells = vec![text("b"), Cell::Null, text("a"), text("b"), text("ab"), Cell::Null, text("a")];
    let keys = axis_cells(&cells, None, None);
    assert_eq!(keys, vec![text("a"), text("ab"), text("b")]);
    for w in keys.windows(2) {
        assert!(w[0].le(&w[1]) && !w[0].same(&w[1]));
    }
    assert!(keys.iter().all(|k| !k.is_null()));
}

#[test]
fn axis_of_nulls_only_is_empty() {
    let keys = axis_cells(&vec![Cell::Null, Cell::Null], None, None);
    assert_eq!(keys, Vec::<Cell>::new());
}

#[test]
fn axis_page_needs_both_offset_and_length() {
    let s = source();
    let whole = ints(&[1, 2, 3, 4, 5]);
    assert_eq!(keys_of(&get_x_axis_frame(&s, &"day".to_string(), Some(1), None).unwrap()), whole);
    assert_eq!(keys_of(&get_x_axis_frame(&s, &"day".to_string(), None, Some(2)).unwrap()), whole);
    assert_eq!(
        keys_of(&get_x_axis_frame(&s, &"day".to_string(), Some(1), Some(2)).unwrap()),
        ints(&[2, 3])
    );
}

#[test]
fn axis_page_is_a_stretch_of_the_whole_axis() {
    let s = source();
    let whole = keys_of(&get_x_axis_frame(&s, &"day".to_string(), None, None).unwrap());
    let n = whole.len() as i64;
    for offset in -7i64..=7 {
        for len in 0u32..=7 {
            let page =
                keys_of(&get_x_axis_frame(&s, &"day".to_string(), Some(offset), Some(len)).unwrap());
            let start = if offset < 0 { (n + offset).max(0) } else { offset.min(n) } as usize;
            let count = (len as usize).min(whole.len() - start);
            assert_eq!(page, whole[start..start + count].to_vec(), "offset {} len {}", offset, len);
        }
    }
}

#[test]
fn axis_page_from_the_end() {
    let s = source();
    assert_eq!(
        keys_of(&get_x_axis_frame(&s, &"day".to_string(), Some(-2), Some(5)).unwrap()),
        ints(&[4, 5])
    );
    assert_eq!(
        keys_of(&get_x_axis_frame(&s, &"day".to_string(), Some(-3), Some(1)).unwrap()),
        ints(&[3])
    );
}

#[test]
fn axis_drops_nulls_before_it_cuts_the_page() {
    let t = Table::new(vec![column("k", vec![Cell::Null, Cell::Int(2), Cell::Int(1)])]).unwrap();
    let page = get_x_axis_frame(&t, &"k".to_string(), Some(-1), Some(1)).unwrap();
    assert_eq!(keys_of(&page), ints(&[2]));
    let page = get_x_axis_frame(&t, &"k".to_string(), Some(0), Some(3)).unwrap();
    assert_eq!(keys_of(&page), ints(&[1, 2]));
}

#[test]
fn axis_of_a_missing_column_is_a_schema_fault() {
    assert_eq!(get_x_axis_frame(&source(), &"month".to_string(), None, None), Err(Error::Schema));
    assert_eq!(
        get_x_axis_frame(&source(), &"x_axis".to_string(), Some(0), Some(1)),
        Err(Error::Schema)
    );
}

#[test]
fn axis_of_a_source_without_rows_is_empty() {
    let t = Table::new(vec![column("k", Vec::new())]).unwrap();
    let a = get_x_axis_frame(&t, &"k".to_string(), None, None).unwrap();
    assert_eq!(keys_of(&a), Vec::<Cell>::new());
    assert_eq!(a.height(), 0);
}
