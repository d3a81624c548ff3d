use axis_table::{copy_cells, page_cells, sorted_cells, value_cells, Cell};

fn ints(v: &[i64]) -> Vec<Cell> {
    v.iter().map(|n| Cell::Int(*n)).collect()
}

fn text(s: &str) -> Cell {
    Cell::Text(s.to_string())
}

#[test]
fn sorted_puts_numbers_in_ascending_order() {
    let v = ints(&[5, -1, 3, 3, 0]);
    assert_eq!(sorted_cells(&v), ints(&[-1, 0, 3, 3, 5]));
}

#[test]
fn sorted_puts_texts_in_lexicographic_order() {
    let v = vec![text("west"), text("east"), text("north"), text("ea")];
    assert_eq!(sorted_cells(&v), vec![text("ea"), text("east"), text("north"), text("west")]);
}

#[test]
fn sorted_keeps_repetitions() {
    let v = vec![text("b"), text("a"), text("b"), text("a"), text("b")];
    assert_eq!(sorted_cells(&v), vec![text("a"), text("a"), text("b"), text("b"), text("b")]);
    assert_eq!(sorted_cells(&Vec::new()), Vec::<Cell>::new());
    assert_eq!(sorted_cells(&ints(&[4])), ints(&[4]));
}

#[test]
fn sorted_agrees_with_std_on_many_numbers() {
    let mut seed: u64 = 12345;
    let mut numbers: Vec<i64> = Vec::new();
    for _ in 0..1000 {
        seed = seed.wrapping_mul(6364136223846793005).wrapping_add(1442695040888963407);
        numbers.push((seed >> 40) as i64 - (1 << 23));
    }
    let ours = sorted_cells(&ints(&numbers));
    numbers.sort();
    assert_eq!(ours, ints(&numbers));
}

#[test]
fn sorted_puts_nulls_last() {
    let v = vec![Cell::Null, text("b"), Cell::Int(9), Cell::Null, Cell::Int(-9)];
    assert_eq!(
        sorted_cells(&v),
        vec![Cell::Int(-9), Cell::Int(9), text("b"), Cell::Null, Cell::Null]
    );
}

#[test]
fn value_cells_drops_the_nulls_only() {
    let v = vec![Cell::Null, Cell::Int(2), Cell::Null, text("x"), Cell::Int(2)];
    assert_eq!(value_cells(&v), vec![Cell::Int(2), text("x"), Cell::Int(2)]);
}

#[test]
fn copy_cells_copies_all() {
    let v = vec![Cell::Null, Cell::Int(2), text("x")];
    assert_eq!(copy_cells(&v), v);
}

#[test]
fn page_from_the_front() {
    let v = ints(&[10, 20, 30, 40, 50]);
    assert_eq!(page_cells(&v, 0, 2), ints(&[10, 20]));
    assert_eq!(page_cells(&v, 1, 3), ints(&[20, 30, 40]));
    assert_eq!(page_cells(&v, 0, 5), v);
}

#[test]
fn page_is_cut_where_the_rows_run_out() {
    let v = ints(&[10, 20, 30, 40, 50]);
    assert_eq!(page_cells(&v, 3, 10), ints(&[40, 50]));
    assert_eq!(page_cells(&v, 0, u32::MAX), v);
    assert_eq!(page_cells(&v, 5, 3), ints(&[]));
}

#[test]
fn page_of_length_zero_is_empty() {
    let v = ints(&[10, 20, 30]);
    assert_eq!(page_cells(&v, 1, 0), ints(&[]));
}

#[test]
fn page_with_a_negative_offset_counts_from_the_end() {
    let v = ints(&[10, 20, 30, 40, 50]);
    assert_eq!(page_cells(&v, -2, 2), ints(&[40, 50]));
    assert_eq!(page_cells(&v, -2, 1), ints(&[40]));
    assert_eq!(page_cells(&v, -2, 9), ints(&[40, 50]));
    assert_eq!(page_cells(&v, -5, 2), ints(&[10, 20]));
}

#[test]
fn page_with_an_offset_past_the_end_is_empty() {
    let v = ints(&[10, 20, 30]);
    assert_eq!(page_cells(&v, 4, 2), ints(&[]));
    assert_eq!(page_cells(&v, i64::MAX, 2), ints(&[]));
}

#[test]
fn page_with_an_offset_before_the_front_starts_at_the_front() {
    let v = ints(&[10, 20, 30]);
    assert_eq!(page_cells(&v, -4, 2), ints(&[10, 20]));
    assert_eq!(page_cells(&v, -100, 5), v);
    assert_eq!(page_cells(&v, i64::MIN, 1), ints(&[10]));
}

#[test]
fn page_of_nothing_is_nothing() {
    let v: Vec<Cell> = Vec::new();
    assert_eq!(page_cells(&v, 0, 3), ints(&[]));
    assert_eq!(page_cells(&v, -1, 3), ints(&[]));
    assert_eq!(page_cells(&v, 1, 3), ints(&[]));
}
