//! The axis: the values of one column, each once, in ascending order and
//! without the null, whole or cut to a page.

use vstd::prelude::*;
use crate::cell::{ascending, datum_lt, Cell, Datum};
use crate::table::{cells_of, frame, has_column, names, Column, ColumnView, Error, Table};
use crate::values::{
    data, distinct, distinct_sorted_cells, lemma_distinct, lemma_distinct_of_sorted,
    lemma_non_null, lemma_non_null_ascending, lemma_page_ascending, lemma_sort_keeps_distinct,
    lemma_sort_keeps_values, lemma_sorted_distinct_ascends, non_null, page, page_cells,
    page_start, sorted_cells, strictly_ascending, value_cells,
};

verus! {

/// The name that the key column bears while series are joined to it.
pub open spec fn key_name() -> Seq<char> {
    "x_axis"@
}

/// The whole axis of a column: its values without repetitions, in ascending
/// order, without the null.
pub open spec fn axis_keys(x: Seq<Datum>) -> Seq<Datum> {
    non_null(distinct(x).sort_by(ascending()))
}

/// The axis of a column, or the page of it that `offset` and `len` select
/// where both are given.
pub open spec fn axis_page(x: Seq<Datum>, offset: Option<i64>, len: Option<u32>) -> Seq<Datum> {
    match (offset, len) {
        (Some(o), Some(l)) => page(axis_keys(x), o as int, l as int),
        _ => axis_keys(x),
    }
}

/// An axis ascends strictly, so it repeats no key; it holds no null; and
/// each of its keys is a value of the column. Without a page it holds every
/// value of the column but the null.
pub proof fn lemma_axis_is_canonical(x: Seq<Datum>, offset: Option<i64>, len: Option<u32>)
    ensures
        strictly_ascending(axis_page(x, offset, len)),
        axis_page(x, offset, len).no_duplicates(),
        !axis_page(x, offset, len).contains(Datum::Null),
        forall|d: Datum| axis_page(x, offset, len).contains(d) ==> x.contains(d),
        forall|d: Datum| x.contains(d) && d != Datum::Null ==> axis_keys(x).contains(d),
{
    let d = distinct(x);
    let s = d.sort_by(ascending());
    let k = axis_keys(x);
    lemma_distinct(x);
    lemma_sort_keeps_distinct(d);
    lemma_sorted_distinct_ascends(s);
    lemma_non_null(s);
    lemma_non_null_ascending(s);
    let a = axis_page(x, offset, len);
    if offset is Some && len is Some {
        lemma_page_ascending(k, offset->0 as int, len->0 as int);
    }
    assert forall|i: int, j: int| 0 <= i < a.len() && 0 <= j < a.len() && i != j implies a[i]
        != a[j] by {
        if i < j {
            assert(datum_lt(a[i], a[j]));
        } else {
            assert(datum_lt(a[j], a[i]));
        }
    }
    assert forall|v: Datum| a.contains(v) implies x.contains(v) && v != Datum::Null by {
        assert(k.contains(v));
        assert(s.contains(v));
        assert(d.contains(v));
    }
}

/// A page of the axis is the stretch of the whole axis that begins at
/// `offset`, counted from the end where it is negative, and holds `len`
/// keys, or those that are left where they are fewer.
pub proof fn lemma_page_of_axis(x: Seq<Datum>, offset: i64, len: u32)
    ensures
        ({
            let whole = axis_page(x, None, None);
            let n = whole.len() as int;
            let start = page_start(n, offset as int);
            let count = if len <= n - start {
                len as int
            } else {
                n - start
            };
            &&& 0 <= start <= n
            &&& offset >= 0 && offset <= n ==> start == offset
            &&& offset < 0 && -offset <= n ==> start == n + offset
            &&& axis_page(x, Some(offset), Some(len)) == whole.subrange(start, start + count)
        }),
{
}

/// The axis of a column, or the page of it that `offset` and `len` select
/// where both are given.
pub fn axis_cells(x: &Vec<Cell>, offset: Option<i64>, len: Option<u32>) -> (r: Vec<Cell>)
    ensures
        data(r@) == axis_page(data(x@), offset, len),
{
    let sorted = sorted_cells(x);
    proof {
        lemma_sort_keeps_values(data(x@));
        lemma_distinct_of_sorted(data(x@));
    }
    let unique = distinct_sorted_cells(&sorted);
    let keys = value_cells(&unique);
    match (offset, len) {
        (Some(o), Some(l)) => page_cells(&keys, o, l),
        _ => keys,
    }
}

/// The axis of the source over its column `x_axis`: a table of one column,
/// named `x_axis` whatever the source calls it, that holds the column's
/// values without repetitions and without nulls, in ascending order, cut to
/// a page where `offset` and `len` are both given. A source without that
/// column is a fault of the schema.
pub fn get_x_axis_frame(
    source: &Table,
    x_axis: &String,
    offset: Option<i64>,
    len: Option<u32>,
) -> (r: Result<Table, Error>)
    ensures
        match r {
            Ok(t) => {
                &&& has_column(source@, x_axis@)
                &&& t@ == seq![
                    ColumnView {
                        name: key_name(),
                        cells: axis_page(cells_of(source@, x_axis@), offset, len),
                    },
                ]
                &&& strictly_ascending(t@[0].cells)
                &&& t@[0].cells.no_duplicates()
                &&& !t@[0].cells.contains(Datum::Null)
            },
            Err(e) => e == Error::Schema && !has_column(source@, x_axis@),
        },
{
    match source.column(x_axis) {
        None => Err(Error::Schema),
        Some(x) => {
            let keys = axis_cells(&x.cells, offset, len);
            let mut columns: Vec<Column> = Vec::new();
            columns.push(Column { name: String::from_str("x_axis"), cells: keys });
            proof {
                lemma_axis_is_canonical(cells_of(source@, x_axis@), offset, len);
                let t = frame(columns@);
                assert(t =~= seq![
                    ColumnView {
                        name: key_name(),
                        cells: axis_page(cells_of(source@, x_axis@), offset, len),
                    },
                ]);
                assert(names(t).no_duplicates());
            }
            match Table::new(columns) {
                Ok(t) => Ok(t),
                Err(e) => Err(e),
            }
        },
    }
}

} // verus!
