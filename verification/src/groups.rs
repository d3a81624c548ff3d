//! The groups of a column: the texts of its values, each once, in
//! lexicographic order.

use vstd::prelude::*;
use crate::cell::{ascending, render, Cell, Datum};
use crate::table::{cells_of, has_column, Error, Table};
use crate::text::text_le;
use crate::values::{
    data, distinct, distinct_sorted_cells, lemma_distinct, lemma_distinct_of_sorted,
    lemma_sort_keeps_distinct, lemma_sort_keeps_values, non_null, sorted_cells, value_cells,
};

verus! {

/// The texts that a run of strings holds.
pub open spec fn strs(v: Seq<String>) -> Seq<Seq<char>> {
    Seq::new(v.len(), |i: int| v[i]@)
}

/// Each value of the column as a text value.
pub open spec fn rendered(g: Seq<Datum>) -> Seq<Datum> {
    Seq::new(g.len(), |i: int| Datum::Text(render(g[i])))
}

/// The texts of a sequence of values.
pub open spec fn texts(s: Seq<Datum>) -> Seq<Seq<char>> {
    Seq::new(s.len(), |i: int| render(s[i]))
}

/// The labels of the groups of a column: the texts of its values, each
/// once, in lexicographic order.
pub open spec fn group_labels(g: Seq<Datum>) -> Seq<Seq<char>> {
    texts(distinct(rendered(g)).sort_by(ascending()))
}

/// Whether some value of the column has that text.
pub open spec fn has_text(g: Seq<Datum>, t: Seq<char>) -> bool {
    exists|k: int| 0 <= k < g.len() && render(#[trigger] g[k]) == t
}

/// How many different values a column holds, the null not counted.
pub open spec fn unique_count(c: Seq<Datum>) -> nat {
    distinct(non_null(c)).len()
}

/// The labels of a column ascend strictly in lexicographic order, so none
/// occurs twice, and they are the texts of the column's values, all of them.
pub proof fn lemma_group_labels(g: Seq<Datum>)
    ensures
        group_labels(g).len() <= g.len(),
        forall|i: int, j: int|
            0 <= i < j < group_labels(g).len() ==> text_le(
                #[trigger] group_labels(g)[i],
                #[trigger] group_labels(g)[j],
            ) && group_labels(g)[i] != group_labels(g)[j],
        forall|t: Seq<char>| group_labels(g).contains(t) <==> has_text(g, t),
{
    let r = rendered(g);
    let d = distinct(r);
    let s = d.sort_by(ascending());
    let l = group_labels(g);
    lemma_distinct(r);
    lemma_sort_keeps_distinct(d);
    assert forall|i: int| 0 <= i < s.len() implies exists|k: int|
        0 <= k < g.len() && #[trigger] s[i] == Datum::Text(render(g[k])) by {
        assert(s.contains(s[i]));
        assert(r.contains(s[i]));
        let k = choose|k: int| 0 <= k < r.len() && r[k] == s[i];
        assert(s[i] == Datum::Text(render(g[k])));
    }
    assert forall|i: int, j: int| 0 <= i < j < l.len() implies text_le(
        #[trigger] l[i],
        #[trigger] l[j],
    ) && l[i] != l[j] by {
        assert(ascending()(s[i], s[j]));
        assert(s[i] != s[j]);
    }
    assert forall|t: Seq<char>| l.contains(t) <==> has_text(g, t) by {
        if l.contains(t) {
            let i = choose|i: int| 0 <= i < l.len() && l[i] == t;
            let k = choose|k: int| 0 <= k < g.len() && s[i] == Datum::Text(render(g[k]));
            assert(render(g[k]) == t);
        }
        if has_text(g, t) {
            let k = choose|k: int| 0 <= k < g.len() && render(#[trigger] g[k]) == t;
            assert(r[k] == Datum::Text(t));
            assert(r.contains(r[k]));
            assert(s.contains(r[k]));
            let i = choose|i: int| 0 <= i < s.len() && s[i] == r[k];
            assert(l[i] == t);
        }
    }
}

/// The labels of the groups of a column of cells.
pub fn labels_of(g: &Vec<Cell>) -> (r: Vec<String>)
    ensures
        strs(r@) == group_labels(data(g@)),
{
    let mut shown: Vec<Cell> = Vec::new();
    let mut i: usize = 0;
    while i < g.len()
        invariant
            i <= g.len(),
            shown.len() == i,
            forall|k: int| 0 <= k < i ==> (#[trigger] shown[k])@ == Datum::Text(render(g[k]@)),
        decreases g.len() - i,
    {
        shown.push(Cell::Text(g[i].label()));
        i += 1;
    }
    assert(data(shown@) =~= rendered(data(g@)));
    let in_order = sorted_cells(&shown);
    proof {
        lemma_sort_keeps_values(data(shown@));
        lemma_distinct_of_sorted(data(shown@));
    }
    let sorted = distinct_sorted_cells(&in_order);
    let mut out: Vec<String> = Vec::new();
    let mut i: usize = 0;
    while i < sorted.len()
        invariant
            i <= sorted.len(),
            out.len() == i,
            forall|k: int| 0 <= k < i ==> (#[trigger] out[k])@ == render(sorted[k]@),
        decreases sorted.len() - i,
    {
        out.push(sorted[i].label());
        i += 1;
    }
    assert(strs(out@) =~= texts(data(sorted@)));
    out
}

/// The labels of the groups of the source's column: the texts of its
/// values, each once, in lexicographic order, however many they are. A
/// source without that column is a fault of the schema.
pub fn get_unique_rows_of_column(source: &Table, column: &String) -> (r: Result<
    Vec<String>,
    Error,
>)
    ensures
        match r {
            Ok(labels) => has_column(source@, column@) && strs(labels@) == group_labels(
                cells_of(source@, column@),
            ),
            Err(e) => e == Error::Schema && !has_column(source@, column@),
        },
{
    match source.column(column) {
        None => Err(Error::Schema),
        Some(c) => Ok(labels_of(&c.cells)),
    }
}

/// How many different values the source's column holds, the null not
/// counted. A source without that column is a fault of the schema.
pub fn get_unique_row_count_of_column(source: &Table, column: &String) -> (r: Result<
    usize,
    Error,
>)
    ensures
        match r {
            Ok(n) => has_column(source@, column@) && n == unique_count(
                cells_of(source@, column@),
            ),
            Err(e) => e == Error::Schema && !has_column(source@, column@),
        },
{
    match source.column(column) {
        None => Err(Error::Schema),
        Some(c) => {
            let values = value_cells(&c.cells);
            let sorted = sorted_cells(&values);
            proof {
                lemma_sort_keeps_values(data(values@));
                lemma_distinct_of_sorted(data(values@));
                lemma_distinct(data(values@));
                lemma_sort_keeps_distinct(distinct(data(values@)));
            }
            let unique = distinct_sorted_cells(&sorted);
            assert(data(unique@).len() == unique.len());
            Ok(unique.len())
        },
    }
}

} // verus!
