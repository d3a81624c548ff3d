//! Series: the values of chosen rows, laid along an axis.

use vstd::prelude::*;
use crate::cell::{ascending, datum_lt, lemma_ascending_is_total_order, render, Cell, Datum};
use crate::values::{data, strictly_ascending};

verus! {

/// Whether a value of the grouping column belongs to the group of that
/// label: it is not null and its text is the label.
pub open spec fn in_group(g: Datum, label: Seq<char>) -> bool {
    g != Datum::Null && render(g) == label
}

/// The choice of all of `n` rows.
pub open spec fn every_row(n: nat) -> Seq<bool> {
    Seq::new(n, |i: int| true)
}

/// The choice of the rows whose value in the grouping column `g` belongs
/// to the group of that label.
pub open spec fn group_rows(g: Seq<Datum>, label: Seq<char>) -> Seq<bool> {
    Seq::new(g.len(), |i: int| in_group(g[i], label))
}

/// Row `i` is among the chosen rows and has that key.
pub open spec fn is_hit(x: Seq<Datum>, rows: Seq<bool>, v: Seq<Datum>, key: Datum, i: int) -> bool {
    0 <= i < x.len() && i < rows.len() && i < v.len() && rows[i] && x[i] == key
}

/// Row `i` is the first of the chosen rows that has that key.
pub open spec fn is_first_hit(
    x: Seq<Datum>,
    rows: Seq<bool>,
    v: Seq<Datum>,
    key: Datum,
    i: int,
) -> bool {
    is_hit(x, rows, v, key, i) && forall|j: int| 0 <= j < i ==> !is_hit(x, rows, v, key, j)
}

/// What a series holds for a key of the axis: of the chosen rows, read
/// as pairs of a key from `x` and a value from `v`, the value of the first
/// one with that key, and null where none has it.
pub open spec fn joined_value(x: Seq<Datum>, rows: Seq<bool>, v: Seq<Datum>, key: Datum) -> Datum {
    if exists|i: int| is_first_hit(x, rows, v, key, i) {
        v[choose|i: int| is_first_hit(x, rows, v, key, i)]
    } else {
        Datum::Null
    }
}

/// A series laid along the axis `keys`: one value for each key, in the
/// order of the keys.
pub open spec fn series(keys: Seq<Datum>, x: Seq<Datum>, rows: Seq<bool>, v: Seq<Datum>) -> Seq<
    Datum,
> {
    Seq::new(keys.len(), |r: int| joined_value(x, rows, v, keys[r]))
}

/// A series of no chosen rows is null at every key.
pub proof fn lemma_series_of_no_rows(
    keys: Seq<Datum>,
    x: Seq<Datum>,
    rows: Seq<bool>,
    v: Seq<Datum>,
)
    requires
        forall|i: int| 0 <= i < rows.len() ==> !rows[i],
    ensures
        forall|r: int| 0 <= r < keys.len() ==> series(keys, x, rows, v)[r] == Datum::Null,
{
    assert forall|r: int| 0 <= r < keys.len() implies series(keys, x, rows, v)[r]
        == Datum::Null by {
        assert forall|i: int| !is_first_hit(x, rows, v, keys[r], i) by {
            if is_hit(x, rows, v, keys[r], i) {
                assert(!rows[i]);
            }
        }
    }
}

/// Where some chosen row has the key, one of them is the first.
pub proof fn lemma_first_hit_exists(
    x: Seq<Datum>,
    rows: Seq<bool>,
    v: Seq<Datum>,
    key: Datum,
    i: int,
)
    requires
        is_hit(x, rows, v, key, i),
    ensures
        exists|f: int| 0 <= f <= i && is_first_hit(x, rows, v, key, f),
    decreases i,
{
    if exists|j: int| 0 <= j < i && is_hit(x, rows, v, key, j) {
        let j = choose|j: int| 0 <= j < i && is_hit(x, rows, v, key, j);
        lemma_first_hit_exists(x, rows, v, key, j);
        let f = choose|f: int| 0 <= f <= j && is_first_hit(x, rows, v, key, f);
        assert(0 <= f <= i && is_first_hit(x, rows, v, key, f));
    } else {
        assert(is_first_hit(x, rows, v, key, i));
    }
}

/// The value of a series at a key is the value of the first chosen row
/// that has the key.
pub proof fn lemma_joined_value_is_first(
    x: Seq<Datum>,
    rows: Seq<bool>,
    v: Seq<Datum>,
    key: Datum,
    i: int,
)
    requires
        is_first_hit(x, rows, v, key, i),
    ensures
        joined_value(x, rows, v, key) == v[i],
{
    lemma_first_hit_unique(x, rows, v, key, i);
}

/// The first hit is the only first hit.
proof fn lemma_first_hit_unique(
    x: Seq<Datum>,
    rows: Seq<bool>,
    v: Seq<Datum>,
    key: Datum,
    i: int,
)
    requires
        is_first_hit(x, rows, v, key, i),
    ensures
        joined_value(x, rows, v, key) == v[i],
{
    let c = choose|c: int| is_first_hit(x, rows, v, key, c);
    if c < i {
        assert(!is_hit(x, rows, v, key, c));
    }
    if i < c {
        assert(!is_hit(x, rows, v, key, i));
    }
}

/// The choice of all of `n` rows.
pub fn all_rows(n: usize) -> (r: Vec<bool>)
    ensures
        r@ == every_row(n as nat),
{
    let mut out: Vec<bool> = Vec::new();
    let mut i: usize = 0;
    while i < n
        invariant
            i <= n,
            out.len() == i,
            forall|k: int| 0 <= k < i ==> #[trigger] out[k],
        decreases n - i,
    {
        out.push(true);
        i += 1;
    }
    assert(out@ =~= every_row(n as nat));
    out
}

/// The choice of the rows whose cell in `g` belongs to the group of that label.
pub fn rows_of_group(g: &Vec<Cell>, label: &String) -> (r: Vec<bool>)
    ensures
        r@ == group_rows(data(g@), label@),
{
    let mut out: Vec<bool> = Vec::new();
    let mut i: usize = 0;
    while i < g.len()
        invariant
            i <= g.len(),
            out.len() == i,
            forall|k: int| 0 <= k < i ==> #[trigger] out[k] == in_group(g[k]@, label@),
        decreases g.len() - i,
    {
        let hit = !g[i].is_null() && g[i].label() == *label;
        out.push(hit);
        i += 1;
    }
    assert(out@ =~= group_rows(data(g@), label@));
    out
}

/// What the series of the chosen rows holds for one key.
pub fn value_at(x: &Vec<Cell>, rows: &Vec<bool>, v: &Vec<Cell>, key: &Cell) -> (r: Cell)
    ensures
        r@ == joined_value(data(x@), rows@, data(v@), key@),
{
    let mut i: usize = 0;
    while i < x.len() && i < rows.len() && i < v.len()
        invariant
            forall|j: int| 0 <= j < i ==> !is_hit(data(x@), rows@, data(v@), key@, j),
        decreases x.len() - i,
    {
        if rows[i] && x[i].same(key) {
            proof {
                assert(is_first_hit(data(x@), rows@, data(v@), key@, i as int));
                lemma_first_hit_unique(data(x@), rows@, data(v@), key@, i as int);
            }
            return v[i].clone();
        }
        i += 1;
    }
    proof {
        assert forall|j: int| !is_first_hit(data(x@), rows@, data(v@), key@, j) by {
            if is_hit(data(x@), rows@, data(v@), key@, j) {
                assert(j < i);
            }
        }
    }
    Cell::Null
}

/// Whether the cells ascend strictly.
fn ascends(keys: &Vec<Cell>) -> (r: bool)
    ensures
        r == strictly_ascending(data(keys@)),
{
    let ghost s = data(keys@);
    let mut i: usize = 1;
    while i < keys.len()
        invariant
            1 <= i,
            s == data(keys@),
            forall|a: int, b: int|
                0 <= a < b < i && b < s.len() ==> datum_lt(#[trigger] s[a], #[trigger] s[b]),
        decreases keys.len() - i,
    {
        if !keys[i - 1].le(&keys[i]) || keys[i - 1].same(&keys[i]) {
            assert(!datum_lt(s[i - 1], s[i as int]));
            return false;
        }
        proof {
            lemma_ascending_is_total_order();
            assert forall|a: int, b: int| 0 <= a < b < i + 1 && b < s.len() implies datum_lt(
                #[trigger] s[a],
                #[trigger] s[b],
            ) by {
                if b == i && a < i - 1 {
                    assert(datum_lt(s[a], s[i - 1]));
                    assert(ascending()(s[a], s[i - 1]) && ascending()(s[i - 1], s[i as int])
                        ==> ascending()(s[a], s[i as int]));
                    assert(ascending()(s[a], s[i as int]) && ascending()(s[i as int], s[a])
                        ==> s[a] == s[i as int]);
                }
            }
        }
        i += 1;
    }
    true
}

/// The place of a value among cells that ascend strictly, by halving.
fn find_key(keys: &Vec<Cell>, key: &Cell) -> (r: Option<usize>)
    requires
        strictly_ascending(data(keys@)),
    ensures
        match r {
            Some(p) => p < keys.len() && keys[p as int]@ == key@,
            None => forall|k: int| 0 <= k < keys.len() ==> (#[trigger] keys[k])@ != key@,
        },
{
    let ghost s = data(keys@);
    let mut lo: usize = 0;
    let mut hi: usize = keys.len();
    while lo < hi
        invariant
            lo <= hi <= keys.len(),
            s == data(keys@),
            strictly_ascending(s),
            forall|k: int| 0 <= k < lo ==> datum_lt(#[trigger] s[k], key@),
            forall|k: int| hi <= k < s.len() ==> datum_lt(key@, #[trigger] s[k]),
        decreases hi - lo,
    {
        let mid: usize = lo + (hi - lo) / 2;
        proof {
            lemma_ascending_is_total_order();
            assert(ascending()(s[mid as int], key@) || ascending()(key@, s[mid as int]));
        }
        if keys[mid].same(key) {
            return Some(mid);
        } else if keys[mid].le(key) {
            proof {
                assert forall|k: int| 0 <= k < mid + 1 implies datum_lt(#[trigger] s[k], key@) by {
                    if k < mid {
                        assert(datum_lt(s[k], s[mid as int]));
                        assert(ascending()(s[k], s[mid as int]) && ascending()(s[mid as int], key@)
                            ==> ascending()(s[k], key@));
                        assert(ascending()(key@, s[mid as int]) && ascending()(s[mid as int], key@)
                            ==> key@ == s[mid as int]);
                    }
                }
            }
            lo = mid + 1;
        } else {
            proof {
                assert forall|k: int| mid <= k < s.len() implies datum_lt(key@, #[trigger] s[k]) by {
                    if mid < k {
                        assert(datum_lt(s[mid as int], s[k]));
                        assert(ascending()(key@, s[mid as int]) && ascending()(s[mid as int], s[k])
                            ==> ascending()(key@, s[k]));
                        assert(ascending()(s[mid as int], key@) && ascending()(key@, s[mid as int])
                            ==> key@ == s[mid as int]);
                    }
                }
            }
            hi = mid;
        }
    }
    assert forall|k: int| 0 <= k < keys.len() implies (#[trigger] keys[k])@ != key@ by {
        if k < lo {
            assert(datum_lt(s[k], key@));
        } else {
            assert(datum_lt(key@, s[k]));
        }
    }
    None
}

/// What one row of the source has to say of a place on the axis: nothing,
/// or, where a chosen row up to `i` has the key of that place, that the
/// cell there holds the value of the first such row.
spec fn settled(
    x: Seq<Datum>,
    rows: Seq<bool>,
    v: Seq<Datum>,
    key: Datum,
    i: int,
    filled: bool,
    cell: Datum,
) -> bool {
    if filled {
        exists|f: int| 0 <= f < i && is_first_hit(x, rows, v, key, f) && cell == v[f]
    } else {
        cell == Datum::Null && forall|j: int| 0 <= j < i ==> !is_hit(x, rows, v, key, j)
    }
}

/// The series along an axis that ascends strictly: the rows are read once,
/// top down, and each chosen row looks its key up on the axis and settles
/// the cell there unless an earlier row has.
fn join_ascending(keys: &Vec<Cell>, x: &Vec<Cell>, rows: &Vec<bool>, v: &Vec<Cell>) -> (r: Vec<
    Cell,
>)
    requires
        strictly_ascending(data(keys@)),
    ensures
        data(r@) == series(data(keys@), data(x@), rows@, data(v@)),
        r.len() == keys.len(),
{
    let ghost ks = data(keys@);
    let ghost xs = data(x@);
    let ghost vs = data(v@);
    let mut out: Vec<Cell> = Vec::new();
    let mut filled: Vec<bool> = Vec::new();
    let mut k: usize = 0;
    while k < keys.len()
        invariant
            k <= keys.len(),
            out.len() == k,
            filled.len() == k,
            forall|p: int| 0 <= p < k ==> (#[trigger] out[p])@ == Datum::Null && !filled[p],
        decreases keys.len() - k,
    {
        out.push(Cell::Null);
        filled.push(false);
        k += 1;
    }
    let mut i: usize = 0;
    while i < x.len() && i < rows.len() && i < v.len()
        invariant
            ks == data(keys@),
            xs == data(x@),
            vs == data(v@),
            strictly_ascending(ks),
            out.len() == keys.len(),
            filled.len() == keys.len(),
            forall|p: int|
                0 <= p < keys.len() ==> settled(
                    xs,
                    rows@,
                    vs,
                    #[trigger] ks[p],
                    i as int,
                    filled[p],
                    out[p]@,
                ),
        decreases x.len() - i,
    {
        let ghost before_out = out@;
        let ghost before_filled = filled@;
        let mut hit: Option<usize> = None;
        if rows[i] {
            hit = find_key(keys, &x[i]);
        }
        let mut fresh: bool = false;
        if let Some(p) = hit {
            if !filled[p] {
                fresh = true;
                out.set(p, v[i].clone());
                filled.set(p, true);
            }
        }
        proof {
            assert forall|p: int| 0 <= p < keys.len() implies settled(
                xs,
                rows@,
                vs,
                #[trigger] ks[p],
                i + 1,
                filled[p],
                out[p]@,
            ) by {
                assert(settled(xs, rows@, vs, ks[p], i as int, before_filled[p], before_out[p]@));
                if hit == Some(p as usize) {
                    assert(is_hit(xs, rows@, vs, ks[p], i as int));
                    if fresh {
                        assert(filled[p]);
                        assert(out[p]@ == vs[i as int]);
                        assert(0 <= i < i + 1 && is_first_hit(xs, rows@, vs, ks[p], i as int)
                            && out[p]@ == vs[i as int]);
                    } else {
                        assert(before_filled[p]);
                        assert(filled[p]);
                        assert(out[p] == before_out[p]);
                        let f = choose|f: int|
                            0 <= f < i && is_first_hit(xs, rows@, vs, ks[p], f) && before_out[p]@
                                == vs[f];
                        assert(0 <= f < i + 1 && is_first_hit(xs, rows@, vs, ks[p], f) && out[p]@
                            == vs[f]);
                    }
                } else {
                    assert(filled[p] == before_filled[p]);
                    assert(out[p] == before_out[p]);
                    if rows[i as int] && xs[i as int] == ks[p] {
                        if let Some(q) = hit {
                            assert(ks[q as int] == ks[p]);
                            if (q as int) < p {
                                assert(datum_lt(ks[q as int], ks[p]));
                            } else {
                                assert(datum_lt(ks[p], ks[q as int]));
                            }
                        } else {
                            assert(keys[p]@ != x[i as int]@);
                        }
                    }
                    assert(!is_hit(xs, rows@, vs, ks[p], i as int));
                    if filled[p] {
                        let f = choose|f: int|
                            0 <= f < i && is_first_hit(xs, rows@, vs, ks[p], f) && before_out[p]@
                                == vs[f];
                        assert(0 <= f < i + 1 && is_first_hit(xs, rows@, vs, ks[p], f) && out[p]@
                            == vs[f]);
                    } else {
                        assert forall|j: int| 0 <= j < i + 1 implies !is_hit(
                            xs,
                            rows@,
                            vs,
                            ks[p],
                            j,
                        ) by {}
                    }
                }
            }
        }
        i += 1;
    }
    proof {
        assert forall|p: int| 0 <= p < keys.len() implies data(out@)[p] == joined_value(
            xs,
            rows@,
            vs,
            ks[p],
        ) by {
            assert(settled(xs, rows@, vs, ks[p], i as int, filled[p], out[p]@));
            if filled[p] {
                let f = choose|f: int|
                    0 <= f < i && is_first_hit(xs, rows@, vs, ks[p], f) && out[p]@ == vs[f];
                lemma_first_hit_unique(xs, rows@, vs, ks[p], f);
            } else {
                assert forall|j: int| !is_first_hit(xs, rows@, vs, ks[p], j) by {
                    if is_hit(xs, rows@, vs, ks[p], j) {
                        assert(j < i);
                    }
                }
            }
        }
        assert(data(out@) =~= series(ks, xs, rows@, vs));
    }
    out
}

/// The series along any axis: each key is looked up among the rows.
fn join_scanning(keys: &Vec<Cell>, x: &Vec<Cell>, rows: &Vec<bool>, v: &Vec<Cell>) -> (r: Vec<
    Cell,
>)
    ensures
        data(r@) == series(data(keys@), data(x@), rows@, data(v@)),
        r.len() == keys.len(),
{
    let mut out: Vec<Cell> = Vec::new();
    let mut i: usize = 0;
    while i < keys.len()
        invariant
            i <= keys.len(),
            out.len() == i,
            forall|k: int|
                0 <= k < i ==> (#[trigger] out[k])@ == joined_value(
                    data(x@),
                    rows@,
                    data(v@),
                    keys[k]@,
                ),
        decreases keys.len() - i,
    {
        out.push(value_at(x, rows, v, &keys[i]));
        i += 1;
    }
    assert(data(out@) =~= series(data(keys@), data(x@), rows@, data(v@)));
    out
}

/// The series of the chosen rows, laid along the axis `keys`: the rows are
/// pairs of a key from `x` and a value from `v`; of the rows with one key
/// the first counts; a key of the axis that no chosen row has gets a null.
/// Along keys that ascend strictly, as those of an axis do, the rows are
/// read once and each looks its key up by halving.
pub fn join_series(keys: &Vec<Cell>, x: &Vec<Cell>, rows: &Vec<bool>, v: &Vec<Cell>) -> (r: Vec<
    Cell,
>)
    ensures
        data(r@) == series(data(keys@), data(x@), rows@, data(v@)),
        r.len() == keys.len(),
{
    if ascends(keys) {
        join_ascending(keys, x, rows, v)
    } else {
        join_scanning(keys, x, rows, v)
    }
}

} // verus!
