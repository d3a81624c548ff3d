//! Sequences of values: without repetitions, without nulls, in ascending
//! order, and by the page.

use vstd::prelude::*;
use vstd::relations::sorted_by;
use vstd::seq_lib::{lemma_multiset_commutative, lemma_sorted_unique, to_multiset_build};
use crate::cell::{ascending, datum_le, datum_lt, lemma_ascending_is_total_order, Cell, Datum};

verus! {

/// The values that a run of cells holds.
pub open spec fn data(v: Seq<Cell>) -> Seq<Datum> {
    Seq::new(v.len(), |i: int| v[i]@)
}

/// The sequence without repetitions: of each value its first occurrence
/// stays, in its place among the others.
pub open spec fn distinct(s: Seq<Datum>) -> Seq<Datum>
    decreases s.len(),
{
    if s.len() == 0 {
        s
    } else {
        let d = distinct(s.drop_last());
        if d.contains(s.last()) {
            d
        } else {
            d.push(s.last())
        }
    }
}

/// The sequence without its nulls.
pub open spec fn non_null(s: Seq<Datum>) -> Seq<Datum>
    decreases s.len(),
{
    if s.len() == 0 {
        s
    } else if s.last() == Datum::Null {
        non_null(s.drop_last())
    } else {
        non_null(s.drop_last()).push(s.last())
    }
}

/// Each value is strictly before the ones that follow it.
pub open spec fn strictly_ascending(s: Seq<Datum>) -> bool {
    forall|i: int, j: int| 0 <= i < j < s.len() ==> datum_lt(#[trigger] s[i], #[trigger] s[j])
}

/// Where a page begins in a sequence of `n` items: at `offset` from the
/// front, or, for a negative `offset`, that many items from the end; a
/// position outside the sequence is moved to its nearer end.
pub open spec fn page_start(n: int, offset: int) -> int {
    if offset >= 0 {
        if offset <= n {
            offset
        } else {
            n
        }
    } else if n + offset >= 0 {
        n + offset
    } else {
        0
    }
}

/// How many items a page holds: `len`, or what is left after its start
/// where that is less.
pub open spec fn page_len(n: int, offset: int, len: int) -> int {
    let rest = n - page_start(n, offset);
    if len <= rest {
        len
    } else {
        rest
    }
}

/// The page of `s` that `offset` and `len` select.
pub open spec fn page(s: Seq<Datum>, offset: int, len: int) -> Seq<Datum>
    recommends
        0 <= len,
{
    let start = page_start(s.len() as int, offset);
    s.subrange(start, start + page_len(s.len() as int, offset, len))
}

/// What a sequence contains once a value is added at its end.
proof fn lemma_push_contains(s: Seq<Datum>, a: Datum, x: Datum)
    ensures
        s.push(a).contains(x) <==> (s.contains(x) || x == a),
{
    let p = s.push(a);
    if p.contains(x) {
        let i = choose|i: int| 0 <= i < p.len() && p[i] == x;
        if i < s.len() {
            assert(s[i] == x);
        }
    }
    if s.contains(x) {
        let i = choose|i: int| 0 <= i < s.len() && s[i] == x;
        assert(p[i] == x);
    }
    if x == a {
        assert(p[s.len() as int] == x);
    }
}

/// `distinct` keeps the values of its argument and repeats none.
pub proof fn lemma_distinct(s: Seq<Datum>)
    ensures
        distinct(s).no_duplicates(),
        distinct(s).len() <= s.len(),
        forall|x: Datum| distinct(s).contains(x) <==> s.contains(x),
    decreases s.len(),
{
    if s.len() > 0 {
        let t = s.drop_last();
        let d = distinct(t);
        lemma_distinct(t);
        assert(s =~= t.push(s.last()));
        assert forall|x: Datum| distinct(s).contains(x) <==> s.contains(x) by {
            lemma_push_contains(t, s.last(), x);
            lemma_push_contains(d, s.last(), x);
            assert(d.contains(x) <==> t.contains(x));
        }
    }
}

/// `non_null` keeps exactly the values that are not null.
pub proof fn lemma_non_null(s: Seq<Datum>)
    ensures
        non_null(s).len() <= s.len(),
        forall|x: Datum| non_null(s).contains(x) <==> (s.contains(x) && x != Datum::Null),
    decreases s.len(),
{
    if s.len() > 0 {
        let t = s.drop_last();
        let d = non_null(t);
        lemma_non_null(t);
        assert(s =~= t.push(s.last()));
        assert forall|x: Datum| non_null(s).contains(x) <==> (s.contains(x) && x != Datum::Null) by {
            lemma_push_contains(t, s.last(), x);
            lemma_push_contains(d, s.last(), x);
            assert(d.contains(x) <==> (t.contains(x) && x != Datum::Null));
        }
    } else {
        assert forall|x: Datum| !s.contains(x) by {}
    }
}

/// Dropping the nulls of an ascending sequence leaves it ascending.
pub proof fn lemma_non_null_ascending(s: Seq<Datum>)
    requires
        strictly_ascending(s),
    ensures
        strictly_ascending(non_null(s)),
    decreases s.len(),
{
    if s.len() > 0 {
        let t = s.drop_last();
        let d = non_null(t);
        assert(strictly_ascending(t)) by {
            assert forall|i: int, j: int| 0 <= i < j < t.len() implies datum_lt(
                #[trigger] t[i],
                #[trigger] t[j],
            ) by {
                assert(datum_lt(s[i], s[j]));
            }
        }
        lemma_non_null_ascending(t);
        lemma_non_null(t);
        if s.last() != Datum::Null {
            let r = d.push(s.last());
            assert forall|i: int, j: int| 0 <= i < j < r.len() implies datum_lt(
                #[trigger] r[i],
                #[trigger] r[j],
            ) by {
                if j < d.len() {
                    assert(datum_lt(d[i], d[j]));
                } else {
                    assert(d.contains(d[i]));
                    assert(t.contains(d[i]));
                    let k = choose|k: int| 0 <= k < t.len() && t[k] == d[i];
                    assert(s[k] == d[i]);
                    assert(datum_lt(s[k], s[s.len() - 1]));
                }
            }
        }
    }
}

/// A sequence that is sorted and repeats no value ascends strictly.
pub proof fn lemma_sorted_distinct_ascends(s: Seq<Datum>)
    requires
        sorted_by(s, ascending()),
        s.no_duplicates(),
    ensures
        strictly_ascending(s),
{
    assert forall|i: int, j: int| 0 <= i < j < s.len() implies datum_lt(
        #[trigger] s[i],
        #[trigger] s[j],
    ) by {
        assert(ascending()(s[i], s[j]));
    }
}

/// Sorting keeps a sequence free of repetitions, and keeps its values.
pub proof fn lemma_sort_keeps_distinct(s: Seq<Datum>)
    requires
        s.no_duplicates(),
    ensures
        s.sort_by(ascending()).no_duplicates(),
        s.sort_by(ascending()).len() == s.len(),
        sorted_by(s.sort_by(ascending()), ascending()),
        forall|x: Datum| s.sort_by(ascending()).contains(x) <==> s.contains(x),
{
    broadcast use vstd::seq_lib::group_to_multiset_ensures;

    lemma_ascending_is_total_order();
    s.lemma_sort_by_ensures(ascending());
    s.lemma_multiset_has_no_duplicates();
    s.sort_by(ascending()).lemma_multiset_has_no_duplicates_conv();
    let t = s.sort_by(ascending());
    assert(t.to_multiset().len() == s.to_multiset().len());
    assert forall|x: Datum| t.contains(x) <==> s.contains(x) by {
        assert(t.to_multiset().count(x) == s.to_multiset().count(x));
    }
}

/// Sorting keeps the values of a sequence and their number.
pub proof fn lemma_sort_keeps_values(s: Seq<Datum>)
    ensures
        s.sort_by(ascending()).len() == s.len(),
        sorted_by(s.sort_by(ascending()), ascending()),
        forall|x: Datum| s.sort_by(ascending()).contains(x) <==> s.contains(x),
{
    broadcast use vstd::seq_lib::group_to_multiset_ensures;

    lemma_ascending_is_total_order();
    s.lemma_sort_by_ensures(ascending());
    let t = s.sort_by(ascending());
    assert(t.to_multiset().len() == s.to_multiset().len());
    assert forall|x: Datum| t.contains(x) <==> s.contains(x) by {
        assert(t.to_multiset().count(x) == s.to_multiset().count(x));
    }
}

/// Two sequences that ascend strictly and hold the same values are one.
pub proof fn lemma_ascending_unique(a: Seq<Datum>, b: Seq<Datum>)
    requires
        strictly_ascending(a),
        strictly_ascending(b),
        forall|x: Datum| a.contains(x) <==> b.contains(x),
    ensures
        a == b,
{
    broadcast use vstd::seq_lib::group_to_multiset_ensures;
    broadcast use vstd::multiset::group_multiset_axioms;

    lemma_ascending_is_total_order();
    assert(a.no_duplicates()) by {
        assert forall|i: int, j: int| 0 <= i < a.len() && 0 <= j < a.len() && i != j implies a[i]
            != a[j] by {
            if i < j {
                assert(datum_lt(a[i], a[j]));
            } else {
                assert(datum_lt(a[j], a[i]));
            }
        }
    }
    assert(b.no_duplicates()) by {
        assert forall|i: int, j: int| 0 <= i < b.len() && 0 <= j < b.len() && i != j implies b[i]
            != b[j] by {
            if i < j {
                assert(datum_lt(b[i], b[j]));
            } else {
                assert(datum_lt(b[j], b[i]));
            }
        }
    }
    a.lemma_multiset_has_no_duplicates();
    b.lemma_multiset_has_no_duplicates();
    assert forall|x: Datum| a.to_multiset().count(x) == b.to_multiset().count(x) by {
        assert(a.contains(x) <==> b.contains(x));
        assert(a.to_multiset().contains(x) <==> a.contains(x));
        assert(b.to_multiset().contains(x) <==> b.contains(x));
    }
    assert(a.to_multiset() =~= b.to_multiset());
    assert(sorted_by(a, ascending())) by {
        assert forall|i: int, j: int| 0 <= i < j < a.len() implies ascending()(
            #[trigger] a[i],
            #[trigger] a[j],
        ) by {
            assert(datum_lt(a[i], a[j]));
        }
    }
    assert(sorted_by(b, ascending())) by {
        assert forall|i: int, j: int| 0 <= i < j < b.len() implies ascending()(
            #[trigger] b[i],
            #[trigger] b[j],
        ) by {
            assert(datum_lt(b[i], b[j]));
        }
    }
    lemma_sorted_unique(a, b, ascending());
}

/// Dropping the repetitions of a sorted sequence leaves it sorted.
pub proof fn lemma_distinct_stays_sorted(s: Seq<Datum>)
    requires
        sorted_by(s, ascending()),
    ensures
        sorted_by(distinct(s), ascending()),
    decreases s.len(),
{
    if s.len() > 0 {
        let t = s.drop_last();
        let d = distinct(t);
        assert(sorted_by(t, ascending())) by {
            assert forall|i: int, j: int| 0 <= i < j < t.len() implies ascending()(
                #[trigger] t[i],
                #[trigger] t[j],
            ) by {
                assert(ascending()(s[i], s[j]));
            }
        }
        lemma_distinct_stays_sorted(t);
        lemma_distinct(t);
        if !d.contains(s.last()) {
            let r = d.push(s.last());
            assert forall|i: int, j: int| 0 <= i < j < r.len() implies ascending()(
                #[trigger] r[i],
                #[trigger] r[j],
            ) by {
                if j < d.len() {
                    assert(ascending()(d[i], d[j]));
                } else {
                    assert(d.contains(d[i]));
                    assert(t.contains(d[i]));
                    let k = choose|k: int| 0 <= k < t.len() && t[k] == d[i];
                    assert(ascending()(s[k], s[s.len() - 1]));
                }
            }
        }
    }
}

/// Whether the repetitions are dropped before the sorting or after it, the
/// result is the same: the values, each once, in strictly ascending order.
pub proof fn lemma_distinct_of_sorted(s: Seq<Datum>)
    ensures
        distinct(s.sort_by(ascending())) == distinct(s).sort_by(ascending()),
        strictly_ascending(distinct(s).sort_by(ascending())),
{
    let a = distinct(s.sort_by(ascending()));
    let b = distinct(s).sort_by(ascending());
    lemma_sort_keeps_values(s);
    lemma_distinct(s.sort_by(ascending()));
    lemma_distinct_stays_sorted(s.sort_by(ascending()));
    lemma_sorted_distinct_ascends(a);
    lemma_distinct(s);
    lemma_sort_keeps_distinct(distinct(s));
    lemma_sorted_distinct_ascends(b);
    assert forall|x: Datum| a.contains(x) <==> b.contains(x) by {
        assert(a.contains(x) <==> s.sort_by(ascending()).contains(x));
        assert(s.sort_by(ascending()).contains(x) <==> s.contains(x));
        assert(distinct(s).contains(x) <==> s.contains(x));
        assert(b.contains(x) <==> distinct(s).contains(x));
    }
    lemma_ascending_unique(a, b);
}

/// A page of an ascending sequence ascends.
pub proof fn lemma_page_ascending(s: Seq<Datum>, offset: int, len: int)
    requires
        strictly_ascending(s),
        0 <= len,
    ensures
        strictly_ascending(page(s, offset, len)),
        forall|x: Datum| page(s, offset, len).contains(x) ==> s.contains(x),
{
    let p = page(s, offset, len);
    let start = page_start(s.len() as int, offset);
    assert forall|i: int, j: int| 0 <= i < j < p.len() implies datum_lt(
        #[trigger] p[i],
        #[trigger] p[j],
    ) by {
        assert(datum_lt(s[start + i], s[start + j]));
    }
    assert forall|x: Datum| p.contains(x) implies s.contains(x) by {
        let i = choose|i: int| 0 <= i < p.len() && p[i] == x;
        assert(s[start + i] == x);
    }
}

/// A copy of the cells of `v`.
pub fn copy_cells(v: &Vec<Cell>) -> (r: Vec<Cell>)
    ensures
        data(r@) == data(v@),
        r.len() == v.len(),
{
    let mut out: Vec<Cell> = Vec::new();
    let mut i: usize = 0;
    while i < v.len()
        invariant
            i <= v.len(),
            out.len() == i,
            forall|k: int| 0 <= k < i ==> (#[trigger] out[k])@ == v[k]@,
        decreases v.len() - i,
    {
        out.push(v[i].clone());
        i += 1;
    }
    assert(data(out@) =~= data(v@));
    out
}

/// The cells of `v`, which is in ascending order, without repetitions:
/// equal values stand side by side there, so each cell is compared with
/// the one kept last.
pub(crate) fn distinct_sorted_cells(v: &Vec<Cell>) -> (r: Vec<Cell>)
    requires
        sorted_by(data(v@), ascending()),
    ensures
        data(r@) == distinct(data(v@)),
{
    let ghost s = data(v@);
    let mut out: Vec<Cell> = Vec::new();
    let mut i: usize = 0;
    assert(s.take(0) =~= Seq::<Datum>::empty());
    assert(data(out@) =~= Seq::<Datum>::empty());
    while i < v.len()
        invariant
            i <= v.len(),
            s == data(v@),
            sorted_by(s, ascending()),
            data(out@) == distinct(s.take(i as int)),
            i > 0 ==> out.len() > 0 && out[out.len() - 1]@ == s[i - 1],
            i == 0 ==> out.len() == 0,
        decreases v.len() - i,
    {
        let ghost before = data(out@);
        let ghost next = s.take(i + 1);
        let fresh: bool = if out.len() == 0 {
            true
        } else {
            !out[out.len() - 1].same(&v[i])
        };
        proof {
            lemma_ascending_is_total_order();
            assert(next.drop_last() =~= s.take(i as int));
            assert(next.last() == s[i as int]);
            lemma_distinct(s.take(i as int));
            if i > 0 {
                assert(before[before.len() - 1] == s[i - 1]);
                if before.contains(s[i as int]) {
                    assert(s.take(i as int).contains(s[i as int]));
                    let k = choose|k: int| 0 <= k < i && s.take(i as int)[k] == s[i as int];
                    assert(s[k] == s[i as int]);
                    if k < i - 1 {
                        assert(ascending()(s[k], s[i - 1]));
                        assert(ascending()(s[i - 1], s[i as int]));
                    }
                    assert(s[i - 1] == s[i as int]);
                }
            } else {
                assert(!before.contains(s[i as int]));
            }
        }
        if fresh {
            out.push(v[i].clone());
            assert(data(out@) =~= before.push(s[i as int]));
        }
        i += 1;
    }
    assert(s.take(v.len() as int) =~= s);
    out
}

/// The cells of `v` that hold a value, in the order of `v`.
pub fn value_cells(v: &Vec<Cell>) -> (r: Vec<Cell>)
    ensures
        data(r@) == non_null(data(v@)),
{
    let mut out: Vec<Cell> = Vec::new();
    let mut i: usize = 0;
    assert(data(v@).take(0) =~= Seq::<Datum>::empty());
    assert(data(out@) =~= Seq::<Datum>::empty());
    while i < v.len()
        invariant
            i <= v.len(),
            data(out@) == non_null(data(v@).take(i as int)),
        decreases v.len() - i,
    {
        let ghost before = data(out@);
        let ghost next = data(v@).take(i + 1);
        assert(next.drop_last() =~= data(v@).take(i as int));
        assert(next.last() == v[i as int]@);
        if !v[i].is_null() {
            out.push(v[i].clone());
            assert(data(out@) =~= before.push(v[i as int]@));
        }
        i += 1;
    }
    assert(data(v@).take(v.len() as int) =~= data(v@));
    out
}

/// Two ascending runs of cells as one.
fn merge_cells(a: &Vec<Cell>, b: &Vec<Cell>) -> (r: Vec<Cell>)
    requires
        sorted_by(data(a@), ascending()),
        sorted_by(data(b@), ascending()),
    ensures
        sorted_by(data(r@), ascending()),
        data(r@).to_multiset() == data(a@).to_multiset().add(data(b@).to_multiset()),
{
    broadcast use vstd::multiset::group_multiset_axioms;
    broadcast use vstd::seq_lib::group_to_multiset_ensures;

    let ghost sa = data(a@);
    let ghost sb = data(b@);
    let mut out: Vec<Cell> = Vec::new();
    let mut i: usize = 0;
    let mut j: usize = 0;
    proof {
        lemma_ascending_is_total_order();
        assert(sa.take(0) =~= Seq::<Datum>::empty());
        assert(sb.take(0) =~= Seq::<Datum>::empty());
        assert(data(out@) =~= Seq::<Datum>::empty());
        assert(Seq::<Datum>::empty().to_multiset() =~= Seq::<Datum>::empty().to_multiset().add(
            Seq::<Datum>::empty().to_multiset(),
        ));
    }
    while i < a.len() || j < b.len()
        invariant
            i <= a.len(),
            j <= b.len(),
            sa == data(a@),
            sb == data(b@),
            sorted_by(sa, ascending()),
            sorted_by(sb, ascending()),
            sorted_by(data(out@), ascending()),
            forall|k: int, p: int|
                0 <= k < out.len() && i <= p < sa.len() ==> datum_le(
                    #[trigger] data(out@)[k],
                    #[trigger] sa[p],
                ),
            forall|k: int, q: int|
                0 <= k < out.len() && j <= q < sb.len() ==> datum_le(
                    #[trigger] data(out@)[k],
                    #[trigger] sb[q],
                ),
            data(out@).to_multiset() == sa.take(i as int).to_multiset().add(
                sb.take(j as int).to_multiset(),
            ),
        decreases (a.len() - i) + (b.len() - j),
    {
        let ghost before = data(out@);
        let from_a: bool = if j >= b.len() {
            true
        } else if i >= a.len() {
            false
        } else {
            a[i].le(&b[j])
        };
        if from_a {
            let ghost x = sa[i as int];
            out.push(a[i].clone());
            proof {
                lemma_ascending_is_total_order();
                let after = data(out@);
                assert(after =~= before.push(x));
                assert(sa.take(i + 1) =~= sa.take(i as int).push(x));
                to_multiset_build(before, x);
                to_multiset_build(sa.take(i as int), x);
                assert(after.to_multiset() =~= sa.take(i + 1).to_multiset().add(
                    sb.take(j as int).to_multiset(),
                ));
                assert forall|k: int, l: int| 0 <= k < l < after.len() implies ascending()(
                    #[trigger] after[k],
                    #[trigger] after[l],
                ) by {
                    if l < before.len() {
                        assert(ascending()(before[k], before[l]));
                    } else {
                        assert(datum_le(before[k], sa[i as int]));
                    }
                }
                assert forall|k: int, p: int|
                    0 <= k < after.len() && i + 1 <= p < sa.len() implies datum_le(
                    #[trigger] after[k],
                    #[trigger] sa[p],
                ) by {
                    if k < before.len() {
                        assert(datum_le(before[k], sa[p]));
                    } else {
                        assert(ascending()(sa[i as int], sa[p]));
                    }
                }
                assert forall|k: int, q: int|
                    0 <= k < after.len() && j <= q < sb.len() implies datum_le(
                    #[trigger] after[k],
                    #[trigger] sb[q],
                ) by {
                    if k < before.len() {
                        assert(datum_le(before[k], sb[q]));
                    } else {
                        assert(datum_le(x, sb[j as int]));
                        if j < q {
                            assert(ascending()(sb[j as int], sb[q]));
                        }
                        assert(ascending()(x, sb[j as int]) && ascending()(sb[j as int], sb[q])
                            ==> ascending()(x, sb[q]));
                    }
                }
            }
            i += 1;
        } else {
            let ghost x = sb[j as int];
            out.push(b[j].clone());
            proof {
                lemma_ascending_is_total_order();
                let after = data(out@);
                assert(after =~= before.push(x));
                assert(sb.take(j + 1) =~= sb.take(j as int).push(x));
                to_multiset_build(before, x);
                to_multiset_build(sb.take(j as int), x);
                assert(after.to_multiset() =~= sa.take(i as int).to_multiset().add(
                    sb.take(j + 1).to_multiset(),
                ));
                assert forall|k: int, l: int| 0 <= k < l < after.len() implies ascending()(
                    #[trigger] after[k],
                    #[trigger] after[l],
                ) by {
                    if l < before.len() {
                        assert(ascending()(before[k], before[l]));
                    } else {
                        assert(datum_le(before[k], sb[j as int]));
                    }
                }
                assert forall|k: int, q: int|
                    0 <= k < after.len() && j + 1 <= q < sb.len() implies datum_le(
                    #[trigger] after[k],
                    #[trigger] sb[q],
                ) by {
                    if k < before.len() {
                        assert(datum_le(before[k], sb[q]));
                    } else {
                        assert(ascending()(sb[j as int], sb[q]));
                    }
                }
                assert forall|k: int, p: int|
                    0 <= k < after.len() && i <= p < sa.len() implies datum_le(
                    #[trigger] after[k],
                    #[trigger] sa[p],
                ) by {
                    if k < before.len() {
                        assert(datum_le(before[k], sa[p]));
                    } else {
                        assert(ascending()(sa[i as int], x) || ascending()(x, sa[i as int]));
                        assert(datum_le(x, sa[i as int]));
                        if i < p {
                            assert(ascending()(sa[i as int], sa[p]));
                        }
                        assert(ascending()(x, sa[i as int]) && ascending()(sa[i as int], sa[p])
                            ==> ascending()(x, sa[p]));
                    }
                }
            }
            j += 1;
        }
    }
    proof {
        assert(sa.take(a.len() as int) =~= sa);
        assert(sb.take(b.len() as int) =~= sb);
    }
    out
}

/// The cells of `v` from `lo` up to `hi` in ascending order, by merging
/// the two halves once each is in order.
fn sorted_range(v: &Vec<Cell>, lo: usize, hi: usize) -> (r: Vec<Cell>)
    requires
        lo <= hi <= v.len(),
    ensures
        sorted_by(data(r@), ascending()),
        data(r@).to_multiset() == data(v@).subrange(lo as int, hi as int).to_multiset(),
    decreases hi - lo,
{
    let ghost part = data(v@).subrange(lo as int, hi as int);
    if hi - lo <= 1 {
        let mut out: Vec<Cell> = Vec::new();
        if hi - lo == 1 {
            out.push(v[lo].clone());
        }
        assert(data(out@) =~= part);
        out
    } else {
        let mid: usize = lo + (hi - lo) / 2;
        let left = sorted_range(v, lo, mid);
        let right = sorted_range(v, mid, hi);
        proof {
            let first = data(v@).subrange(lo as int, mid as int);
            let second = data(v@).subrange(mid as int, hi as int);
            assert(part =~= first + second);
            lemma_multiset_commutative(first, second);
        }
        merge_cells(&left, &right)
    }
}

/// The cells of `v` in ascending order.
pub fn sorted_cells(v: &Vec<Cell>) -> (r: Vec<Cell>)
    ensures
        data(r@) == data(v@).sort_by(ascending()),
{
    let out = sorted_range(v, 0, v.len());
    proof {
        lemma_ascending_is_total_order();
        assert(data(v@).subrange(0, v.len() as int) =~= data(v@));
        data(v@).lemma_sort_by_ensures(ascending());
        lemma_sorted_unique(data(out@), data(v@).sort_by(ascending()), ascending());
    }
    out
}

/// The page of `v` that `offset` and `len` select.
pub fn page_cells(v: &Vec<Cell>, offset: i64, len: u32) -> (r: Vec<Cell>)
    ensures
        data(r@) == page(data(v@), offset as int, len as int),
{
    let n: usize = v.len();
    let start: usize = if offset >= 0 {
        if offset as u64 <= n as u64 {
            offset as usize
        } else {
            n
        }
    } else {
        let back: u64 = if offset == i64::MIN {
            9223372036854775808u64
        } else {
            (-offset) as u64
        };
        if back <= n as u64 {
            n - back as usize
        } else {
            0
        }
    };
    let rest: usize = n - start;
    let count: usize = if len as u64 <= rest as u64 {
        len as usize
    } else {
        rest
    };
    assert(start == page_start(n as int, offset as int));
    assert(count == page_len(n as int, offset as int, len as int));
    let mut out: Vec<Cell> = Vec::new();
    let mut i: usize = 0;
    while i < count
        invariant
            i <= count,
            start + count <= v.len(),
            out.len() == i,
            forall|k: int| 0 <= k < i ==> (#[trigger] out[k])@ == v[start + k]@,
        decreases count - i,
    {
        out.push(v[start + i].clone());
        i += 1;
    }
    assert(data(out@) =~= page(data(v@), offset as int, len as int));
    out
}

} // verus!
