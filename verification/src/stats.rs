//! The summary of a column: its counts, its bounds and middle values, and
//! the exact sums from which mean and variance follow.

use vstd::prelude::*;
use crate::cell::{ascending, datum_le, lemma_ascending_is_total_order, Cell, Datum};
use crate::table::{cells_of, has_column, Error, Table};
use crate::values::{
    data, distinct, distinct_sorted_cells, lemma_distinct, lemma_distinct_of_sorted,
    lemma_non_null, lemma_sort_keeps_distinct, lemma_sort_keeps_values, non_null, sorted_cells,
    value_cells,
};

verus! {

/// The statistics of a column, each of them exact. The mean of the values
/// is `sum / count`; their sample variance, which divides by one less than
/// the count, is `scatter / (count * (count - 1))`; and their sample
/// standard deviation is the square root of that.
#[derive(Debug, PartialEq, Eq)]
pub struct Summary {
    /// How many cells hold a value.
    pub count: usize,
    /// How many different values the cells hold.
    pub n_unique: usize,
    /// The least value, or null where there is none.
    pub min: Cell,
    /// The greatest value, or null where there is none.
    pub max: Cell,
    /// The middle value in ascending order, the lower of the two middle
    /// ones where the count is even, or null where there is none.
    pub median_low: Cell,
    /// The middle value in ascending order, the upper of the two middle
    /// ones where the count is even, or null where there is none.
    pub median_high: Cell,
    /// The sum of the values, where there are values and all are numbers.
    pub sum: Option<i128>,
    /// The count times the sum of the squares of the values, less the
    /// square of their sum, where there are values, all are numbers, and
    /// the two terms are in reach of `i128`.
    pub scatter: Option<i128>,
}

/// A `Summary` as a mathematical value.
pub struct SummaryView {
    pub count: nat,
    pub n_unique: nat,
    pub min: Datum,
    pub max: Datum,
    pub median_low: Datum,
    pub median_high: Datum,
    pub sum: Option<int>,
    pub scatter: Option<int>,
}

impl View for Summary {
    type V = SummaryView;

    open spec fn view(&self) -> SummaryView {
        SummaryView {
            count: self.count as nat,
            n_unique: self.n_unique as nat,
            min: self.min@,
            max: self.max@,
            median_low: self.median_low@,
            median_high: self.median_high@,
            sum: match self.sum {
                Some(n) => Some(n as int),
                None => None,
            },
            scatter: match self.scatter {
                Some(n) => Some(n as int),
                None => None,
            },
        }
    }
}

/// The number that a value is, and zero for a value that is none.
pub open spec fn number(d: Datum) -> int {
    match d {
        Datum::Int(n) => n,
        _ => 0,
    }
}

/// Every value is a number.
pub open spec fn all_numbers(s: Seq<Datum>) -> bool {
    forall|i: int| 0 <= i < s.len() ==> #[trigger] s[i] is Int
}

/// The sum of the numbers.
pub open spec fn total(s: Seq<Datum>) -> int
    decreases s.len(),
{
    if s.len() == 0 {
        0
    } else {
        total(s.drop_last()) + number(s.last())
    }
}

/// The sum of the squares of the numbers.
pub open spec fn total_of_squares(s: Seq<Datum>) -> int
    decreases s.len(),
{
    if s.len() == 0 {
        0
    } else {
        total_of_squares(s.drop_last()) + number(s.last()) * number(s.last())
    }
}

/// Whether an integer is in reach of `i128`.
pub open spec fn fits(i: int) -> bool {
    i128::MIN <= i <= i128::MAX
}

/// Whether the two terms of the scatter of the numbers are in reach of
/// `i128`.
pub open spec fn scatter_fits(s: Seq<Datum>) -> bool {
    fits(s.len() * total_of_squares(s)) && fits(total(s) * total(s))
}

/// The count times the sum of the squares, less the square of the sum:
/// the sum of the squared distances from the mean, times the count.
pub open spec fn scatter(s: Seq<Datum>) -> int {
    s.len() * total_of_squares(s) - total(s) * total(s)
}

impl Summary {
    /// What the scatter is divided by to give the sample variance: the
    /// count times one less than the count. A sample of fewer than two
    /// values has no variance, and a product out of reach gives none.
    pub fn variance_divisor(&self) -> (r: Option<u128>)
        ensures
            r is Some <==> self.count >= 2 && self.count * (self.count - 1) <= u128::MAX,
            r is Some ==> r->0 == self.count * (self.count - 1),
    {
        if self.count >= 2 {
            let n: u128 = self.count as u128;
            n.checked_mul(n - 1)
        } else {
            None
        }
    }
}

/// The value at a place of a sequence, or null where the sequence has no
/// such place.
pub open spec fn value_or_null(s: Seq<Datum>, i: int) -> Datum {
    if 0 <= i < s.len() {
        s[i]
    } else {
        Datum::Null
    }
}

/// The summary of a column, taken over its values only: nulls count for
/// nothing. A column without values has counts of zero and nulls elsewhere.
pub open spec fn summary(c: Seq<Datum>) -> SummaryView {
    let values = non_null(c);
    let sorted = values.sort_by(ascending());
    let n = values.len() as int;
    SummaryView {
        count: values.len(),
        n_unique: distinct(values).len(),
        min: value_or_null(sorted, 0),
        max: value_or_null(sorted, n - 1),
        median_low: value_or_null(sorted, (n - 1) / 2),
        median_high: if n == 0 {
            Datum::Null
        } else {
            value_or_null(sorted, n / 2)
        },
        sum: if n > 0 && all_numbers(values) {
            Some(total(values))
        } else {
            None
        },
        scatter: if n > 0 && all_numbers(values) && scatter_fits(values) {
            Some(scatter(values))
        } else {
            None
        },
    }
}

/// A column of nulls only has a summary of zero counts and nulls.
pub proof fn lemma_summary_of_nulls(c: Seq<Datum>)
    requires
        forall|i: int| 0 <= i < c.len() ==> c[i] == Datum::Null,
    ensures
        summary(c).count == 0,
        summary(c).n_unique == 0,
        summary(c).min == Datum::Null,
        summary(c).max == Datum::Null,
        summary(c).median_low == Datum::Null,
        summary(c).median_high == Datum::Null,
        summary(c).sum is None,
        summary(c).scatter is None,
{
    broadcast use vstd::seq_lib::group_to_multiset_ensures;

    lemma_non_null(c);
    let values = non_null(c);
    if values.len() > 0 {
        assert(values.contains(values[0]));
        assert(c.contains(values[0]));
    }
    lemma_distinct(values);
    lemma_ascending_is_total_order();
    values.lemma_sort_by_ensures(ascending());
    assert(values.sort_by(ascending()).to_multiset().len() == values.to_multiset().len());
}

/// Of a column with a value, the least and the greatest are values of the
/// column that bound all its values, and the count is that of the values.
pub proof fn lemma_summary_bounds(c: Seq<Datum>)
    ensures
        summary(c).count <= c.len(),
        summary(c).n_unique <= summary(c).count,
        summary(c).count == 0 <==> forall|i: int| 0 <= i < c.len() ==> c[i] == Datum::Null,
        summary(c).count > 0 ==> {
            &&& c.contains(summary(c).min) && summary(c).min != Datum::Null
            &&& c.contains(summary(c).max) && summary(c).max != Datum::Null
            &&& forall|i: int|
                0 <= i < c.len() && c[i] != Datum::Null ==> datum_le(summary(c).min, #[trigger] c[i])
                    && datum_le(c[i], summary(c).max)
        },
{
    broadcast use vstd::seq_lib::group_to_multiset_ensures;

    lemma_non_null(c);
    let values = non_null(c);
    let sorted = values.sort_by(ascending());
    lemma_distinct(values);
    lemma_ascending_is_total_order();
    values.lemma_sort_by_ensures(ascending());
    assert(sorted.to_multiset().len() == values.to_multiset().len());
    let n = values.len() as int;
    if n == 0 {
        assert forall|i: int| 0 <= i < c.len() implies c[i] == Datum::Null by {
            if c[i] != Datum::Null {
                assert(c.contains(c[i]));
                assert(values.contains(c[i]));
            }
        }
    } else {
        assert(values.contains(values[0]));
        assert(c.contains(values[0]));
        let w = choose|w: int| 0 <= w < c.len() && c[w] == values[0];
        assert(c[w] != Datum::Null);
        assert forall|d: Datum| sorted.contains(d) <==> values.contains(d) by {
            assert(sorted.to_multiset().count(d) == values.to_multiset().count(d));
        }
        assert(sorted.contains(sorted[0]));
        assert(sorted.contains(sorted[n - 1]));
        assert forall|i: int| 0 <= i < c.len() && c[i] != Datum::Null implies datum_le(
            sorted[0],
            #[trigger] c[i],
        ) && datum_le(c[i], sorted[n - 1]) by {
            assert(c.contains(c[i]));
            assert(values.contains(c[i]));
            assert(sorted.contains(c[i]));
            let k = choose|k: int| 0 <= k < sorted.len() && sorted[k] == c[i];
            assert(ascending()(c[i], c[i]));
            if 0 < k {
                assert(ascending()(sorted[0], sorted[k]));
            }
            if k < n - 1 {
                assert(ascending()(sorted[k], sorted[n - 1]));
            }
        }
    }
}

/// The sum, over the numbers, of the square of `n` times the number less `t`.
pub open spec fn squared_distances(s: Seq<Datum>, n: int, t: int) -> int
    decreases s.len(),
{
    if s.len() == 0 {
        0
    } else {
        squared_distances(s.drop_last(), n, t) + (n * number(s.last()) - t) * (n * number(
            s.last(),
        ) - t)
    }
}

proof fn lemma_squared_distances(s: Seq<Datum>, n: int, t: int)
    ensures
        squared_distances(s, n, t) == n * n * total_of_squares(s) - 2 * n * t * total(s) + s.len()
            * t * t,
    decreases s.len(),
{
    if s.len() > 0 {
        let r = s.drop_last();
        let x = number(s.last());
        lemma_squared_distances(r, n, t);
        let q = total_of_squares(r);
        let u = total(r);
        let k = r.len() as int;
        assert(n * n * q - 2 * n * t * u + k * t * t + (n * x - t) * (n * x - t) == n * n * (q + x
            * x) - 2 * n * t * (u + x) + (k + 1) * t * t) by (nonlinear_arith);
    }
}

/// The scatter of the numbers, times their count, is the sum of the squares
/// of count times a number less the sum: so the scatter is the count times
/// the sum of the squared distances of the numbers from their mean.
pub proof fn lemma_scatter_is_squared_distances(s: Seq<Datum>)
    ensures
        s.len() * scatter(s) == squared_distances(s, s.len() as int, total(s)),
{
    let n = s.len() as int;
    let t = total(s);
    let q = total_of_squares(s);
    lemma_squared_distances(s, n, t);
    assert(n * (n * q - t * t) == n * n * q - 2 * n * t * t + n * t * t) by (nonlinear_arith);
}

/// The sum of squares of a sequence is no less than that of its beginning,
/// and never negative.
proof fn lemma_squares_grow(s: Seq<Datum>, i: int)
    requires
        0 <= i <= s.len(),
    ensures
        0 <= total_of_squares(s.take(i)) <= total_of_squares(s),
    decreases s.len(),
{
    if s.len() == 0 {
        assert(s.take(i) =~= s);
    } else if i == s.len() {
        assert(s.take(i) =~= s);
        lemma_squares_grow(s.drop_last(), i - 1);
        assert(number(s.last()) * number(s.last()) >= 0) by (nonlinear_arith);
    } else {
        lemma_squares_grow(s.drop_last(), i);
        assert(s.drop_last().take(i) =~= s.take(i));
        assert(number(s.last()) * number(s.last()) >= 0) by (nonlinear_arith);
    }
}

/// The sum and the scatter of the values, which are cells without a null.
fn moments(values: &Vec<Cell>) -> (r: (Option<i128>, Option<i128>))
    ensures
        r.0 is Some <==> values.len() > 0 && all_numbers(data(values@)),
        r.0 is Some ==> r.0->0 == total(data(values@)),
        r.1 is Some <==> values.len() > 0 && all_numbers(data(values@)) && scatter_fits(
            data(values@),
        ),
        r.1 is Some ==> r.1->0 == scatter(data(values@)),
{
    let ghost s = data(values@);
    let n: usize = values.len();
    let mut numeric: bool = true;
    let mut sum: i128 = 0;
    let mut squares: Option<i128> = Some(0);
    let mut i: usize = 0;
    assert(s.take(0) =~= Seq::<Datum>::empty());
    while i < n
        invariant
            i <= n,
            n == values.len(),
            s == data(values@),
            numeric == all_numbers(s.take(i as int)),
            sum == total(s.take(i as int)),
            -(i * 0x8000_0000_0000_0000) <= sum <= i * 0x8000_0000_0000_0000,
            squares is Some <==> fits(total_of_squares(s.take(i as int))),
            squares is Some ==> squares->0 == total_of_squares(s.take(i as int)),
        decreases n - i,
    {
        let ghost before = s.take(i as int);
        let ghost after = s.take(i + 1);
        proof {
            assert(after.drop_last() =~= before);
            assert(after.last() == values[i as int]@);
            lemma_squares_grow(after, i as int);
            assert(after.take(i as int) =~= before);
            assert((i + 1) * 0x8000_0000_0000_0000 == i * 0x8000_0000_0000_0000
                + 0x8000_0000_0000_0000) by (nonlinear_arith);
            assert((i + 1) * 0x8000_0000_0000_0000 <= 0xFFFF_FFFF_FFFF_FFFF
                * 0x8000_0000_0000_0000) by (nonlinear_arith)
                requires
                    i + 1 <= 0xFFFF_FFFF_FFFF_FFFF,
            ;
        }
        match &values[i] {
            Cell::Int(x) => {
                let wide: i128 = *x as i128;
                assert(-0x4000_0000_0000_0000_0000_0000_0000_0000 <= wide * wide
                    <= 0x4000_0000_0000_0000_0000_0000_0000_0000) by (nonlinear_arith)
                    requires
                        -0x8000_0000_0000_0000 <= wide <= 0x8000_0000_0000_0000,
                ;
                assert(number(after.last()) == wide);
                assert(total_of_squares(after) == total_of_squares(before) + wide * wide);
                sum = sum + wide;
                squares = match squares {
                    Some(q) => q.checked_add(wide * wide),
                    None => None,
                };
                proof {
                    assert forall|k: int| 0 <= k < before.len() implies after[k] == before[k] by {}
                    if all_numbers(before) {
                        assert forall|k: int| 0 <= k < after.len() implies #[trigger] after[k] is Int by {
                            if k < before.len() {
                                assert(before[k] is Int);
                            }
                        }
                    } else {
                        let k = choose|k: int| 0 <= k < before.len() && !(#[trigger] before[k] is Int);
                        assert(!(after[k] is Int));
                    }
                }
            },
            _ => {
                numeric = false;
                assert(!(after[i as int] is Int));
                assert(number(after.last()) == 0);
                assert(total_of_squares(after) == total_of_squares(before));
            },
        }
        i += 1;
    }
    assert(s.take(n as int) =~= s);
    if !numeric || n == 0 {
        return (None, None);
    }
    let scatter = match squares {
        Some(q) => match (n as i128).checked_mul(q) {
            Some(left) => match sum.checked_mul(sum) {
                Some(right) => {
                    proof {
                        lemma_squares_grow(s, 0);
                        assert(n * q >= 0) by (nonlinear_arith)
                            requires
                                n >= 0,
                                q >= 0,
                        ;
                        assert(sum * sum >= 0) by (nonlinear_arith);
                    }
                    Some(left - right)
                },
                None => None,
            },
            None => {
                None
            },
        },
        None => {
            proof {
                lemma_squares_grow(s, 0);
                assert(n * total_of_squares(s) >= total_of_squares(s)) by (nonlinear_arith)
                    requires
                        n >= 1,
                        total_of_squares(s) >= 0,
                ;
            }
            None
        },
    };
    (Some(sum), scatter)
}

/// The summary of a column of cells.
pub fn summarize(c: &Vec<Cell>) -> (r: Summary)
    ensures
        r@ == summary(data(c@)),
{
    broadcast use vstd::seq_lib::group_to_multiset_ensures;

    let values = value_cells(c);
    let sorted = sorted_cells(&values);
    proof {
        lemma_sort_keeps_values(data(values@));
        lemma_distinct_of_sorted(data(values@));
        lemma_distinct(data(values@));
        lemma_sort_keeps_distinct(distinct(data(values@)));
    }
    let unique = distinct_sorted_cells(&sorted);
    let (sum, scatter) = moments(&values);
    proof {
        lemma_ascending_is_total_order();
        data(values@).lemma_sort_by_ensures(ascending());
        assert(data(sorted@).to_multiset().len() == data(values@).to_multiset().len());
        assert(data(unique@).len() == unique.len());
        assert(data(sorted@).len() == sorted.len());
        assert(data(values@).len() == values.len());
    }
    let n = values.len();
    if n == 0 {
        Summary {
            count: 0,
            n_unique: unique.len(),
            min: Cell::Null,
            max: Cell::Null,
            median_low: Cell::Null,
            median_high: Cell::Null,
            sum,
            scatter,
        }
    } else {
        Summary {
            count: n,
            n_unique: unique.len(),
            min: sorted[0].clone(),
            max: sorted[n - 1].clone(),
            median_low: sorted[(n - 1) / 2].clone(),
            median_high: sorted[n / 2].clone(),
            sum,
            scatter,
        }
    }
}

/// The summary of the table's column of that name, taken over the cells
/// as they stand in the table. A table without that column is a fault of
/// the schema.
pub fn get_col_analytics(df: &Table, column: &String) -> (r: Result<Summary, Error>)
    ensures
        match r {
            Ok(s) => has_column(df@, column@) && s@ == summary(cells_of(df@, column@)),
            Err(e) => e == Error::Schema && !has_column(df@, column@),
        },
{
    match df.column(column) {
        None => Err(Error::Schema),
        Some(c) => Ok(summarize(&c.cells)),
    }
}

} // verus!
