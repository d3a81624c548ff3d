//! The requests: the table for a chart, the table for display, and the
//! statistics of the series of either.

use vstd::prelude::*;
use crate::axis::{axis_cells, axis_page, key_name, lemma_axis_is_canonical};
use crate::cell::{Cell, Datum};
use crate::groups::{group_labels, has_text, labels_of, lemma_group_labels, strs};
use crate::series::{
    all_rows, every_row, group_rows, in_group, is_first_hit, is_hit, join_series,
    lemma_first_hit_exists, lemma_joined_value_is_first, lemma_series_of_no_rows, rows_of_group,
    series,
};
use crate::stats::{lemma_summary_of_nulls, summarize, summary, Summary, SummaryView};
use crate::table::{
    cells_of, frame, has_column, height, names, rectangular, Column, ColumnView, Error, Table,
};
use crate::text::text_le;
use crate::values::{copy_cells, data};

verus! {

/// The most groups that one request lays out as series.
pub const GROUP_CAP: usize = 10;

/// A name that may be absent, as a text.
pub open spec fn opt_text(name: Option<String>) -> Option<Seq<char>> {
    match name {
        Some(s) => Some(s@),
        None => None,
    }
}

/// What a request for a table gave, as a mathematical value.
pub open spec fn outcome(r: Result<Table, Error>) -> Result<Seq<ColumnView>, Error> {
    match r {
        Ok(t) => Ok(t@),
        Err(e) => Err(e),
    }
}

/// The statistics of one series, under its label, as a mathematical value.
pub open spec fn records(v: Seq<(String, Summary)>) -> Seq<(Seq<char>, SummaryView)> {
    Seq::new(v.len(), |i: int| (v[i].0@, v[i].1@))
}

/// What a request for statistics gave, as a mathematical value.
pub open spec fn findings(r: Result<Vec<(String, Summary)>, Error>) -> Result<
    Seq<(Seq<char>, SummaryView)>,
    Error,
> {
    match r {
        Ok(v) => Ok(records(v@)),
        Err(e) => Err(e),
    }
}

/// The labels that become series: the first `GROUP_CAP` of them, or all
/// where they are no more than that.
pub open spec fn shown(labels: Seq<Seq<char>>) -> Seq<Seq<char>> {
    if labels.len() <= GROUP_CAP {
        labels
    } else {
        labels.take(GROUP_CAP as int)
    }
}

/// The key column of a joined table.
pub open spec fn head(name: Seq<char>, keys: Seq<Datum>) -> Seq<ColumnView> {
    seq![ColumnView { name: name, cells: keys }]
}

/// One series for each label, named by it and in the labels' order: the
/// values of `y` in the rows of the label's group, laid along the axis.
pub open spec fn group_columns(
    keys: Seq<Datum>,
    x: Seq<Datum>,
    g: Seq<Datum>,
    y: Seq<Datum>,
    labels: Seq<Seq<char>>,
) -> Seq<ColumnView> {
    Seq::new(
        labels.len(),
        |k: int| ColumnView { name: labels[k], cells: series(keys, x, group_rows(g, labels[k]), y) },
    )
}

/// A column of the source as a series: its values in all rows, laid along
/// the axis, under the column's own name.
pub open spec fn plain_column(keys: Seq<Datum>, x: Seq<Datum>, c: ColumnView) -> ColumnView {
    ColumnView { name: c.name, cells: series(keys, x, every_row(x.len()), c.cells) }
}

/// Each of the columns as a series, in their order.
pub open spec fn plain_columns(keys: Seq<Datum>, x: Seq<Datum>, cs: Seq<ColumnView>) -> Seq<
    ColumnView,
> {
    Seq::new(cs.len(), |k: int| plain_column(keys, x, cs[k]))
}

/// The columns of a table but the one of that name, in their order.
pub open spec fn without(t: Seq<ColumnView>, name: Seq<char>) -> Seq<ColumnView>
    decreases t.len(),
{
    if t.len() == 0 {
        t
    } else if t.last().name == name {
        without(t.drop_last(), name)
    } else {
        without(t.drop_last(), name).push(t.last())
    }
}

/// The series of a grouped request: one for each of the first `GROUP_CAP`
/// labels of the grouping column.
pub open spec fn grouped(
    source: Seq<ColumnView>,
    keys: Seq<Datum>,
    x: Seq<char>,
    y: Seq<char>,
    g: Seq<char>,
) -> Seq<ColumnView> {
    group_columns(
        keys,
        cells_of(source, x),
        cells_of(source, g),
        cells_of(source, y),
        shown(group_labels(cells_of(source, g))),
    )
}

/// The table for a chart: the axis under the name `x_axis`, then the
/// series of the groups, or the one series of `y` where no grouping column
/// is given.
pub open spec fn chart_frame(
    source: Seq<ColumnView>,
    y: Seq<char>,
    x: Seq<char>,
    group_by: Option<Seq<char>>,
    offset: Option<i64>,
    range: Option<u32>,
) -> Seq<ColumnView> {
    let keys = axis_page(cells_of(source, x), offset, range);
    match group_by {
        Some(g) => head(key_name(), keys) + grouped(source, keys, x, y, g),
        None => head(key_name(), keys) + seq![
            plain_column(
                keys,
                cells_of(source, x),
                ColumnView { name: y, cells: cells_of(source, y) },
            ),
        ],
    }
}

/// What a request for a chart gives: its table where the source has the
/// columns that the request names and no two columns of the table would
/// bear one name, and a fault of the schema otherwise.
pub open spec fn chart_outcome(
    source: Seq<ColumnView>,
    y: Seq<char>,
    x: Seq<char>,
    group_by: Option<Seq<char>>,
    offset: Option<i64>,
    range: Option<u32>,
) -> Result<Seq<ColumnView>, Error> {
    let t = chart_frame(source, y, x, group_by, offset, range);
    if has_column(source, x) && has_column(source, y) && (group_by is Some ==> has_column(
        source,
        group_by->0,
    )) && names(t).no_duplicates() {
        Ok(t)
    } else {
        Err(Error::Schema)
    }
}

/// Whether a request is grouped: it is where it names both a grouping
/// column and a value column.
pub open spec fn is_grouped(y: Option<Seq<char>>, group_by: Option<Seq<char>>) -> bool {
    y is Some && group_by is Some
}

/// The table for display: the axis under the column's own name, then the
/// series of the groups, or, where the request is not grouped, every other
/// column of the source as a series.
pub open spec fn table_frame(
    source: Seq<ColumnView>,
    x: Seq<char>,
    y: Option<Seq<char>>,
    group_by: Option<Seq<char>>,
    offset: Option<i64>,
    range: Option<u32>,
) -> Seq<ColumnView> {
    let keys = axis_page(cells_of(source, x), offset, range);
    if is_grouped(y, group_by) {
        head(x, keys) + grouped(source, keys, x, y->0, group_by->0)
    } else {
        head(x, keys) + plain_columns(keys, cells_of(source, x), without(source, x))
    }
}

/// What a request for a table gives: its table where the source has the
/// columns that the request needs and no two columns of the table would
/// bear one name, and a fault of the schema otherwise.
pub open spec fn table_outcome(
    source: Seq<ColumnView>,
    x: Seq<char>,
    y: Option<Seq<char>>,
    group_by: Option<Seq<char>>,
    offset: Option<i64>,
    range: Option<u32>,
) -> Result<Seq<ColumnView>, Error> {
    let t = table_frame(source, x, y, group_by, offset, range);
    if has_column(source, x) && (is_grouped(y, group_by) ==> has_column(source, y->0)
        && has_column(source, group_by->0) && names(t).no_duplicates()) {
        Ok(t)
    } else {
        Err(Error::Schema)
    }
}

/// The series that a request for statistics is about: those of the
/// groups, or, where the request is not grouped, every column of the
/// source, the axis column among them.
pub open spec fn measured(
    source: Seq<ColumnView>,
    x: Seq<char>,
    y: Option<Seq<char>>,
    group_by: Option<Seq<char>>,
    offset: Option<i64>,
    range: Option<u32>,
) -> Seq<ColumnView> {
    let keys = axis_page(cells_of(source, x), offset, range);
    if is_grouped(y, group_by) {
        grouped(source, keys, x, y->0, group_by->0)
    } else {
        plain_columns(keys, cells_of(source, x), source)
    }
}

/// What a request for statistics gives: for each series, in the order in
/// which the series are joined, its label and the summary of its values
/// along the axis; a fault of the schema where the source lacks a column
/// that the request needs.
pub open spec fn analytics_outcome(
    source: Seq<ColumnView>,
    x: Seq<char>,
    y: Option<Seq<char>>,
    group_by: Option<Seq<char>>,
    offset: Option<i64>,
    range: Option<u32>,
) -> Result<Seq<(Seq<char>, SummaryView)>, Error> {
    let m = measured(source, x, y, group_by, offset, range);
    if has_column(source, x) && (is_grouped(y, group_by) ==> has_column(source, y->0)
        && has_column(source, group_by->0)) {
        Ok(Seq::new(m.len(), |k: int| (m[k].name, summary(m[k].cells))))
    } else {
        Err(Error::Schema)
    }
}

/// Every column of `without` is a column of the table and bears another
/// name; where the table repeats no name, neither does `without`.
pub proof fn lemma_without(t: Seq<ColumnView>, name: Seq<char>)
    ensures
        without(t, name).len() <= t.len(),
        forall|k: int|
            0 <= k < without(t, name).len() ==> (#[trigger] without(t, name)[k]).name != name
                && t.contains(without(t, name)[k]),
        names(t).no_duplicates() ==> names(without(t, name)).no_duplicates(),
    decreases t.len(),
{
    if t.len() > 0 {
        let u = t.drop_last();
        let w = without(u, name);
        lemma_without(u, name);
        assert forall|k: int| 0 <= k < w.len() implies t.contains(#[trigger] w[k]) by {
            assert(u.contains(w[k]));
            let j = choose|j: int| 0 <= j < u.len() && u[j] == w[k];
            assert(t[j] == w[k]);
        }
        assert(t[t.len() - 1] == t.last());
        if names(t).no_duplicates() {
            assert forall|a: int, b: int|
                0 <= a < names(u).len() && 0 <= b < names(u).len() && a != b implies names(u)[a]
                != names(u)[b] by {
                assert(names(t)[a] != names(t)[b]);
            }
            if t.last().name != name {
                let r = w.push(t.last());
                assert forall|a: int, b: int|
                    0 <= a < names(r).len() && 0 <= b < names(r).len() && a != b implies names(
                    r,
                )[a] != names(r)[b] by {
                    if a < w.len() && b < w.len() {
                        assert(names(w)[a] != names(w)[b]);
                    } else {
                        let c = if a < w.len() {
                            a
                        } else {
                            b
                        };
                        assert(u.contains(w[c]));
                        let j = choose|j: int| 0 <= j < u.len() && u[j] == w[c];
                        assert(names(t)[j] != names(t)[t.len() - 1]);
                    }
                }
            }
        }
    }
}

/// However many series are joined and whatever part of the axis they
/// cover, every column of a joined table has one cell for each key of
/// the axis: joining neither adds a row nor drops one.
pub proof fn lemma_rows_follow_axis(
    source: Seq<ColumnView>,
    x: Seq<char>,
    y: Seq<char>,
    group_by: Option<Seq<char>>,
    offset: Option<i64>,
    range: Option<u32>,
)
    ensures
        ({
            let keys = axis_page(cells_of(source, x), offset, range);
            let chart = chart_frame(source, y, x, group_by, offset, range);
            let wide = table_frame(source, x, None, None, offset, range);
            let split = table_frame(source, x, Some(y), group_by, offset, range);
            &&& forall|k: int| 0 <= k < chart.len() ==> (#[trigger] chart[k]).cells.len() == keys.len()
            &&& forall|k: int| 0 <= k < wide.len() ==> (#[trigger] wide[k]).cells.len() == keys.len()
            &&& forall|k: int| 0 <= k < split.len() ==> (#[trigger] split[k]).cells.len() == keys.len()
            &&& height(chart) == keys.len()
            &&& height(wide) == keys.len()
            &&& height(split) == keys.len()
        }),
{
    let keys = axis_page(cells_of(source, x), offset, range);
    let chart = chart_frame(source, y, x, group_by, offset, range);
    let wide = table_frame(source, x, None, None, offset, range);
    let split = table_frame(source, x, Some(y), group_by, offset, range);
    lemma_joined_is_rectangular(key_name(), keys, chart.skip(1));
    assert(chart =~= head(key_name(), keys) + chart.skip(1));
    lemma_joined_is_rectangular(x, keys, wide.skip(1));
    assert(wide =~= head(x, keys) + wide.skip(1));
    lemma_joined_is_rectangular(x, keys, split.skip(1));
    assert(split =~= head(x, keys) + split.skip(1));
}

/// Some row of the source is the first with that key and holds that value.
pub open spec fn is_value_of_first_row(x: Seq<Datum>, v: Seq<Datum>, key: Datum, value: Datum) -> bool {
    exists|i: int| is_first_hit(x, every_row(x.len()), v, key, i) && value == v[i]
}

/// A column of the source, laid along the axis of the same source, has
/// for every key the value of the first row of the source with that key:
/// the axis holds no key that the source lacks, so such a series is null
/// only where that row holds a null.
pub proof fn lemma_plain_series_covers_axis(
    x: Seq<Datum>,
    v: Seq<Datum>,
    offset: Option<i64>,
    range: Option<u32>,
)
    requires
        v.len() == x.len(),
    ensures
        ({
            let keys = axis_page(x, offset, range);
            let s = series(keys, x, every_row(x.len()), v);
            forall|r: int|
                0 <= r < keys.len() ==> is_value_of_first_row(x, v, #[trigger] keys[r], s[r])
        }),
{
    let keys = axis_page(x, offset, range);
    let rows = every_row(x.len());
    let s = series(keys, x, rows, v);
    lemma_axis_is_canonical(x, offset, range);
    assert forall|r: int| 0 <= r < keys.len() implies is_value_of_first_row(
        x,
        v,
        #[trigger] keys[r],
        s[r],
    ) by {
        assert(keys.contains(keys[r]));
        assert(x.contains(keys[r]));
        let h = choose|h: int| 0 <= h < x.len() && x[h] == keys[r];
        assert(is_hit(x, rows, v, keys[r], h));
        lemma_first_hit_exists(x, rows, v, keys[r], h);
        let f = choose|f: int| 0 <= f <= h && is_first_hit(x, rows, v, keys[r], f);
        lemma_joined_value_is_first(x, rows, v, keys[r], f);
        assert(is_first_hit(x, every_row(x.len()), v, keys[r], f) && s[r] == v[f]);
    }
}

/// The series of a grouped request are named by the labels of the
/// grouping column, in lexicographic order. Where the column has more
/// than `GROUP_CAP` labels there are exactly `GROUP_CAP` series, and every
/// label that got none comes after each label that got one.
pub proof fn lemma_group_cap(
    source: Seq<ColumnView>,
    keys: Seq<Datum>,
    x: Seq<char>,
    y: Seq<char>,
    g: Seq<char>,
)
    ensures
        ({
            let labels = group_labels(cells_of(source, g));
            let joined = grouped(source, keys, x, y, g);
            &&& joined.len() <= GROUP_CAP
            &&& joined.len() <= labels.len()
            &&& labels.len() <= GROUP_CAP ==> joined.len() == labels.len()
            &&& labels.len() > GROUP_CAP ==> joined.len() == GROUP_CAP
            &&& forall|k: int| 0 <= k < joined.len() ==> (#[trigger] joined[k]).name == labels[k]
            &&& forall|k: int, j: int|
                0 <= k < joined.len() && joined.len() <= j < labels.len() ==> text_le(
                    (#[trigger] joined[k]).name,
                    #[trigger] labels[j],
                ) && joined[k].name != labels[j]
            &&& forall|k: int|
                0 <= k < joined.len() ==> has_text(cells_of(source, g), (#[trigger] joined[k]).name)
        }),
{
    let labels = group_labels(cells_of(source, g));
    let joined = grouped(source, keys, x, y, g);
    lemma_group_labels(cells_of(source, g));
    assert forall|k: int| 0 <= k < joined.len() implies has_text(
        cells_of(source, g),
        (#[trigger] joined[k]).name,
    ) by {
        assert(labels.contains(labels[k]));
    }
}

/// A request for a table that is made twice of one source with the same
/// arguments gives the same table twice, or the same fault.
pub proof fn lemma_table_data_repeats(
    source: Seq<ColumnView>,
    x: Seq<char>,
    y: Option<Seq<char>>,
    group_by: Option<Seq<char>>,
    offset: Option<i64>,
    range: Option<u32>,
    first: Result<Table, Error>,
    second: Result<Table, Error>,
)
    requires
        outcome(first) == table_outcome(source, x, y, group_by, offset, range),
        outcome(second) == table_outcome(source, x, y, group_by, offset, range),
    ensures
        outcome(first) == outcome(second),
        first is Ok ==> second is Ok && first->Ok_0@ == second->Ok_0@,
        first is Err ==> second is Err && first->Err_0 == second->Err_0,
{
}

/// The series of a group that no row of the source belongs to is null at
/// every key of the axis, and its summary counts no value and no
/// different values.
pub proof fn lemma_empty_group(
    keys: Seq<Datum>,
    x: Seq<Datum>,
    g: Seq<Datum>,
    y: Seq<Datum>,
    label: Seq<char>,
)
    requires
        forall|i: int| 0 <= i < g.len() ==> !in_group(#[trigger] g[i], label),
    ensures
        ({
            let s = series(keys, x, group_rows(g, label), y);
            &&& s.len() == keys.len()
            &&& forall|r: int| 0 <= r < s.len() ==> #[trigger] s[r] == Datum::Null
            &&& summary(s).count == 0
            &&& summary(s).n_unique == 0
        }),
{
    let rows = group_rows(g, label);
    assert forall|i: int| 0 <= i < rows.len() implies !rows[i] by {
        assert(!in_group(g[i], label));
    }
    lemma_series_of_no_rows(keys, x, rows, y);
    lemma_summary_of_nulls(series(keys, x, rows, y));
}

/// Adds the series of the first `GROUP_CAP` labels to `columns`.
fn add_group_series(
    columns: Vec<Column>,
    keys: &Vec<Cell>,
    x: &Vec<Cell>,
    g: &Vec<Cell>,
    y: &Vec<Cell>,
    labels: &Vec<String>,
) -> (r: Vec<Column>)
    ensures
        frame(r@) == frame(columns@) + group_columns(
            data(keys@),
            data(x@),
            data(g@),
            data(y@),
            shown(strs(labels@)),
        ),
{
    let ghost base = frame(columns@);
    let ghost picked = shown(strs(labels@));
    let ghost target = group_columns(data(keys@), data(x@), data(g@), data(y@), picked);
    let n: usize = if labels.len() <= GROUP_CAP {
        labels.len()
    } else {
        GROUP_CAP
    };
    let mut columns = columns;
    let mut k: usize = 0;
    assert(frame(columns@) =~= base + target.take(0));
    while k < n
        invariant
            k <= n,
            n <= labels.len(),
            n == picked.len(),
            picked == shown(strs(labels@)),
            target == group_columns(data(keys@), data(x@), data(g@), data(y@), picked),
            frame(columns@) == base + target.take(k as int),
        decreases n - k,
    {
        assert(picked[k as int] == labels[k as int]@);
        let ghost before = frame(columns@);
        let rows = rows_of_group(g, &labels[k]);
        let cells = join_series(keys, x, &rows, y);
        let column = Column { name: labels[k].clone(), cells };
        assert(column@ == target[k as int]);
        columns.push(column);
        assert(frame(columns@) =~= before.push(target[k as int]));
        assert(target.take(k + 1) =~= target.take(k as int).push(target[k as int]));
        k += 1;
    }
    assert(target.take(n as int) =~= target);
    columns
}

/// Adds each of the columns `cs`, as a series, to `columns`.
fn add_all_columns(columns: Vec<Column>, keys: &Vec<Cell>, x: &Vec<Cell>, cs: &Vec<Column>) -> (r:
    Vec<Column>)
    ensures
        frame(r@) == frame(columns@) + plain_columns(data(keys@), data(x@), frame(cs@)),
{
    let ghost base = frame(columns@);
    let ghost target = plain_columns(data(keys@), data(x@), frame(cs@));
    let rows = all_rows(x.len());
    let mut columns = columns;
    let mut i: usize = 0;
    assert(frame(columns@) =~= base + target.take(0));
    while i < cs.len()
        invariant
            i <= cs.len(),
            rows@ == every_row(x.len() as nat),
            target == plain_columns(data(keys@), data(x@), frame(cs@)),
            frame(columns@) == base + target.take(i as int),
        decreases cs.len() - i,
    {
        let ghost before = frame(columns@);
        let cells = join_series(keys, x, &rows, &cs[i].cells);
        let column = Column { name: cs[i].name.clone(), cells };
        assert(column@ == target[i as int]);
        columns.push(column);
        assert(frame(columns@) =~= before.push(target[i as int]));
        assert(target.take(i + 1) =~= target.take(i as int).push(target[i as int]));
        i += 1;
    }
    assert(target.take(cs.len() as int) =~= target);
    columns
}

/// Adds each of the columns `cs` but the one named `skip`, as a series, to
/// `columns`.
fn add_other_columns(
    columns: Vec<Column>,
    keys: &Vec<Cell>,
    x: &Vec<Cell>,
    cs: &Vec<Column>,
    skip: &String,
) -> (r: Vec<Column>)
    ensures
        frame(r@) == frame(columns@) + plain_columns(
            data(keys@),
            data(x@),
            without(frame(cs@), skip@),
        ),
{
    let ghost base = frame(columns@);
    let ghost all = frame(cs@);
    let rows = all_rows(x.len());
    let mut columns = columns;
    let mut i: usize = 0;
    assert(all.take(0) =~= Seq::<ColumnView>::empty());
    assert(frame(columns@) =~= base + plain_columns(
        data(keys@),
        data(x@),
        without(all.take(0), skip@),
    ));
    while i < cs.len()
        invariant
            i <= cs.len(),
            all == frame(cs@),
            rows@ == every_row(x.len() as nat),
            frame(columns@) == base + plain_columns(
                data(keys@),
                data(x@),
                without(all.take(i as int), skip@),
            ),
        decreases cs.len() - i,
    {
        let ghost before = without(all.take(i as int), skip@);
        assert(all.take(i + 1).drop_last() =~= all.take(i as int));
        assert(all.take(i + 1).last() == cs[i as int]@);
        if cs[i].name != *skip {
            let ghost joined = frame(columns@);
            let cells = join_series(keys, x, &rows, &cs[i].cells);
            let column = Column { name: cs[i].name.clone(), cells };
            assert(column@ == plain_column(data(keys@), data(x@), cs[i as int]@));
            columns.push(column);
            assert(frame(columns@) =~= joined.push(
                plain_column(data(keys@), data(x@), cs[i as int]@),
            ));
            assert(plain_columns(data(keys@), data(x@), before.push(cs[i as int]@))
                =~= plain_columns(data(keys@), data(x@), before).push(
                plain_column(data(keys@), data(x@), cs[i as int]@),
            ));
        }
        i += 1;
    }
    assert(all.take(cs.len() as int) =~= all);
    columns
}

/// The columns of a joined table are as long as its axis.
proof fn lemma_joined_is_rectangular(name: Seq<char>, keys: Seq<Datum>, joined: Seq<ColumnView>)
    requires
        forall|k: int| 0 <= k < joined.len() ==> (#[trigger] joined[k]).cells.len() == keys.len(),
    ensures
        rectangular(head(name, keys) + joined),
        forall|k: int|
            0 <= k < (head(name, keys) + joined).len() ==> (#[trigger] (head(name, keys)
                + joined)[k]).cells.len() == keys.len(),
{
    let t = head(name, keys) + joined;
    assert forall|k: int| 0 <= k < t.len() implies (#[trigger] t[k]).cells.len() == keys.len() by {
        if k > 0 {
            assert(t[k] == joined[k - 1]);
        }
    }
}

/// The table for a chart: the axis of the source over `x_axis`, under the
/// name `x_axis`, cut to a page where `offset` and `range` are both given;
/// then, where `group_by` is given, one series for each of the first
/// `GROUP_CAP` labels of that column, named by the label and holding the
/// values of `y_axis` in the rows of the group; and else the one series of
/// `y_axis`. Of the rows with one key the first counts, and a key that a
/// series lacks gets a null. A named column that the source lacks, or two
/// columns of one name in the table, are a fault of the schema.
pub fn get_data_for_chart(
    source: &Table,
    y_axis: String,
    x_axis: String,
    group_by: Option<String>,
    offset: Option<i64>,
    range: Option<u32>,
) -> (r: Result<Table, Error>)
    ensures
        outcome(r) == chart_outcome(
            source@,
            y_axis@,
            x_axis@,
            opt_text(group_by),
            offset,
            range,
        ),
{
    let x = match source.column(&x_axis) {
        Some(c) => c,
        None => {
            return Err(Error::Schema);
        },
    };
    let y = match source.column(&y_axis) {
        Some(c) => c,
        None => {
            return Err(Error::Schema);
        },
    };
    let keys = axis_cells(&x.cells, offset, range);
    let mut columns: Vec<Column> = Vec::new();
    columns.push(Column { name: String::from_str("x_axis"), cells: copy_cells(&keys) });
    assert(frame(columns@) =~= head(key_name(), data(keys@)));
    let columns = match group_by {
        Some(name) => {
            let g = match source.column(&name) {
                Some(c) => c,
                None => {
                    return Err(Error::Schema);
                },
            };
            let labels = labels_of(&g.cells);
            add_group_series(columns, &keys, &x.cells, &g.cells, &y.cells, &labels)
        },
        None => {
            let rows = all_rows(x.cells.len());
            let cells = join_series(&keys, &x.cells, &rows, &y.cells);
            let mut columns = columns;
            columns.push(Column { name: y_axis.clone(), cells });
            assert(frame(columns@) =~= chart_frame(
                source@,
                y_axis@,
                x_axis@,
                None,
                offset,
                range,
            ));
            columns
        },
    };
    proof {
        let t = chart_frame(source@, y_axis@, x_axis@, opt_text(group_by), offset, range);
        assert(frame(columns@) == t);
        lemma_joined_is_rectangular(key_name(), data(keys@), t.skip(1));
        assert(t =~= head(key_name(), data(keys@)) + t.skip(1));
    }
    match Table::new(columns) {
        Ok(t) => Ok(t),
        Err(_) => Err(Error::Schema),
    }
}

/// The table for display: the axis of the source over `x_axis`, under that
/// column's own name, cut to a page where `offset` and `range` are both
/// given; then, where `y_axis` and `group_by` are both given, the series of
/// the groups as for a chart; and else every other column of the source as
/// a series, in the source's order. A named column that the source lacks,
/// or two columns of one name in the table, are a fault of the schema.
pub fn get_data_for_table(
    source: &Table,
    x_axis: String,
    y_axis: Option<String>,
    group_by: Option<String>,
    offset: Option<i64>,
    range: Option<u32>,
) -> (r: Result<Table, Error>)
    ensures
        outcome(r) == table_outcome(
            source@,
            x_axis@,
            opt_text(y_axis),
            opt_text(group_by),
            offset,
            range,
        ),
{
    let x = match source.column(&x_axis) {
        Some(c) => c,
        None => {
            return Err(Error::Schema);
        },
    };
    let keys = axis_cells(&x.cells, offset, range);
    let mut columns: Vec<Column> = Vec::new();
    columns.push(Column { name: x_axis.clone(), cells: copy_cells(&keys) });
    assert(frame(columns@) =~= head(x_axis@, data(keys@)));
    let ghost t = table_frame(
        source@,
        x_axis@,
        opt_text(y_axis),
        opt_text(group_by),
        offset,
        range,
    );
    let columns = match (group_by, y_axis) {
        (Some(g_name), Some(y_name)) => {
            let y = match source.column(&y_name) {
                Some(c) => c,
                None => {
                    return Err(Error::Schema);
                },
            };
            let g = match source.column(&g_name) {
                Some(c) => c,
                None => {
                    return Err(Error::Schema);
                },
            };
            let labels = labels_of(&g.cells);
            add_group_series(columns, &keys, &x.cells, &g.cells, &y.cells, &labels)
        },
        _ => {
            let all = source.columns();
            let columns = add_other_columns(columns, &keys, &x.cells, all, &x_axis);
            proof {
                lemma_without(source@, x_axis@);
                let w = without(source@, x_axis@);
                assert forall|a: int, b: int|
                    0 <= a < names(t).len() && 0 <= b < names(t).len() && a != b implies names(
                    t,
                )[a] != names(t)[b] by {
                    if a > 0 && b > 0 {
                        assert(names(w)[a - 1] != names(w)[b - 1]);
                    } else if a > 0 {
                        assert(w[a - 1].name != x_axis@);
                    } else {
                        assert(w[b - 1].name != x_axis@);
                    }
                }
            }
            columns
        },
    };
    proof {
        assert(frame(columns@) == t);
        lemma_joined_is_rectangular(x_axis@, data(keys@), t.skip(1));
        assert(t =~= head(x_axis@, data(keys@)) + t.skip(1));
    }
    match Table::new(columns) {
        Ok(t) => Ok(t),
        Err(_) => Err(Error::Schema),
    }
}

/// The statistics of the series of a request: where `y_axis` and
/// `group_by` are both given, of the series of the groups as for a chart;
/// and else of every column of the source, the axis column among them, as a
/// series. Each series is summarised over its values along the axis, and
/// the summaries come with their labels in the order in which the series
/// are joined. A named column that the source lacks is a fault of the
/// schema.
pub fn get_data_for_analytics(
    source: &Table,
    x_axis: String,
    y_axis: Option<String>,
    group_by: Option<String>,
    offset: Option<i64>,
    range: Option<u32>,
) -> (r: Result<Vec<(String, Summary)>, Error>)
    ensures
        findings(r) == analytics_outcome(
            source@,
            x_axis@,
            opt_text(y_axis),
            opt_text(group_by),
            offset,
            range,
        ),
{
    let x = match source.column(&x_axis) {
        Some(c) => c,
        None => {
            return Err(Error::Schema);
        },
    };
    let keys = axis_cells(&x.cells, offset, range);
    let ghost m = measured(
        source@,
        x_axis@,
        opt_text(y_axis),
        opt_text(group_by),
        offset,
        range,
    );
    let series: Vec<Column> = match (group_by, y_axis) {
        (Some(g_name), Some(y_name)) => {
            let y = match source.column(&y_name) {
                Some(c) => c,
                None => {
                    return Err(Error::Schema);
                },
            };
            let g = match source.column(&g_name) {
                Some(c) => c,
                None => {
                    return Err(Error::Schema);
                },
            };
            let labels = labels_of(&g.cells);
            add_group_series(Vec::new(), &keys, &x.cells, &g.cells, &y.cells, &labels)
        },
        _ => add_all_columns(Vec::new(), &keys, &x.cells, source.columns()),
    };
    assert(frame(series@) =~= m);
    let mut out: Vec<(String, Summary)> = Vec::new();
    let mut i: usize = 0;
    while i < series.len()
        invariant
            i <= series.len(),
            out.len() == i,
            frame(series@) == m,
            forall|k: int|
                0 <= k < i ==> (#[trigger] out[k]).0@ == m[k].name && out[k].1@ == summary(
                    m[k].cells,
                ),
        decreases series.len() - i,
    {
        assert(m[i as int] == series[i as int]@);
        out.push((series[i].name.clone(), summarize(&series[i].cells)));
        i += 1;
    }
    assert(records(out@) =~= Seq::new(m.len(), |k: int| (m[k].name, summary(m[k].cells))));
    Ok(out)
}

} // verus!
