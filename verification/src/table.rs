//! Tables of named columns.

use vstd::prelude::*;
use crate::cell::{Cell, Datum};
use crate::values::{copy_cells, data};

verus! {

/// Why a request could not be satisfied.
#[derive(Debug, Clone, Copy, PartialEq, Eq)]
pub enum Error {
    /// The source is malformed: its columns differ in length.
    Source,
    /// A column that the request names is absent, or two columns of one
    /// table would bear the same name.
    Schema,
}

/// A column as a mathematical value: its name and its values, top down.
pub struct ColumnView {
    pub name: Seq<char>,
    pub cells: Seq<Datum>,
}

/// A named column of cells.
#[derive(Debug, PartialEq, Eq)]
pub struct Column {
    pub name: String,
    pub cells: Vec<Cell>,
}

impl View for Column {
    type V = ColumnView;

    open spec fn view(&self) -> ColumnView {
        ColumnView { name: self.name@, cells: data(self.cells@) }
    }
}

/// The columns that a run of `Column`s holds.
pub open spec fn frame(v: Seq<Column>) -> Seq<ColumnView> {
    Seq::new(v.len(), |i: int| v[i]@)
}

/// The names of a table's columns, left to right.
pub open spec fn names(t: Seq<ColumnView>) -> Seq<Seq<char>> {
    Seq::new(t.len(), |i: int| t[i].name)
}

/// All columns have the same number of cells.
pub open spec fn rectangular(t: Seq<ColumnView>) -> bool {
    forall|i: int, j: int|
        0 <= i < t.len() && 0 <= j < t.len() ==> (#[trigger] t[i]).cells.len() == (
        #[trigger] t[j]).cells.len()
}

/// What holds of every table: its columns are of one length and no two of
/// them bear the same name.
pub open spec fn well_formed(t: Seq<ColumnView>) -> bool {
    rectangular(t) && names(t).no_duplicates()
}

/// The number of rows.
pub open spec fn height(t: Seq<ColumnView>) -> nat {
    if t.len() == 0 {
        0
    } else {
        t[0].cells.len()
    }
}

/// Whether the table has a column of that name.
pub open spec fn has_column(t: Seq<ColumnView>, name: Seq<char>) -> bool {
    exists|i: int| 0 <= i < t.len() && (#[trigger] t[i]).name == name
}

/// The place of the column of that name.
pub open spec fn column_index(t: Seq<ColumnView>, name: Seq<char>) -> int {
    choose|i: int| 0 <= i < t.len() && (#[trigger] t[i]).name == name
}

/// The values of the column of that name.
pub open spec fn cells_of(t: Seq<ColumnView>, name: Seq<char>) -> Seq<Datum> {
    t[column_index(t, name)].cells
}

/// In a well-formed table a name belongs to one column only.
pub proof fn lemma_column_index(t: Seq<ColumnView>, i: int)
    requires
        names(t).no_duplicates(),
        0 <= i < t.len(),
    ensures
        has_column(t, t[i].name),
        column_index(t, t[i].name) == i,
        cells_of(t, t[i].name) == t[i].cells,
{
    let j = column_index(t, t[i].name);
    assert(names(t)[i] == t[i].name);
    assert(names(t)[j] == t[j].name);
}

impl Clone for Column {
    fn clone(&self) -> (r: Column)
        ensures
            r@ == self@,
    {
        Column { name: self.name.clone(), cells: copy_cells(&self.cells) }
    }
}

/// A table: named columns of one length, no two of them of the same name.
#[derive(Debug, PartialEq, Eq)]
pub struct Table {
    columns: Vec<Column>,
}

impl View for Table {
    type V = Seq<ColumnView>;

    closed spec fn view(&self) -> Seq<ColumnView> {
        frame(self.columns@)
    }
}

/// The first place at which `columns` holds a column of that name.
pub fn find_column(columns: &Vec<Column>, name: &String) -> (r: Option<usize>)
    ensures
        match r {
            Some(i) => i < columns.len() && columns[i as int].name@ == name@ && forall|j: int|
                0 <= j < i ==> (#[trigger] columns[j]).name@ != name@,
            None => !has_column(frame(columns@), name@),
        },
{
    let mut i: usize = 0;
    while i < columns.len()
        invariant
            i <= columns.len(),
            forall|j: int| 0 <= j < i ==> (#[trigger] columns[j]).name@ != name@,
        decreases columns.len() - i,
    {
        if columns[i].name == *name {
            return Some(i);
        }
        i += 1;
    }
    proof {
        let t = frame(columns@);
        if has_column(t, name@) {
            let k = choose|k: int| 0 <= k < t.len() && (#[trigger] t[k]).name == name@;
            assert(columns[k].name@ == name@);
        }
    }
    None
}

impl Table {
    #[verifier::type_invariant]
    spec fn inv(self) -> bool {
        well_formed(frame(self.columns@))
    }

    /// Makes a table of the given columns. Columns of different lengths are
    /// a malformed source; two columns of one name are a fault of the schema.
    pub fn new(columns: Vec<Column>) -> (r: Result<Table, Error>)
        ensures
            match r {
                Ok(t) => well_formed(frame(columns@)) && t@ == frame(columns@),
                Err(Error::Source) => !rectangular(frame(columns@)),
                Err(Error::Schema) => rectangular(frame(columns@)) && !names(
                    frame(columns@),
                ).no_duplicates(),
            },
    {
        let ghost t = frame(columns@);
        let mut i: usize = 1;
        while i < columns.len()
            invariant
                1 <= i,
                t == frame(columns@),
                forall|k: int| 0 <= k < i && k < t.len() ==> (#[trigger] t[k]).cells.len()
                    == t[0].cells.len(),
            decreases columns.len() - i,
        {
            if columns[i].cells.len() != columns[0].cells.len() {
                assert(t[i as int].cells.len() != t[0].cells.len());
                return Err(Error::Source);
            }
            i += 1;
        }
        assert(rectangular(t));
        let mut i: usize = 0;
        while i < columns.len()
            invariant
                i <= columns.len(),
                t == frame(columns@),
                rectangular(t),
                forall|a: int, b: int|
                    0 <= a < b < i ==> (#[trigger] t[a]).name != (#[trigger] t[b]).name,
            decreases columns.len() - i,
        {
            let mut j: usize = 0;
            while j < i
                invariant
                    j <= i,
                    i < columns.len(),
                    t == frame(columns@),
                    rectangular(t),
                    forall|a: int| 0 <= a < j ==> (#[trigger] t[a]).name != t[i as int].name,
                decreases i - j,
            {
                if columns[j].name == columns[i].name {
                    assert(names(t)[j as int] == names(t)[i as int]);
                    return Err(Error::Schema);
                }
                j += 1;
            }
            i += 1;
        }
        assert(names(t).no_duplicates()) by {
            assert forall|a: int, b: int|
                0 <= a < names(t).len() && 0 <= b < names(t).len() && a != b implies names(t)[a]
                != names(t)[b] by {
                if a < b {
                    assert(t[a].name != t[b].name);
                } else {
                    assert(t[b].name != t[a].name);
                }
            }
        }
        Ok(Table { columns })
    }

    /// The columns, left to right.
    pub fn columns(&self) -> (r: &Vec<Column>)
        ensures
            frame(r@) == self@,
            well_formed(self@),
    {
        proof {
            use_type_invariant(self);
        }
        &self.columns
    }

    /// The number of columns.
    pub fn width(&self) -> (r: usize)
        ensures
            r == self@.len(),
    {
        self.columns.len()
    }

    /// The number of rows.
    pub fn height(&self) -> (r: usize)
        ensures
            r == height(self@),
    {
        if self.columns.len() == 0 {
            0
        } else {
            self.columns[0].cells.len()
        }
    }

    /// The column of that name, if the table has one.
    pub fn column(&self, name: &String) -> (r: Option<&Column>)
        ensures
            match r {
                Some(c) => has_column(self@, name@) && c@.name == name@ && c@.cells == cells_of(
                    self@,
                    name@,
                ),
                None => !has_column(self@, name@),
            },
    {
        proof {
            use_type_invariant(self);
        }
        match find_column(&self.columns, name) {
            Some(i) => {
                proof {
                    lemma_column_index(self@, i as int);
                }
                Some(&self.columns[i])
            },
            None => None,
        }
    }
}

/// The names of the source's columns, in their order.
pub fn get_columns(source: &Table) -> (r: Vec<String>)
    ensures
        r@.len() == source@.len(),
        forall|i: int| 0 <= i < r@.len() ==> (#[trigger] r@[i])@ == source@[i].name,
{
    let columns = source.columns();
    let mut out: Vec<String> = Vec::new();
    let mut i: usize = 0;
    while i < columns.len()
        invariant
            i <= columns.len(),
            out.len() == i,
            frame(columns@) == source@,
            forall|k: int| 0 <= k < i ==> (#[trigger] out@[k])@ == source@[k].name,
        decreases columns.len() - i,
    {
        assert(source@[i as int] == columns[i as int]@);
        out.push(columns[i].name.clone());
        i += 1;
    }
    out
}

} // verus!
