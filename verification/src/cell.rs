//! Cells, the values they hold, the order of values, and values as text.

use vstd::prelude::*;
use vstd::relations::total_ordering;
use crate::text::{
    lemma_text_le_antisymmetric, lemma_text_le_reflexive, lemma_text_le_total,
    lemma_text_le_transitive, text_le, text_le_exec,
};

verus! {

/// What a cell holds, as a mathematical value.
pub enum Datum {
    /// No value.
    Null,
    /// A number.
    Int(int),
    /// A text.
    Text(Seq<char>),
}

/// One value of a column: a number, a text, or nothing.
#[derive(Debug, PartialEq, Eq)]
pub enum Cell {
    Null,
    Int(i64),
    Text(String),
}

impl View for Cell {
    type V = Datum;

    open spec fn view(&self) -> Datum {
        match self {
            Cell::Null => Datum::Null,
            Cell::Int(n) => Datum::Int(*n as int),
            Cell::Text(s) => Datum::Text(s@),
        }
    }
}

/// Where a kind of value stands when values of several kinds are ordered:
/// numbers, then texts, and nulls last.
pub open spec fn rank(d: Datum) -> int {
    match d {
        Datum::Int(_) => 0,
        Datum::Text(_) => 1,
        Datum::Null => 2,
    }
}

/// The ascending order of values: numbers by size, texts lexicographically,
/// and values of different kinds by `rank`.
pub open spec fn datum_le(a: Datum, b: Datum) -> bool {
    match (a, b) {
        (Datum::Int(x), Datum::Int(y)) => x <= y,
        (Datum::Text(s), Datum::Text(t)) => text_le(s, t),
        _ => rank(a) <= rank(b),
    }
}

/// Strictly before, in the order of `datum_le`.
pub open spec fn datum_lt(a: Datum, b: Datum) -> bool {
    datum_le(a, b) && a != b
}

/// `datum_le` as a relation, for the sorting functions that take one.
pub open spec fn ascending() -> spec_fn(Datum, Datum) -> bool {
    |a: Datum, b: Datum| datum_le(a, b)
}

/// `datum_le` is a total order.
pub proof fn lemma_ascending_is_total_order()
    ensures
        total_ordering(ascending()),
{
    let r = ascending();
    assert forall|x: Datum| #[trigger] r(x, x) by {
        if let Datum::Text(s) = x {
            lemma_text_le_reflexive(s);
        }
    }
    assert forall|x: Datum, y: Datum| #[trigger] r(x, y) && #[trigger] r(y, x) implies x == y by {
        if let (Datum::Text(s), Datum::Text(t)) = (x, y) {
            lemma_text_le_antisymmetric(s, t);
        }
    }
    assert forall|x: Datum, y: Datum, z: Datum| #[trigger]
        r(x, y) && #[trigger] r(y, z) implies r(x, z) by {
        if let (Datum::Text(s), Datum::Text(t), Datum::Text(u)) = (x, y, z) {
            lemma_text_le_transitive(s, t, u);
        }
    }
    assert forall|x: Datum, y: Datum| #[trigger] r(x, y) || #[trigger] r(y, x) by {
        if let (Datum::Text(s), Datum::Text(t)) = (x, y) {
            lemma_text_le_total(s, t);
        }
    }
}

/// The character of a decimal digit.
pub open spec fn digit(d: int) -> char {
    (d + 48) as char
}

/// A natural number in decimal, without leading zeros.
pub open spec fn digits(n: nat) -> Seq<char>
    decreases n,
{
    if n < 10 {
        seq![digit(n as int)]
    } else {
        digits(n / 10).push(digit((n % 10) as int))
    }
}

/// An integer in decimal, with a minus sign where it is negative.
pub open spec fn decimal(i: int) -> Seq<char> {
    if i < 0 {
        seq!['-'] + digits((-i) as nat)
    } else {
        digits(i as nat)
    }
}

/// A value as text: a number in decimal, a text as it stands without any
/// quoting, and a null as the word `null`.
pub open spec fn render(d: Datum) -> Seq<char> {
    match d {
        Datum::Null => seq!['n', 'u', 'l', 'l'],
        Datum::Int(i) => decimal(i),
        Datum::Text(t) => t,
    }
}

fn digit_text(d: u64) -> (r: &'static str)
    requires
        d < 10,
    ensures
        r@ == seq![digit(d as int)],
{
    proof {
        reveal_strlit("0");
        reveal_strlit("1");
        reveal_strlit("2");
        reveal_strlit("3");
        reveal_strlit("4");
        reveal_strlit("5");
        reveal_strlit("6");
        reveal_strlit("7");
        reveal_strlit("8");
        reveal_strlit("9");
    }
    let r = if d == 0 {
        "0"
    } else if d == 1 {
        "1"
    } else if d == 2 {
        "2"
    } else if d == 3 {
        "3"
    } else if d == 4 {
        "4"
    } else if d == 5 {
        "5"
    } else if d == 6 {
        "6"
    } else if d == 7 {
        "7"
    } else if d == 8 {
        "8"
    } else {
        "9"
    };
    assert(r@ =~= seq![digit(d as int)]);
    r
}

fn append_digits(out: &mut String, n: u64)
    ensures
        final(out)@ == old(out)@ + digits(n as nat),
    decreases n,
{
    if n >= 10 {
        append_digits(out, n / 10);
    }
    out.append(digit_text(n % 10));
    assert(out@ =~= old(out)@ + digits(n as nat));
}

/// The decimal text of an integer.
pub fn decimal_text(i: i64) -> (r: String)
    ensures
        r@ == decimal(i as int),
{
    let mut out = String::new();
    if i < 0 {
        proof {
            reveal_strlit("-");
        }
        out.append("-");
        let magnitude: u64 = if i == i64::MIN {
            9223372036854775808u64
        } else {
            (-i) as u64
        };
        append_digits(&mut out, magnitude);
    } else {
        append_digits(&mut out, i as u64);
    }
    assert(out@ =~= decimal(i as int));
    out
}

impl Clone for Cell {
    fn clone(&self) -> (r: Cell)
        ensures
            r@ == self@,
    {
        match self {
            Cell::Null => Cell::Null,
            Cell::Int(n) => Cell::Int(*n),
            Cell::Text(s) => Cell::Text(s.clone()),
        }
    }
}

impl Cell {
    /// Whether the cell holds no value.
    pub fn is_null(&self) -> (r: bool)
        ensures
            r == (self@ == Datum::Null),
    {
        match self {
            Cell::Null => true,
            _ => false,
        }
    }

    /// Whether two cells hold the same value.
    pub fn same(&self, other: &Cell) -> (r: bool)
        ensures
            r == (self@ == other@),
    {
        match (self, other) {
            (Cell::Null, Cell::Null) => true,
            (Cell::Int(x), Cell::Int(y)) => *x == *y,
            (Cell::Text(s), Cell::Text(t)) => {
                let r = *s == *t;
                r
            },
            _ => false,
        }
    }

    /// Whether this cell comes before `other` or equals it, in ascending order.
    pub fn le(&self, other: &Cell) -> (r: bool)
        ensures
            r == datum_le(self@, other@),
    {
        match (self, other) {
            (Cell::Int(x), Cell::Int(y)) => *x <= *y,
            (Cell::Text(s), Cell::Text(t)) => text_le_exec(s.as_str(), t.as_str()),
            (Cell::Int(_), _) => true,
            (Cell::Text(_), Cell::Int(_)) => false,
            (Cell::Text(_), Cell::Null) => true,
            (Cell::Null, Cell::Null) => true,
            (Cell::Null, _) => false,
        }
    }

    /// The value as text.
    pub fn label(&self) -> (r: String)
        ensures
            r@ == render(self@),
    {
        match self {
            Cell::Null => {
                proof {
                    reveal_strlit("null");
                }
                let r = String::from_str("null");
                assert(r@ =~= render(Datum::Null));
                r
            },
            Cell::Int(n) => decimal_text(*n),
            Cell::Text(s) => s.clone(),
        }
    }
}

} // verus!
