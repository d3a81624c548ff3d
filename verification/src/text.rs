//! The lexicographic order of texts.

use vstd::prelude::*;
use vstd::std_specs::iter::IteratorSpec;

verus! {

/// Lexicographic order on texts, character by character; a proper prefix
/// comes before the text it is a prefix of.
pub open spec fn text_le(a: Seq<char>, b: Seq<char>) -> bool
    decreases a.len(),
{
    if a.len() == 0 {
        true
    } else if b.len() == 0 {
        false
    } else if a[0] != b[0] {
        (a[0] as int) < (b[0] as int)
    } else {
        text_le(a.drop_first(), b.drop_first())
    }
}

pub proof fn lemma_text_le_reflexive(a: Seq<char>)
    ensures
        text_le(a, a),
    decreases a.len(),
{
    if a.len() > 0 {
        lemma_text_le_reflexive(a.drop_first());
    }
}

pub proof fn lemma_text_le_antisymmetric(a: Seq<char>, b: Seq<char>)
    requires
        text_le(a, b),
        text_le(b, a),
    ensures
        a == b,
    decreases a.len(),
{
    if a.len() == 0 || b.len() == 0 {
        assert(a =~= b);
    } else {
        lemma_text_le_antisymmetric(a.drop_first(), b.drop_first());
        assert(a =~= seq![a[0]] + a.drop_first());
        assert(b =~= seq![b[0]] + b.drop_first());
    }
}

pub proof fn lemma_text_le_transitive(a: Seq<char>, b: Seq<char>, c: Seq<char>)
    requires
        text_le(a, b),
        text_le(b, c),
    ensures
        text_le(a, c),
    decreases a.len(),
{
    if a.len() > 0 && b.len() > 0 && c.len() > 0 && a[0] == b[0] && b[0] == c[0] {
        lemma_text_le_transitive(a.drop_first(), b.drop_first(), c.drop_first());
    }
}

pub proof fn lemma_text_le_total(a: Seq<char>, b: Seq<char>)
    ensures
        text_le(a, b) || text_le(b, a),
    decreases a.len(),
{
    if a.len() > 0 && b.len() > 0 && a[0] == b[0] {
        lemma_text_le_total(a.drop_first(), b.drop_first());
    }
}

/// The code point of a character.
fn code_point(c: char) -> (r: u32)
    ensures
        r as int == c as int,
{
    c as u32
}

/// Decides `text_le` on two strings in one pass over both.
pub fn text_le_exec(a: &str, b: &str) -> (r: bool)
    ensures
        r == text_le(a@, b@),
{
    broadcast use vstd::string::next_postcondition;
    broadcast use vstd::string::axiom_spec_iter;

    let mut ia = a.chars();
    let mut ib = b.chars();
    loop
        invariant
            text_le(a@, b@) == text_le(ia.remaining(), ib.remaining()),
            ia.decrease() is Some,
        decreases ia.decrease()->0,
    {
        match ia.next() {
            None => {
                return true;
            },
            Some(ca) => {
                match ib.next() {
                    None => {
                        return false;
                    },
                    Some(cb) => {
                        let na = code_point(ca);
                        let nb = code_point(cb);
                        if na != nb {
                            return na < nb;
                        }
                    },
                }
            },
        }
    }
}

} // verus!
