//! Integer keys for binary numbers in sign-and-magnitude form.

use vstd::prelude::*;

verus! {

/// The least bit pattern with the sign bit set.
pub const SIGN: u64 = 0x8000_0000_0000_0000;

/// The key of a binary number in sign-and-magnitude form, as IEEE 754
/// lays out its doubles: a pattern without the sign bit is its own key,
/// and a pattern with it has the key minus one minus its magnitude. A
/// column of such numbers enters a table as the integers that are their
/// keys: they are ordered as the numbers are, and each number is found
/// again from its key.
pub open spec fn order_key(bits: u64) -> int {
    if bits < SIGN {
        bits as int
    } else {
        SIGN - 1 - bits
    }
}

/// The bit pattern that has the given key.
pub open spec fn key_bits(key: i64) -> int {
    if key >= 0 {
        key as int
    } else {
        SIGN - 1 - key
    }
}

/// Each pattern is found again from its key, and each key from its pattern.
pub proof fn lemma_key_round_trip(bits: u64, key: i64)
    ensures
        i64::MIN <= order_key(bits) <= i64::MAX,
        0 <= key_bits(key) <= u64::MAX,
        key_bits(order_key(bits) as i64) == bits,
        order_key(key_bits(key) as u64) == key,
{
}

/// The keys are ordered as the numbers are: of two patterns without the
/// sign bit the greater has the greater key, of two with it the one of
/// the greater magnitude has the lesser key, and every pattern with the
/// sign bit has a lesser key than any without.
pub proof fn lemma_key_order(a: u64, b: u64)
    ensures
        a < SIGN && b < SIGN ==> (order_key(a) < order_key(b) <==> a < b),
        a >= SIGN && b >= SIGN ==> (order_key(a) < order_key(b) <==> a > b),
        a >= SIGN && b < SIGN ==> order_key(a) < 0 <= order_key(b),
        order_key(a) == order_key(b) <==> a == b,
{
}

/// The key of a bit pattern.
pub fn key_of_bits(bits: u64) -> (r: i64)
    ensures
        r == order_key(bits),
{
    if bits < SIGN {
        bits as i64
    } else {
        let magnitude: u64 = bits - SIGN;
        -1 - (magnitude as i64)
    }
}

/// The bit pattern of a key.
pub fn bits_of_key(key: i64) -> (r: u64)
    ensures
        r == key_bits(key),
{
    if key >= 0 {
        key as u64
    } else {
        let magnitude: u64 = (-1 - key) as u64;
        magnitude + SIGN
    }
}

} // verus!
