//! 256-bit unsigned arithmetic on 32-byte big-endian words.
//!
//! A word is read as a number by [`be_value`] and written back by
//! [`be_bytes`]; the arithmetic itself is done by `i256::U256`.
use vstd::prelude::*;

verus! {

/// `256^n`.
pub open spec fn radix(n: nat) -> nat
    decreases n,
{
    if n == 0 { 1 } else { 256 * radix((n - 1) as nat) }
}

/// The number that the bytes `b` spell in big-endian order.
pub open spec fn be_value(b: Seq<u8>) -> nat
    decreases b.len(),
{
    if b.len() == 0 {
        0
    } else {
        be_value(b.drop_last()) * 256 + b.last() as nat
    }
}

/// The low `n` bytes of `x`, big-endian: `x` modulo `256^n`, written out.
pub open spec fn be_bytes(x: nat, n: nat) -> Seq<u8>
    decreases n,
{
    if n == 0 {
        Seq::empty()
    } else {
        be_bytes(x / 256, (n - 1) as nat).push((x % 256) as u8)
    }
}

pub proof fn lemma_radix_pos(n: nat)
    ensures
        radix(n) > 0,
    decreases n,
{
    if n > 0 {
        lemma_radix_pos((n - 1) as nat);
    }
}

pub proof fn lemma_be_bytes_len(x: nat, n: nat)
    ensures
        be_bytes(x, n).len() == n,
    decreases n,
{
    if n > 0 {
        lemma_be_bytes_len(x / 256, (n - 1) as nat);
    }
}

/// Reading back the written bytes gives `x` modulo `256^n`.
pub proof fn lemma_be_roundtrip(x: nat, n: nat)
    ensures
        be_value(be_bytes(x, n)) == x % radix(n),
    decreases n,
{
    if n == 0 {
        assert(be_bytes(x, 0) =~= Seq::<u8>::empty());
    } else {
        let r = radix((n - 1) as nat);
        lemma_radix_pos((n - 1) as nat);
        lemma_be_roundtrip(x / 256, (n - 1) as nat);
        let s = be_bytes(x, n);
        assert(s.drop_last() =~= be_bytes(x / 256, (n - 1) as nat));
        vstd::arithmetic::div_mod::lemma_mod_breakdown(x as int, 256, r as int);
        vstd::arithmetic::div_mod::lemma_mod_bound(x as int, 256);
    }
}

/// Only `x` modulo `256^n` matters to the written bytes.
pub proof fn lemma_be_bytes_mod(x: nat, n: nat)
    ensures
        be_bytes(x, n) == be_bytes(x % radix(n), n),
    decreases n,
{
    if n > 0 {
        let r = radix((n - 1) as nat);
        lemma_radix_pos((n - 1) as nat);
        let y = x % radix(n);
        vstd::arithmetic::div_mod::lemma_mod_breakdown(x as int, 256, r as int);
        vstd::arithmetic::div_mod::lemma_mod_mod(x as int, 256, r as int);
        vstd::arithmetic::div_mod::lemma_mod_bound(x as int, 256);
        vstd::arithmetic::div_mod::lemma_mod_bound(x as int / 256, r as int);
        let q = (x / 256) % r;
        vstd::arithmetic::div_mod::lemma_div_multiples_vanish_fancy(q as int, (x % 256) as int, 256);
        assert(y / 256 == q);
        assert(y % 256 == x % 256) by {
            vstd::arithmetic::div_mod::lemma_mod_mod(x as int, 256, r as int);
        }
        lemma_be_bytes_mod(x / 256, (n - 1) as nat);
        lemma_be_bytes_mod(y / 256, (n - 1) as nat);
    }
}

/// Adding the values of two written words and writing the sum equals
/// writing the plain sum: the carry out of byte 32 is lost either way.
pub proof fn lemma_be_add(a: nat, b: nat)
    ensures
        be_bytes(be_value(be_bytes(a, 32)) + be_value(be_bytes(b, 32)), 32) == be_bytes(a + b, 32),
{
    let r = radix(32);
    lemma_radix_pos(32);
    lemma_be_roundtrip(a, 32);
    lemma_be_roundtrip(b, 32);
    vstd::arithmetic::div_mod::lemma_add_mod_noop(a as int, b as int, r as int);
    vstd::arithmetic::div_mod::lemma_mod_bound(a as int, r as int);
    vstd::arithmetic::div_mod::lemma_mod_bound(b as int, r as int);
    lemma_be_bytes_mod(((a % r) + (b % r)) as nat, 32);
    lemma_be_bytes_mod(a + b, 32);
}

/// A number below `2^128` reads back unchanged from a 32-byte word.
pub proof fn lemma_be_small(x: nat)
    requires
        x < 0x1_0000_0000_0000_0000_0000_0000_0000_0000,
    ensures
        be_value(be_bytes(x, 32)) == x,
{
    lemma_be_roundtrip(x, 32);
    reveal_with_fuel(radix, 33);
    assert(radix(32) > 0x1_0000_0000_0000_0000_0000_0000_0000_0000);
    vstd::arithmetic::div_mod::lemma_small_mod(x, radix(32));
}

/// Calls `i256::U256::wrapping_add` on the big-endian readings of `a` and
/// `b` and writes the sum back big-endian. Claimed: the result is the low 32
/// bytes of the sum.
#[verifier::external_body]
pub(crate) fn u256_wrapping_add(a: &[u8; 32], b: &[u8; 32]) -> (r: [u8; 32])
    ensures
        r@ == be_bytes(be_value(a@) + be_value(b@), 32),
{
    i256::U256::from_be_bytes(*a).wrapping_add(i256::U256::from_be_bytes(*b)).to_be_bytes()
}

/// Calls `<i256::U256 as From<u128>>::from` and writes the word big-endian.
/// Claimed: the word's value is `x`.
#[verifier::external_body]
pub(crate) fn u256_from_u128(x: u128) -> (r: [u8; 32])
    ensures
        r@ == be_bytes(x as nat, 32),
{
    i256::U256::from(x).to_be_bytes()
}

/// Calls `<i256::U256 as Rem>::rem` on the big-endian reading of `a` and the
/// word of `m`, and narrows the remainder with `as_u128`. Claimed: the result
/// is the value of `a` modulo `m` (which fits, being below `m`). The call
/// panics on a zero divisor, which `requires` leaves out.
#[verifier::external_body]
pub(crate) fn u256_rem_u128(a: &[u8; 32], m: u128) -> (r: u128)
    requires
        m > 0,
    ensures
        r == be_value(a@) % (m as nat),
{
    (i256::U256::from_be_bytes(*a) % i256::U256::from(m)).as_u128()
}

} // verus!
