//! The 32-op ALU of the chaos amplifier.
//!
//! A bucket is 24 bits: a 16-bit "fraction" lane (low) and an 8-bit
//! "exponent" lane (high). Every op reads both lanes of the bucket value
//! `val` and of a neighbour `secondary`, and writes both lanes of the result.
//! The specification below works on the lanes as numbers: `w16`/`w8` are the
//! wrap-around into a lane, `s16`/`s8` the two's-complement reading of a lane.
use vstd::prelude::*;

verus! {

// ---------------------------------------------------------------------------
// Lane arithmetic
// ---------------------------------------------------------------------------

/// `x` wrapped into a 16-bit lane.
pub open spec fn w16(x: int) -> u16 {
    (x % 0x10000) as u16
}

/// `x` wrapped into an 8-bit lane.
pub open spec fn w8(x: int) -> u8 {
    (x % 0x100) as u8
}

/// Two's-complement value of a 16-bit lane.
pub open spec fn s16(x: u16) -> int {
    if x < 0x8000 { x as int } else { x - 0x10000 }
}

/// Two's-complement value of an 8-bit lane.
pub open spec fn s8(x: u8) -> int {
    if x < 0x80 { x as int } else { x - 0x100 }
}

/// Signed saturation into a 16-bit lane.
pub open spec fn sat16(x: int) -> u16 {
    if x > 0x7FFF { 0x7FFFu16 } else if x < -0x8000 { 0x8000u16 } else { w16(x) }
}

/// Signed saturation into an 8-bit lane.
pub open spec fn sat8(x: int) -> u8 {
    if x > 0x7F { 0x7Fu8 } else if x < -0x80 { 0x80u8 } else { w8(x) }
}

/// Absolute value.
pub open spec fn abs(x: int) -> int {
    if x < 0 { -x } else { x }
}

/// The lane with the smaller signed value (`a` on a tie).
pub open spec fn smin16(a: u16, b: u16) -> u16 {
    if s16(b) < s16(a) { b } else { a }
}

pub open spec fn smax16(a: u16, b: u16) -> u16 {
    if s16(b) > s16(a) { b } else { a }
}

pub open spec fn smin8(a: u8, b: u8) -> u8 {
    if s8(b) < s8(a) { b } else { a }
}

pub open spec fn smax8(a: u8, b: u8) -> u8 {
    if s8(b) > s8(a) { b } else { a }
}

/// Rounded-up signed average, `floor((a + b + 1) / 2)`, of two 16-bit lanes.
pub open spec fn avg16(a: u16, b: u16) -> u16 {
    w16((s16(a) + s16(b) + 1) / 2)
}

pub open spec fn avg8(a: u8, b: u8) -> u8 {
    w8((s8(a) + s8(b) + 1) / 2)
}

// ---------------------------------------------------------------------------
// Bit manipulation
// ---------------------------------------------------------------------------

/// Number of one bits of `x`.
pub open spec fn popcount(x: nat) -> nat
    decreases x,
{
    if x == 0 { 0 } else { x % 2 + popcount(x / 2) }
}

/// Rotate a 16-bit word left by `s` (taken modulo 16).
pub open spec fn rotl16(x: u16, s: u16) -> u16 {
    let k = s % 16;
    if k == 0 { x } else { (x << k) | (x >> ((16 - k) as u16)) }
}

/// Rotate a 16-bit word right by `s` (taken modulo 16).
pub open spec fn rotr16(x: u16, s: u16) -> u16 {
    let k = s % 16;
    if k == 0 { x } else { (x >> k) | (x << ((16 - k) as u16)) }
}

/// Exchange the two bytes of a 16-bit word.
pub open spec fn bswap16(x: u16) -> u16 {
    ((x & 0xFF) << 8u16) | (x >> 8u16)
}

/// The 16 bits of `x` in reverse order: bit `i` goes to bit `15 - i`.
pub open spec fn rev16(x: u16) -> u16 {
    ((x & 1) << 15u16) | (((x >> 1u16) & 1) << 14u16) | (((x >> 2u16) & 1) << 13u16) | (((x >>
    3u16) & 1) << 12u16) | (((x >> 4u16) & 1) << 11u16) | (((x >> 5u16) & 1) << 10u16) | (((x >>
    6u16) & 1) << 9u16) | (((x >> 7u16) & 1) << 8u16) | (((x >> 8u16) & 1) << 7u16) | (((x >>
    9u16) & 1) << 6u16) | (((x >> 10u16) & 1) << 5u16) | (((x >> 11u16) & 1) << 4u16) | (((x >>
    12u16) & 1) << 3u16) | (((x >> 13u16) & 1) << 2u16) | (((x >> 14u16) & 1) << 1u16) | ((x >>
    15u16) & 1)
}

/// Swap the two nibbles of each byte of a 16-bit word.
pub open spec fn nibble_swap16(x: u16) -> u16 {
    ((x & 0x0F0F) << 4u16) | ((x & 0xF0F0) >> 4u16)
}

/// Multiply by `x` in GF(2^8) modulo the AES polynomial `x^8 + x^4 + x^3 + x + 1`.
pub open spec fn xtime(a: u8) -> u8 {
    if a & 0x80 != 0 { (a << 1u8) ^ 0x1B } else { a << 1u8 }
}

/// Shift-and-add product in GF(2^8) over the low `n` bits of `b`.
pub open spec fn gf_mul_bits(a: u8, b: u8, n: nat) -> u8
    decreases n,
{
    if n == 0 {
        0
    } else {
        (if b & 1 != 0 { a } else { 0u8 }) ^ gf_mul_bits(xtime(a), b >> 1u8, (n - 1) as nat)
    }
}

/// Product in GF(2^8) with the AES reduction polynomial.
pub open spec fn gf_mul8(a: u8, b: u8) -> u8 {
    gf_mul_bits(a, b, 8)
}

/// The shift-and-add product spelled out: `s0..s8` are `b` shifted right
/// by 0..8, `x0..x8` are `a` multiplied by `x` 0..8 times; each set low
/// bit of a shifted `b` adds the matching multiple of `a`.
pub open spec fn gf_sum(
    s0: u8, s1: u8, s2: u8, s3: u8, s4: u8, s5: u8, s6: u8, s7: u8, x0: u8, x1: u8, x2: u8, x3:
    u8, x4: u8, x5: u8, x6: u8, x7: u8,
) -> u8 {
    (if s0 & 1 != 0 { x0 } else { 0u8 }) ^ ((if s1 & 1 != 0 { x1 } else { 0u8 }) ^ ((if s2 & 1
    != 0 { x2 } else { 0u8 }) ^ ((if s3 & 1 != 0 { x3 } else { 0u8 }) ^ ((if s4 & 1 != 0 { x4 }
    else { 0u8 }) ^ ((if s5 & 1 != 0 { x5 } else { 0u8 }) ^ ((if s6 & 1 != 0 { x6 } else { 0u8
    }) ^ ((if s7 & 1 != 0 { x7 } else { 0u8 }) ^ 0u8)))))))
}

/// Interleave the low `k` bits of `a` and `b`: bit `i` of `a` goes to bit `2i`,
/// bit `i` of `b` to bit `2i + 1`.
pub open spec fn zip_bits(a: u8, b: u8, k: u32) -> u16
    decreases k,
{
    if k == 0 {
        0
    } else {
        let i = (k - 1) as u32;
        (zip_bits(a, b, i) | ((((a >> i) & 1) as u16) << ((2 * i) as u32))) | ((((b >> i)
            & 1) as u16) << ((2 * i + 1) as u32))
    }
}

/// Parity paint: all ones when the total bit count of `f` and `e` is odd.
pub open spec fn parity_odd(f: u16, e: u8) -> bool {
    (popcount(f as nat) + popcount(e as nat)) % 2 == 1
}

// ---------------------------------------------------------------------------
// The op menu
// ---------------------------------------------------------------------------

/// Result lanes `(fraction, exponent)` of op `op` (0..32) on the lanes of
/// `val` (`fa`, `ea`) and of `secondary` (`fb`, `eb`).
pub open spec fn op_lanes(op: u8, fa: u16, ea: u8, fb: u16, eb: u8) -> (u16, u8) {
    let sh = fb & 15;
    let sh_self = fa & 15;
    if op == 0 {
        (w16(fa + fb), w8(ea + eb))
    } else if op == 1 {
        (w16(fa - fb), w8(ea - eb))
    } else if op == 2 {
        (w16(fa * fb), w8(ea * eb))
    } else if op == 3 {
        (fa & fb, ea & eb)
    } else if op == 4 {
        (fa | fb, ea | eb)
    } else if op == 5 {
        (fa ^ fb, ea ^ eb)
    } else if op == 6 {
        (fa & !fb, ea & !eb)
    } else if op == 7 {
        (!fa ^ fb, !ea ^ eb)
    } else if op == 8 {
        ((fa << sh) ^ fb, ea ^ eb)
    } else if op == 9 {
        ((fa >> sh) ^ fb, ea ^ eb)
    } else if op == 10 {
        (rotl16(fa, sh) ^ fb, ea ^ eb)
    } else if op == 11 {
        (rotr16(fa, sh) ^ fb, ea ^ eb)
    } else if op == 12 {
        (rotl16(fa, sh_self) ^ fb, ea ^ eb)
    } else if op == 13 {
        (w16(-s16(fa)) ^ fb, w8(-s8(ea)) ^ eb)
    } else if op == 14 {
        (w16(abs(s16(fa)) + s16(fb)), w8(abs(s8(ea)) + s8(eb)))
    } else if op == 15 {
        (bswap16(fa) ^ fb, ea ^ eb)
    } else if op == 16 {
        (smin16(fa, fb), smin8(ea, eb))
    } else if op == 17 {
        (smax16(fa, fb), smax8(ea, eb))
    } else if op == 18 {
        (((fa ^ fb) & 0xFF00) | (popcount((fa ^ fb) as nat) as u16), ea ^ eb)
    } else if op == 19 {
        (sat16(s16(fa) + s16(fb)), sat8(s8(ea) + s8(eb)))
    } else if op == 20 {
        (sat16(s16(fa) - s16(fb)), sat8(s8(ea) - s8(eb)))
    } else if op == 21 {
        if s16(fa) < s16(fb) {
            (rotl16(fb, 8) ^ fa, eb ^ ea)
        } else {
            (fa ^ fb, ea ^ eb)
        }
    } else if op == 22 {
        (((fa & 0xFF00) | (gf_mul8(fa as u8, fb as u8) as u16)) ^ fb, ea ^ eb)
    } else if op == 23 {
        if parity_odd(fa, ea) {
            (!fb, !eb)
        } else {
            (fb, eb)
        }
    } else if op == 24 {
        (rev16(fa) ^ fb, ea ^ eb)
    } else if op == 25 {
        (nibble_swap16(fa) ^ fb, ea ^ eb)
    } else if op == 26 {
        (avg16(fa, fb), avg8(ea, eb))
    } else if op == 27 {
        (((fa >> 1u16) ^ (if fa & 1 == 1 { 0xB400u16 } else { 0u16 })) ^ fb, ea ^ eb)
    } else if op == 28 {
        ((((fa & 0xFF) << 8u16) | (fa & 0xFF)) ^ fb, ea ^ eb)
    } else if op == 29 {
        let s = ((fa ^ fb) as u8) ^ (((fa ^ fb) >> 8u16) as u8) ^ ea ^ eb;
        (((s as u16) * 0x101) as u16, s)
    } else if op == 30 {
        (zip_bits(fa as u8, fb as u8, 8), ea ^ eb)
    } else {
        (
            ((popcount(fb as nat) * 0x100) + popcount(fa as nat)) as u16,
            popcount((ea + eb) as nat) as u8,
        )
    }
}

/// Fraction lane of a bucket value.
pub open spec fn frac_of(v: u32) -> u16 {
    (v % 0x10000) as u16
}

/// Exponent lane of a bucket value.
pub open spec fn exp_of(v: u32) -> u8 {
    ((v / 0x10000) % 0x100) as u8
}

/// Join two lanes into a 24-bit bucket value.
pub open spec fn join_lanes(f: u16, e: u8) -> u32 {
    (f + e * 0x10000) as u32
}

/// Result of the ALU: op `op_idx & 31` on bucket `val` with neighbour `secondary`.
pub open spec fn spec_op_apply(op_idx: u8, val: u32, secondary: u32) -> u32 {
    let r = op_lanes(op_idx & 0x1F, frac_of(val), exp_of(val), frac_of(secondary), exp_of(secondary));
    join_lanes(r.0, r.1)
}

// ---------------------------------------------------------------------------
// Executable lane helpers
// ---------------------------------------------------------------------------

/// Wrap a signed intermediate into a 16-bit lane.
fn wrap16(x: i64) -> (r: u16)
    requires
        -0x100_0000_0000 <= x <= 0x100_0000_0000,
    ensures
        r == w16(x as int),
{
    proof {
        vstd::arithmetic::div_mod::lemma_mod_multiples_vanish(0x100_0000, x as int, 0x10000);
    }
    ((x + 0x100_0000_0000) % 0x10000) as u16
}

/// Wrap a signed intermediate into an 8-bit lane.
fn wrap8(x: i64) -> (r: u8)
    requires
        -0x100_0000_0000 <= x <= 0x100_0000_0000,
    ensures
        r == w8(x as int),
{
    proof {
        vstd::arithmetic::div_mod::lemma_mod_multiples_vanish(0x1_0000_0000, x as int, 0x100);
    }
    ((x + 0x100_0000_0000) % 0x100) as u8
}

/// Two's-complement value of a 16-bit lane.
fn signed16(x: u16) -> (r: i64)
    ensures
        r == s16(x),
{
    if x < 0x8000 { x as i64 } else { x as i64 - 0x10000 }
}

/// Two's-complement value of an 8-bit lane.
fn signed8(x: u8) -> (r: i64)
    ensures
        r == s8(x),
{
    if x < 0x80 { x as i64 } else { x as i64 - 0x100 }
}

fn abs_i64(x: i64) -> (r: i64)
    requires
        x > i64::MIN,
    ensures
        r == abs(x as int),
{
    if x < 0 { -x } else { x }
}

fn saturate16(x: i64) -> (r: u16)
    requires
        -0x1_0000 <= x <= 0x1_0000,
    ensures
        r == sat16(x as int),
{
    if x > 0x7FFF { 0x7FFF } else if x < -0x8000 { 0x8000 } else { wrap16(x) }
}

fn saturate8(x: i64) -> (r: u8)
    requires
        -0x100 <= x <= 0x100,
    ensures
        r == sat8(x as int),
{
    if x > 0x7F { 0x7F } else if x < -0x80 { 0x80 } else { wrap8(x) }
}

/// Floor of `x / 2` for a possibly negative `x`.
fn half_floor(x: i64) -> (r: i64)
    requires
        -0x1_0000 <= x <= 0x1_0000,
    ensures
        r == x / 2,
{
    (x + 0x2_0000) / 2 - 0x1_0000
}

proof fn lemma_popcount_bound(x: nat, n: nat)
    requires
        x < vstd::arithmetic::power2::pow2(n),
    ensures
        popcount(x) <= n,
    decreases n,
{
    if n == 0 {
        vstd::arithmetic::power2::lemma2_to64();
        assert(x == 0);
    } else {
        vstd::arithmetic::power2::lemma_pow2_unfold(n);
        if x > 0 {
            lemma_popcount_bound(x / 2, (n - 1) as nat);
        }
    }
}

/// Number of one bits of a 16-bit word.
fn popcount16(x: u16) -> (r: u16)
    ensures
        r == popcount(x as nat),
        r <= 16,
{
    proof {
        vstd::arithmetic::power2::lemma2_to64();
        lemma_popcount_bound(x as nat, 16);
    }
    let mut c: u16 = 0;
    let mut y: u16 = x;
    while y != 0
        invariant
            c + popcount(y as nat) == popcount(x as nat),
            popcount(x as nat) <= 16,
        decreases y,
    {
        assert(y & 1 == y % 2 && y >> 1 == y / 2) by (bit_vector);
        c = c + (y & 1);
        y = y >> 1;
    }
    c
}

fn rotate_left16(x: u16, s: u16) -> (r: u16)
    ensures
        r == rotl16(x, s),
{
    let k = s % 16;
    if k == 0 { x } else { (x << k) | (x >> (16 - k)) }
}

fn rotate_right16(x: u16, s: u16) -> (r: u16)
    ensures
        r == rotr16(x, s),
{
    let k = s % 16;
    if k == 0 { x } else { (x >> k) | (x << (16 - k)) }
}

/// The 16 bits of `x` in reverse order: swap adjacent bits, then pairs,
/// nibbles and bytes.
fn reverse16(x: u16) -> (r: u16)
    ensures
        r == rev16(x),
{
    let a = ((x >> 1) & 0x5555) | ((x & 0x5555) << 1);
    let b = ((a >> 2) & 0x3333) | ((a & 0x3333) << 2);
    let c = ((b >> 4) & 0x0F0F) | ((b & 0x0F0F) << 4);
    let d = (c >> 8) | (c << 8);
    assert(d == rev16(x)) by (bit_vector)
        requires
            a == ((x >> 1) & 0x5555) | ((x & 0x5555) << 1),
            b == ((a >> 2) & 0x3333) | ((a & 0x3333) << 2),
            c == ((b >> 4) & 0x0F0F) | ((b & 0x0F0F) << 4),
            d == (c >> 8) | (c << 8),
    ;
    d
}

/// Multiply in GF(2^8) with the AES polynomial: eight conditional XORs.
pub fn gf_mul(a0: u8, b0: u8) -> (r: u8)
    ensures
        r == gf_mul8(a0, b0),
{
    let mut p: u8 = 0;
    let mut a = a0;
    let mut b = b0;
    let mut k: u32 = 0;
    assert(0u8 ^ gf_mul8(a0, b0) == gf_mul8(a0, b0)) by (bit_vector);
    while k < 8
        invariant
            k <= 8,
            p ^ gf_mul_bits(a, b, (8 - k) as nat) == gf_mul8(a0, b0),
        decreases 8 - k,
    {
        let ghost g = gf_mul_bits(xtime(a), b >> 1u8, (8 - k - 1) as nat);
        let ghost t: u8 = if b & 1 != 0 { a } else { 0u8 };
        let ghost a_old = a;
        let ghost b_old = b;
        let ghost p_old = p;
        assert((p ^ t) ^ g == p ^ (t ^ g)) by (bit_vector);
        assert(p ^ 0u8 == p) by (bit_vector);
        if (b & 1) != 0 {
            p ^= a;
        }
        let hi = (a & 0x80) != 0;
        a <<= 1;
        if hi {
            a ^= 0x1B;
        }
        b >>= 1;
        k = k + 1;
        assert(a == xtime(a_old));
        assert(b == b_old >> 1u8);
        assert(p == p_old ^ t);
        assert(gf_mul_bits(a_old, b_old, (8 - k + 1) as nat) == t ^ g);
    }
    assert(p ^ 0u8 == p) by (bit_vector);
    p
}

/// Interleave the bits of two bytes.
fn zip8(a: u8, b: u8) -> (r: u16)
    ensures
        r == zip_bits(a, b, 8),
{
    let mut z: u16 = 0;
    let mut i: u32 = 0;
    while i < 8
        invariant
            i <= 8,
            z == zip_bits(a, b, i),
        decreases 8 - i,
    {
        z |= (((a >> i) & 1) as u16) << (2 * i);
        z |= (((b >> i) & 1) as u16) << (2 * i + 1);
        i = i + 1;
    }
    z
}

/// Ops 0..16: wrapping arithmetic, bitwise logic, shifts and rotations.
fn lanes_low(op: u8, fa: u16, ea: u8, fb: u16, eb: u8) -> (r: (u16, u8))
    requires
        op < 16,
    ensures
        r == op_lanes(op, fa, ea, fb, eb),
{
    let sh: u16 = fb & 15;
    let sh_self: u16 = fa & 15;
    assert(sh < 16 && sh_self < 16) by (bit_vector)
        requires
            sh == fb & 15,
            sh_self == fa & 15,
    ;
    if op == 0 {
        (wrap16(fa as i64 + fb as i64), wrap8(ea as i64 + eb as i64))
    } else if op == 1 {
        (wrap16(fa as i64 - fb as i64), wrap8(ea as i64 - eb as i64))
    } else if op == 2 {
        assert(0 <= (fa as int) * (fb as int) <= 0xFFFF * 0xFFFF) by (nonlinear_arith)
            requires
                fa <= 0xFFFF,
                fb <= 0xFFFF,
        ;
        assert(0 <= (ea as int) * (eb as int) <= 0xFF * 0xFF) by (nonlinear_arith)
            requires
                ea <= 0xFF,
                eb <= 0xFF,
        ;
        (wrap16(fa as i64 * fb as i64), wrap8(ea as i64 * eb as i64))
    } else if op == 3 {
        (fa & fb, ea & eb)
    } else if op == 4 {
        (fa | fb, ea | eb)
    } else if op == 5 {
        (fa ^ fb, ea ^ eb)
    } else if op == 6 {
        (fa & !fb, ea & !eb)
    } else if op == 7 {
        (!fa ^ fb, !ea ^ eb)
    } else if op == 8 {
        ((fa << sh) ^ fb, ea ^ eb)
    } else if op == 9 {
        ((fa >> sh) ^ fb, ea ^ eb)
    } else if op == 10 {
        (rotate_left16(fa, sh) ^ fb, ea ^ eb)
    } else if op == 11 {
        (rotate_right16(fa, sh) ^ fb, ea ^ eb)
    } else if op == 12 {
        (rotate_left16(fa, sh_self) ^ fb, ea ^ eb)
    } else if op == 13 {
        (wrap16(-signed16(fa)) ^ fb, wrap8(-signed8(ea)) ^ eb)
    } else if op == 14 {
        (
            wrap16(abs_i64(signed16(fa)) + signed16(fb)),
            wrap8(abs_i64(signed8(ea)) + signed8(eb)),
        )
    } else {
        ((((fa & 0xFF) << 8) | (fa >> 8)) ^ fb, ea ^ eb)
    }
}

/// Ops 16..32: signed min/max, saturation, population counts, the CSWAP
/// branch, GF(2^8) multiply, parity, bit/nibble reversal, averaging, an LFSR
/// step, byte replication, byte folding, bit interleaving.
fn lanes_high(op: u8, fa: u16, ea: u8, fb: u16, eb: u8) -> (r: (u16, u8))
    requires
        16 <= op < 32,
    ensures
        r == op_lanes(op, fa, ea, fb, eb),
{
    if op == 16 {
        (
            if signed16(fb) < signed16(fa) { fb } else { fa },
            if signed8(eb) < signed8(ea) { eb } else { ea },
        )
    } else if op == 17 {
        (
            if signed16(fb) > signed16(fa) { fb } else { fa },
            if signed8(eb) > signed8(ea) { eb } else { ea },
        )
    } else if op == 18 {
        let xor = fa ^ fb;
        let pc = popcount16(xor) as u8;
        let preserved = ((fa >> 8) ^ (fb >> 8)) as u8;
        let f = ((preserved as u16) << 8) | (pc as u16);
        assert(f == (xor & 0xFF00) | (pc as u16)) by (bit_vector)
            requires
                xor == fa ^ fb,
                preserved == ((fa >> 8) ^ (fb >> 8)) as u8,
                f == ((preserved as u16) << 8) | (pc as u16),
        ;
        (f, ea ^ eb)
    } else if op == 19 {
        (saturate16(signed16(fa) + signed16(fb)), saturate8(signed8(ea) + signed8(eb)))
    } else if op == 20 {
        (saturate16(signed16(fa) - signed16(fb)), saturate8(signed8(ea) - signed8(eb)))
    } else if op == 21 {
        if signed16(fa) < signed16(fb) {
            (rotate_left16(fb, 8) ^ fa, eb ^ ea)
        } else {
            (fa ^ fb, ea ^ eb)
        }
    } else if op == 22 {
        let lo = gf_mul(fa as u8, fb as u8);
        (((fa & 0xFF00) | lo as u16) ^ fb, ea ^ eb)
    } else if op == 23 {
        let pf = popcount16(fa);
        let pe = popcount16(ea as u16);
        let sum = pf + pe;
        let p = sum & 1;
        assert((p == 1) == (sum % 2 == 1)) by (bit_vector)
            requires
                p == sum & 1,
        ;
        let paint16: u16 = if p == 1 { 0xFFFF } else { 0x0000 };
        let paint8: u8 = if p == 1 { 0xFF } else { 0x00 };
        assert(0xFFFFu16 ^ fb == !fb && 0x0000u16 ^ fb == fb) by (bit_vector);
        assert(0xFFu8 ^ eb == !eb && 0x00u8 ^ eb == eb) by (bit_vector);
        (paint16 ^ fb, paint8 ^ eb)
    } else if op == 24 {
        (reverse16(fa) ^ fb, ea ^ eb)
    } else if op == 25 {
        let lo = ((fa & 0x000F) << 4) | ((fa & 0x00F0) >> 4);
        let hi = ((fa & 0x0F00) << 4) | ((fa & 0xF000) >> 4);
        assert(lo | hi == nibble_swap16(fa)) by (bit_vector)
            requires
                lo == ((fa & 0x000F) << 4) | ((fa & 0x00F0) >> 4),
                hi == ((fa & 0x0F00) << 4) | ((fa & 0xF000) >> 4),
        ;
        ((lo | hi) ^ fb, ea ^ eb)
    } else if op == 26 {
        (
            wrap16(half_floor(signed16(fa) + signed16(fb) + 1)),
            wrap8(half_floor(signed8(ea) + signed8(eb) + 1)),
        )
    } else if op == 27 {
        let lsb = fa & 1;
        let stepped = (fa >> 1) ^ (if lsb == 1 { 0xB400u16 } else { 0u16 });
        (stepped ^ fb, ea ^ eb)
    } else if op == 28 {
        let lo = (fa & 0xFF) as u8;
        let e = ((lo as u16) << 8) | (lo as u16);
        assert(e == ((fa & 0xFF) << 8u16) | (fa & 0xFF)) by (bit_vector)
            requires
                lo == (fa & 0xFF) as u8,
                e == ((lo as u16) << 8) | (lo as u16),
        ;
        (e ^ fb, ea ^ eb)
    } else if op == 29 {
        let x = fa ^ fb;
        let sq = ((x & 0xFF) as u8) ^ ((x >> 8) as u8) ^ ea ^ eb;
        let f = ((sq as u16) << 8) | (sq as u16);
        assert(f == ((sq as u16) * 0x101) as u16 && (x & 0xFF) as u8 == x as u8) by (bit_vector)
            requires
                f == ((sq as u16) << 8) | (sq as u16),
        ;
        (f, sq)
    } else if op == 30 {
        assert((fa & 0xFF) as u8 == fa as u8 && (fb & 0xFF) as u8 == fb as u8) by (bit_vector);
        (zip8((fa & 0xFF) as u8, (fb & 0xFF) as u8), ea ^ eb)
    } else {
        let pa = popcount16(fa);
        let pb = popcount16(fb);
        let pe = popcount16(ea as u16 + eb as u16);
        let f = (pb << 8) | pa;
        assert(f == pb * 0x100 + pa) by (bit_vector)
            requires
                f == (pb << 8) | pa,
                pa <= 16,
                pb <= 16,
        ;
        (f, pe as u8)
    }
}

/// The 32-op ALU: op `op_idx & 31` on bucket `val` with neighbour `secondary`.
/// The result is a 24-bit bucket value.
pub fn op_apply(op_idx: u8, val: u32, secondary: u32) -> (r: u32)
    ensures
        r == spec_op_apply(op_idx, val, secondary),
        r < 0x100_0000,
{
    let fa = (val & 0xFFFF) as u16;
    let ea = ((val >> 16) & 0xFF) as u8;
    let fb = (secondary & 0xFFFF) as u16;
    let eb = ((secondary >> 16) & 0xFF) as u8;
    assert(fa == frac_of(val) && ea == exp_of(val)) by (bit_vector)
        requires
            fa == (val & 0xFFFF) as u16,
            ea == ((val >> 16) & 0xFF) as u8,
    ;
    assert(fb == frac_of(secondary) && eb == exp_of(secondary)) by (bit_vector)
        requires
            fb == (secondary & 0xFFFF) as u16,
            eb == ((secondary >> 16) & 0xFF) as u8,
    ;
    let op = op_idx & 0x1F;
    assert(op < 32) by (bit_vector)
        requires
            op == op_idx & 0x1F,
    ;
    let (nf, ne) = if op < 16 {
        lanes_low(op, fa, ea, fb, eb)
    } else {
        lanes_high(op, fa, ea, fb, eb)
    };
    let r = (nf as u32) | ((ne as u32) << 16);
    assert(r == nf + ne * 0x10000 && r < 0x100_0000) by (bit_vector)
        requires
            r == (nf as u32) | ((ne as u32) << 16),
    ;
    r
}

// ---------------------------------------------------------------------------
// Laws
// ---------------------------------------------------------------------------

/// Every op result fits in a 24-bit bucket.
pub proof fn lemma_op_result_24_bit(op_idx: u8, val: u32, secondary: u32)
    ensures
        spec_op_apply(op_idx, val, secondary) < 0x100_0000,
{
}

/// Shift amounts are the low nibble of a lane, and a zero shift keeps the lane.
proof fn lemma_shift_nibble(x: u16)
    by (bit_vector)
    ensures
        x & 15 < 16,
        x >> 0u16 == x,
        x << 0u16 == x,
{
}

/// The result lanes of op `op` are the lanes that `op_lanes` gives on the
/// lanes of the two buckets.
proof fn lemma_result_lanes(op: u8, val: u32, secondary: u32)
    requires
        op < 32,
    ensures
        frac_of(spec_op_apply(op, val, secondary)) == op_lanes(
            op,
            frac_of(val),
            exp_of(val),
            frac_of(secondary),
            exp_of(secondary),
        ).0,
        exp_of(spec_op_apply(op, val, secondary)) == op_lanes(
            op,
            frac_of(val),
            exp_of(val),
            frac_of(secondary),
            exp_of(secondary),
        ).1,
{
    let fa = frac_of(val);
    let ea = exp_of(val);
    let fb = frac_of(secondary);
    let eb = exp_of(secondary);
    lemma_bitwise_lanes_injective(op, fa, fa, fb, ea, ea, eb);
    let r = op_lanes(op, fa, ea, fb, eb);
    assert(spec_op_apply(op, val, secondary) == join_lanes(r.0, r.1));
}

/// ADD, lane by lane.
proof fn lemma_op_add_lanes(val: u32, secondary: u32)
    ensures
        ({
            let fa = frac_of(val);
            let ea = exp_of(val);
            let fb = frac_of(secondary);
            let eb = exp_of(secondary);
            let add = spec_op_apply(0, val, secondary);
            &&& frac_of(add) == (fa + fb) % 0x10000
            &&& exp_of(add) == (ea + eb) % 0x100
        }),
{
    lemma_result_lanes(0, val, secondary);
}

/// SUB, lane by lane.
proof fn lemma_op_sub_lanes(val: u32, secondary: u32)
    ensures
        ({
            let fa = frac_of(val);
            let ea = exp_of(val);
            let fb = frac_of(secondary);
            let eb = exp_of(secondary);
            let sub = spec_op_apply(1, val, secondary);
            &&& frac_of(sub) == (fa - fb) % 0x10000
            &&& exp_of(sub) == (ea - eb) % 0x100
        }),
{
    lemma_result_lanes(1, val, secondary);
}

/// MUL, lane by lane.
proof fn lemma_op_mul_lanes(val: u32, secondary: u32)
    ensures
        ({
            let fa = frac_of(val);
            let ea = exp_of(val);
            let fb = frac_of(secondary);
            let eb = exp_of(secondary);
            let mul = spec_op_apply(2, val, secondary);
            &&& frac_of(mul) == (fa * fb) % 0x10000
            &&& exp_of(mul) == (ea * eb) % 0x100
        }),
{
    lemma_result_lanes(2, val, secondary);
}

/// NEG, lane by lane.
proof fn lemma_op_neg_lanes(val: u32, secondary: u32)
    ensures
        ({
            let fa = frac_of(val);
            let ea = exp_of(val);
            let fb = frac_of(secondary);
            let eb = exp_of(secondary);
            let neg = spec_op_apply(13, val, secondary);
            &&& frac_of(neg) == (((0x10000 - fa) % 0x10000) as u16) ^ fb
            &&& exp_of(neg) == (((0x100 - ea) % 0x100) as u8) ^ eb
        }),
{
    lemma_result_lanes(13, val, secondary);
}

/// ADD, SUB, MUL and NEG wrap around in each lane: on the lanes `fa`, `ea`
/// of `val` and `fb`, `eb` of `secondary`, ADD gives `(fa + fb) mod 2^16`
/// and `(ea + eb) mod 2^8`, SUB and MUL likewise; NEG gives the
/// two's-complement negation of `val`'s lanes, XORed with the neighbour's.
pub proof fn lemma_ops_wrapping_arith(val: u32, secondary: u32)
    ensures
        ({
            let fa = frac_of(val);
            let ea = exp_of(val);
            let fb = frac_of(secondary);
            let eb = exp_of(secondary);
            let add = spec_op_apply(0, val, secondary);
            let sub = spec_op_apply(1, val, secondary);
            let mul = spec_op_apply(2, val, secondary);
            let neg = spec_op_apply(13, val, secondary);
            &&& frac_of(add) == (fa + fb) % 0x10000
            &&& exp_of(add) == (ea + eb) % 0x100
            &&& frac_of(sub) == (fa - fb) % 0x10000
            &&& exp_of(sub) == (ea - eb) % 0x100
            &&& frac_of(mul) == (fa * fb) % 0x10000
            &&& exp_of(mul) == (ea * eb) % 0x100
            &&& frac_of(neg) == (((0x10000 - fa) % 0x10000) as u16) ^ fb
            &&& exp_of(neg) == (((0x100 - ea) % 0x100) as u8) ^ eb
        }),
{
    lemma_op_add_lanes(val, secondary);
    lemma_op_sub_lanes(val, secondary);
    lemma_op_mul_lanes(val, secondary);
    lemma_op_neg_lanes(val, secondary);
}

/// AND, OR, XOR, ANDN and NOT-XOR act bit by bit on each lane.
pub proof fn lemma_ops_bitwise(val: u32, secondary: u32)
    ensures
        ({
            let fa = frac_of(val);
            let ea = exp_of(val);
            let fb = frac_of(secondary);
            let eb = exp_of(secondary);
            let and = spec_op_apply(3, val, secondary);
            let or = spec_op_apply(4, val, secondary);
            let xor = spec_op_apply(5, val, secondary);
            let andn = spec_op_apply(6, val, secondary);
            let xnor = spec_op_apply(7, val, secondary);
            &&& frac_of(and) == fa & fb
            &&& exp_of(and) == ea & eb
            &&& frac_of(or) == fa | fb
            &&& exp_of(or) == ea | eb
            &&& frac_of(xor) == fa ^ fb
            &&& exp_of(xor) == ea ^ eb
            &&& frac_of(andn) == fa & !fb
            &&& exp_of(andn) == ea & !eb
            &&& frac_of(xnor) == !fa ^ fb
            &&& exp_of(xnor) == !ea ^ eb
        }),
{
    lemma_result_lanes(3, val, secondary);
    lemma_result_lanes(4, val, secondary);
    lemma_result_lanes(5, val, secondary);
    lemma_result_lanes(6, val, secondary);
    lemma_result_lanes(7, val, secondary);
}

/// SHL and SHR shift the fraction lane of `val` by the low nibble of the
/// neighbour's fraction lane, then XOR in the neighbour; a zero shift amount
/// leaves the lane as it is, so the result is then a plain XOR. The
/// exponent lane is the XOR of the two exponents.
pub proof fn lemma_ops_shifts(val: u32, secondary: u32)
    ensures
        ({
            let fa = frac_of(val);
            let ea = exp_of(val);
            let fb = frac_of(secondary);
            let eb = exp_of(secondary);
            let shl = spec_op_apply(8, val, secondary);
            let shr = spec_op_apply(9, val, secondary);
            &&& frac_of(shl) == (fa << (fb & 15)) ^ fb
            &&& fb & 15 == 0 ==> frac_of(shl) == fa ^ fb
            &&& exp_of(shl) == ea ^ eb
            &&& frac_of(shr) == (fa >> (fb & 15)) ^ fb
            &&& fb & 15 == 0 ==> frac_of(shr) == fa ^ fb
            &&& exp_of(shr) == ea ^ eb
        }),
{
    lemma_shift_nibble(frac_of(val));
    lemma_shift_nibble(frac_of(secondary));
    lemma_result_lanes(8, val, secondary);
    lemma_result_lanes(9, val, secondary);
}

/// ROL_B and ROR_B rotate the fraction lane of `val` by the low nibble of
/// the neighbour's fraction lane, ROL_S by its own low nibble, BSWAP
/// exchanges its two bytes; each then XORs in the neighbour. The exponent
/// lane is the XOR of the two exponents.
pub proof fn lemma_ops_rotations(val: u32, secondary: u32)
    ensures
        ({
            let fa = frac_of(val);
            let ea = exp_of(val);
            let fb = frac_of(secondary);
            let eb = exp_of(secondary);
            let rol_b = spec_op_apply(10, val, secondary);
            let ror_b = spec_op_apply(11, val, secondary);
            let rol_s = spec_op_apply(12, val, secondary);
            let bswap = spec_op_apply(15, val, secondary);
            &&& frac_of(rol_b) == (if fb & 15 == 0 {
                    fa
                } else {
                    (fa << (fb & 15)) | (fa >> ((16 - (fb & 15)) as u16))
                }) ^ fb
            &&& exp_of(rol_b) == ea ^ eb
            &&& frac_of(ror_b) == (if fb & 15 == 0 {
                    fa
                } else {
                    (fa >> (fb & 15)) | (fa << ((16 - (fb & 15)) as u16))
                }) ^ fb
            &&& exp_of(ror_b) == ea ^ eb
            &&& frac_of(rol_s) == (if fa & 15 == 0 {
                    fa
                } else {
                    (fa << (fa & 15)) | (fa >> ((16 - (fa & 15)) as u16))
                }) ^ fb
            &&& exp_of(rol_s) == ea ^ eb
            &&& frac_of(bswap) == (((fa & 0xFF) << 8u16) | (fa >> 8u16)) ^ fb
            &&& exp_of(bswap) == ea ^ eb
        }),
{
    lemma_shift_nibble(frac_of(val));
    lemma_shift_nibble(frac_of(secondary));
    lemma_result_lanes(10, val, secondary);
    lemma_result_lanes(11, val, secondary);
    lemma_result_lanes(12, val, secondary);
    lemma_result_lanes(15, val, secondary);
}

/// ABS_ADD, lane by lane.
proof fn lemma_op_abs_add_lanes(val: u32, secondary: u32)
    ensures
        ({
            let fa = frac_of(val);
            let ea = exp_of(val);
            let fb = frac_of(secondary);
            let eb = exp_of(secondary);
            let abs_add = spec_op_apply(14, val, secondary);
            &&& frac_of(abs_add) == ((if s16(fa) < 0 { -s16(fa) } else { s16(fa) }) + s16(fb)) % 0x10000
            &&& exp_of(abs_add) == ((if s8(ea) < 0 { -s8(ea) } else { s8(ea) }) + s8(eb)) % 0x100
        }),
{
    lemma_result_lanes(14, val, secondary);
}

/// SMIN, lane by lane.
proof fn lemma_op_smin_lanes(val: u32, secondary: u32)
    ensures
        ({
            let fa = frac_of(val);
            let ea = exp_of(val);
            let fb = frac_of(secondary);
            let eb = exp_of(secondary);
            let smin = spec_op_apply(16, val, secondary);
            &&& frac_of(smin) == fa || frac_of(smin) == fb
            &&& s16(frac_of(smin)) <= s16(fa) && s16(frac_of(smin)) <= s16(fb)
            &&& exp_of(smin) == ea || exp_of(smin) == eb
            &&& s8(exp_of(smin)) <= s8(ea) && s8(exp_of(smin)) <= s8(eb)
        }),
{
    lemma_result_lanes(16, val, secondary);
}

/// SMAX, lane by lane.
proof fn lemma_op_smax_lanes(val: u32, secondary: u32)
    ensures
        ({
            let fa = frac_of(val);
            let ea = exp_of(val);
            let fb = frac_of(secondary);
            let eb = exp_of(secondary);
            let smax = spec_op_apply(17, val, secondary);
            &&& frac_of(smax) == fa || frac_of(smax) == fb
            &&& s16(frac_of(smax)) >= s16(fa) && s16(frac_of(smax)) >= s16(fb)
            &&& exp_of(smax) == ea || exp_of(smax) == eb
            &&& s8(exp_of(smax)) >= s8(ea) && s8(exp_of(smax)) >= s8(eb)
        }),
{
    lemma_result_lanes(17, val, secondary);
}

/// SADD, lane by lane.
proof fn lemma_op_sadd_lanes(val: u32, secondary: u32)
    ensures
        ({
            let fa = frac_of(val);
            let ea = exp_of(val);
            let fb = frac_of(secondary);
            let eb = exp_of(secondary);
            let sadd = spec_op_apply(19, val, secondary);
            &&& s16(frac_of(sadd)) == (if s16(fa) + s16(fb) > 0x7FFF {
                    0x7FFF
                } else if s16(fa) + s16(fb) < -0x8000 {
                    -0x8000
                } else {
                    s16(fa) + s16(fb)
                })
            &&& s8(exp_of(sadd)) == (if s8(ea) + s8(eb) > 0x7F {
                    0x7F
                } else if s8(ea) + s8(eb) < -0x80 {
                    -0x80
                } else {
                    s8(ea) + s8(eb)
                })
        }),
{
    lemma_result_lanes(19, val, secondary);
}

/// SSUB, lane by lane.
proof fn lemma_op_ssub_lanes(val: u32, secondary: u32)
    ensures
        ({
            let fa = frac_of(val);
            let ea = exp_of(val);
            let fb = frac_of(secondary);
            let eb = exp_of(secondary);
            let ssub = spec_op_apply(20, val, secondary);
            &&& s16(frac_of(ssub)) == (if s16(fa) - s16(fb) > 0x7FFF {
                    0x7FFF
                } else if s16(fa) - s16(fb) < -0x8000 {
                    -0x8000
                } else {
                    s16(fa) - s16(fb)
                })
            &&& s8(exp_of(ssub)) == (if s8(ea) - s8(eb) > 0x7F {
                    0x7F
                } else if s8(ea) - s8(eb) < -0x80 {
                    -0x80
                } else {
                    s8(ea) - s8(eb)
                })
        }),
{
    lemma_result_lanes(20, val, secondary);
}

/// CSWAP, lane by lane.
proof fn lemma_op_cswap_lanes(val: u32, secondary: u32)
    ensures
        ({
            let fa = frac_of(val);
            let ea = exp_of(val);
            let fb = frac_of(secondary);
            let eb = exp_of(secondary);
            let cswap = spec_op_apply(21, val, secondary);
            &&& frac_of(cswap) == (if s16(fa) < s16(fb) {
                    ((fb << 8u16) | (fb >> 8u16)) ^ fa
                } else {
                    fa ^ fb
                })
            &&& exp_of(cswap) == (if s16(fa) < s16(fb) { eb ^ ea } else { ea ^ eb })
        }),
{
    lemma_result_lanes(21, val, secondary);
}

/// AVG, lane by lane.
proof fn lemma_op_avg_lanes(val: u32, secondary: u32)
    ensures
        ({
            let fa = frac_of(val);
            let ea = exp_of(val);
            let fb = frac_of(secondary);
            let eb = exp_of(secondary);
            let avg = spec_op_apply(26, val, secondary);
            &&& s16(frac_of(avg)) == (s16(fa) + s16(fb) + 1) / 2
            &&& s8(exp_of(avg)) == (s8(ea) + s8(eb) + 1) / 2
        }),
{
    let q16 = (s16(frac_of(val)) + s16(frac_of(secondary)) + 1) / 2;
    let q8 = (s8(exp_of(val)) + s8(exp_of(secondary)) + 1) / 2;
    assert(-0x8000 <= q16 <= 0x7FFF && -0x80 <= q8 <= 0x7F);
    assert(s16(avg16(frac_of(val), frac_of(secondary))) == q16);
    assert(s8(avg8(exp_of(val), exp_of(secondary))) == q8);
    lemma_result_lanes(26, val, secondary);
}

/// The signed ops, read on the two's-complement values of the lanes:
/// ABS_ADD adds `|fa|` to `fb` with wrap-around; SMIN and SMAX pick one of
/// the two lanes, the smaller or the larger; SADD and SSUB clamp the exact
/// sum or difference into the lane's range; CSWAP, when `fa < fb`, puts
/// `fb` with its bytes exchanged over `fa` and otherwise XORs; AVG is the
/// rounded-up mean `floor((a + b + 1) / 2)`.
pub proof fn lemma_ops_signed(val: u32, secondary: u32)
    ensures
        ({
            let fa = frac_of(val);
            let ea = exp_of(val);
            let fb = frac_of(secondary);
            let eb = exp_of(secondary);
            let abs_add = spec_op_apply(14, val, secondary);
            let smin = spec_op_apply(16, val, secondary);
            let smax = spec_op_apply(17, val, secondary);
            let sadd = spec_op_apply(19, val, secondary);
            let ssub = spec_op_apply(20, val, secondary);
            let cswap = spec_op_apply(21, val, secondary);
            let avg = spec_op_apply(26, val, secondary);
            &&& frac_of(abs_add) == ((if s16(fa) < 0 { -s16(fa) } else { s16(fa) }) + s16(fb)) % 0x10000
            &&& exp_of(abs_add) == ((if s8(ea) < 0 { -s8(ea) } else { s8(ea) }) + s8(eb)) % 0x100
            &&& frac_of(smin) == fa || frac_of(smin) == fb
            &&& s16(frac_of(smin)) <= s16(fa) && s16(frac_of(smin)) <= s16(fb)
            &&& exp_of(smin) == ea || exp_of(smin) == eb
            &&& s8(exp_of(smin)) <= s8(ea) && s8(exp_of(smin)) <= s8(eb)
            &&& frac_of(smax) == fa || frac_of(smax) == fb
            &&& s16(frac_of(smax)) >= s16(fa) && s16(frac_of(smax)) >= s16(fb)
            &&& exp_of(smax) == ea || exp_of(smax) == eb
            &&& s8(exp_of(smax)) >= s8(ea) && s8(exp_of(smax)) >= s8(eb)
            &&& s16(frac_of(sadd)) == (if s16(fa) + s16(fb) > 0x7FFF {
                    0x7FFF
                } else if s16(fa) + s16(fb) < -0x8000 {
                    -0x8000
                } else {
                    s16(fa) + s16(fb)
                })
            &&& s8(exp_of(sadd)) == (if s8(ea) + s8(eb) > 0x7F {
                    0x7F
                } else if s8(ea) + s8(eb) < -0x80 {
                    -0x80
                } else {
                    s8(ea) + s8(eb)
                })
            &&& s16(frac_of(ssub)) == (if s16(fa) - s16(fb) > 0x7FFF {
                    0x7FFF
                } else if s16(fa) - s16(fb) < -0x8000 {
                    -0x8000
                } else {
                    s16(fa) - s16(fb)
                })
            &&& s8(exp_of(ssub)) == (if s8(ea) - s8(eb) > 0x7F {
                    0x7F
                } else if s8(ea) - s8(eb) < -0x80 {
                    -0x80
                } else {
                    s8(ea) - s8(eb)
                })
            &&& frac_of(cswap) == (if s16(fa) < s16(fb) {
                    ((fb << 8u16) | (fb >> 8u16)) ^ fa
                } else {
                    fa ^ fb
                })
            &&& exp_of(cswap) == (if s16(fa) < s16(fb) { eb ^ ea } else { ea ^ eb })
            &&& s16(frac_of(avg)) == (s16(fa) + s16(fb) + 1) / 2
            &&& s8(exp_of(avg)) == (s8(ea) + s8(eb) + 1) / 2
        }),
{
    lemma_op_abs_add_lanes(val, secondary);
    lemma_op_smin_lanes(val, secondary);
    lemma_op_smax_lanes(val, secondary);
    lemma_op_sadd_lanes(val, secondary);
    lemma_op_ssub_lanes(val, secondary);
    lemma_op_cswap_lanes(val, secondary);
    lemma_op_avg_lanes(val, secondary);
}

/// NREV, lane by lane.
proof fn lemma_op_nrev_lanes(val: u32, secondary: u32)
    ensures
        ({
            let fa = frac_of(val);
            let ea = exp_of(val);
            let fb = frac_of(secondary);
            let eb = exp_of(secondary);
            let nrev = spec_op_apply(25, val, secondary);
            &&& frac_of(nrev) == (((fa & 0x0F0F) << 4u16) | ((fa & 0xF0F0) >> 4u16)) ^ fb
            &&& exp_of(nrev) == ea ^ eb
        }),
{
    lemma_result_lanes(25, val, secondary);
}

/// LFSR_TICK, lane by lane.
proof fn lemma_op_lfsr_lanes(val: u32, secondary: u32)
    ensures
        ({
            let fa = frac_of(val);
            let ea = exp_of(val);
            let fb = frac_of(secondary);
            let eb = exp_of(secondary);
            let lfsr = spec_op_apply(27, val, secondary);
            &&& frac_of(lfsr) == ((fa >> 1u16) ^ (if fa & 1 == 1 { 0xB400u16 } else { 0u16 })) ^ fb
            &&& exp_of(lfsr) == ea ^ eb
        }),
{
    lemma_result_lanes(27, val, secondary);
}

/// BCAST, lane by lane.
proof fn lemma_op_bcast_lanes(val: u32, secondary: u32)
    ensures
        ({
            let fa = frac_of(val);
            let ea = exp_of(val);
            let fb = frac_of(secondary);
            let eb = exp_of(secondary);
            let bcast = spec_op_apply(28, val, secondary);
            &&& frac_of(bcast) == (((fa & 0xFF) << 8u16) | (fa & 0xFF)) ^ fb
            &&& exp_of(bcast) == ea ^ eb
        }),
{
    lemma_result_lanes(28, val, secondary);
}

/// SQUEEZE, lane by lane.
proof fn lemma_op_squeeze_lanes(val: u32, secondary: u32)
    ensures
        ({
            let fa = frac_of(val);
            let ea = exp_of(val);
            let fb = frac_of(secondary);
            let eb = exp_of(secondary);
            let squeeze = spec_op_apply(29, val, secondary);
            &&& exp_of(squeeze) == ((fa ^ fb) as u8) ^ (((fa ^ fb) >> 8u16) as u8) ^ ea ^ eb
            &&& frac_of(squeeze) == exp_of(squeeze) * 0x101
        }),
{
    lemma_result_lanes(29, val, secondary);
}

/// NREV swaps the nibbles of each byte of `fa`, LFSR_TICK steps a Galois
/// LFSR with taps `0xB400`, BCAST copies the low byte of `fa` into its high
/// byte, each then XORs in the neighbour; SQUEEZE XORs all five bytes of the
/// two buckets into one and writes it into all three bytes of the result.
pub proof fn lemma_ops_byte_shuffles(val: u32, secondary: u32)
    ensures
        ({
            let fa = frac_of(val);
            let ea = exp_of(val);
            let fb = frac_of(secondary);
            let eb = exp_of(secondary);
            let nrev = spec_op_apply(25, val, secondary);
            let lfsr = spec_op_apply(27, val, secondary);
            let bcast = spec_op_apply(28, val, secondary);
            let squeeze = spec_op_apply(29, val, secondary);
            &&& frac_of(nrev) == (((fa & 0x0F0F) << 4u16) | ((fa & 0xF0F0) >> 4u16)) ^ fb
            &&& exp_of(nrev) == ea ^ eb
            &&& frac_of(lfsr) == ((fa >> 1u16) ^ (if fa & 1 == 1 { 0xB400u16 } else { 0u16 })) ^ fb
            &&& exp_of(lfsr) == ea ^ eb
            &&& frac_of(bcast) == (((fa & 0xFF) << 8u16) | (fa & 0xFF)) ^ fb
            &&& exp_of(bcast) == ea ^ eb
            &&& exp_of(squeeze) == ((fa ^ fb) as u8) ^ (((fa ^ fb) >> 8u16) as u8) ^ ea ^ eb
            &&& frac_of(squeeze) == exp_of(squeeze) * 0x101
        }),
{
    lemma_op_nrev_lanes(val, secondary);
    lemma_op_lfsr_lanes(val, secondary);
    lemma_op_bcast_lanes(val, secondary);
    lemma_op_squeeze_lanes(val, secondary);
}

/// POPCNT, lane by lane.
proof fn lemma_op_popcnt_lanes(val: u32, secondary: u32)
    ensures
        ({
            let fa = frac_of(val);
            let ea = exp_of(val);
            let fb = frac_of(secondary);
            let eb = exp_of(secondary);
            let popcnt = spec_op_apply(18, val, secondary);
            &&& frac_of(popcnt) == ((fa ^ fb) & 0xFF00) | (popcount((fa ^ fb) as nat) as u16)
            &&& exp_of(popcnt) == ea ^ eb
        }),
{
    lemma_result_lanes(18, val, secondary);
}

/// GFMUL, lane by lane.
proof fn lemma_op_gfmul_lanes(val: u32, secondary: u32)
    ensures
        ({
            let fa = frac_of(val);
            let ea = exp_of(val);
            let fb = frac_of(secondary);
            let eb = exp_of(secondary);
            let gfmul = spec_op_apply(22, val, secondary);
            &&& frac_of(gfmul) == ((fa & 0xFF00) | (gf_mul8(fa as u8, fb as u8) as u16)) ^ fb
            &&& exp_of(gfmul) == ea ^ eb
        }),
{
    lemma_result_lanes(22, val, secondary);
}

/// BREV, lane by lane.
proof fn lemma_op_brev_lanes(val: u32, secondary: u32)
    ensures
        ({
            let fa = frac_of(val);
            let ea = exp_of(val);
            let fb = frac_of(secondary);
            let eb = exp_of(secondary);
            let brev = spec_op_apply(24, val, secondary);
            &&& frac_of(brev) == rev16(fa) ^ fb
            &&& exp_of(brev) == ea ^ eb
        }),
{
    lemma_result_lanes(24, val, secondary);
}

/// ZIP, lane by lane.
proof fn lemma_op_zip_lanes(val: u32, secondary: u32)
    ensures
        ({
            let fa = frac_of(val);
            let ea = exp_of(val);
            let fb = frac_of(secondary);
            let eb = exp_of(secondary);
            let zip = spec_op_apply(30, val, secondary);
            &&& frac_of(zip) == zip_bits(fa as u8, fb as u8, 8)
            &&& exp_of(zip) == ea ^ eb
        }),
{
    lemma_result_lanes(30, val, secondary);
}

/// POPCNT2, lane by lane.
proof fn lemma_op_popcnt2_lanes(val: u32, secondary: u32)
    ensures
        ({
            let fa = frac_of(val);
            let ea = exp_of(val);
            let fb = frac_of(secondary);
            let eb = exp_of(secondary);
            let popcnt2 = spec_op_apply(31, val, secondary);
            &&& frac_of(popcnt2) == popcount(fb as nat) * 0x100 + popcount(fa as nat)
            &&& exp_of(popcnt2) == popcount((ea + eb) as nat)
        }),
{
    vstd::arithmetic::power2::lemma2_to64();
    lemma_popcount_bound(frac_of(val) as nat, 16);
    lemma_popcount_bound(frac_of(secondary) as nat, 16);
    lemma_popcount_bound((exp_of(val) + exp_of(secondary)) as nat, 9);
    lemma_result_lanes(31, val, secondary);
}

/// The counting and bit-moving ops: POPCNT keeps the high byte of
/// `fa ^ fb` and puts its number of one bits in the low byte; GFMUL keeps
/// the high byte of `fa` and replaces the low one by the GF(2^8) product of
/// the two low bytes, then XORs in the neighbour; BREV reverses the bits of
/// `fa` and XORs in the neighbour; ZIP interleaves the low bytes of `fa` and
/// `fb`; POPCNT2 writes the one-bit counts of `fb` and `fa` into the two
/// bytes of the fraction and that of `ea + eb` into the exponent.
pub proof fn lemma_ops_counting(val: u32, secondary: u32)
    ensures
        ({
            let fa = frac_of(val);
            let ea = exp_of(val);
            let fb = frac_of(secondary);
            let eb = exp_of(secondary);
            let popcnt = spec_op_apply(18, val, secondary);
            let gfmul = spec_op_apply(22, val, secondary);
            let brev = spec_op_apply(24, val, secondary);
            let zip = spec_op_apply(30, val, secondary);
            let popcnt2 = spec_op_apply(31, val, secondary);
            &&& frac_of(popcnt) == ((fa ^ fb) & 0xFF00) | (popcount((fa ^ fb) as nat) as u16)
            &&& exp_of(popcnt) == ea ^ eb
            &&& frac_of(gfmul) == ((fa & 0xFF00) | (gf_mul8(fa as u8, fb as u8) as u16)) ^ fb
            &&& exp_of(gfmul) == ea ^ eb
            &&& frac_of(brev) == rev16(fa) ^ fb
            &&& exp_of(brev) == ea ^ eb
            &&& frac_of(zip) == zip_bits(fa as u8, fb as u8, 8)
            &&& exp_of(zip) == ea ^ eb
            &&& frac_of(popcnt2) == popcount(fb as nat) * 0x100 + popcount(fa as nat)
            &&& exp_of(popcnt2) == popcount((ea + eb) as nat)
        }),
{
    lemma_op_popcnt_lanes(val, secondary);
    lemma_op_gfmul_lanes(val, secondary);
    lemma_op_brev_lanes(val, secondary);
    lemma_op_zip_lanes(val, secondary);
    lemma_op_popcnt2_lanes(val, secondary);
}

/// `rev16` reverses the order of the 16 bits: bit `i` of the result is bit
/// `15 - i` of the input.
pub proof fn lemma_rev16_reverses(x: u16, i: u16)
    by (bit_vector)
    requires
        i < 16,
    ensures
        (rev16(x) >> i) & 1 == (x >> (15 - i) as u16) & 1,
{
}

/// PARITY (op 23) keeps a single bit of `val`: for a given neighbour, the
/// result is the neighbour itself or its complement, nothing else.
pub proof fn lemma_parity_two_outcomes(val: u32, secondary: u32)
    ensures
        spec_op_apply(23, val, secondary) == join_lanes(frac_of(secondary), exp_of(secondary))
            || spec_op_apply(23, val, secondary) == join_lanes(
            !frac_of(secondary),
            !exp_of(secondary),
        ),
{
    assert(23u8 & 0x1F == 23) by (bit_vector);
}

/// SQUEEZE (op 29) folds both buckets into one byte and paints it across
/// all three bytes of the result.
pub proof fn lemma_squeeze_paints_one_byte(val: u32, secondary: u32)
    ensures
        spec_op_apply(29, val, secondary) % 0x100 == (spec_op_apply(29, val, secondary) / 0x100)
            % 0x100,
        spec_op_apply(29, val, secondary) % 0x100 == spec_op_apply(29, val, secondary) / 0x1_0000,
{
    assert(29u8 & 0x1F == 29) by (bit_vector);
}

/// The bitwise part of the injective ops: for a fixed neighbour, distinct
/// lanes give distinct results under XOR, NOT-XOR, rotation by the
/// neighbour, byte swap, bit reversal, nibble swap and the LFSR step.
proof fn lemma_bitwise_lanes_injective(op: u8, f1: u16, f2: u16, fb: u16, e1: u8, e2: u8, eb: u8)
    by (bit_vector)
    ensures
        op < 32 ==> op & 0x1F == op,
        f1 != f2 ==> (f1 ^ fb) != (f2 ^ fb),
        f1 != f2 ==> (!f1 ^ fb) != (!f2 ^ fb),
        f1 != f2 ==> (rotl16(f1, fb & 15) ^ fb) != (rotl16(f2, fb & 15) ^ fb),
        f1 != f2 ==> (rotr16(f1, fb & 15) ^ fb) != (rotr16(f2, fb & 15) ^ fb),
        f1 != f2 ==> (bswap16(f1) ^ fb) != (bswap16(f2) ^ fb),
        f1 != f2 ==> (rev16(f1) ^ fb) != (rev16(f2) ^ fb),
        f1 != f2 ==> (nibble_swap16(f1) ^ fb) != (nibble_swap16(f2) ^ fb),
        f1 != f2 ==> (((f1 >> 1u16) ^ (if f1 & 1 == 1 { 0xB400u16 } else { 0u16 })) ^ fb) != (((f2
            >> 1u16) ^ (if f2 & 1 == 1 { 0xB400u16 } else { 0u16 })) ^ fb),
        e1 != e2 ==> (e1 ^ eb) != (e2 ^ eb),
        e1 != e2 ==> (!e1 ^ eb) != (!e2 ^ eb),
{
}

/// Frac lane of the injective ops: distinct fractions stay distinct.
#[verifier::spinoff_prover]
#[verifier::rlimit(60)]
proof fn lemma_injective_frac(op: u8, f1: u16, e1: u8, f2: u16, e2: u8, fb: u16, eb: u8)
    requires
        op == 0 || op == 1 || op == 5 || op == 7 || op == 10 || op == 11 || op == 13 || op == 15 || op == 24 || op == 25 || op == 27,
        f1 != f2,
    ensures
        op_lanes(op, f1, e1, fb, eb).0 != op_lanes(op, f2, e2, fb, eb).0,
{
    if op == 0 {
        assert(op_lanes(0, f1, e1, fb, eb).0 != op_lanes(0, f2, e2, fb, eb).0) by {
        }
    } else if op == 1 {
        assert(op_lanes(1, f1, e1, fb, eb).0 != op_lanes(1, f2, e2, fb, eb).0) by {
        }
    } else if op == 5 {
        assert(op_lanes(5, f1, e1, fb, eb).0 != op_lanes(5, f2, e2, fb, eb).0) by {
            lemma_bitwise_lanes_injective(5, f1, f2, fb, e1, e2, eb);
        }
    } else if op == 7 {
        assert(op_lanes(7, f1, e1, fb, eb).0 != op_lanes(7, f2, e2, fb, eb).0) by {
            lemma_bitwise_lanes_injective(7, f1, f2, fb, e1, e2, eb);
        }
    } else if op == 10 {
        assert(op_lanes(10, f1, e1, fb, eb).0 != op_lanes(10, f2, e2, fb, eb).0) by {
            lemma_bitwise_lanes_injective(10, f1, f2, fb, e1, e2, eb);
        }
    } else if op == 11 {
        assert(op_lanes(11, f1, e1, fb, eb).0 != op_lanes(11, f2, e2, fb, eb).0) by {
            lemma_bitwise_lanes_injective(11, f1, f2, fb, e1, e2, eb);
        }
    } else if op == 13 {
        assert(op_lanes(13, f1, e1, fb, eb).0 != op_lanes(13, f2, e2, fb, eb).0) by {
            let n1 = w16(-s16(f1));
            let n2 = w16(-s16(f2));
            assert(n1 != n2);
            lemma_bitwise_lanes_injective(13, n1, n2, fb, e1, e2, eb);
        }
    } else if op == 15 {
        assert(op_lanes(15, f1, e1, fb, eb).0 != op_lanes(15, f2, e2, fb, eb).0) by {
            lemma_bitwise_lanes_injective(15, f1, f2, fb, e1, e2, eb);
        }
    } else if op == 24 {
        assert(op_lanes(24, f1, e1, fb, eb).0 != op_lanes(24, f2, e2, fb, eb).0) by {
            lemma_bitwise_lanes_injective(24, f1, f2, fb, e1, e2, eb);
        }
    } else if op == 25 {
        assert(op_lanes(25, f1, e1, fb, eb).0 != op_lanes(25, f2, e2, fb, eb).0) by {
            lemma_bitwise_lanes_injective(25, f1, f2, fb, e1, e2, eb);
        }
    } else {
        assert(op_lanes(27, f1, e1, fb, eb).0 != op_lanes(27, f2, e2, fb, eb).0) by {
            lemma_bitwise_lanes_injective(27, f1, f2, fb, e1, e2, eb);
        }
    }
}

/// Exponent lane of the injective ops: distinct exponents stay distinct.
#[verifier::spinoff_prover]
#[verifier::rlimit(60)]
proof fn lemma_injective_exp(op: u8, f1: u16, e1: u8, f2: u16, e2: u8, fb: u16, eb: u8)
    requires
        op == 0 || op == 1 || op == 5 || op == 7 || op == 10 || op == 11 || op == 13 || op == 15 || op == 24 || op == 25 || op == 27,
        e1 != e2,
    ensures
        op_lanes(op, f1, e1, fb, eb).1 != op_lanes(op, f2, e2, fb, eb).1,
{
    if op == 0 {
        assert(op_lanes(0, f1, e1, fb, eb).1 != op_lanes(0, f2, e2, fb, eb).1) by {
        }
    } else if op == 1 {
        assert(op_lanes(1, f1, e1, fb, eb).1 != op_lanes(1, f2, e2, fb, eb).1) by {
        }
    } else if op == 5 {
        assert(op_lanes(5, f1, e1, fb, eb).1 != op_lanes(5, f2, e2, fb, eb).1) by {
            lemma_bitwise_lanes_injective(5, f1, f2, fb, e1, e2, eb);
        }
    } else if op == 7 {
        assert(op_lanes(7, f1, e1, fb, eb).1 != op_lanes(7, f2, e2, fb, eb).1) by {
            lemma_bitwise_lanes_injective(7, f1, f2, fb, e1, e2, eb);
        }
    } else if op == 10 {
        assert(op_lanes(10, f1, e1, fb, eb).1 != op_lanes(10, f2, e2, fb, eb).1) by {
            lemma_bitwise_lanes_injective(10, f1, f2, fb, e1, e2, eb);
        }
    } else if op == 11 {
        assert(op_lanes(11, f1, e1, fb, eb).1 != op_lanes(11, f2, e2, fb, eb).1) by {
            lemma_bitwise_lanes_injective(11, f1, f2, fb, e1, e2, eb);
        }
    } else if op == 13 {
        assert(op_lanes(13, f1, e1, fb, eb).1 != op_lanes(13, f2, e2, fb, eb).1) by {
            let n1 = w8(-s8(e1));
            let n2 = w8(-s8(e2));
            assert(n1 != n2);
            lemma_bitwise_lanes_injective(13, f1, f2, fb, n1, n2, eb);
        }
    } else if op == 15 {
        assert(op_lanes(15, f1, e1, fb, eb).1 != op_lanes(15, f2, e2, fb, eb).1) by {
            lemma_bitwise_lanes_injective(15, f1, f2, fb, e1, e2, eb);
        }
    } else if op == 24 {
        assert(op_lanes(24, f1, e1, fb, eb).1 != op_lanes(24, f2, e2, fb, eb).1) by {
            lemma_bitwise_lanes_injective(24, f1, f2, fb, e1, e2, eb);
        }
    } else if op == 25 {
        assert(op_lanes(25, f1, e1, fb, eb).1 != op_lanes(25, f2, e2, fb, eb).1) by {
            lemma_bitwise_lanes_injective(25, f1, f2, fb, e1, e2, eb);
        }
    } else {
        assert(op_lanes(27, f1, e1, fb, eb).1 != op_lanes(27, f2, e2, fb, eb).1) by {
            lemma_bitwise_lanes_injective(27, f1, f2, fb, e1, e2, eb);
        }
    }
}

/// The ops that destroy no bits: for a fixed neighbour, ADD, SUB, XOR, NOT,
/// ROL_B, ROR_B, NEG, BSWAP, BREV, NREV and LFSR_TICK map distinct 24-bit
/// buckets to distinct results.
#[verifier::spinoff_prover]
#[verifier::rlimit(60)]
pub proof fn lemma_injective_ops(op: u8, v1: u32, v2: u32, secondary: u32)
    requires
        op == 0 || op == 1 || op == 5 || op == 7 || op == 10 || op == 11 || op == 13 || op == 15 || op == 24 || op == 25 || op == 27,
        v1 < 0x100_0000,
        v2 < 0x100_0000,
        v1 != v2,
    ensures
        spec_op_apply(op, v1, secondary) != spec_op_apply(op, v2, secondary),
{
    let f1 = frac_of(v1);
    let e1 = exp_of(v1);
    let f2 = frac_of(v2);
    let e2 = exp_of(v2);
    let fb = frac_of(secondary);
    let eb = exp_of(secondary);
    assert(v1 == f1 + e1 * 0x10000 && v2 == f2 + e2 * 0x10000);
    lemma_result_lanes(op, v1, secondary);
    lemma_result_lanes(op, v2, secondary);
    if f1 != f2 {
        lemma_injective_frac(op, f1, e1, f2, e2, fb, eb);
    } else {
        lemma_injective_exp(op, f1, e1, f2, e2, fb, eb);
    }
}

/// The product over the eight bits of `b`, spelled out.
proof fn lemma_gf_mul_sum(a: u8, b: u8)
    ensures
        gf_mul8(a, b) == gf_sum(b, (b >> 1u8), ((b >> 1u8) >> 1u8), (((b >> 1u8) >> 1u8) >>
        1u8), ((((b >> 1u8) >> 1u8) >> 1u8) >> 1u8), (((((b >> 1u8) >> 1u8) >> 1u8) >> 1u8) >>
        1u8), ((((((b >> 1u8) >> 1u8) >> 1u8) >> 1u8) >> 1u8) >> 1u8), (((((((b >> 1u8) >> 1u8)
        >> 1u8) >> 1u8) >> 1u8) >> 1u8) >> 1u8), a, xtime(a), xtime(xtime(a)),
        xtime(xtime(xtime(a))), xtime(xtime(xtime(xtime(a)))),
        xtime(xtime(xtime(xtime(xtime(a))))), xtime(xtime(xtime(xtime(xtime(xtime(a)))))),
        xtime(xtime(xtime(xtime(xtime(xtime(xtime(a)))))))),
{
    reveal_with_fuel(gf_mul_bits, 9);
}

#[verifier::rlimit(100)]
proof fn lemma_gf_sum_ring(
    a: u8, b: u8, c: u8, d: u8, o: u8, z: u8, xa1: u8, xa2: u8, xa3: u8, xa4: u8, xa5: u8, xa6:
    u8, xa7: u8, xb1: u8, xb2: u8, xb3: u8, xb4: u8, xb5: u8, xb6: u8, xb7: u8, sa1: u8, sa2:
    u8, sa3: u8, sa4: u8, sa5: u8, sa6: u8, sa7: u8, sb1: u8, sb2: u8, sb3: u8, sb4: u8, sb5:
    u8, sb6: u8, sb7: u8, sc1: u8, sc2: u8, sc3: u8, sc4: u8, sc5: u8, sc6: u8, sc7: u8, sd1:
    u8, sd2: u8, sd3: u8, sd4: u8, sd5: u8, sd6: u8, sd7: u8, so1: u8, so2: u8, so3: u8, so4:
    u8, so5: u8, so6: u8, so7: u8, sz1: u8, sz2: u8, sz3: u8, sz4: u8, sz5: u8, sz6: u8, sz7: u8,
)
    by (bit_vector)
    requires
        d == b ^ c,
        o == 1,
        z == 0,
        xa1 == xtime(a),
        xa2 == xtime(xa1),
        xa3 == xtime(xa2),
        xa4 == xtime(xa3),
        xa5 == xtime(xa4),
        xa6 == xtime(xa5),
        xa7 == xtime(xa6),
        xb1 == xtime(b),
        xb2 == xtime(xb1),
        xb3 == xtime(xb2),
        xb4 == xtime(xb3),
        xb5 == xtime(xb4),
        xb6 == xtime(xb5),
        xb7 == xtime(xb6),
        sa1 == a >> 1u8,
        sa2 == sa1 >> 1u8,
        sa3 == sa2 >> 1u8,
        sa4 == sa3 >> 1u8,
        sa5 == sa4 >> 1u8,
        sa6 == sa5 >> 1u8,
        sa7 == sa6 >> 1u8,
        sb1 == b >> 1u8,
        sb2 == sb1 >> 1u8,
        sb3 == sb2 >> 1u8,
        sb4 == sb3 >> 1u8,
        sb5 == sb4 >> 1u8,
        sb6 == sb5 >> 1u8,
        sb7 == sb6 >> 1u8,
        sc1 == c >> 1u8,
        sc2 == sc1 >> 1u8,
        sc3 == sc2 >> 1u8,
        sc4 == sc3 >> 1u8,
        sc5 == sc4 >> 1u8,
        sc6 == sc5 >> 1u8,
        sc7 == sc6 >> 1u8,
        sd1 == d >> 1u8,
        sd2 == sd1 >> 1u8,
        sd3 == sd2 >> 1u8,
        sd4 == sd3 >> 1u8,
        sd5 == sd4 >> 1u8,
        sd6 == sd5 >> 1u8,
        sd7 == sd6 >> 1u8,
        so1 == o >> 1u8,
        so2 == so1 >> 1u8,
        so3 == so2 >> 1u8,
        so4 == so3 >> 1u8,
        so5 == so4 >> 1u8,
        so6 == so5 >> 1u8,
        so7 == so6 >> 1u8,
        sz1 == z >> 1u8,
        sz2 == sz1 >> 1u8,
        sz3 == sz2 >> 1u8,
        sz4 == sz3 >> 1u8,
        sz5 == sz4 >> 1u8,
        sz6 == sz5 >> 1u8,
        sz7 == sz6 >> 1u8,
    ensures
        gf_sum(b, sb1, sb2, sb3, sb4, sb5, sb6, sb7, a, xa1, xa2, xa3, xa4, xa5, xa6, xa7) ==
        gf_sum(a, sa1, sa2, sa3, sa4, sa5, sa6, sa7, b, xb1, xb2, xb3, xb4, xb5, xb6, xb7),
        gf_sum(o, so1, so2, so3, so4, so5, so6, so7, a, xa1, xa2, xa3, xa4, xa5, xa6, xa7) == a,
        gf_sum(z, sz1, sz2, sz3, sz4, sz5, sz6, sz7, a, xa1, xa2, xa3, xa4, xa5, xa6, xa7) == 0,
        gf_sum(d, sd1, sd2, sd3, sd4, sd5, sd6, sd7, a, xa1, xa2, xa3, xa4, xa5, xa6, xa7) ==
        gf_sum(b, sb1, sb2, sb3, sb4, sb5, sb6, sb7, a, xa1, xa2, xa3, xa4, xa5, xa6, xa7) ^
        gf_sum(c, sc1, sc2, sc3, sc4, sc5, sc6, sc7, a, xa1, xa2, xa3, xa4, xa5, xa6, xa7),
{
}

/// Commutativity, unit, zero and distributivity of the GF(2^8) product.
proof fn lemma_gf_ring(a: u8, b: u8, c: u8)
    ensures
        gf_mul8(a, b) == gf_mul8(b, a),
        gf_mul8(a, 1) == a,
        gf_mul8(a, 0) == 0,
        gf_mul8(a, b ^ c) == gf_mul8(a, b) ^ gf_mul8(a, c),
{
    lemma_gf_mul_sum(a, b);
    lemma_gf_mul_sum(b, a);
    lemma_gf_mul_sum(a, c);
    lemma_gf_mul_sum(a, 1);
    lemma_gf_mul_sum(a, 0);
    lemma_gf_mul_sum(a, b ^ c);
    lemma_gf_sum_ring(
        a, b, c, (b ^ c), 1u8, 0u8, xtime(a), xtime(xtime(a)), xtime(xtime(xtime(a))),
        xtime(xtime(xtime(xtime(a)))), xtime(xtime(xtime(xtime(xtime(a))))),
        xtime(xtime(xtime(xtime(xtime(xtime(a)))))),
        xtime(xtime(xtime(xtime(xtime(xtime(xtime(a))))))), xtime(b), xtime(xtime(b)),
        xtime(xtime(xtime(b))), xtime(xtime(xtime(xtime(b)))),
        xtime(xtime(xtime(xtime(xtime(b))))), xtime(xtime(xtime(xtime(xtime(xtime(b)))))),
        xtime(xtime(xtime(xtime(xtime(xtime(xtime(b))))))), (a >> 1u8), ((a >> 1u8) >> 1u8),
        (((a >> 1u8) >> 1u8) >> 1u8), ((((a >> 1u8) >> 1u8) >> 1u8) >> 1u8), (((((a >> 1u8) >>
        1u8) >> 1u8) >> 1u8) >> 1u8), ((((((a >> 1u8) >> 1u8) >> 1u8) >> 1u8) >> 1u8) >> 1u8),
        (((((((a >> 1u8) >> 1u8) >> 1u8) >> 1u8) >> 1u8) >> 1u8) >> 1u8), (b >> 1u8), ((b >>
        1u8) >> 1u8), (((b >> 1u8) >> 1u8) >> 1u8), ((((b >> 1u8) >> 1u8) >> 1u8) >> 1u8),
        (((((b >> 1u8) >> 1u8) >> 1u8) >> 1u8) >> 1u8), ((((((b >> 1u8) >> 1u8) >> 1u8) >> 1u8)
        >> 1u8) >> 1u8), (((((((b >> 1u8) >> 1u8) >> 1u8) >> 1u8) >> 1u8) >> 1u8) >> 1u8), (c >>
        1u8), ((c >> 1u8) >> 1u8), (((c >> 1u8) >> 1u8) >> 1u8), ((((c >> 1u8) >> 1u8) >> 1u8)
        >> 1u8), (((((c >> 1u8) >> 1u8) >> 1u8) >> 1u8) >> 1u8), ((((((c >> 1u8) >> 1u8) >> 1u8)
        >> 1u8) >> 1u8) >> 1u8), (((((((c >> 1u8) >> 1u8) >> 1u8) >> 1u8) >> 1u8) >> 1u8) >>
        1u8), ((b ^ c) >> 1u8), (((b ^ c) >> 1u8) >> 1u8), ((((b ^ c) >> 1u8) >> 1u8) >> 1u8),
        (((((b ^ c) >> 1u8) >> 1u8) >> 1u8) >> 1u8), ((((((b ^ c) >> 1u8) >> 1u8) >> 1u8) >>
        1u8) >> 1u8), (((((((b ^ c) >> 1u8) >> 1u8) >> 1u8) >> 1u8) >> 1u8) >> 1u8), ((((((((b ^
        c) >> 1u8) >> 1u8) >> 1u8) >> 1u8) >> 1u8) >> 1u8) >> 1u8), (1u8 >> 1u8), ((1u8 >> 1u8)
        >> 1u8), (((1u8 >> 1u8) >> 1u8) >> 1u8), ((((1u8 >> 1u8) >> 1u8) >> 1u8) >> 1u8),
        (((((1u8 >> 1u8) >> 1u8) >> 1u8) >> 1u8) >> 1u8), ((((((1u8 >> 1u8) >> 1u8) >> 1u8) >>
        1u8) >> 1u8) >> 1u8), (((((((1u8 >> 1u8) >> 1u8) >> 1u8) >> 1u8) >> 1u8) >> 1u8) >>
        1u8), (0u8 >> 1u8), ((0u8 >> 1u8) >> 1u8), (((0u8 >> 1u8) >> 1u8) >> 1u8), ((((0u8 >>
        1u8) >> 1u8) >> 1u8) >> 1u8), (((((0u8 >> 1u8) >> 1u8) >> 1u8) >> 1u8) >> 1u8),
        ((((((0u8 >> 1u8) >> 1u8) >> 1u8) >> 1u8) >> 1u8) >> 1u8), (((((((0u8 >> 1u8) >> 1u8) >>
        1u8) >> 1u8) >> 1u8) >> 1u8) >> 1u8),
    );
}

/// Small XOR facts: multiplying by `x` is linear, and XOR regroups.
proof fn lemma_xor_facts(x: u8, y: u8, z: u8, w: u8)
    by (bit_vector)
    ensures
        xtime(x ^ y) == xtime(x) ^ xtime(y),
        xtime(0u8) == 0u8,
        (x ^ y) ^ (z ^ w) == (x ^ z) ^ (y ^ w),
        x ^ 0u8 == x,
{
}

/// Multiplying the left factor by `x` multiplies the product by `x`.
proof fn lemma_xtime_left(a: u8, b: u8, n: nat)
    ensures
        gf_mul_bits(xtime(a), b, n) == xtime(gf_mul_bits(a, b, n)),
    decreases n,
{
    if n == 0 {
        lemma_xor_facts(0, 0, 0, 0);
    } else {
        let t: u8 = if b & 1 != 0 { a } else { 0u8 };
        let g = gf_mul_bits(xtime(a), b >> 1u8, (n - 1) as nat);
        lemma_xtime_left(xtime(a), b >> 1u8, (n - 1) as nat);
        lemma_xor_facts(t, g, 0, 0);
    }
}

/// Associativity over the low `n` bits of the right factor.
proof fn lemma_assoc_bits(a: u8, b: u8, c: u8, n: nat)
    ensures
        gf_mul_bits(gf_mul8(a, b), c, n) == gf_mul8(a, gf_mul_bits(b, c, n)),
    decreases n,
{
    lemma_gf_ring(a, 0, 0);
    if n > 0 {
        let p = gf_mul8(a, b);
        let r = gf_mul_bits(xtime(b), c >> 1u8, (n - 1) as nat);
        let tb: u8 = if c & 1 != 0 { b } else { 0u8 };
        lemma_gf_ring(a, b, 0);
        lemma_gf_ring(xtime(b), a, 0);
        lemma_xtime_left(b, a, 8);
        assert(xtime(p) == gf_mul8(a, xtime(b)));
        lemma_assoc_bits(a, xtime(b), c >> 1u8, (n - 1) as nat);
        lemma_gf_ring(a, tb, r);
    }
}

/// GF(2^8) field laws of the product used by GFMUL: commutative,
/// associative, 1 is the unit, 0 absorbs, and it distributes over XOR.
pub proof fn lemma_gf_mul_field_laws(a: u8, b: u8, c: u8)
    ensures
        gf_mul8(a, b) == gf_mul8(b, a),
        gf_mul8(gf_mul8(a, b), c) == gf_mul8(a, gf_mul8(b, c)),
        gf_mul8(a, 1) == a,
        gf_mul8(a, 0) == 0,
        gf_mul8(a, b ^ c) == gf_mul8(a, b) ^ gf_mul8(a, c),
{
    lemma_gf_ring(a, b, c);
    lemma_assoc_bits(a, b, c, 8);
}

/// The reduction polynomial of GFMUL is the AES one: `x^7 · x` reduces to
/// `x^4 + x^3 + x + 1` (`0x80 · 0x02 = 0x1B`), and the product agrees with
/// the worked example of FIPS-197, `0x57 · 0x83 = 0xC1`.
pub proof fn lemma_gf_mul_aes_polynomial()
    ensures
        gf_mul8(0x80, 0x02) == 0x1B,
        gf_mul8(0x57, 0x83) == 0xC1,
{
    lemma_gf_mul_sum(0x80, 0x02);
    lemma_gf_mul_sum(0x57, 0x83);
    let a: u8 = 0x80;
    let b: u8 = 0x02;
    let c: u8 = 0x57;
    let d: u8 = 0x83;
    assert(gf_sum(b, (b >> 1u8), ((b >> 1u8) >> 1u8), (((b >> 1u8) >> 1u8) >> 1u8), ((((b >> 1u8)
        >> 1u8) >> 1u8) >> 1u8), (((((b >> 1u8) >> 1u8) >> 1u8) >> 1u8) >> 1u8), ((((((b >> 1u8)
        >> 1u8) >> 1u8) >> 1u8) >> 1u8) >> 1u8), (((((((b >> 1u8) >> 1u8) >> 1u8) >> 1u8) >> 1u8)
        >> 1u8) >> 1u8), a, xtime(a), xtime(xtime(a)), xtime(xtime(xtime(a))),
        xtime(xtime(xtime(xtime(a)))), xtime(xtime(xtime(xtime(xtime(a))))),
        xtime(xtime(xtime(xtime(xtime(xtime(a)))))),
        xtime(xtime(xtime(xtime(xtime(xtime(xtime(a)))))))) == 0x1B && gf_sum(d, (d >> 1u8), ((d
        >> 1u8) >> 1u8), (((d >> 1u8) >> 1u8) >> 1u8), ((((d >> 1u8) >> 1u8) >> 1u8) >> 1u8), (((((
        d >> 1u8) >> 1u8) >> 1u8) >> 1u8) >> 1u8), ((((((d >> 1u8) >> 1u8) >> 1u8) >> 1u8) >> 1u8)
        >> 1u8), (((((((d >> 1u8) >> 1u8) >> 1u8) >> 1u8) >> 1u8) >> 1u8) >> 1u8), c, xtime(c),
        xtime(xtime(c)), xtime(xtime(xtime(c))), xtime(xtime(xtime(xtime(c)))),
        xtime(xtime(xtime(xtime(xtime(c))))), xtime(xtime(xtime(xtime(xtime(xtime(c)))))),
        xtime(xtime(xtime(xtime(xtime(xtime(xtime(c)))))))) == 0xC1) by (bit_vector)
        requires
            a == 0x80u8,
            b == 0x02u8,
            c == 0x57u8,
            d == 0x83u8,
    ;
}

} // verus!
