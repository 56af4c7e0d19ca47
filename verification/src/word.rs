//! 256-bit EVM words, stored as four little-endian 64-bit limbs.
//!
//! Arithmetic that the EVM needs on whole words (wrapping add/sub/mul,
//! unsigned division and remainder, shifts, big-endian conversion) is
//! delegated to `alloy_primitives::U256` behind trusted wrappers whose
//! contracts state the mathematical value of the result.  Everything
//! derived from those (signed division, comparisons, bitwise operations)
//! is verified here.

use vstd::prelude::*;
use vstd::arithmetic::div_mod::{
    lemma_fundamental_div_mod, lemma_fundamental_div_mod_converse, lemma_div_denominator,
    lemma_div_nonincreasing, lemma_mod_mod,
};
use vstd::arithmetic::mul::lemma_mul_inequality;
use vstd::arithmetic::power2::{
    pow2, lemma2_to64, lemma2_to64_rest, lemma_pow2_adds, lemma_pow2_pos,
    lemma_pow2_strictly_increases,
};
use vstd::bits::{lemma_u64_low_bits_mask_is_mod, low_bits_mask};

verus! {

/// One EVM stack slot: a 256-bit word as four 64-bit limbs, `l0` least
/// significant.
#[derive(Clone, Copy, PartialEq, Eq, Structural, Debug)]
pub struct Word {
    pub l0: u64,
    pub l1: u64,
    pub l2: u64,
    pub l3: u64,
}

pub open spec fn p64() -> nat {
    0x1_0000_0000_0000_0000
}

pub open spec fn p128() -> nat {
    p64() * p64()
}

pub open spec fn p192() -> nat {
    p128() * p64()
}

pub open spec fn p256() -> nat {
    p192() * p64()
}

/// 2^255, the weight of the sign bit of a word read as two's complement.
pub open spec fn p255() -> nat {
    p192() * 0x8000_0000_0000_0000
}

/// The unsigned value of a word.
pub open spec fn word_val(w: Word) -> nat {
    (w.l0 + w.l1 * p64() + w.l2 * p128() + w.l3 * p192()) as nat
}

/// The word whose unsigned value is `v % 2^256`.
pub open spec fn word_of_val(v: nat) -> Word {
    Word {
        l0: (v % p64()) as u64,
        l1: ((v / p64()) % p64()) as u64,
        l2: ((v / p128()) % p64()) as u64,
        l3: ((v / p192()) % p64()) as u64,
    }
}

/// The value of a word read as a two's-complement signed integer.
pub open spec fn word_int(w: Word) -> int {
    if w.l3 >= 0x8000_0000_0000_0000 {
        word_val(w) - p256()
    } else {
        word_val(w) as int
    }
}

/// The word that represents `i` in two's complement.
pub open spec fn word_of_int(i: int) -> Word {
    word_of_val((i % (p256() as int)) as nat)
}

pub open spec fn word_zero() -> Word {
    Word { l0: 0, l1: 0, l2: 0, l3: 0 }
}

/// Truncating (toward zero) signed division, the semantics of SDIV.
pub open spec fn trunc_div(a: int, b: int) -> int {
    if (a < 0) == (b < 0) {
        (abs_int(a) / abs_int(b)) as int
    } else {
        -((abs_int(a) / abs_int(b)) as int)
    }
}

/// Truncating signed remainder, the semantics of SMOD: the sign follows
/// the dividend.
pub open spec fn trunc_rem(a: int, b: int) -> int {
    if a < 0 {
        -((abs_int(a) % abs_int(b)) as int)
    } else {
        (abs_int(a) % abs_int(b)) as int
    }
}

pub open spec fn abs_int(a: int) -> nat {
    if a < 0 {
        (-a) as nat
    } else {
        a as nat
    }
}

pub proof fn lemma_word_val_bound(w: Word)
    ensures
        word_val(w) < p256(),
{
    assert(word_val(w) < p256()) by (nonlinear_arith)
        requires
            word_val(w) == w.l0 + w.l1 * p64() + w.l2 * p128() + w.l3 * p192(),
            w.l0 < p64() && w.l1 < p64() && w.l2 < p64() && w.l3 < p64(),
    ;
}

/// A word is determined by its unsigned value.
pub proof fn lemma_word_decompose(w: Word)
    ensures
        word_of_val(word_val(w)) == w,
        word_val(w) < p256(),
{
    lemma_word_val_bound(w);
    let v = word_val(w) as int;
    let d = p64() as int;
    let q1 = w.l1 + w.l2 * p64() + w.l3 * p128();
    assert(v == q1 * d + w.l0) by (nonlinear_arith)
        requires
            v == w.l0 + w.l1 * p64() + w.l2 * p128() + w.l3 * p192(),
            q1 == w.l1 + w.l2 * p64() + w.l3 * p128(),
            d == p64(),
    ;
    lemma_fundamental_div_mod_converse(v, d, q1 as int, w.l0 as int);
    let q2 = w.l2 + w.l3 * p64();
    assert(q1 == q2 * d + w.l1) by (nonlinear_arith)
        requires
            q1 == w.l1 + w.l2 * p64() + w.l3 * p128(),
            q2 == w.l2 + w.l3 * p64(),
            d == p64(),
    ;
    lemma_fundamental_div_mod_converse(q1 as int, d, q2 as int, w.l1 as int);
    assert(q2 == w.l3 * d + w.l2) by (nonlinear_arith)
        requires
            q2 == w.l2 + w.l3 * p64(),
            d == p64(),
    ;
    lemma_fundamental_div_mod_converse(q2 as int, d, w.l3 as int, w.l2 as int);
    lemma_div_denominator(v, d, d);
    lemma_div_denominator(v, (d * d) as int, d);
    assert(d * d == p128() as int);
    assert(d * d * d == p192() as int) by (nonlinear_arith)
        requires
            d == p64() as int,
    ;
    assert(v / (p128() as int) == q2);
    assert(v / (p192() as int) == w.l3);
    lemma_fundamental_div_mod(w.l3 as int, d);
    assert(w.l3 as int % d == w.l3);
}

/// The big-endian value of a byte string.
pub open spec fn be_val(s: Seq<u8>) -> nat
    decreases s.len(),
{
    if s.len() == 0 {
        0
    } else {
        (be_val(s.drop_last()) * 256 + s.last()) as nat
    }
}

/// Byte `j` (0 = most significant) of the 32-byte big-endian form of `v`.
pub open spec fn be_byte(v: nat, j: int) -> u8 {
    ((v / pow2(((31 - j) * 8) as nat)) % 256) as u8
}

// ------------------------------------------------------------------
// Trusted wrappers around `alloy_primitives::U256` (ruint).
// ------------------------------------------------------------------

/// Relies on `U256::wrapping_add`: addition modulo 2^256.
#[verifier::external_body]
pub(crate) fn u256_add(a: Word, b: Word) -> (r: Word)
    ensures
        word_val(r) == (word_val(a) + word_val(b)) % p256(),
{
    let x = alloy_primitives::U256::from_limbs([a.l0, a.l1, a.l2, a.l3]);
    let y = alloy_primitives::U256::from_limbs([b.l0, b.l1, b.l2, b.l3]);
    let z = x.wrapping_add(y).into_limbs();
    Word { l0: z[0], l1: z[1], l2: z[2], l3: z[3] }
}

/// Relies on `U256::wrapping_sub`: subtraction modulo 2^256.
#[verifier::external_body]
pub(crate) fn u256_sub(a: Word, b: Word) -> (r: Word)
    ensures
        word_val(r) as int == (word_val(a) - word_val(b)) % (p256() as int),
{
    let x = alloy_primitives::U256::from_limbs([a.l0, a.l1, a.l2, a.l3]);
    let y = alloy_primitives::U256::from_limbs([b.l0, b.l1, b.l2, b.l3]);
    let z = x.wrapping_sub(y).into_limbs();
    Word { l0: z[0], l1: z[1], l2: z[2], l3: z[3] }
}

/// Relies on `U256::wrapping_mul`: multiplication modulo 2^256.
#[verifier::external_body]
pub(crate) fn u256_mul(a: Word, b: Word) -> (r: Word)
    ensures
        word_val(r) == (word_val(a) * word_val(b)) % p256(),
{
    let x = alloy_primitives::U256::from_limbs([a.l0, a.l1, a.l2, a.l3]);
    let y = alloy_primitives::U256::from_limbs([b.l0, b.l1, b.l2, b.l3]);
    let z = x.wrapping_mul(y).into_limbs();
    Word { l0: z[0], l1: z[1], l2: z[2], l3: z[3] }
}

/// Relies on `U256::wrapping_div`: flooring division; panics on a zero
/// divisor, which the precondition rules out.
#[verifier::external_body]
pub(crate) fn u256_div(a: Word, b: Word) -> (r: Word)
    requires
        word_val(b) != 0,
    ensures
        word_val(r) == word_val(a) / word_val(b),
{
    let x = alloy_primitives::U256::from_limbs([a.l0, a.l1, a.l2, a.l3]);
    let y = alloy_primitives::U256::from_limbs([b.l0, b.l1, b.l2, b.l3]);
    let z = x.wrapping_div(y).into_limbs();
    Word { l0: z[0], l1: z[1], l2: z[2], l3: z[3] }
}

/// Relies on `U256::wrapping_rem`: remainder; panics on a zero divisor,
/// which the precondition rules out.
#[verifier::external_body]
pub(crate) fn u256_rem(a: Word, b: Word) -> (r: Word)
    requires
        word_val(b) != 0,
    ensures
        word_val(r) == word_val(a) % word_val(b),
{
    let x = alloy_primitives::U256::from_limbs([a.l0, a.l1, a.l2, a.l3]);
    let y = alloy_primitives::U256::from_limbs([b.l0, b.l1, b.l2, b.l3]);
    let z = x.wrapping_rem(y).into_limbs();
    Word { l0: z[0], l1: z[1], l2: z[2], l3: z[3] }
}

/// Relies on `U256::wrapping_shl`: returns `value * 2^k mod 2^256`.
#[verifier::external_body]
pub(crate) fn u256_shl(a: Word, k: u64) -> (r: Word)
    requires
        k < 256,
    ensures
        word_val(r) == (word_val(a) * pow2(k as nat)) % p256(),
{
    let x = alloy_primitives::U256::from_limbs([a.l0, a.l1, a.l2, a.l3]);
    let z = x.wrapping_shl(k as usize).into_limbs();
    Word { l0: z[0], l1: z[1], l2: z[2], l3: z[3] }
}

/// Relies on `U256::wrapping_shr`: returns `value / 2^k`, rounding down.
#[verifier::external_body]
pub(crate) fn u256_shr(a: Word, k: u64) -> (r: Word)
    requires
        k < 256,
    ensures
        word_val(r) == word_val(a) / pow2(k as nat),
{
    let x = alloy_primitives::U256::from_limbs([a.l0, a.l1, a.l2, a.l3]);
    let z = x.wrapping_shr(k as usize).into_limbs();
    Word { l0: z[0], l1: z[1], l2: z[2], l3: z[3] }
}

/// Relies on `U256::arithmetic_shr`: a sign-extending right shift, which
/// on two's-complement words is flooring division by `2^k`.
#[verifier::external_body]
pub(crate) fn u256_sar(a: Word, k: u64) -> (r: Word)
    requires
        k < 256,
    ensures
        word_val(r) as int == (word_int(a) / (pow2(k as nat) as int)) % (p256() as int),
{
    let x = alloy_primitives::U256::from_limbs([a.l0, a.l1, a.l2, a.l3]);
    let z = x.arithmetic_shr(k as usize).into_limbs();
    Word { l0: z[0], l1: z[1], l2: z[2], l3: z[3] }
}

/// Relies on `U256::from_be_slice`: reads at most 32 bytes as a
/// big-endian number; panics on longer slices, which the precondition
/// rules out.
#[verifier::external_body]
pub(crate) fn u256_from_be(bytes: &Vec<u8>) -> (r: Word)
    requires
        bytes@.len() <= 32,
    ensures
        word_val(r) == be_val(bytes@),
{
    let x = alloy_primitives::U256::from_be_slice(bytes.as_slice());
    let z = x.into_limbs();
    Word { l0: z[0], l1: z[1], l2: z[2], l3: z[3] }
}

/// Relies on `U256::to_be_bytes`: the 32-byte big-endian form of the
/// value.
#[verifier::external_body]
pub(crate) fn u256_to_be(a: Word) -> (r: Vec<u8>)
    ensures
        r@.len() == 32,
        forall|j: int| 0 <= j < 32 ==> r@[j] == be_byte(word_val(a), j),
{
    let x = alloy_primitives::U256::from_limbs([a.l0, a.l1, a.l2, a.l3]);
    x.to_be_bytes::<32>().to_vec()
}

// ------------------------------------------------------------------
// Specification of every word operation the machine performs.
// ------------------------------------------------------------------

pub open spec fn w_add(a: Word, b: Word) -> Word {
    word_of_val((word_val(a) + word_val(b)) % p256())
}

pub open spec fn w_sub(a: Word, b: Word) -> Word {
    word_of_int(word_val(a) - word_val(b))
}

pub open spec fn w_mul(a: Word, b: Word) -> Word {
    word_of_val((word_val(a) * word_val(b)) % p256())
}

/// DIV: unsigned; division by zero yields zero.
pub open spec fn w_div(a: Word, b: Word) -> Word {
    if word_val(b) == 0 {
        word_zero()
    } else {
        word_of_val(word_val(a) / word_val(b))
    }
}

/// MOD: unsigned; a zero modulus yields zero.
pub open spec fn w_mod(a: Word, b: Word) -> Word {
    if word_val(b) == 0 {
        word_zero()
    } else {
        word_of_val(word_val(a) % word_val(b))
    }
}

/// SDIV: two's complement, truncating toward zero; -2^255 / -1 wraps
/// back to -2^255.
pub open spec fn w_sdiv(a: Word, b: Word) -> Word {
    if word_val(b) == 0 {
        word_zero()
    } else {
        word_of_int(trunc_div(word_int(a), word_int(b)))
    }
}

/// SMOD: two's complement remainder; the sign follows the dividend.
pub open spec fn w_smod(a: Word, b: Word) -> Word {
    if word_val(b) == 0 {
        word_zero()
    } else {
        word_of_int(trunc_rem(word_int(a), word_int(b)))
    }
}

pub open spec fn bool_word(b: bool) -> Word {
    if b {
        Word { l0: 1, l1: 0, l2: 0, l3: 0 }
    } else {
        word_zero()
    }
}

pub open spec fn w_lt(a: Word, b: Word) -> Word {
    bool_word(word_val(a) < word_val(b))
}

pub open spec fn w_gt(a: Word, b: Word) -> Word {
    bool_word(word_val(a) > word_val(b))
}

pub open spec fn w_slt(a: Word, b: Word) -> Word {
    bool_word(word_int(a) < word_int(b))
}

pub open spec fn w_sgt(a: Word, b: Word) -> Word {
    bool_word(word_int(a) > word_int(b))
}

pub open spec fn w_eq(a: Word, b: Word) -> Word {
    bool_word(word_val(a) == word_val(b))
}

pub open spec fn w_iszero(a: Word) -> Word {
    bool_word(word_val(a) == 0)
}

pub open spec fn w_and(a: Word, b: Word) -> Word {
    Word { l0: a.l0 & b.l0, l1: a.l1 & b.l1, l2: a.l2 & b.l2, l3: a.l3 & b.l3 }
}

pub open spec fn w_or(a: Word, b: Word) -> Word {
    Word { l0: a.l0 | b.l0, l1: a.l1 | b.l1, l2: a.l2 | b.l2, l3: a.l3 | b.l3 }
}

pub open spec fn w_xor(a: Word, b: Word) -> Word {
    Word { l0: a.l0 ^ b.l0, l1: a.l1 ^ b.l1, l2: a.l2 ^ b.l2, l3: a.l3 ^ b.l3 }
}

pub open spec fn w_not(a: Word) -> Word {
    Word { l0: !a.l0, l1: !a.l1, l2: !a.l2, l3: !a.l3 }
}

/// SHL with the shift given by a whole word: a shift of 256 or more
/// yields zero.
pub open spec fn w_shl(a: Word, s: Word) -> Word {
    if word_val(s) >= 256 {
        word_zero()
    } else {
        word_of_val((word_val(a) * pow2(word_val(s))) % p256())
    }
}

/// SHR: logical right shift; a shift of 256 or more yields zero.
pub open spec fn w_shr(a: Word, s: Word) -> Word {
    if word_val(s) >= 256 {
        word_zero()
    } else {
        word_of_val(word_val(a) / pow2(word_val(s)))
    }
}

/// SAR: arithmetic right shift; a shift of 256 or more yields 0 or
/// all-ones depending on the sign bit.
pub open spec fn w_sar(a: Word, s: Word) -> Word {
    if word_val(s) >= 256 {
        if word_int(a) < 0 {
            word_of_int(-1)
        } else {
            word_zero()
        }
    } else {
        word_of_int(word_int(a) / (pow2(word_val(s)) as int))
    }
}

/// BYTE(i, x): the i-th most significant byte of x, or zero for i >= 32.
pub open spec fn w_byte(i: Word, x: Word) -> Word {
    if word_val(i) >= 32 {
        word_zero()
    } else {
        word_of_val((word_val(x) / pow2(((31 - word_val(i)) * 8) as nat)) % 256)
    }
}

// ------------------------------------------------------------------
// Verified executable operations.
// ------------------------------------------------------------------

/// A word whose value is below 2^64 has zero high limbs and its value in
/// the low limb.
pub proof fn lemma_small_word(w: Word)
    ensures
        (word_val(w) < p64()) <==> (w.l1 == 0 && w.l2 == 0 && w.l3 == 0),
        word_val(w) < p64() ==> word_val(w) == w.l0,
{
    if w.l1 != 0 || w.l2 != 0 || w.l3 != 0 {
        if w.l1 != 0 {
            lemma_mul_inequality(1, w.l1 as int, p64() as int);
        }
        if w.l2 != 0 {
            lemma_mul_inequality(1, w.l2 as int, p128() as int);
        }
        if w.l3 != 0 {
            lemma_mul_inequality(1, w.l3 as int, p192() as int);
        }
        assert(word_val(w) >= p64());
    }
}

/// The sign bit of a word is set exactly when its value reaches 2^255.
pub proof fn lemma_word_sign(w: Word)
    ensures
        (w.l3 >= 0x8000_0000_0000_0000) <==> (word_val(w) >= p255()),
        (w.l3 >= 0x8000_0000_0000_0000) <==> (word_int(w) < 0),
{
    lemma_word_val_bound(w);
    if w.l3 >= 0x8000_0000_0000_0000 {
        lemma_mul_inequality(0x8000_0000_0000_0000, w.l3 as int, p192() as int);
        assert(word_val(w) >= p255());
    } else {
        assert(word_val(w) < p255()) by (nonlinear_arith)
            requires
                w.l3 < 0x8000_0000_0000_0000,
                w.l0 < p64() && w.l1 < p64() && w.l2 < p64(),
                word_val(w) == w.l0 + w.l1 * p64() + w.l2 * p128() + w.l3 * p192(),
                p128() == p64() * p64(),
                p192() == p128() * p64(),
                p255() == p192() * 0x8000_0000_0000_0000,
        ;
    }
}

pub fn word_from_u64(x: u64) -> (r: Word)
    ensures
        word_val(r) == x,
        r == word_of_val(x as nat),
{
    let r = Word { l0: x, l1: 0, l2: 0, l3: 0 };
    proof {
        lemma_word_decompose(r);
    }
    r
}

pub fn word_from_bool(b: bool) -> (r: Word)
    ensures
        r == bool_word(b),
{
    if b {
        Word { l0: 1, l1: 0, l2: 0, l3: 0 }
    } else {
        Word { l0: 0, l1: 0, l2: 0, l3: 0 }
    }
}

pub fn word_eq_exec(a: Word, b: Word) -> (r: bool)
    ensures
        r == (word_val(a) == word_val(b)),
{
    proof {
        lemma_word_decompose(a);
        lemma_word_decompose(b);
    }
    a.l0 == b.l0 && a.l1 == b.l1 && a.l2 == b.l2 && a.l3 == b.l3
}

pub fn word_is_zero(a: Word) -> (r: bool)
    ensures
        r == (word_val(a) == 0),
{
    proof {
        lemma_small_word(a);
    }
    a.l0 == 0 && a.l1 == 0 && a.l2 == 0 && a.l3 == 0
}

pub fn word_add(a: Word, b: Word) -> (r: Word)
    ensures
        r == w_add(a, b),
{
    let r = u256_add(a, b);
    proof {
        lemma_word_decompose(r);
    }
    r
}

pub fn word_sub(a: Word, b: Word) -> (r: Word)
    ensures
        r == w_sub(a, b),
{
    let r = u256_sub(a, b);
    proof {
        lemma_word_decompose(r);
    }
    r
}

pub fn word_mul(a: Word, b: Word) -> (r: Word)
    ensures
        r == w_mul(a, b),
{
    let r = u256_mul(a, b);
    proof {
        lemma_word_decompose(r);
    }
    r
}

pub fn word_div(a: Word, b: Word) -> (r: Word)
    ensures
        r == w_div(a, b),
{
    if word_is_zero(b) {
        Word { l0: 0, l1: 0, l2: 0, l3: 0 }
    } else {
        let r = u256_div(a, b);
        proof {
            lemma_word_decompose(r);
            lemma_word_val_bound(a);
            lemma_div_nonincreasing(word_val(a) as int, word_val(b) as int);
        }
        r
    }
}

pub fn word_mod(a: Word, b: Word) -> (r: Word)
    ensures
        r == w_mod(a, b),
{
    if word_is_zero(b) {
        Word { l0: 0, l1: 0, l2: 0, l3: 0 }
    } else {
        let r = u256_rem(a, b);
        proof {
            lemma_word_decompose(r);
        }
        r
    }
}

pub fn word_lt(a: Word, b: Word) -> (r: bool)
    ensures
        r == (word_val(a) < word_val(b)),
{
    proof {
        lemma_word_order(a, b);
        lemma_word_order(b, a);
    }
    if a.l3 != b.l3 {
        a.l3 < b.l3
    } else if a.l2 != b.l2 {
        a.l2 < b.l2
    } else if a.l1 != b.l1 {
        a.l1 < b.l1
    } else {
        a.l0 < b.l0
    }
}

/// Unsigned order on words is lexicographic order on the limbs, high
/// limb first.
pub proof fn lemma_word_order(a: Word, b: Word)
    ensures
        a.l3 < b.l3 ==> word_val(a) < word_val(b),
        a.l3 == b.l3 && a.l2 < b.l2 ==> word_val(a) < word_val(b),
        a.l3 == b.l3 && a.l2 == b.l2 && a.l1 < b.l1 ==> word_val(a) < word_val(b),
        a.l3 == b.l3 && a.l2 == b.l2 && a.l1 == b.l1 ==> (word_val(a) < word_val(b)
            <==> a.l0 < b.l0),
{
    assert(word_val(a) == a.l0 + a.l1 * p64() + a.l2 * p128() + a.l3 * p192());
    if a.l3 < b.l3 {
        assert(word_val(a) < word_val(b)) by (nonlinear_arith)
            requires
                a.l3 < b.l3,
                a.l0 < p64() && a.l1 < p64() && a.l2 < p64(),
                word_val(a) == a.l0 + a.l1 * p64() + a.l2 * p128() + a.l3 * p192(),
                word_val(b) == b.l0 + b.l1 * p64() + b.l2 * p128() + b.l3 * p192(),
                p128() == p64() * p64(),
                p192() == p128() * p64(),
        ;
    } else if a.l3 == b.l3 && a.l2 < b.l2 {
        assert(word_val(a) < word_val(b)) by (nonlinear_arith)
            requires
                a.l3 == b.l3,
                a.l2 < b.l2,
                a.l0 < p64() && a.l1 < p64(),
                word_val(a) == a.l0 + a.l1 * p64() + a.l2 * p128() + a.l3 * p192(),
                word_val(b) == b.l0 + b.l1 * p64() + b.l2 * p128() + b.l3 * p192(),
                p128() == p64() * p64(),
        ;
    } else if a.l3 == b.l3 && a.l2 == b.l2 && a.l1 < b.l1 {
        assert(word_val(a) < word_val(b)) by (nonlinear_arith)
            requires
                a.l3 == b.l3,
                a.l2 == b.l2,
                a.l1 < b.l1,
                a.l0 < p64(),
                word_val(a) == a.l0 + a.l1 * p64() + a.l2 * p128() + a.l3 * p192(),
                word_val(b) == b.l0 + b.l1 * p64() + b.l2 * p128() + b.l3 * p192(),
        ;
    }
}

fn word_sign(a: Word) -> (r: bool)
    ensures
        r == (word_int(a) < 0),
{
    proof {
        lemma_word_sign(a);
    }
    a.l3 >= 0x8000_0000_0000_0000
}

pub fn word_slt(a: Word, b: Word) -> (r: bool)
    ensures
        r == (word_int(a) < word_int(b)),
{
    proof {
        lemma_word_val_bound(a);
        lemma_word_val_bound(b);
        lemma_word_sign(a);
        lemma_word_sign(b);
    }
    let sa = word_sign(a);
    let sb = word_sign(b);
    if sa != sb {
        sa
    } else {
        word_lt(a, b)
    }
}

/// Two's-complement negation: `0 - a` modulo 2^256.
pub fn word_neg(a: Word) -> (r: Word)
    ensures
        r == word_of_int(-(word_val(a) as int)),
        word_val(r) as int == (-(word_val(a) as int)) % (p256() as int),
{
    let z = Word { l0: 0, l1: 0, l2: 0, l3: 0 };
    let r = u256_sub(z, a);
    proof {
        lemma_word_decompose(r);
    }
    r
}

/// The word holding the absolute value of `a` read as two's complement
/// (the absolute value of -2^255 wraps back to 2^255, which still equals
/// `abs_int`).
fn word_abs(a: Word) -> (r: Word)
    ensures
        word_val(r) == abs_int(word_int(a)),
{
    proof {
        lemma_word_sign(a);
        lemma_word_val_bound(a);
    }
    if word_sign(a) {
        let r = word_neg(a);
        proof {
            let v = word_val(a) as int;
            let p = p256() as int;
            assert((-v) % p == p - v) by (nonlinear_arith)
                requires
                    0 < v < p,
            ;
        }
        r
    } else {
        a
    }
}

pub fn word_sdiv(a: Word, b: Word) -> (r: Word)
    ensures
        r == w_sdiv(a, b),
{
    if word_is_zero(b) {
        Word { l0: 0, l1: 0, l2: 0, l3: 0 }
    } else {
        proof {
            lemma_word_sign(a);
            lemma_word_sign(b);
            lemma_word_val_bound(a);
            lemma_word_val_bound(b);
        }
        let sa = word_sign(a);
        let sb = word_sign(b);
        let ua = word_abs(a);
        let ub = word_abs(b);
        let q = u256_div(ua, ub);
        proof {
            lemma_word_decompose(q);
            lemma_div_nonincreasing(word_val(ua) as int, word_val(ub) as int);
            lemma_word_val_bound(ua);
        }
        if sa != sb {
            let r = word_neg(q);
            proof {
                assert(trunc_div(word_int(a), word_int(b)) == -(word_val(q) as int));
                lemma_word_decompose(r);
            }
            r
        } else {
            proof {
                assert(trunc_div(word_int(a), word_int(b)) == word_val(q) as int);
                let v = word_val(q) as int;
                let p = p256() as int;
                assert(v % p == v) by (nonlinear_arith)
                    requires
                        0 <= v < p,
                ;
            }
            q
        }
    }
}

pub fn word_smod(a: Word, b: Word) -> (r: Word)
    ensures
        r == w_smod(a, b),
{
    if word_is_zero(b) {
        Word { l0: 0, l1: 0, l2: 0, l3: 0 }
    } else {
        proof {
            lemma_word_sign(a);
            lemma_word_sign(b);
            lemma_word_val_bound(a);
            lemma_word_val_bound(b);
        }
        let sa = word_sign(a);
        let ua = word_abs(a);
        let ub = word_abs(b);
        let m = u256_rem(ua, ub);
        proof {
            lemma_word_decompose(m);
        }
        if sa {
            let r = word_neg(m);
            proof {
                assert(trunc_rem(word_int(a), word_int(b)) == -(word_val(m) as int));
                lemma_word_decompose(r);
            }
            r
        } else {
            proof {
                assert(trunc_rem(word_int(a), word_int(b)) == word_val(m) as int);
                let v = word_val(m) as int;
                let p = p256() as int;
                lemma_word_val_bound(m);
                assert(v % p == v) by (nonlinear_arith)
                    requires
                        0 <= v < p,
                ;
            }
            m
        }
    }
}

/// If a word's value is below `k <= 2^64`, its high limbs vanish and the
/// low limb holds the value; used to read shift amounts and byte
/// indices.
fn word_below(a: Word, k: u64) -> (r: bool)
    ensures
        r == (word_val(a) < k),
        r ==> word_val(a) == a.l0,
{
    proof {
        lemma_small_word(a);
    }
    a.l1 == 0 && a.l2 == 0 && a.l3 == 0 && a.l0 < k
}

pub fn word_shl(a: Word, s: Word) -> (r: Word)
    ensures
        r == w_shl(a, s),
{
    if word_below(s, 256) {
        let r = u256_shl(a, s.l0);
        proof {
            lemma_word_decompose(r);
        }
        r
    } else {
        Word { l0: 0, l1: 0, l2: 0, l3: 0 }
    }
}

pub fn word_shr(a: Word, s: Word) -> (r: Word)
    ensures
        r == w_shr(a, s),
{
    if word_below(s, 256) {
        let r = u256_shr(a, s.l0);
        proof {
            lemma_word_decompose(r);
        }
        r
    } else {
        proof {
            lemma_word_val_bound(a);
            lemma_pow2_pos(word_val(s));
        }
        Word { l0: 0, l1: 0, l2: 0, l3: 0 }
    }
}

pub fn word_sar(a: Word, s: Word) -> (r: Word)
    ensures
        r == w_sar(a, s),
{
    if word_below(s, 256) {
        let r = u256_sar(a, s.l0);
        proof {
            lemma_word_decompose(r);
        }
        r
    } else if word_sign(a) {
        let r = Word {
            l0: 0xffff_ffff_ffff_ffff,
            l1: 0xffff_ffff_ffff_ffff,
            l2: 0xffff_ffff_ffff_ffff,
            l3: 0xffff_ffff_ffff_ffff,
        };
        proof {
            lemma_word_decompose(r);
            assert(word_val(r) == p256() - 1) by (nonlinear_arith)
                requires
                    word_val(r) == 0xffff_ffff_ffff_ffff + 0xffff_ffff_ffff_ffff * p64()
                        + 0xffff_ffff_ffff_ffff * p128() + 0xffff_ffff_ffff_ffff * p192(),
                    p64() == 0x1_0000_0000_0000_0000,
                    p128() == p64() * p64(),
                    p192() == p128() * p64(),
                    p256() == p192() * p64(),
            ;
            assert((-1) % (p256() as int) == p256() - 1) by (nonlinear_arith)
                requires
                    p256() > 1,
            ;
        }
        r
    } else {
        Word { l0: 0, l1: 0, l2: 0, l3: 0 }
    }
}

/// SIGNEXTEND(k, x): for k < 31, sign-extend x from bit 8*(k+1)-1; for
/// k >= 31 the word is already full-width and comes back unchanged.
pub open spec fn w_signextend(k: Word, x: Word) -> Word {
    if word_val(k) >= 31 {
        x
    } else {
        let t = (8 * (word_val(k) + 1)) as nat;
        let low = word_val(x) % pow2(t);
        if low >= pow2((t - 1) as nat) {
            word_of_int(low - pow2(t))
        } else {
            word_of_val(low)
        }
    }
}

pub proof fn lemma_pow2_256()
    ensures
        pow2(64) == p64(),
        pow2(128) == p128(),
        pow2(192) == p192(),
        pow2(256) == p256(),
        pow2(255) == p255(),
{
    lemma2_to64();
    lemma_pow2_adds(64, 64);
    lemma_pow2_adds(128, 64);
    lemma_pow2_adds(192, 64);
    lemma_pow2_adds(192, 63);
    lemma2_to64_rest();
    assert(p255() == p192() * 0x8000_0000_0000_0000);
}

/// Shifting left then arithmetically right by the same amount keeps the
/// low bits and spreads the new sign bit: exactly SIGNEXTEND.
pub fn word_signextend(k: Word, x: Word) -> (r: Word)
    ensures
        r == w_signextend(k, x),
{
    proof {
        lemma_small_word(k);
    }
    if !(k.l1 == 0 && k.l2 == 0 && k.l3 == 0 && k.l0 < 31) {
        return x;
    }
    let t_bits: u64 = 8 * (k.l0 + 1);
    let s: u64 = 256 - t_bits;
    let sh = u256_shl(x, s);
    let r = u256_sar(sh, s);
    proof {
        lemma_pow2_256();
        lemma_pow2_adds((t_bits - 1) as nat, s as nat);
        lemma_pow2_adds(t_bits as nat, s as nat);
        lemma_pow2_pos(t_bits as nat);
        lemma_pow2_pos((t_bits - 1) as nat);
        lemma_pow2_pos(s as nat);
        lemma_pow2_strictly_increases(t_bits as nat, 256);
        let t = t_bits as nat;
        let pt = pow2(t) as int;
        let ps = pow2(s as nat) as int;
        let v = word_val(x) as int;
        let low = v % pt;
        lemma_fundamental_div_mod(v, pt);
        assert(v * ps == (v / pt) * (pt * ps) + low * ps) by (nonlinear_arith)
            requires
                v == pt * (v / pt) + low,
        ;
        assert(0 <= low * ps < pt * ps) by (nonlinear_arith)
            requires
                0 <= low < pt,
                ps > 0,
        ;
        lemma_fundamental_div_mod_converse(v * ps, pt * ps, v / pt, low * ps);
        assert(word_val(sh) == low * ps);
        lemma_word_sign(sh);
        assert((low * ps >= p255()) == (low >= pow2((t - 1) as nat))) by (nonlinear_arith)
            requires
                p255() == pow2((t - 1) as nat) * ps,
                ps > 0,
                low >= 0,
        ;
        if low >= pow2((t - 1) as nat) {
            assert(word_int(sh) == (low - pt) * ps) by (nonlinear_arith)
                requires
                    word_int(sh) == low * ps - pt * ps,
            ;
            lemma_div_by_multiple(low - pt, ps);
            assert(word_int(sh) / ps == low - pt);
        } else {
            lemma_div_by_multiple(low, ps);
            assert(word_int(sh) == low * ps);
            assert(word_int(sh) / ps == low);
            assert(low % (p256() as int) == low) by (nonlinear_arith)
                requires
                    0 <= low < pt <= p256(),
            ;
        }
        lemma_word_decompose(r);
    }
    r
}

/// Multiples of a positive divisor divide exactly, also below zero.
proof fn lemma_div_by_multiple(a: int, b: int)
    requires
        b > 0,
    ensures
        (a * b) / b == a,
{
    lemma_fundamental_div_mod_converse(a * b, b, a, 0);
}

pub fn word_byte(i: Word, x: Word) -> (r: Word)
    ensures
        r == w_byte(i, x),
{
    if word_below(i, 32) {
        let sh: u64 = (31 - i.l0) * 8;
        let q = u256_shr(x, sh);
        let r = Word { l0: q.l0 & 0xff, l1: 0, l2: 0, l3: 0 };
        proof {
            lemma_word_decompose(q);
            lemma_byte_mask(q);
            lemma_word_decompose(r);
            lemma_mod_mod(word_val(q) as int, 256, 0x100_0000_0000_0000);
        }
        r
    } else {
        Word { l0: 0, l1: 0, l2: 0, l3: 0 }
    }
}

/// Masking the low limb with 0xff takes the word's value modulo 256.
pub proof fn lemma_byte_mask(q: Word)
    ensures
        (q.l0 & 0xff) == word_val(q) % 256,
{
    lemma2_to64();
    assert(low_bits_mask(8) == 0xff);
    lemma_u64_low_bits_mask_is_mod(q.l0, 8);
    assert(q.l0 & 0xff == q.l0 % 256);
    lemma_word_decompose(q);
    assert(q.l0 == word_val(q) % p64());
    lemma_mod_mod(word_val(q) as int, 256, 0x100_0000_0000_0000);
    assert(256 * 0x100_0000_0000_0000 == p64());
}

} // verus!
