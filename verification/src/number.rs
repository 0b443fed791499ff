//! Numbers of a document: integers, and doubles held by their IEEE-754 bits.
//!
//! Numbers are ordered by their projection to a double. A double is held as
//! its 64 bits together with the text it is written as, so every computation
//! here is on integers.
use crate::bytes::{int_relation, Relation};
use vstd::arithmetic::power2::{lemma2_to64, lemma2_to64_rest, lemma_pow2_unfold, pow2};
use vstd::prelude::*;

verus! {

/// A double: its IEEE-754 bits, and the text that stands for it in index keys.
/// A double that comes out of an encoded sort key has an empty text.
#[derive(Clone, Debug, PartialEq)]
pub struct Double {
    pub bits: u64,
    pub text: Vec<u8>,
}

/// A number of a document.
#[derive(Clone, Debug, PartialEq)]
pub enum Number {
    /// An integer within the signed 64-bit range.
    Int(i64),
    /// An integer within the unsigned 64-bit range.
    UInt(u64),
    /// A double.
    Float(Double),
}

/// What a `Number` stands for: an integer by its value, whichever variant
/// holds it, or a double by its bits and text.
pub enum NumberView {
    Int(int),
    Float { bits: u64, text: Seq<u8> },
}

impl View for Number {
    type V = NumberView;

    open spec fn view(&self) -> NumberView {
        match self {
            Number::Int(i) => NumberView::Int(*i as int),
            Number::UInt(u) => NumberView::Int(*u as int),
            Number::Float(d) => NumberView::Float { bits: d.bits, text: d.text@ },
        }
    }
}

pub const SIGN_BIT: u64 = 0x8000_0000_0000_0000;

pub const HIDDEN_BIT: u64 = 0x10_0000_0000_0000;

/// Whether `bits` are those of a finite double: the exponent field is not all
/// ones.
pub open spec fn double_is_finite(bits: u64) -> bool {
    (bits as int / 0x10_0000_0000_0000) % 0x800 != 0x7ff
}

/// The place of a double among the doubles: its magnitude bits, negated where
/// the sign bit is set. Finite doubles are ordered as these integers are, and
/// the two zeros share a place.
pub open spec fn double_key(bits: u64) -> int {
    if bits >= 0x8000_0000_0000_0000 {
        -(bits - 0x8000_0000_0000_0000)
    } else {
        bits as int
    }
}

/// How many halvings bring `m` below 2^53.
pub open spec fn shift_of(m: nat) -> nat
    decreases m,
{
    if m < 0x20_0000_0000_0000 {
        0
    } else {
        1 + shift_of(m / 2)
    }
}

/// `m` in units of 2^`shift_of(m)`, rounded to the nearest unit, a tie going to
/// the even side.
pub open spec fn rounded_mantissa(m: nat) -> nat {
    let unit = pow2(shift_of(m));
    let q = m / unit;
    let r = m % unit;
    if 2 * r > unit || (2 * r == unit && q % 2 == 1) {
        q + 1
    } else {
        q
    }
}

/// The bits of the double `q * 2^shift`, for `0 < q <= 2^53`.
pub open spec fn pack(q: nat, shift: int) -> int
    decreases
            (if q < 0x10_0000_0000_0000 {
                0x10_0000_0000_0000 - q
            } else {
                0
            }),
{
    if q == 0 || q >= 0x10_0000_0000_0000 {
        (1075 + shift) * 0x10_0000_0000_0000 + q - 0x10_0000_0000_0000
    } else {
        pack(2 * q, shift - 1)
    }
}

/// The bits of the double nearest to the positive integer `m`.
pub open spec fn magnitude_bits(m: nat) -> int {
    pack(rounded_mantissa(m), shift_of(m) as int)
}

/// The bits of the double projection of the integer `n`.
pub open spec fn integer_bits(n: int) -> int {
    if n == 0 {
        0
    } else if n > 0 {
        magnitude_bits(n as nat)
    } else {
        0x8000_0000_0000_0000 + magnitude_bits((-n) as nat)
    }
}

/// The bits of the double projection of a number.
pub open spec fn number_bits(n: NumberView) -> int {
    match n {
        NumberView::Int(i) => integer_bits(i),
        NumberView::Float { bits, .. } => bits as int,
    }
}

/// The place of a number among the doubles.
pub open spec fn number_key(n: NumberView) -> int {
    let bits = number_bits(n);
    if bits >= 0x8000_0000_0000_0000 {
        -(bits - 0x8000_0000_0000_0000)
    } else {
        bits
    }
}

/// How two numbers stand by their double projections.
pub open spec fn number_relation(a: NumberView, b: NumberView) -> Relation {
    int_relation(number_key(a), number_key(b))
}

/// Where `pack` lands: each doubling of a mantissa below 2^52 takes one from
/// the exponent, and a mantissa of at least 2^`done` is doubled at most
/// `52 - done` times.
pub proof fn lemma_pack_range(q: nat, shift: int, done: nat)
    requires
        0 < q <= 0x20_0000_0000_0000,
        q >= pow2(done),
        done <= 52,
    ensures
        (1023 + shift + done) * 0x10_0000_0000_0000 <= pack(q, shift) <= (1076 + shift)
            * 0x10_0000_0000_0000,
    decreases
            (if q < 0x10_0000_0000_0000 {
                0x10_0000_0000_0000 - q
            } else {
                0
            }),
{
    lemma2_to64();
    lemma2_to64_rest();
    if q < 0x10_0000_0000_0000 {
        assert(done < 52);
        lemma_pow2_unfold(done + 1);
        lemma_pack_range(2 * q, shift - 1, done + 1);
    }
}

/// The mantissa of an integer below 2^64 after rounding: between 2^52 and 2^53
/// once anything was shifted out, and the integer itself otherwise.
pub proof fn lemma_rounded_mantissa(m: nat, unit: nat)
    requires
        0 < m < 0x1_0000_0000_0000_0000,
        unit == pow2(shift_of(m)),
    ensures
        shift_of(m) <= 11,
        0 < unit <= 2048,
        0 < rounded_mantissa(m) <= 0x20_0000_0000_0000,
        shift_of(m) == 0 ==> rounded_mantissa(m) == m,
        shift_of(m) > 0 ==> rounded_mantissa(m) >= 0x10_0000_0000_0000,
{
    lemma2_to64();
    lemma_shift_of(m, 2048, 11);
    let k = shift_of(m);
    assert(unit <= 2048) by {
        if k < 11 {
            vstd::arithmetic::power2::lemma_pow2_strictly_increases(k, 11);
        }
    }
    vstd::arithmetic::power2::lemma_pow2_pos(k);
    lemma_shift_quotient(m);
    let q = m / unit;
    let r = m % unit;
    assert(m == unit * q + r && 0 <= r < unit) by {
        vstd::arithmetic::div_mod::lemma_fundamental_div_mod(m as int, unit as int);
        vstd::arithmetic::div_mod::lemma_mod_bound(m as int, unit as int);
    }
    if k == 0 {
        assert(unit == 1);
        assert(unit * q == q) by (nonlinear_arith)
            requires
                unit == 1,
        ;
    }
}

/// An integer below `bound * 2^53` is brought below 2^53 by at most `steps`
/// halvings, where `bound <= 2^steps`.
proof fn lemma_shift_of(m: nat, bound: nat, steps: nat)
    requires
        m < bound * 0x20_0000_0000_0000,
        bound <= pow2(steps),
    ensures
        shift_of(m) <= steps,
    decreases steps,
{
    lemma2_to64();
    if m >= 0x20_0000_0000_0000 {
        if steps == 0 {
            assert(bound <= 1);
        } else {
            lemma_pow2_unfold(steps);
            lemma_shift_of(m / 2, (bound + 1) / 2, (steps - 1) as nat);
        }
    }
}

/// In units of 2^`shift_of(m)` an integer lies below 2^53, and at or above 2^52
/// once it was halved at all.
proof fn lemma_shift_quotient(m: nat)
    ensures
        m / pow2(shift_of(m)) < 0x20_0000_0000_0000,
        shift_of(m) > 0 ==> m / pow2(shift_of(m)) >= 0x10_0000_0000_0000,
    decreases m,
{
    lemma2_to64();
    if m >= 0x20_0000_0000_0000 {
        let k = shift_of(m / 2);
        lemma_shift_quotient(m / 2);
        lemma_pow2_unfold(k + 1);
        vstd::arithmetic::power2::lemma_pow2_pos(k);
        assert(m / pow2(k + 1) == (m / 2) / pow2(k)) by {
            vstd::arithmetic::div_mod::lemma_div_denominator(m as int, 2, pow2(k) as int);
        }
        if k == 0 {
            assert(pow2(0) == 1);
            assert((m / 2) / 1 == m / 2);
        }
    } else {
        assert(pow2(0) == 1);
        assert(m / 1 == m);
    }
}

impl Double {
    /// A double from its bits and the text written for it.
    pub fn new(bits: u64, text: Vec<u8>) -> (d: Double)
        ensures
            d.bits == bits,
            d.text@ == text@,
    {
        Double { bits, text }
    }

    /// Whether the double is finite.
    pub fn is_finite(&self) -> (r: bool)
        ensures
            r == double_is_finite(self.bits),
    {
        (self.bits / HIDDEN_BIT) % 0x800 != 0x7ff
    }
}

/// The bits of the double nearest to the positive integer `m`.
pub fn magnitude_to_bits(m: u64) -> (r: u64)
    requires
        m > 0,
    ensures
        r == magnitude_bits(m as nat),
        0 < r < 0x4400_0000_0000_0000,
{
    let mut t: u64 = m;
    let mut shift: u64 = 0;
    let mut unit: u64 = 1;
    proof {
        lemma2_to64();
        lemma_rounded_mantissa(m as nat, pow2(shift_of(m as nat)));
    }
    while t >= 0x20_0000_0000_0000
        invariant
            shift_of(m as nat) == shift + shift_of(t as nat),
            shift_of(m as nat) <= 11,
            unit == pow2(shift as nat),
            unit <= 2048,
        decreases t,
    {
        proof {
            lemma2_to64();
            lemma_pow2_unfold((shift + 1) as nat);
            if shift + 1 < 11 {
                vstd::arithmetic::power2::lemma_pow2_strictly_increases((shift + 1) as nat, 11);
            }
        }
        t = t / 2;
        shift = shift + 1;
        unit = unit * 2;
    }
    let q: u64 = m / unit;
    let r: u64 = m % unit;
    let mut mantissa: u64 = if 2 * r > unit || (2 * r == unit && q % 2 == 1) {
        q + 1
    } else {
        q
    };
    let mut exponent: u64 = 1075 + shift;
    let ghost mut done: nat = 0;
    proof {
        lemma2_to64();
        lemma_pack_range(mantissa as nat, shift as int, 0);
    }
    while mantissa < 0x10_0000_0000_0000
        invariant
            0 < mantissa <= 0x20_0000_0000_0000,
            mantissa >= pow2(done),
            done <= 52,
            shift <= 11,
            exponent == 1075 + shift - done,
            pack(mantissa as nat, exponent - 1075) == magnitude_bits(m as nat),
        decreases
                (if mantissa < 0x10_0000_0000_0000 {
                    0x10_0000_0000_0000 - mantissa
                } else {
                    0
                }),
    {
        proof {
            lemma2_to64();
            lemma2_to64_rest();
            lemma_pow2_unfold(done + 1);
            done = done + 1;
        }
        mantissa = mantissa * 2;
        exponent = exponent - 1;
    }
    proof {
        lemma_pack_range(mantissa as nat, exponent - 1075, done);
    }
    exponent * HIDDEN_BIT + mantissa - HIDDEN_BIT
}

/// The bits of the double projection of a number.
pub fn number_to_bits(n: &Number) -> (r: u64)
    ensures
        r == number_bits(n@),
{
    match n {
        Number::Int(i) => {
            if *i == 0 {
                0
            } else if *i > 0 {
                magnitude_to_bits(*i as u64)
            } else if *i == i64::MIN {
                SIGN_BIT + magnitude_to_bits(SIGN_BIT)
            } else {
                SIGN_BIT + magnitude_to_bits((-*i) as u64)
            }
        },
        Number::UInt(u) => {
            if *u == 0 {
                0
            } else {
                magnitude_to_bits(*u)
            }
        },
        Number::Float(d) => d.bits,
    }
}

/// The place among the doubles of the double with these bits.
pub fn key_of_bits(bits: u64) -> (k: i128)
    ensures
        k == double_key(bits),
{
    if bits >= SIGN_BIT {
        -((bits - SIGN_BIT) as i128)
    } else {
        bits as i128
    }
}

/// Compares two numbers by their double projections.
pub fn compare_numbers(a: &Number, b: &Number) -> (r: Relation)
    ensures
        r == number_relation(a@, b@),
{
    let ka = key_of_bits(number_to_bits(a));
    let kb = key_of_bits(number_to_bits(b));
    if ka < kb {
        Relation::Less
    } else if ka == kb {
        Relation::Equal
    } else {
        Relation::Greater
    }
}

} // verus!
