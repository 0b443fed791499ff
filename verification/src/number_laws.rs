//! Laws of the order of numbers: the double projection of integers keeps
//! their order.
use crate::number::{lemma_pack_range, lemma_rounded_mantissa, magnitude_bits, number_key, pack, rounded_mantissa, shift_of, NumberView};
use vstd::arithmetic::power2::{lemma2_to64, lemma2_to64_rest, pow2};
use vstd::prelude::*;

verus! {

/// A mantissa below 2^53 is packed below the next exponent.
proof fn lemma_pack_below(q: nat, shift: int)
    requires
        0 < q < 0x20_0000_0000_0000,
    ensures
        pack(q, shift) < (1076 + shift) * 0x10_0000_0000_0000,
    decreases
            (if q < 0x10_0000_0000_0000 {
                0x10_0000_0000_0000 - q
            } else {
                0
            }),
{
    if q < 0x10_0000_0000_0000 {
        lemma_pack_below(2 * q, shift - 1);
    }
}

/// At one exponent, the greater mantissa is packed to the greater bits.
proof fn lemma_pack_monotone(a: nat, b: nat, shift: int)
    requires
        0 < a < b <= 0x20_0000_0000_0000,
    ensures
        pack(a, shift) < pack(b, shift),
    decreases
            (if a < 0x10_0000_0000_0000 {
                0x10_0000_0000_0000 - a
            } else {
                0
            }),
{
    if a < 0x10_0000_0000_0000 {
        if b < 0x10_0000_0000_0000 {
            lemma_pack_monotone(2 * a, 2 * b, shift - 1);
        } else {
            lemma_pack_below(2 * a, shift - 1);
        }
    }
}

/// The greater integer is halved at least as often.
proof fn lemma_shift_monotone(a: nat, b: nat)
    requires
        a <= b,
    ensures
        shift_of(a) <= shift_of(b),
    decreases a,
{
    if a >= 0x20_0000_0000_0000 {
        lemma_shift_monotone(a / 2, b / 2);
    }
}

/// In the same unit, the greater integer is rounded to the greater mantissa.
proof fn lemma_rounding_monotone(a: nat, b: nat, unit: nat)
    requires
        a <= b,
        unit > 0,
    ensures
        ({
            let qa = a / unit;
            let ra = a % unit;
            let qb = b / unit;
            let rb = b % unit;
            (if 2 * ra > unit || (2 * ra == unit && qa % 2 == 1) {
                qa + 1
            } else {
                qa
            }) <= (if 2 * rb > unit || (2 * rb == unit && qb % 2 == 1) {
                qb + 1
            } else {
                qb
            })
        }),
{
    let qa = a / unit;
    let ra = a % unit;
    let qb = b / unit;
    let rb = b % unit;
    vstd::arithmetic::div_mod::lemma_fundamental_div_mod(a as int, unit as int);
    vstd::arithmetic::div_mod::lemma_fundamental_div_mod(b as int, unit as int);
    vstd::arithmetic::div_mod::lemma_mod_bound(a as int, unit as int);
    vstd::arithmetic::div_mod::lemma_mod_bound(b as int, unit as int);
    vstd::arithmetic::div_mod::lemma_div_is_ordered(a as int, b as int, unit as int);
    if qa == qb {
        assert(unit * qa == unit * qb);
        assert(ra <= rb);
    }
}

/// The bits of the double nearest to a positive integer are positive, below
/// the sign bit, and grow with the integer; they grow strictly among the
/// integers up to 2^53, which are doubles themselves.
pub proof fn lemma_magnitude_monotone(a: nat, b: nat)
    requires
        0 < a <= b < 0x1_0000_0000_0000_0000,
    ensures
        0 < magnitude_bits(a) <= magnitude_bits(b) < 0x8000_0000_0000_0000,
        a < b && b <= 0x20_0000_0000_0000 ==> magnitude_bits(a) < magnitude_bits(b),
{
    lemma2_to64();
    lemma2_to64_rest();
    let sa = shift_of(a);
    let sb = shift_of(b);
    let ua = pow2(sa);
    let ub = pow2(sb);
    lemma_rounded_mantissa(a, ua);
    lemma_rounded_mantissa(b, ub);
    lemma_shift_monotone(a, b);
    let ma = rounded_mantissa(a);
    let mb = rounded_mantissa(b);
    lemma_pack_range(ma, sa as int, 0);
    lemma_pack_range(mb, sb as int, 0);
    if sa == sb {
        if sa == 0 {
            if a < b {
                lemma_pack_monotone(a, b, 0);
            }
        } else {
            lemma_rounding_monotone(a, b, ua);
            if ma < mb {
                lemma_pack_monotone(ma, mb, sa as int);
            }
        }
    } else {
        if sa == 0 {
            lemma_pack_below(a, 0);
        }
    }
}

/// The double projection keeps the order of the integers: of two integers
/// within the range of the signed and unsigned 64-bit integers, the greater
/// one has no lesser place among the doubles; and where both are at most
/// 2^53 in magnitude, and so are doubles themselves, the greater one has the
/// greater place.
pub proof fn law_integer_projection_keeps_order(a: int, b: int)
    requires
        -0x8000_0000_0000_0000 <= a <= b < 0x1_0000_0000_0000_0000,
    ensures
        number_key(NumberView::Int(a)) <= number_key(NumberView::Int(b)),
        a < b && -0x20_0000_0000_0000 <= a && b <= 0x20_0000_0000_0000 ==> number_key(
            NumberView::Int(a),
        ) < number_key(NumberView::Int(b)),
{
    if a > 0 {
        lemma_magnitude_monotone(a as nat, b as nat);
    } else if a == 0 {
        if b > 0 {
            lemma_magnitude_monotone(b as nat, b as nat);
        }
    } else {
        lemma_magnitude_monotone((-a) as nat, (-a) as nat);
        if b > 0 {
            lemma_magnitude_monotone(b as nat, b as nat);
        } else if b < 0 {
            lemma_magnitude_monotone((-b) as nat, (-a) as nat);
        }
    }
}

} // verus!
