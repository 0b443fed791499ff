//! Laws of the order of keys: where the byte order of the sorted index is the
//! order of the values.
use crate::bytes::{bytes_relation, int_relation, Relation};
use crate::codec::{be8, from_be8, lemma_be8_round_trip};
use crate::keys::hex_text;
use crate::text::hex_digit;
use vstd::prelude::*;

verus! {

/// A common beginning does not change how two byte strings stand.
pub proof fn lemma_relation_common_prefix(p: Seq<u8>, x: Seq<u8>, y: Seq<u8>)
    ensures
        bytes_relation(p + x, p + y) == bytes_relation(x, y),
    decreases p.len(),
{
    if p.len() == 0 {
        assert(p + x =~= x);
        assert(p + y =~= y);
    } else {
        assert((p + x).skip(1) =~= p.skip(1) + x);
        assert((p + y).skip(1) =~= p.skip(1) + y);
        lemma_relation_common_prefix(p.skip(1), x, y);
    }
}

/// A byte string comes before what it is a beginning of, or is it.
pub proof fn lemma_relation_prefix(p: Seq<u8>, y: Seq<u8>)
    ensures
        bytes_relation(p, p + y) != Relation::Greater,
        y.len() > 0 ==> bytes_relation(p, p + y) == Relation::Less,
{
    lemma_relation_common_prefix(p, Seq::empty(), y);
    assert(p + Seq::<u8>::empty() =~= p);
}

/// Of two byte strings that begin with strings of one length, the beginnings
/// decide how they stand, and what follows decides where the beginnings are
/// the same.
pub proof fn lemma_relation_heads(x: Seq<u8>, y: Seq<u8>, s: Seq<u8>, t: Seq<u8>)
    requires
        x.len() == y.len(),
    ensures
        bytes_relation(x + s, y + t) == (if x == y {
            bytes_relation(s, t)
        } else {
            bytes_relation(x, y)
        }),
    decreases x.len(),
{
    if x.len() == 0 {
        assert(x =~= y);
        assert(x + s =~= s);
        assert(y + t =~= t);
    } else {
        assert((x + s).skip(1) =~= x.skip(1) + s);
        assert((y + t).skip(1) =~= y.skip(1) + t);
        assert((x + s)[0] == x[0]);
        assert((y + t)[0] == y[0]);
        lemma_relation_heads(x.skip(1), y.skip(1), s, t);
        if x[0] == y[0] {
            if x.skip(1) == y.skip(1) {
                assert(x =~= seq![x[0]] + x.skip(1));
                assert(y =~= seq![y[0]] + y.skip(1));
            }
        }
    }
}

/// Hexadecimal text begins with the two digits of the first byte.
pub proof fn lemma_hex_text_unfold(x: Seq<u8>)
    requires
        x.len() > 0,
    ensures
        hex_text(x) == seq![hex_digit(x[0] as int / 16), hex_digit(x[0] as int % 16)] + hex_text(
            x.skip(1),
        ),
{
    let head = seq![hex_digit(x[0] as int / 16), hex_digit(x[0] as int % 16)];
    let tail = hex_text(x.skip(1));
    assert forall|i: int| 0 <= i < hex_text(x).len() implies hex_text(x)[i] == (head + tail)[i] by {
        if i >= 2 {
            assert((head + tail)[i] == tail[i - 2]);
            assert((i - 2) / 2 == i / 2 - 1);
            assert((i - 2) % 2 == i % 2);
            assert(x.skip(1)[(i - 2) / 2] == x[i / 2]);
        }
    }
    assert(hex_text(x) =~= head + tail);
}

/// Hexadecimal text keeps the order: byte strings of one length stand as
/// their hexadecimal texts do.
pub proof fn lemma_hex_keeps_order(x: Seq<u8>, y: Seq<u8>)
    requires
        x.len() == y.len(),
    ensures
        bytes_relation(hex_text(x), hex_text(y)) == bytes_relation(x, y),
    decreases x.len(),
{
    if x.len() == 0 {
        assert(hex_text(x) =~= Seq::<u8>::empty());
        assert(hex_text(y) =~= Seq::<u8>::empty());
    } else {
        lemma_hex_text_unfold(x);
        lemma_hex_text_unfold(y);
        lemma_hex_keeps_order(x.skip(1), y.skip(1));
        let hx = seq![hex_digit(x[0] as int / 16), hex_digit(x[0] as int % 16)];
        let hy = seq![hex_digit(y[0] as int / 16), hex_digit(y[0] as int % 16)];
        lemma_relation_heads(hx, hy, hex_text(x.skip(1)), hex_text(y.skip(1)));
        assert(hx.skip(1) =~= seq![hex_digit(x[0] as int % 16)]);
        assert(hy.skip(1) =~= seq![hex_digit(y[0] as int % 16)]);
        assert(hx.skip(1).skip(1) =~= Seq::<u8>::empty());
        assert(hy.skip(1).skip(1) =~= Seq::<u8>::empty());
        reveal_with_fuel(bytes_relation, 3);
        if x[0] == y[0] {
            assert(hx =~= hy);
        } else {
            assert(hx != hy) by {
                if hx == hy {
                    assert(hx[0] == hy[0]);
                    assert(hx[1] == hy[1]);
                }
            }
        }
    }
}

/// Eight bytes, the most significant first, stand as the numbers that they
/// hold.
pub proof fn lemma_be8_keeps_order(x: Seq<u8>, y: Seq<u8>)
    requires
        x.len() == 8,
        y.len() == 8,
    ensures
        bytes_relation(x, y) == int_relation(from_be8(x), from_be8(y)),
{
    reveal_with_fuel(bytes_relation, 9);
    let x1 = x.skip(1);
    let x2 = x1.skip(1);
    let x3 = x2.skip(1);
    let x4 = x3.skip(1);
    let x5 = x4.skip(1);
    let x6 = x5.skip(1);
    let x7 = x6.skip(1);
    let y1 = y.skip(1);
    let y2 = y1.skip(1);
    let y3 = y2.skip(1);
    let y4 = y3.skip(1);
    let y5 = y4.skip(1);
    let y6 = y5.skip(1);
    let y7 = y6.skip(1);
    assert(x1[0] == x[1] && x2[0] == x[2] && x3[0] == x[3] && x4[0] == x[4] && x5[0] == x[5]
        && x6[0] == x[6] && x7[0] == x[7]);
    assert(y1[0] == y[1] && y2[0] == y[2] && y3[0] == y[3] && y4[0] == y[4] && y5[0] == y[5]
        && y6[0] == y[6] && y7[0] == y[7]);
    assert(x7.skip(1).len() == 0 && y7.skip(1).len() == 0);
}

/// The sort payload of an unsigned integer keeps the order of the integers.
pub proof fn lemma_be8_of_integers(a: int, b: int)
    requires
        0 <= a < 0x1_0000_0000_0000_0000,
        0 <= b < 0x1_0000_0000_0000_0000,
    ensures
        bytes_relation(be8(a), be8(b)) == int_relation(a, b),
{
    lemma_be8_round_trip(a);
    lemma_be8_round_trip(b);
    lemma_be8_keeps_order(be8(a), be8(b));
}

} // verus!
