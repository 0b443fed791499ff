//! Laws of the sort encoding.
use crate::bytes::{bytes_relation, int_relation, lemma_relation_equal, Relation};
use crate::codec::{
    be8, json_relation, lemma_be8_round_trip, pattern_of, sort_decoding, sort_encoding,
};
use crate::number::{double_is_finite, number_key, NumberView};
use crate::number_laws::law_integer_projection_keeps_order;
use crate::value::Json;
use vstd::prelude::*;
use vstd::utf8::valid_utf8;

verus! {

/// Whether a scalar can be written into a document: an integer is within the
/// range of the signed and unsigned 64-bit integers, a double is finite, a
/// string is UTF-8.
pub open spec fn is_sound_scalar(j: Json) -> bool {
    match j {
        Json::Number(NumberView::Int(v)) => -0x8000_0000_0000_0000 <= v < 0x1_0000_0000_0000_0000,
        Json::Number(NumberView::Float { bits, text }) => double_is_finite(bits),
        Json::String(s) => valid_utf8(s),
        Json::Bool(_) => true,
        _ => false,
    }
}

/// Decoding inverts encoding. What a sound scalar is encoded to decodes to a
/// scalar that compares equal to it; and it decodes to the scalar itself,
/// but for a double, whose text the encoding does not keep.
pub proof fn law_decoding_inverts_encoding(j: Json)
    requires
        is_sound_scalar(j),
    ensures
        sort_encoding(j) is Some,
        sort_decoding(sort_encoding(j)->0) is Some,
        json_relation(sort_decoding(sort_encoding(j)->0)->0, j) == Some(Relation::Equal),
        !(j is Number && j->Number_0 is Float) ==> sort_decoding(sort_encoding(j)->0) == Some(j),
{
    let encoded = sort_encoding(j)->0;
    match j {
        Json::Number(NumberView::Int(v)) => {
            if v <= 0x7fff_ffff_ffff_ffff {
                lemma_be8_round_trip(pattern_of(v));
                assert(encoded.skip(1) =~= be8(pattern_of(v)));
            } else {
                lemma_be8_round_trip(v);
                assert(encoded.skip(1) =~= be8(v));
            }
        },
        Json::Number(NumberView::Float { bits, text }) => {
            lemma_be8_round_trip(bits as int);
            assert(encoded.skip(1) =~= be8(bits as int));
        },
        Json::String(s) => {
            assert(encoded.skip(1) =~= s);
            lemma_relation_equal(s, s);
        },
        Json::Bool(b) => {},
        _ => {},
    }
}

/// Scalars of one kind compare in the natural order of the kind. Integers
/// compare without contradicting their order, and as their order says where
/// both are at most 2^53 in magnitude; doubles compare by their places among
/// the doubles; strings compare byte by byte; `false` comes before `true`.
pub proof fn law_same_kind_compares_in_order(a: Json, b: Json)
    requires
        is_sound_scalar(a),
        is_sound_scalar(b),
    ensures
        match (a, b) {
            (Json::Number(NumberView::Int(x)), Json::Number(NumberView::Int(y))) => {
                &&& json_relation(a, b) == Some(Relation::Less) ==> x < y
                &&& json_relation(a, b) == Some(Relation::Greater) ==> x > y
                &&& -0x20_0000_0000_0000 <= x <= 0x20_0000_0000_0000 && -0x20_0000_0000_0000
                    <= y <= 0x20_0000_0000_0000 ==> json_relation(a, b) == Some(
                    int_relation(x, y),
                )
            },
            (Json::Number(NumberView::Float { .. }), Json::Number(NumberView::Float { .. })) =>
                json_relation(a, b) == Some(
                    int_relation(number_key(a->Number_0), number_key(b->Number_0)),
                ),
            (Json::String(x), Json::String(y)) => json_relation(a, b) == Some(bytes_relation(x, y)),
            (Json::Bool(x), Json::Bool(y)) => json_relation(a, b) == Some(
                if x == y {
                    Relation::Equal
                } else if y {
                    Relation::Less
                } else {
                    Relation::Greater
                },
            ),
            _ => true,
        },
{
    match (a, b) {
        (Json::Number(NumberView::Int(x)), Json::Number(NumberView::Int(y))) => {
            if x <= y {
                law_integer_projection_keeps_order(x, y);
            } else {
                law_integer_projection_keeps_order(y, x);
            }
        },
        _ => {},
    }
}

/// The mirror of a relation: `Less` for `Greater` and the other way round.
pub open spec fn mirrored(r: Option<Relation>) -> Option<Relation> {
    match r {
        Some(Relation::Less) => Some(Relation::Greater),
        Some(Relation::Greater) => Some(Relation::Less),
        other => other,
    }
}

/// Comparing the other way round gives the mirror: two values stand one way
/// exactly when they stand the other way in the mirror, and do not compare
/// one way exactly when they do not compare the other way.
pub proof fn law_comparison_mirrors(a: Json, b: Json)
    ensures
        json_relation(b, a) == mirrored(json_relation(a, b)),
{
    match (a, b) {
        (Json::String(x), Json::String(y)) => {
            crate::bytes::lemma_relation_flip(x, y);
        },
        _ => {},
    }
}

/// Decoded scalars compare as the scalars that were encoded: the sort
/// encoding loses nothing that a comparison reads.
pub proof fn law_decoded_compare_as_encoded(a: Json, b: Json)
    requires
        is_sound_scalar(a),
        is_sound_scalar(b),
    ensures
        json_relation(
            sort_decoding(sort_encoding(a)->0)->0,
            sort_decoding(sort_encoding(b)->0)->0,
        ) == json_relation(a, b),
{
    law_decoding_inverts_encoding(a);
    law_decoding_inverts_encoding(b);
    let da = sort_decoding(sort_encoding(a)->0)->0;
    let db = sort_decoding(sort_encoding(b)->0)->0;
    match a {
        Json::Number(NumberView::Float { bits, text }) => {
            lemma_be8_round_trip(bits as int);
            assert(sort_encoding(a)->0.skip(1) =~= be8(bits as int));
        },
        _ => {},
    }
    match b {
        Json::Number(NumberView::Float { bits, text }) => {
            lemma_be8_round_trip(bits as int);
            assert(sort_encoding(b)->0.skip(1) =~= be8(bits as int));
        },
        _ => {},
    }
}

} // verus!
