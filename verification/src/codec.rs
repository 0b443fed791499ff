//! The sort encoding of scalars: one tag byte for the type, then a payload
//! whose byte order is the order of the values of that type.
use crate::bytes::{append_bytes, bytes_equal, bytes_relation, compare_bytes, copy_range, Relation};
use crate::error::DbError;
use crate::number::{compare_numbers, double_is_finite, number_relation, Double, Number, NumberView};
use crate::bytes::{find, find_byte, lemma_find_byte};
use crate::path::{all_digits, digits_value, lemma_digits_grow};
use crate::text::{trim, trim_quotes};
use crate::value::{Json, Value};
use vstd::prelude::*;
use vstd::utf8::valid_utf8;

verus! {

pub const TAG_SIGNED: u8 = 0x01;

pub const TAG_UNSIGNED: u8 = 0x02;

pub const TAG_DOUBLE: u8 = 0x03;

pub const TAG_STRING: u8 = 0x04;

pub const TAG_BOOL: u8 = 0x05;

/// The eight bytes of `n`, the most significant first, for `0 <= n < 2^64`.
pub open spec fn be8(n: int) -> Seq<u8> {
    seq![
        (n / 0x100_0000_0000_0000 % 256) as u8,
        (n / 0x1_0000_0000_0000 % 256) as u8,
        (n / 0x100_0000_0000 % 256) as u8,
        (n / 0x1_0000_0000 % 256) as u8,
        (n / 0x100_0000 % 256) as u8,
        (n / 0x1_0000 % 256) as u8,
        (n / 0x100 % 256) as u8,
        (n % 256) as u8,
    ]
}

/// The number that the first eight bytes of `b` hold, the most significant
/// first.
pub open spec fn from_be8(b: Seq<u8>) -> int {
    b[0] * 0x100_0000_0000_0000 + b[1] * 0x1_0000_0000_0000 + b[2] * 0x100_0000_0000 + b[3]
        * 0x1_0000_0000 + b[4] * 0x100_0000 + b[5] * 0x1_0000 + b[6] * 0x100 + b[7]
}

/// The signed integer that a 64-bit pattern stands for in two's complement.
pub open spec fn signed_of(pattern: int) -> int {
    if pattern >= 0x8000_0000_0000_0000 {
        pattern - 0x1_0000_0000_0000_0000
    } else {
        pattern
    }
}

/// The 64-bit pattern of a signed integer in two's complement.
pub open spec fn pattern_of(v: int) -> int {
    if v < 0 {
        v + 0x1_0000_0000_0000_0000
    } else {
        v
    }
}

/// The sort encoding of a scalar, or `None` for what is no scalar (null, an
/// array, an object). An integer within the signed range goes under the signed
/// tag, a larger one under the unsigned tag.
pub open spec fn sort_encoding(j: Json) -> Option<Seq<u8>> {
    match j {
        Json::Number(NumberView::Int(v)) => if v <= 0x7fff_ffff_ffff_ffff {
            Some(seq![1u8] + be8(pattern_of(v)))
        } else {
            Some(seq![2u8] + be8(v))
        },
        Json::Number(NumberView::Float { bits, text }) => Some(seq![3u8] + be8(bits as int)),
        Json::String(s) => Some(seq![4u8] + s),
        Json::Bool(b) => Some(
            seq![
                5u8,
                if b {
                    1u8
                } else {
                    0u8
                },
            ],
        ),
        _ => None,
    }
}

/// Whether `bytes` claim to hold a string that is not UTF-8.
pub open spec fn holds_bad_text(bytes: Seq<u8>) -> bool {
    bytes.len() > 0 && bytes[0] == 4 && !valid_utf8(bytes.skip(1))
}

/// The scalar that `bytes` encode, or `None` where they encode none: they are
/// empty, the tag is unknown, the payload is too short, a double is not
/// finite, or a string is not UTF-8. Bytes behind a payload of fixed length are
/// passed over. A decoded double has no text.
pub open spec fn sort_decoding(bytes: Seq<u8>) -> Option<Json> {
    if bytes.len() == 0 {
        None
    } else if bytes[0] == 1 {
        if bytes.len() < 9 {
            None
        } else {
            Some(Json::Number(NumberView::Int(signed_of(from_be8(bytes.skip(1))))))
        }
    } else if bytes[0] == 2 {
        if bytes.len() < 9 {
            None
        } else {
            Some(Json::Number(NumberView::Int(from_be8(bytes.skip(1)))))
        }
    } else if bytes[0] == 3 {
        if bytes.len() < 9 || !double_is_finite(from_be8(bytes.skip(1)) as u64) {
            None
        } else {
            Some(
                Json::Number(
                    NumberView::Float { bits: from_be8(bytes.skip(1)) as u64, text: Seq::empty() },
                ),
            )
        }
    } else if bytes[0] == 4 {
        if valid_utf8(bytes.skip(1)) {
            Some(Json::String(bytes.skip(1)))
        } else {
            None
        }
    } else if bytes[0] == 5 {
        if bytes.len() < 2 {
            None
        } else {
            Some(Json::Bool(bytes[1] != 0))
        }
    } else {
        None
    }
}

/// How two values stand in the order of queries: numbers by their double
/// projection, strings byte by byte, `false` before `true`, null equal to
/// null. Values of different kinds, arrays and objects do not compare.
pub open spec fn json_relation(a: Json, b: Json) -> Option<Relation> {
    match (a, b) {
        (Json::Number(x), Json::Number(y)) => Some(number_relation(x, y)),
        (Json::String(x), Json::String(y)) => Some(bytes_relation(x, y)),
        (Json::Bool(x), Json::Bool(y)) => Some(
            if x == y {
                Relation::Equal
            } else if y {
                Relation::Less
            } else {
                Relation::Greater
            },
        ),
        (Json::Null, Json::Null) => Some(Relation::Equal),
        _ => None,
    }
}

/// The bytes of `n` from the least significant up: each is what is left of
/// the quotient by the bytes below it.
proof fn lemma_byte_chain(n: int)
    requires
        0 <= n < 0x1_0000_0000_0000_0000,
    ensures
        n / 0x1_0000 == (n / 0x100) / 0x100,
        n / 0x100_0000 == (n / 0x1_0000) / 0x100,
        n / 0x1_0000_0000 == (n / 0x100_0000) / 0x100,
        n / 0x100_0000_0000 == (n / 0x1_0000_0000) / 0x100,
        n / 0x1_0000_0000_0000 == (n / 0x100_0000_0000) / 0x100,
        n / 0x100_0000_0000_0000 == (n / 0x1_0000_0000_0000) / 0x100,
        n / 0x100_0000_0000_0000 < 0x100,
{
    vstd::arithmetic::div_mod::lemma_div_denominator(n, 0x100, 0x100);
    vstd::arithmetic::div_mod::lemma_div_denominator(n, 0x1_0000, 0x100);
    vstd::arithmetic::div_mod::lemma_div_denominator(n, 0x100_0000, 0x100);
    vstd::arithmetic::div_mod::lemma_div_denominator(n, 0x1_0000_0000, 0x100);
    vstd::arithmetic::div_mod::lemma_div_denominator(n, 0x100_0000_0000, 0x100);
    vstd::arithmetic::div_mod::lemma_div_denominator(n, 0x1_0000_0000_0000, 0x100);
}

/// Eight bytes, the most significant first, hold the number they were made of.
pub proof fn lemma_be8_round_trip(n: int)
    requires
        0 <= n < 0x1_0000_0000_0000_0000,
    ensures
        be8(n).len() == 8,
        from_be8(be8(n)) == n,
{
    lemma_byte_chain(n);
    let q1 = n / 0x100;
    let q2 = q1 / 0x100;
    let q3 = q2 / 0x100;
    let q4 = q3 / 0x100;
    let q5 = q4 / 0x100;
    let q6 = q5 / 0x100;
    let q7 = q6 / 0x100;
    assert(n == 0x100 * q1 + n % 256);
    assert(q1 == 0x100 * q2 + q1 % 256);
    assert(q2 == 0x100 * q3 + q2 % 256);
    assert(q3 == 0x100 * q4 + q3 % 256);
    assert(q4 == 0x100 * q5 + q4 % 256);
    assert(q5 == 0x100 * q6 + q5 % 256);
    assert(q6 == 0x100 * q7 + q6 % 256);
    assert(q7 % 256 == q7);
    let b = be8(n);
    assert(b[7] == n % 256);
    assert(b[6] == q1 % 256);
    assert(b[5] == q2 % 256);
    assert(b[4] == q3 % 256);
    assert(b[3] == q4 % 256);
    assert(b[2] == q5 % 256);
    assert(b[1] == q6 % 256);
    assert(b[0] == q7);
}

/// Whether `bytes` are UTF-8, by `core::str::from_utf8`: that function accepts
/// exactly the well-formed UTF-8 byte strings.
#[verifier::external_body]
pub(crate) fn is_utf8(bytes: &[u8]) -> (r: bool)
    ensures
        r == valid_utf8(bytes@),
{
    core::str::from_utf8(bytes).is_ok()
}

/// Appends the eight bytes of `n`, the most significant first.
fn push_be8(out: &mut Vec<u8>, n: u64)
    ensures
        final(out)@ == old(out)@ + be8(n as int),
{
    out.push((n / 0x100_0000_0000_0000 % 256) as u8);
    out.push((n / 0x1_0000_0000_0000 % 256) as u8);
    out.push((n / 0x100_0000_0000 % 256) as u8);
    out.push((n / 0x1_0000_0000 % 256) as u8);
    out.push((n / 0x100_0000 % 256) as u8);
    out.push((n / 0x1_0000 % 256) as u8);
    out.push((n / 0x100 % 256) as u8);
    out.push((n % 256) as u8);
    proof {
        assert(out@ =~= old(out)@ + be8(n as int));
    }
}

/// Reads the number that the eight bytes of `bytes` from `from` on hold.
fn read_be8(bytes: &[u8], from: usize) -> (r: u64)
    requires
        from + 8 <= bytes@.len(),
    ensures
        r == from_be8(bytes@.skip(from as int)),
{
    let b0 = bytes[from] as u64;
    let b1 = bytes[from + 1] as u64;
    let b2 = bytes[from + 2] as u64;
    let b3 = bytes[from + 3] as u64;
    let b4 = bytes[from + 4] as u64;
    let b5 = bytes[from + 5] as u64;
    let b6 = bytes[from + 6] as u64;
    let b7 = bytes[from + 7] as u64;
    b0 * 0x100_0000_0000_0000 + b1 * 0x1_0000_0000_0000 + b2 * 0x100_0000_0000 + b3
        * 0x1_0000_0000 + b4 * 0x100_0000 + b5 * 0x1_0000 + b6 * 0x100 + b7
}

/// Encodes a scalar for the sorted index. What is no scalar is refused with
/// `Serde`.
pub fn encode_sorted_value(value: &Value) -> (r: Result<Vec<u8>, DbError>)
    ensures
        match r {
            Ok(bytes) => sort_encoding(value@) == Some(bytes@),
            Err(e) => sort_encoding(value@) is None && e is Serde,
        },
{
    let mut buf: Vec<u8> = Vec::new();
    match value {
        Value::Number(Number::Int(i)) => {
            buf.push(TAG_SIGNED);
            let pattern: u64 = if *i < 0 {
                (*i as i128 + 0x1_0000_0000_0000_0000i128) as u64
            } else {
                *i as u64
            };
            push_be8(&mut buf, pattern);
        },
        Value::Number(Number::UInt(u)) => {
            if *u <= 0x7fff_ffff_ffff_ffff {
                buf.push(TAG_SIGNED);
            } else {
                buf.push(TAG_UNSIGNED);
            }
            push_be8(&mut buf, *u);
        },
        Value::Number(Number::Float(d)) => {
            buf.push(TAG_DOUBLE);
            push_be8(&mut buf, d.bits);
        },
        Value::String(s) => {
            buf.push(TAG_STRING);
            append_bytes(&mut buf, s.as_slice());
        },
        Value::Bool(b) => {
            buf.push(TAG_BOOL);
            buf.push(
                if *b {
                    1
                } else {
                    0
                },
            );
        },
        _ => {
            return Err(DbError::Serde("Unsupported type for sorted index".to_owned()));
        },
    }
    proof {
        assert(buf@ =~= sort_encoding(value@)->0);
    }
    Ok(buf)
}

/// Decodes a scalar of the sorted index. A string that is not UTF-8 is
/// refused with `Utf8Error`, everything else that encodes no scalar with
/// `Serde`.
pub fn decode_sorted_value(encoded: &[u8]) -> (r: Result<Value, DbError>)
    ensures
        match r {
            Ok(value) => sort_decoding(encoded@) == Some(value@),
            Err(e) => sort_decoding(encoded@) is None && (if holds_bad_text(encoded@) {
                e is Utf8Error
            } else {
                e is Serde
            }),
        },
{
    if encoded.len() == 0 {
        return Err(DbError::Serde("Empty encoded value".to_owned()));
    }
    let tag = encoded[0];
    if tag == TAG_SIGNED {
        if encoded.len() < 9 {
            return Err(DbError::Serde("Invalid i64 encoding length".to_owned()));
        }
        let pattern = read_be8(encoded, 1);
        let v: i64 = if pattern >= 0x8000_0000_0000_0000 {
            (pattern as i128 - 0x1_0000_0000_0000_0000i128) as i64
        } else {
            pattern as i64
        };
        Ok(Value::Number(Number::Int(v)))
    } else if tag == TAG_UNSIGNED {
        if encoded.len() < 9 {
            return Err(DbError::Serde("Invalid u64 encoding length".to_owned()));
        }
        Ok(Value::Number(Number::UInt(read_be8(encoded, 1))))
    } else if tag == TAG_DOUBLE {
        if encoded.len() < 9 {
            return Err(DbError::Serde("Invalid f64 encoding length".to_owned()));
        }
        let d = Double { bits: read_be8(encoded, 1), text: Vec::new() };
        if !d.is_finite() {
            return Err(DbError::Serde("Invalid f64".to_owned()));
        }
        Ok(Value::Number(Number::Float(d)))
    } else if tag == TAG_STRING {
        let body = copy_range(encoded, 1, encoded.len());
        proof {
            assert(body@ =~= encoded@.skip(1));
        }
        if !is_utf8(body.as_slice()) {
            return Err(DbError::Utf8Error("invalid utf-8 sequence".to_owned()));
        }
        Ok(Value::String(body))
    } else if tag == TAG_BOOL {
        if encoded.len() < 2 {
            return Err(DbError::Serde("Invalid bool encoding length".to_owned()));
        }
        Ok(Value::Bool(encoded[1] != 0))
    } else {
        Err(DbError::Serde("Unknown type byte".to_owned()))
    }
}

/// Compares two values as queries do.
pub fn compare_values(v1: &Value, v2: &Value) -> (r: Option<Relation>)
    ensures
        r == json_relation(v1@, v2@),
{
    match (v1, v2) {
        (Value::Number(a), Value::Number(b)) => Some(compare_numbers(a, b)),
        (Value::String(a), Value::String(b)) => Some(compare_bytes(a.as_slice(), b.as_slice())),
        (Value::Bool(a), Value::Bool(b)) => Some(
            if *a == *b {
                Relation::Equal
            } else if *b {
                Relation::Less
            } else {
                Relation::Greater
            },
        ),
        (Value::Null, Value::Null) => Some(Relation::Equal),
        _ => None,
    }
}

/// The value of `digits` where they are decimal digits, at least one, worth at
/// most `limit`.
pub open spec fn digits_within(digits: Seq<u8>, limit: nat) -> Option<nat> {
    if digits.len() > 0 && all_digits(digits) && digits_value(digits) <= limit {
        Some(digits_value(digits))
    } else {
        None
    }
}

/// `s` without one leading minus sign.
pub open spec fn unsigned_part(s: Seq<u8>) -> Seq<u8> {
    if s.len() > 0 && s[0] == 45 {
        s.skip(1)
    } else {
        s
    }
}

/// Whether `s` is a numeric literal: an optional minus sign, decimal digits,
/// and optionally a point with decimal digits behind it.
pub open spec fn is_numeric_literal(s: Seq<u8>) -> bool {
    let body = unsigned_part(s);
    let dot = find_byte(body, 46, 0);
    if dot >= body.len() {
        body.len() > 0 && all_digits(body)
    } else {
        dot > 0 && all_digits(body.take(dot)) && dot + 1 < body.len() && all_digits(
            body.skip(dot + 1),
        )
    }
}

/// The integer that `s` writes, where `s` is an optional minus sign and
/// decimal digits and the integer is within the signed 64-bit range.
pub open spec fn integer_literal(s: Seq<u8>) -> Option<int> {
    let body = unsigned_part(s);
    if s.len() > 0 && s[0] == 45 {
        match digits_within(body, 0x8000_0000_0000_0000) {
            Some(v) => Some(-(v as int)),
            None => None,
        }
    } else {
        match digits_within(body, 0x7fff_ffff_ffff_ffff) {
            Some(v) => Some(v as int),
            None => None,
        }
    }
}

/// The value that a text of a query stands for: `true` and `false` are the
/// booleans; a numeric literal is the signed integer it writes if there is
/// one, else the finite double handed in for it, else nothing; every other
/// text is a string, without the double quotes at either end.
pub open spec fn parsed_value(s: Seq<u8>, double: Option<Double>) -> Option<Json> {
    if s == seq![116u8, 114u8, 117u8, 101u8] {
        Some(Json::Bool(true))
    } else if s == seq![102u8, 97u8, 108u8, 115u8, 101u8] {
        Some(Json::Bool(false))
    } else if is_numeric_literal(s) {
        match integer_literal(s) {
            Some(v) => Some(Json::Number(NumberView::Int(v))),
            None => match double {
                Some(d) => if double_is_finite(d.bits) {
                    Some(Json::Number(NumberView::Float { bits: d.bits, text: d.text@ }))
                } else {
                    None
                },
                None => None,
            },
        }
    } else {
        Some(Json::String(trim_quotes(s)))
    }
}

/// Whether every byte of `s` from `from` up to `to` is a decimal digit.
fn digits_only(s: &[u8], from: usize, to: usize) -> (r: bool)
    requires
        from <= to <= s@.len(),
    ensures
        r == all_digits(s@.subrange(from as int, to as int)),
{
    let mut i: usize = from;
    while i < to
        invariant
            from <= i <= to,
            to <= s@.len(),
            forall|j: int| from <= j < i ==> 48 <= #[trigger] s@[j] <= 57,
        decreases to - i,
    {
        if s[i] < 48 || s[i] > 57 {
            proof {
                assert(s@.subrange(from as int, to as int)[i - from] == s@[i as int]);
            }
            return false;
        }
        i += 1;
    }
    proof {
        assert forall|j: int| 0 <= j < to - from implies 48 <= #[trigger] s@.subrange(
            from as int,
            to as int,
        )[j] <= 57 by {
            assert(s@.subrange(from as int, to as int)[j] == s@[from + j]);
        }
    }
    true
}

/// Reads the decimal digits of `s` from `from` on, where they are worth at
/// most `limit`.
fn parse_digits(s: &[u8], from: usize, limit: u64) -> (r: Option<u64>)
    requires
        from <= s@.len(),
    ensures
        match r {
            Some(v) => digits_within(s@.skip(from as int), limit as nat) == Some(v as nat),
            None => digits_within(s@.skip(from as int), limit as nat) is None,
        },
{
    let ghost digits = s@.skip(from as int);
    if from >= s.len() {
        return None;
    }
    let mut acc: u64 = 0;
    let mut i: usize = from;
    while i < s.len()
        invariant
            from <= i <= s@.len(),
            digits == s@.skip(from as int),
            all_digits(digits.take(i - from)),
            acc == digits_value(digits.take(i - from)),
            acc <= limit,
        decreases s@.len() - i,
    {
        let b = s[i];
        if b < 48 || b > 57 {
            proof {
                assert(digits[i - from] == b);
            }
            return None;
        }
        let d: u64 = (b - 48) as u64;
        proof {
            assert(digits.take(i - from + 1).drop_last() =~= digits.take(i - from));
            assert(digits.take(i - from + 1).last() == b);
        }
        if d > limit || acc > (limit - d) / 10 {
            proof {
                if all_digits(digits) {
                    lemma_digits_grow(digits, i - from + 1);
                }
            }
            return None;
        }
        acc = acc * 10 + d;
        i += 1;
    }
    proof {
        assert(digits.take(i - from) =~= digits);
    }
    Some(acc)
}

/// Whether `s` is a numeric literal.
fn numeric_literal(s: &[u8]) -> (r: bool)
    ensures
        r == is_numeric_literal(s@),
{
    let start: usize = if s.len() > 0 && s[0] == 45 {
        1
    } else {
        0
    };
    let ghost body = unsigned_part(s@);
    let body_vec = copy_range(s, start, s.len());
    proof {
        assert(body_vec@ =~= body);
    }
    let b = body_vec.as_slice();
    let dot = find(b, 46, 0);
    proof {
        lemma_find_byte(body, 46, 0);
    }
    if dot >= b.len() {
        let r = b.len() > 0 && digits_only(b, 0, b.len());
        proof {
            assert(body.subrange(0, body.len() as int) =~= body);
        }
        r
    } else {
        let r = dot > 0 && digits_only(b, 0, dot) && dot + 1 < b.len() && digits_only(
            b,
            dot + 1,
            b.len(),
        );
        proof {
            assert(body.subrange(0, dot as int) =~= body.take(dot as int));
            if dot + 1 < body.len() {
                assert(body.subrange(dot + 1, body.len() as int) =~= body.skip(dot + 1));
            }
        }
        r
    }
}

/// Reads `s` as a signed integer.
fn parse_integer(s: &[u8]) -> (r: Option<i64>)
    ensures
        match r {
            Some(v) => integer_literal(s@) == Some(v as int),
            None => integer_literal(s@) is None,
        },
{
    if s.len() > 0 && s[0] == 45 {
        match parse_digits(s, 1, 0x8000_0000_0000_0000) {
            Some(v) => {
                if v == 0x8000_0000_0000_0000 {
                    Some(i64::MIN)
                } else {
                    Some(-(v as i64))
                }
            },
            None => None,
        }
    } else {
        proof {
            assert(s@.skip(0) =~= s@);
        }
        match parse_digits(s, 0, 0x7fff_ffff_ffff_ffff) {
            Some(v) => Some(v as i64),
            None => None,
        }
    }
}

/// Reads the text of a query as a value. `double` is the double that the text
/// writes, for a text that writes one; it is used for a numeric literal that
/// is no signed integer, and a literal left without a finite double is
/// refused with `InvalidComparisonValue`.
pub fn parse_value(value_str: &[u8], double: Option<Double>) -> (r: Result<Value, DbError>)
    ensures
        match r {
            Ok(value) => parsed_value(value_str@, double) == Some(value@),
            Err(e) => parsed_value(value_str@, double) is None && e is InvalidComparisonValue,
        },
{
    let true_text: Vec<u8> = vec![116u8, 114u8, 117u8, 101u8];
    let false_text: Vec<u8> = vec![102u8, 97u8, 108u8, 115u8, 101u8];
    proof {
        assert(true_text@ =~= seq![116u8, 114u8, 117u8, 101u8]);
        assert(false_text@ =~= seq![102u8, 97u8, 108u8, 115u8, 101u8]);
    }
    if bytes_equal(value_str, true_text.as_slice()) {
        Ok(Value::Bool(true))
    } else if bytes_equal(value_str, false_text.as_slice()) {
        Ok(Value::Bool(false))
    } else if numeric_literal(value_str) {
        match parse_integer(value_str) {
            Some(v) => Ok(Value::Number(Number::Int(v))),
            None => match double {
                Some(d) => {
                    if d.is_finite() {
                        Ok(Value::Number(Number::Float(d)))
                    } else {
                        Err(
                            DbError::InvalidComparisonValue(
                                "the number is not a finite double".to_owned(),
                            ),
                        )
                    }
                },
                None => Err(
                    DbError::InvalidComparisonValue("Could not parse number".to_owned()),
                ),
            },
        }
    } else {
        Ok(Value::String(trim(value_str, 34)))
    }
}

} // verus!
