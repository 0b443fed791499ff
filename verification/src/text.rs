//! The text by which a scalar is written into an index key: its compact
//! JSON text without the quotes at either end. The JSON text of a string and
//! of an integer is what `serde_json` writes; a string of bytes that is no
//! UTF-8 is first made text as `String::from_utf8_lossy` makes it.
use crate::number::{Number, NumberView};
use crate::value::{Json, Value};
use vstd::prelude::*;

verus! {

/// `s` without the bytes `b` that it begins with.
pub open spec fn skip_leading(s: Seq<u8>, b: u8) -> Seq<u8>
    decreases s.len(),
{
    if s.len() > 0 && s[0] == b {
        skip_leading(s.skip(1), b)
    } else {
        s
    }
}

/// `s` without the bytes `b` that it ends with.
pub open spec fn drop_trailing(s: Seq<u8>, b: u8) -> Seq<u8>
    decreases s.len(),
{
    if s.len() > 0 && s.last() == b {
        drop_trailing(s.drop_last(), b)
    } else {
        s
    }
}

/// `s` without the bytes `b` at either end.
pub open spec fn trim_byte(s: Seq<u8>, b: u8) -> Seq<u8> {
    drop_trailing(skip_leading(s, b), b)
}

/// `s` without the double quotes at either end.
pub open spec fn trim_quotes(s: Seq<u8>) -> Seq<u8> {
    trim_byte(s, 34)
}

/// The decimal digits of `n`, without leading zeros.
pub open spec fn decimal_text(n: nat) -> Seq<u8>
    decreases n,
{
    if n < 10 {
        seq![(48 + n) as u8]
    } else {
        decimal_text(n / 10).push((48 + n % 10) as u8)
    }
}

/// The decimal text of an integer, with a minus sign where it is negative.
pub open spec fn integer_text(v: int) -> Seq<u8> {
    if v < 0 {
        seq![45u8] + decimal_text((-v) as nat)
    } else {
        decimal_text(v as nat)
    }
}

/// The lower-case hexadecimal digit for `d < 16`.
pub open spec fn hex_digit(d: int) -> u8 {
    if d < 10 {
        (48 + d) as u8
    } else {
        (87 + d) as u8
    }
}

/// The text that `String::from_utf8_lossy` makes of bytes.
pub uninterp spec fn lossy_text(bytes: Seq<u8>) -> Seq<char>;

/// The compact JSON text, quotes included, that `serde_json::to_string`
/// writes for a string.
pub uninterp spec fn json_string_text(s: Seq<char>) -> Seq<u8>;

/// The compact JSON text of a scalar. A double is written as the text it
/// carries, a string as the JSON text of the text that its bytes make.
pub open spec fn scalar_json(j: Json) -> Seq<u8> {
    match j {
        Json::Null => seq![110u8, 117u8, 108u8, 108u8],
        Json::Bool(b) => if b {
            seq![116u8, 114u8, 117u8, 101u8]
        } else {
            seq![102u8, 97u8, 108u8, 115u8, 101u8]
        },
        Json::Number(NumberView::Int(v)) => integer_text(v),
        Json::Number(NumberView::Float { bits, text }) => text,
        Json::String(s) => json_string_text(lossy_text(s)),
        _ => Seq::empty(),
    }
}

/// The text by which a scalar stands in a key of the equality index: its
/// compact JSON text without the double quotes at either end.
pub open spec fn value_text(j: Json) -> Seq<u8> {
    trim_quotes(scalar_json(j))
}

/// Whether a value is a scalar: neither an array nor an object.
pub open spec fn is_scalar(j: Json) -> bool {
    !(j is Array) && !(j is Object)
}

/// Takes the bytes `b` off both ends of `s`.
pub fn trim(s: &[u8], b: u8) -> (r: Vec<u8>)
    ensures
        r@ == trim_byte(s@, b),
{
    let mut lo: usize = 0;
    proof {
        assert(s@.skip(0) =~= s@);
    }
    while lo < s.len() && s[lo] == b
        invariant
            lo <= s@.len(),
            skip_leading(s@, b) == skip_leading(s@.skip(lo as int), b),
        decreases s@.len() - lo,
    {
        proof {
            assert(s@.skip(lo as int).skip(1) =~= s@.skip(lo + 1));
        }
        lo += 1;
    }
    let ghost rest = s@.skip(lo as int);
    let mut hi: usize = s.len();
    proof {
        assert(rest.take((hi - lo) as int) =~= rest);
    }
    while hi > lo && s[hi - 1] == b
        invariant
            lo <= hi <= s@.len(),
            rest == s@.skip(lo as int),
            drop_trailing(rest, b) == drop_trailing(rest.take((hi - lo) as int), b),
        decreases hi,
    {
        proof {
            let t = rest.take((hi - lo) as int);
            assert(t.last() == s@[hi - 1]);
            assert(t.drop_last() =~= rest.take((hi - 1 - lo) as int));
        }
        hi -= 1;
    }
    proof {
        let t = rest.take((hi - lo) as int);
        assert(t =~= s@.subrange(lo as int, hi as int));
        if t.len() > 0 {
            assert(t.last() == s@[hi - 1]);
        }
    }
    crate::bytes::copy_range(s, lo, hi)
}

/// Writes the decimal digits of `n`, as an index stands in a path.
pub fn write_decimal(n: u64) -> (r: Vec<u8>)
    ensures
        r@ == decimal_text(n as nat),
    decreases n,
{
    if n < 10 {
        let mut out: Vec<u8> = Vec::new();
        out.push(48 + n as u8);
        proof {
            assert(out@ =~= decimal_text(n as nat));
        }
        out
    } else {
        let mut out = write_decimal(n / 10);
        out.push(48 + (n % 10) as u8);
        out
    }
}

/// `String::from_utf8_lossy`, its text owned: the text of the bytes, which is
/// the text that they encode where they are UTF-8.
#[verifier::external_body]
pub(crate) fn text_of(bytes: &[u8]) -> (r: String)
    ensures
        r@ == lossy_text(bytes@),
        vstd::utf8::valid_utf8(bytes@) ==> r@ == vstd::utf8::decode_utf8(bytes@),
{
    String::from_utf8_lossy(bytes).into_owned()
}

/// `serde_json::to_string` on a string, as bytes: the compact JSON text of
/// the string, quotes included. It cannot fail on a string.
#[verifier::external_body]
fn string_json(s: &str) -> (r: Vec<u8>)
    ensures
        r@ == json_string_text(s@),
{
    serde_json::to_string(s).unwrap_or_default().into_bytes()
}

/// `serde_json::to_string` on an integer, as bytes: its decimal digits, with
/// a minus sign before them where it is negative. It cannot fail on an
/// integer.
#[verifier::external_body]
fn integer_json(n: i128) -> (r: Vec<u8>)
    ensures
        r@ == integer_text(n as int),
{
    serde_json::to_string(&n).unwrap_or_default().into_bytes()
}

/// The compact JSON text of a scalar; empty for an array or an object.
pub fn write_scalar(v: &Value) -> (r: Vec<u8>)
    ensures
        r@ == scalar_json(v@),
{
    match v {
        Value::Null => {
            let r: Vec<u8> = vec![110u8, 117u8, 108u8, 108u8];
            proof {
                assert(r@ =~= scalar_json(v@));
            }
            r
        },
        Value::Bool(b) => {
            let r: Vec<u8> = if *b {
                vec![116u8, 114u8, 117u8, 101u8]
            } else {
                vec![102u8, 97u8, 108u8, 115u8, 101u8]
            };
            proof {
                assert(r@ =~= scalar_json(v@));
            }
            r
        },
        Value::Number(n) => match n {
            Number::Float(d) => crate::bytes::copy_bytes(d.text.as_slice()),
            Number::Int(i) => integer_json(*i as i128),
            Number::UInt(u) => integer_json(*u as i128),
        },
        Value::String(s) => {
            let text = text_of(s.as_slice());
            string_json(text.as_str())
        },
        _ => Vec::new(),
    }
}

/// The text by which a scalar stands in a key of the equality index.
pub fn scalar_text(v: &Value) -> (r: Vec<u8>)
    ensures
        r@ == value_text(v@),
{
    let full = write_scalar(v);
    trim(full.as_slice(), 34)
}

} // verus!
