//! Field paths: dotted byte strings that lead into a document.
use crate::bytes::{copy_range, find, find_byte, lemma_find_byte};
use crate::value::byte_strings;
use vstd::prelude::*;

verus! {

/// The pieces of `s` between the separators at or after `from`: one more piece
/// than there are separators.
pub open spec fn split_from(s: Seq<u8>, sep: u8, from: int) -> Seq<Seq<u8>>
    decreases s.len() - from,
{
    if from < 0 || from > s.len() {
        Seq::empty()
    } else {
        let at = find_byte(s, sep, from);
        if at >= s.len() {
            seq![s.subrange(from, s.len() as int)]
        } else {
            proof {
                lemma_find_byte(s, sep, from);
            }
            seq![s.subrange(from, at)] + split_from(s, sep, at + 1)
        }
    }
}

/// The segments of a path. The empty path has none: it names the root.
pub open spec fn path_parts(path: Seq<u8>) -> Seq<Seq<u8>> {
    if path.len() == 0 {
        Seq::empty()
    } else {
        split_from(path, 46, 0)
    }
}

/// The value of a string of decimal digits.
pub open spec fn digits_value(s: Seq<u8>) -> nat
    decreases s.len(),
{
    if s.len() == 0 {
        0
    } else {
        (digits_value(s.drop_last()) * 10 + (s.last() - 48)) as nat
    }
}

/// Whether every byte of `s` is a decimal digit.
pub open spec fn all_digits(s: Seq<u8>) -> bool {
    forall|i: int| 0 <= i < s.len() ==> 48 <= #[trigger] s[i] <= 57
}

/// The digits of an index: what follows one leading plus sign, if there is one.
pub open spec fn index_digits(part: Seq<u8>) -> Seq<u8> {
    if part.len() > 0 && part[0] == 43 {
        part.skip(1)
    } else {
        part
    }
}

/// The array index that a path segment names: decimal digits, at least one,
/// after an optional plus sign, with a value that fits the machine word.
pub open spec fn index_of(part: Seq<u8>) -> Option<nat> {
    let digits = index_digits(part);
    if digits.len() > 0 && all_digits(digits) && digits_value(digits) <= usize::MAX {
        Some(digits_value(digits))
    } else {
        None
    }
}

/// A string of digits is worth at least what any of its beginnings is worth.
pub proof fn lemma_digits_grow(s: Seq<u8>, n: int)
    requires
        all_digits(s),
        0 <= n <= s.len(),
    ensures
        digits_value(s.take(n)) <= digits_value(s),
    decreases s.len() - n,
{
    if n < s.len() {
        lemma_digits_grow(s, n + 1);
        assert(s.take(n + 1).drop_last() =~= s.take(n));
    } else {
        assert(s.take(n) =~= s);
    }
}

/// Splits `s` at every `sep`.
pub fn split(s: &[u8], sep: u8) -> (r: Vec<Vec<u8>>)
    ensures
        byte_strings(r@) == split_from(s@, sep, 0),
        r@.len() >= 1,
{
    let mut out: Vec<Vec<u8>> = Vec::new();
    let mut start: usize = 0;
    loop
        invariant_except_break
            start <= s@.len(),
            split_from(s@, sep, 0) == byte_strings(out@) + split_from(s@, sep, start as int),
        ensures
            byte_strings(out@) == split_from(s@, sep, 0),
            out@.len() >= 1,
        decreases s@.len() - start,
    {
        let at = find(s, sep, start);
        let piece = copy_range(s, start, at);
        let ghost before = byte_strings(out@);
        out.push(piece);
        proof {
            assert(byte_strings(out@) =~= before + seq![s@.subrange(start as int, at as int)]);
        }
        if at >= s.len() {
            proof {
                assert(byte_strings(out@) =~= split_from(s@, sep, 0));
            }
            break;
        }
        proof {
            assert(split_from(s@, sep, 0) =~= byte_strings(out@) + split_from(
                s@,
                sep,
                at as int + 1,
            ));
        }
        start = at + 1;
    }
    out
}

/// Splits a path into its segments.
pub fn split_path(path: &[u8]) -> (r: Vec<Vec<u8>>)
    ensures
        byte_strings(r@) == path_parts(path@),
{
    if path.len() == 0 {
        let r: Vec<Vec<u8>> = Vec::new();
        proof {
            assert(byte_strings(r@) =~= path_parts(path@));
        }
        r
    } else {
        split(path, 46)
    }
}

/// Reads a path segment as an array index.
pub fn parse_index(part: &[u8]) -> (r: Option<usize>)
    ensures
        match r {
            Some(i) => index_of(part@) == Some(i as nat),
            None => index_of(part@) is None,
        },
{
    let start: usize = if part.len() > 0 && part[0] == 43 {
        1
    } else {
        0
    };
    let ghost digits = index_digits(part@);
    if start >= part.len() {
        return None;
    }
    let mut acc: usize = 0;
    let mut i: usize = start;
    while i < part.len()
        invariant
            start <= i <= part@.len(),
            digits == part@.skip(start as int),
            digits == index_digits(part@),
            all_digits(digits.take(i - start)),
            acc == digits_value(digits.take(i - start)),
        decreases part@.len() - i,
    {
        let b = part[i];
        if b < 48 || b > 57 {
            proof {
                assert(digits[i - start] == b);
            }
            return None;
        }
        let d: usize = (b - 48) as usize;
        proof {
            assert(digits.take(i - start + 1).drop_last() =~= digits.take(i - start));
            assert(digits.take(i - start + 1).last() == b);
        }
        if acc > (usize::MAX - d) / 10 {
            proof {
                let n = i - start + 1;
                if all_digits(digits) {
                    lemma_digits_grow(digits, n);
                }
            }
            return None;
        }
        acc = acc * 10 + d;
        i += 1;
    }
    proof {
        assert(digits.take(i - start) =~= digits);
    }
    Some(acc)
}

} // verus!
