//! The keys of the three index families, made and taken apart in one place.
//!
//! An equality key is `__field_index__<path>:<text>:<primary key>`, a sorted
//! key `__field_sorted__<path>:<hex of the sort encoding>:<primary key>`, a
//! geospatial key `__geo_sorted__<path>:<cell>:<primary key>`.
use crate::bytes::{append_bytes, copy_range, find, find_byte, starts_with};
use crate::text::hex_digit;
use vstd::prelude::*;

verus! {

pub const GEOHASH_PRECISION: usize = 9;

pub const CAS_RETRY_LIMIT: u32 = 10;

pub const FIELD_INDEX_PREFIX: &'static str = "__field_index__";

pub const FIELD_SORTED_INDEX_PREFIX: &'static str = "__field_sorted__";

pub const GEO_SORTED_INDEX_PREFIX: &'static str = "__geo_sorted__";

pub const DEFAULT_DB_PATH: &'static str = "database_data_server";

pub const DEFAULT_LISTEN_ADDR: &'static str = "127.0.0.1:3000";

/// The bytes of `__field_index__`.
pub open spec fn equality_prefix() -> Seq<u8> {
    seq![95u8, 95, 102, 105, 101, 108, 100, 95, 105, 110, 100, 101, 120, 95, 95]
}

/// The bytes of `__field_sorted__`.
pub open spec fn sorted_prefix() -> Seq<u8> {
    seq![95u8, 95, 102, 105, 101, 108, 100, 95, 115, 111, 114, 116, 101, 100, 95, 95]
}

/// The bytes of `__geo_sorted__`.
pub open spec fn geo_prefix() -> Seq<u8> {
    seq![95u8, 95, 103, 101, 111, 95, 115, 111, 114, 116, 101, 100, 95, 95]
}

/// Whether a key lies under one of the three reserved prefixes, and so is
/// no primary key.
pub open spec fn is_reserved(key: Seq<u8>) -> bool {
    equality_prefix().is_prefix_of(key) || sorted_prefix().is_prefix_of(key)
        || geo_prefix().is_prefix_of(key)
}

/// A key of an index: the family's prefix, the path, a colon, the middle
/// part, a colon, the primary key.
pub open spec fn index_key(family: Seq<u8>, path: Seq<u8>, middle: Seq<u8>, primary: Seq<u8>) -> Seq<
    u8,
> {
    family + path + seq![58u8] + middle + seq![58u8] + primary
}

/// What all keys of an index for one path and one middle part begin with.
pub open spec fn index_key_prefix(family: Seq<u8>, path: Seq<u8>, middle: Seq<u8>) -> Seq<u8> {
    family + path + seq![58u8] + middle + seq![58u8]
}

/// What all keys of an index for one path begin with.
pub open spec fn path_prefix(family: Seq<u8>, path: Seq<u8>) -> Seq<u8> {
    family + path + seq![58u8]
}

/// `data` in hexadecimal: two lower-case digits for each byte.
pub open spec fn hex_text(data: Seq<u8>) -> Seq<u8> {
    Seq::new(
        2 * data.len(),
        |i: int|
            if i % 2 == 0 {
                hex_digit(data[i / 2] as int / 16)
            } else {
                hex_digit(data[i / 2] as int % 16)
            },
    )
}

/// The value of a hexadecimal digit of either case.
pub open spec fn hex_digit_value(c: u8) -> Option<int> {
    if 48 <= c <= 57 {
        Some(c - 48)
    } else if 97 <= c <= 102 {
        Some(c - 87)
    } else if 65 <= c <= 70 {
        Some(c - 55)
    } else {
        None
    }
}

/// Whether `text` is hexadecimal: an even number of digits of either case.
pub open spec fn is_hex(text: Seq<u8>) -> bool {
    text.len() % 2 == 0 && forall|i: int|
        0 <= i < text.len() ==> (#[trigger] hex_digit_value(text[i])) is Some
}

/// The bytes that hexadecimal `text` writes, or `None` where `text` is not
/// hexadecimal.
pub open spec fn hex_value(text: Seq<u8>) -> Option<Seq<u8>> {
    if is_hex(text) {
        Some(
            Seq::new(
                text.len() / 2,
                |i: int|
                    (hex_digit_value(text[2 * i])->0 * 16 + hex_digit_value(
                        text[2 * i + 1],
                    )->0) as u8,
            ),
        )
    } else {
        None
    }
}

/// What was written in hexadecimal is read back as it was.
pub proof fn lemma_hex_round_trip(data: Seq<u8>)
    ensures
        hex_value(hex_text(data)) == Some(data),
{
    let text = hex_text(data);
    assert forall|i: int| 0 <= i < text.len() implies (#[trigger] hex_digit_value(
        text[i],
    )) is Some by {
        let b = data[i / 2];
    }
    assert(hex_value(text)->0 =~= data);
}

#[verifier::external_type_specification]
#[verifier::external_body]
pub struct ExFromHexError(hex::FromHexError);

/// `hex::encode`, its text taken as bytes: two lower-case hexadecimal digits
/// for each byte of `data`, the high half first.
#[verifier::external_body]
fn hex_encode(data: &[u8]) -> (r: Vec<u8>)
    ensures
        r@ == hex_text(data@),
{
    hex::encode(data).into_bytes()
}

/// `hex::decode`: the bytes that `text` writes where it is an even number of
/// hexadecimal digits of either case, and an error where it is not.
#[verifier::external_body]
fn hex_decode(text: &[u8]) -> (r: Result<Vec<u8>, hex::FromHexError>)
    ensures
        match r {
            Ok(data) => hex_value(text@) == Some(data@),
            Err(_) => hex_value(text@) is None,
        },
{
    hex::decode(text)
}

/// The bytes that hexadecimal `text` writes, if it is hexadecimal.
pub fn read_hex(text: &[u8]) -> (r: Option<Vec<u8>>)
    ensures
        match r {
            Some(data) => hex_value(text@) == Some(data@),
            None => hex_value(text@) is None,
        },
{
    match hex_decode(text) {
        Ok(data) => Some(data),
        Err(_) => None,
    }
}

/// The prefix of the equality index.
pub fn field_index_family() -> (r: Vec<u8>)
    ensures
        r@ == equality_prefix(),
{
    let r: Vec<u8> = vec![95u8, 95, 102, 105, 101, 108, 100, 95, 105, 110, 100, 101, 120, 95, 95];
    proof {
        assert(r@ =~= equality_prefix());
    }
    r
}

/// The prefix of the sorted index.
pub fn field_sorted_family() -> (r: Vec<u8>)
    ensures
        r@ == sorted_prefix(),
{
    let r: Vec<u8> = vec![
        95u8,
        95,
        102,
        105,
        101,
        108,
        100,
        95,
        115,
        111,
        114,
        116,
        101,
        100,
        95,
        95,
    ];
    proof {
        assert(r@ =~= sorted_prefix());
    }
    r
}

/// The prefix of the geospatial index.
pub fn geo_sorted_family() -> (r: Vec<u8>)
    ensures
        r@ == geo_prefix(),
{
    let r: Vec<u8> = vec![95u8, 95, 103, 101, 111, 95, 115, 111, 114, 116, 101, 100, 95, 95];
    proof {
        assert(r@ =~= geo_prefix());
    }
    r
}

/// Whether `key` lies under a reserved prefix.
pub fn key_is_reserved(key: &[u8]) -> (r: bool)
    ensures
        r == is_reserved(key@),
{
    starts_with(key, field_index_family().as_slice()) || starts_with(
        key,
        field_sorted_family().as_slice(),
    ) || starts_with(key, geo_sorted_family().as_slice())
}

/// Puts a key of an index together.
fn compose_key(family: Vec<u8>, path: &[u8], middle: &[u8], primary: &[u8]) -> (r: Vec<u8>)
    ensures
        r@ == index_key(family@, path@, middle@, primary@),
{
    let mut out = family;
    append_bytes(&mut out, path);
    out.push(58);
    append_bytes(&mut out, middle);
    out.push(58);
    append_bytes(&mut out, primary);
    proof {
        assert(out@ =~= index_key(family@, path@, middle@, primary@));
    }
    out
}

/// Puts the beginning of the keys for one path and one middle part together.
fn compose_prefix(family: Vec<u8>, path: &[u8], middle: &[u8]) -> (r: Vec<u8>)
    ensures
        r@ == index_key_prefix(family@, path@, middle@),
{
    let mut out = family;
    append_bytes(&mut out, path);
    out.push(58);
    append_bytes(&mut out, middle);
    out.push(58);
    proof {
        assert(out@ =~= index_key_prefix(family@, path@, middle@));
    }
    out
}

/// Puts the beginning of the keys for one path together.
fn compose_path_prefix(family: Vec<u8>, path: &[u8]) -> (r: Vec<u8>)
    ensures
        r@ == path_prefix(family@, path@),
{
    let mut out = family;
    append_bytes(&mut out, path);
    out.push(58);
    proof {
        assert(out@ =~= path_prefix(family@, path@));
    }
    out
}

/// The key of the geospatial index for a point of `key`'s document at
/// `field_path` in the cell `geohash`.
pub fn get_geo_sorted_index_key(field_path: &[u8], geohash: &[u8], key: &[u8]) -> (r: Vec<u8>)
    ensures
        r@ == index_key(geo_prefix(), field_path@, geohash@, key@),
{
    compose_key(geo_sorted_family(), field_path, geohash, key)
}

/// What the geospatial keys for one path and one cell begin with.
pub fn get_geo_sorted_index_prefix_for_hash(field_path: &[u8], geohash: &[u8]) -> (r: Vec<u8>)
    ensures
        r@ == index_key_prefix(geo_prefix(), field_path@, geohash@),
{
    compose_prefix(geo_sorted_family(), field_path, geohash)
}

/// What the geospatial keys for one path begin with.
pub fn get_geo_sorted_index_prefix_for_field(field_path: &[u8]) -> (r: Vec<u8>)
    ensures
        r@ == path_prefix(geo_prefix(), field_path@),
{
    compose_path_prefix(geo_sorted_family(), field_path)
}

/// The key of the equality index for the scalar written `value` at
/// `field_path` in the document of `primary_key`.
pub fn get_field_index_key(field_path: &[u8], value: &[u8], primary_key: &[u8]) -> (r: Vec<u8>)
    ensures
        r@ == index_key(equality_prefix(), field_path@, value@, primary_key@),
{
    compose_key(field_index_family(), field_path, value, primary_key)
}

/// What the equality keys for one path and one scalar begin with.
pub fn get_field_index_prefix(field_path: &[u8], value: &[u8]) -> (r: Vec<u8>)
    ensures
        r@ == index_key_prefix(equality_prefix(), field_path@, value@),
{
    compose_prefix(field_index_family(), field_path, value)
}

/// The key of the sorted index for the scalar encoded as `encoded_value` at
/// `field_path` in the document of `key`.
pub fn get_field_sorted_index_key(field_path: &[u8], encoded_value: &[u8], key: &[u8]) -> (r: Vec<
    u8,
>)
    ensures
        r@ == index_key(sorted_prefix(), field_path@, hex_text(encoded_value@), key@),
{
    let hex = hex_encode(encoded_value);
    compose_key(field_sorted_family(), field_path, hex.as_slice(), key)
}

/// What the sorted keys for one path begin with.
pub fn get_field_sorted_index_prefix(field_path: &[u8]) -> (r: Vec<u8>)
    ensures
        r@ == path_prefix(sorted_prefix(), field_path@),
{
    compose_path_prefix(field_sorted_family(), field_path)
}

/// The position behind the last `b` in `s` before `upto`, or 0 where there is
/// none.
pub open spec fn after_last(s: Seq<u8>, b: u8, upto: int) -> int
    decreases upto,
{
    if upto <= 0 {
        0
    } else if s[upto - 1] == b {
        upto
    } else {
        after_last(s, b, upto - 1)
    }
}

/// What stands behind the last colon of `key`: the whole key where it has no
/// colon.
pub open spec fn last_fragment(key: Seq<u8>) -> Seq<u8> {
    key.skip(after_last(key, 58, key.len() as int))
}

/// The primary key of a key of the equality or the geospatial index: what
/// stands behind its last colon.
pub fn primary_key_of(index_key: &[u8]) -> (r: Vec<u8>)
    ensures
        r@ == last_fragment(index_key@),
{
    let mut at: usize = index_key.len();
    while at > 0 && index_key[at - 1] != 58
        invariant
            at <= index_key@.len(),
            after_last(index_key@, 58, index_key@.len() as int) == after_last(
                index_key@,
                58,
                at as int,
            ),
        decreases at,
    {
        at -= 1;
    }
    let r = copy_range(index_key, at, index_key.len());
    proof {
        assert(index_key@.subrange(at as int, index_key@.len() as int) =~= index_key@.skip(
            at as int,
        ));
    }
    r
}

/// The three parts of a key under `family`: the path up to the first colon
/// behind the prefix, the middle part up to the next colon, and the primary
/// key, which is all the rest and may hold colons. `None` where the key does
/// not begin with `family` or has fewer than two colons behind it.
pub open spec fn key_parts(family: Seq<u8>, key: Seq<u8>) -> Option<
    (Seq<u8>, Seq<u8>, Seq<u8>),
> {
    if !family.is_prefix_of(key) {
        None
    } else {
        let rest = key.skip(family.len() as int);
        let first = find_byte(rest, 58, 0);
        if first >= rest.len() {
            None
        } else {
            let second = find_byte(rest, 58, first + 1);
            if second >= rest.len() {
                None
            } else {
                Some(
                    (
                        rest.subrange(0, first),
                        rest.subrange(first + 1, second),
                        rest.skip(second + 1),
                    ),
                )
            }
        }
    }
}

/// The parts of a key of an index.
pub struct KeyParts {
    pub path: Vec<u8>,
    pub middle: Vec<u8>,
    pub primary: Vec<u8>,
}

/// Takes a key under `family` apart.
pub fn split_key(family: &[u8], key: &[u8]) -> (r: Option<KeyParts>)
    ensures
        match r {
            Some(parts) => key_parts(family@, key@) == Some(
                (parts.path@, parts.middle@, parts.primary@),
            ),
            None => key_parts(family@, key@) is None,
        },
{
    if !starts_with(key, family) {
        return None;
    }
    let rest_vec = copy_range(key, family.len(), key.len());
    let rest = rest_vec.as_slice();
    proof {
        assert(rest@ =~= key@.skip(family@.len() as int));
    }
    let first = find(rest, 58, 0);
    if first >= rest.len() {
        return None;
    }
    let second = find(rest, 58, first + 1);
    if second >= rest.len() {
        return None;
    }
    let path = copy_range(rest, 0, first);
    let middle = copy_range(rest, first + 1, second);
    let primary = copy_range(rest, second + 1, rest.len());
    proof {
        assert(rest@.subrange(second + 1, rest@.len() as int) =~= rest@.skip(second + 1));
    }
    Some(KeyParts { path, middle, primary })
}

} // verus!
