use rust_db_logic::keys::{
    get_field_index_key, get_field_index_prefix, get_field_sorted_index_key,
    get_field_sorted_index_prefix, get_geo_sorted_index_key,
    get_geo_sorted_index_prefix_for_field, get_geo_sorted_index_prefix_for_hash,
    key_is_reserved, primary_key_of, read_hex, split_key, CAS_RETRY_LIMIT,
    FIELD_INDEX_PREFIX, FIELD_SORTED_INDEX_PREFIX, GEOHASH_PRECISION, GEO_SORTED_INDEX_PREFIX,
};
use rust_db_logic::number::{Double, Number};
use rust_db_logic::text::{scalar_text, trim, write_decimal};
use rust_db_logic::value::Value;

#[test]
fn the_keys_of_the_three_families() {
    assert_eq!(get_field_index_key(b"city", b"Paris", b"a"), b"__field_index__city:Paris:a".to_vec());
    assert_eq!(get_field_index_prefix(b"city", b"Paris"), b"__field_index__city:Paris:".to_vec());
    assert_eq!(
        get_field_sorted_index_key(b"age", &[1u8, 2, 3, 15, 16], b"k"),
        b"__field_sorted__age:0102030f10:k".to_vec()
    );
    assert_eq!(get_field_sorted_index_prefix(b"age"), b"__field_sorted__age:".to_vec());
    assert_eq!(
        get_geo_sorted_index_key(b"loc", b"s00000000", b"k"),
        b"__geo_sorted__loc:s00000000:k".to_vec()
    );
    assert_eq!(
        get_geo_sorted_index_prefix_for_hash(b"loc", b"s00000000"),
        b"__geo_sorted__loc:s00000000:".to_vec()
    );
    assert_eq!(get_geo_sorted_index_prefix_for_field(b"loc"), b"__geo_sorted__loc:".to_vec());
}

#[test]
fn the_families_begin_with_the_reserved_prefixes() {
    assert_eq!(get_field_index_prefix(b"", b"")[..15], *FIELD_INDEX_PREFIX.as_bytes());
    assert_eq!(get_field_sorted_index_prefix(b"")[..16], *FIELD_SORTED_INDEX_PREFIX.as_bytes());
    assert_eq!(get_geo_sorted_index_prefix_for_field(b"")[..14], *GEO_SORTED_INDEX_PREFIX.as_bytes());
    assert_eq!(GEOHASH_PRECISION, 9);
    assert_eq!(CAS_RETRY_LIMIT, 10);
}

#[test]
fn hexadecimal_is_written_in_lower_case_and_read_in_either() {
    assert_eq!(
        get_field_sorted_index_key(b"", &[0u8, 0xab, 0xff], b""),
        b"__field_sorted__:00abff:".to_vec()
    );
    assert_eq!(read_hex(b"0102030F10"), Some(vec![1u8, 2, 3, 15, 16]));
    assert_eq!(read_hex(b"00abFf"), Some(vec![0u8, 0xab, 0xff]));
    assert_eq!(read_hex(b""), Some(vec![]));
    assert_eq!(read_hex(b"123"), None);
    assert_eq!(read_hex(b"zz"), None);
    assert_eq!(read_hex(b"0g"), None);
    assert_eq!(read_hex(b" 1"), None);
}

#[test]
fn reserved_keys_are_told_from_primary_keys() {
    assert!(key_is_reserved(b"__field_index__city:Paris:a"));
    assert!(key_is_reserved(b"__field_sorted__age:01:a"));
    assert!(key_is_reserved(b"__geo_sorted__loc:s0:a"));
    assert!(key_is_reserved(b"__field_index__"));
    assert!(!key_is_reserved(b"__field_index_"));
    assert!(!key_is_reserved(b"user1"));
    assert!(!key_is_reserved(b""));
    assert!(!key_is_reserved(b"x__geo_sorted__"));
}

#[test]
fn the_primary_key_stands_behind_the_last_colon() {
    assert_eq!(primary_key_of(b"__field_index__city:Paris:a"), b"a".to_vec());
    assert_eq!(primary_key_of(b"__field_index__t:12:30:k9"), b"k9".to_vec());
    assert_eq!(primary_key_of(b"nocolon"), b"nocolon".to_vec());
    assert_eq!(primary_key_of(b"ends:"), b"".to_vec());
    assert_eq!(primary_key_of(b""), b"".to_vec());
}

#[test]
fn a_sorted_key_keeps_the_colons_of_its_primary_key() {
    let parts = split_key(b"__field_sorted__", b"__field_sorted__age:0105:user:7:x").unwrap();
    assert_eq!(parts.path, b"age".to_vec());
    assert_eq!(parts.middle, b"0105".to_vec());
    assert_eq!(parts.primary, b"user:7:x".to_vec());
    let empty = split_key(b"__field_sorted__", b"__field_sorted__::").unwrap();
    assert_eq!(empty.path, b"".to_vec());
    assert_eq!(empty.middle, b"".to_vec());
    assert_eq!(empty.primary, b"".to_vec());
    assert!(split_key(b"__field_sorted__", b"__field_sorted__age:0105").is_none());
    assert!(split_key(b"__field_sorted__", b"__field_sorted__age").is_none());
    assert!(split_key(b"__field_sorted__", b"__field_index__age:01:k").is_none());
    assert!(split_key(b"__field_sorted__", b"short").is_none());
}

#[test]
fn the_text_of_a_scalar_is_its_json_text_without_outer_quotes() {
    assert_eq!(scalar_text(&Value::Null), b"null".to_vec());
    assert_eq!(scalar_text(&Value::Bool(true)), b"true".to_vec());
    assert_eq!(scalar_text(&Value::Bool(false)), b"false".to_vec());
    assert_eq!(scalar_text(&Value::integer(0)), b"0".to_vec());
    assert_eq!(scalar_text(&Value::integer(-120)), b"-120".to_vec());
    assert_eq!(scalar_text(&Value::integer(i64::MIN)), b"-9223372036854775808".to_vec());
    assert_eq!(
        scalar_text(&Value::Number(Number::UInt(u64::MAX))),
        b"18446744073709551615".to_vec()
    );
    assert_eq!(scalar_text(&Value::text("Paris")), b"Paris".to_vec());
    assert_eq!(scalar_text(&Value::text("")), b"".to_vec());
    let half = Value::Number(Number::Float(Double::new(0.5f64.to_bits(), b"0.5".to_vec())));
    assert_eq!(scalar_text(&half), b"0.5".to_vec());
}

#[test]
fn the_text_of_a_string_is_what_serde_json_writes() {
    for s in [
        "plain",
        "with \"quotes\" inside",
        "\"leading and trailing\"",
        "ends with quote\"",
        "back\\slash",
        "tab\there",
        "line\nbreak\r\n",
        "bell\u{7}and\u{8}and\u{c}",
        "\u{0}\u{1f}\u{7f}",
        "unicode é ü 漢字 🎉",
        "a:b:c",
        "\"",
        "\"\"",
    ] {
        let written = serde_json::Value::String(s.to_string()).to_string();
        let expected = written.trim_matches('"').as_bytes().to_vec();
        assert_eq!(scalar_text(&Value::text(s)), expected, "for {:?}", s);
    }
}

#[test]
fn the_text_of_an_integer_is_what_serde_json_writes() {
    for n in [0i64, 7, -7, 10, 99, 100, 1234567890123, i64::MAX, i64::MIN] {
        let expected = serde_json::Value::from(n).to_string().into_bytes();
        assert_eq!(scalar_text(&Value::integer(n)), expected);
    }
    assert_eq!(write_decimal(18446744073709551615), b"18446744073709551615".to_vec());
}

#[test]
fn trimming_takes_the_byte_off_both_ends_only() {
    assert_eq!(trim(b"\"\"a\"b\"\"", b'"'), b"a\"b".to_vec());
    assert_eq!(trim(b"\"\"\"", b'"'), b"".to_vec());
    assert_eq!(trim(b"abc", b'"'), b"abc".to_vec());
    assert_eq!(trim(b"", b'"'), b"".to_vec());
}

#[test]
fn the_text_of_bytes_that_are_no_utf8_is_their_lossy_text() {
    assert_eq!(scalar_text(&Value::String(vec![0xff])), "\u{fffd}".as_bytes().to_vec());
    assert_eq!(
        scalar_text(&Value::String(vec![b'a', 0xc3, b'"', b'b'])),
        "a\u{fffd}\\\"b".as_bytes().to_vec()
    );
    assert_eq!(scalar_text(&Value::String(vec![b'a', b'\n'])), b"a\\n".to_vec());
}
