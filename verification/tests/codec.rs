use rust_db_logic::bytes::Relation;
use rust_db_logic::codec::{compare_values, decode_sorted_value, encode_sorted_value, parse_value};
use rust_db_logic::error::DbError;
use rust_db_logic::number::{Double, Number};
use rust_db_logic::value::{Field, Value};

fn signed(n: i64) -> Value {
    Value::Number(Number::Int(n))
}

fn unsigned(n: u64) -> Value {
    Value::Number(Number::UInt(n))
}

fn double(x: f64) -> Value {
    let text = serde_json::Value::from(x).to_string().into_bytes();
    Value::Number(Number::Float(Double::new(x.to_bits(), text)))
}

fn decoded_double(x: f64) -> Value {
    Value::Number(Number::Float(Double::new(x.to_bits(), Vec::new())))
}

#[test]
fn signed_integer_round_trip() {
    let encoded = encode_sorted_value(&signed(-2)).unwrap();
    assert_eq!(encoded, vec![1u8, 255, 255, 255, 255, 255, 255, 255, 254]);
    assert_eq!(decode_sorted_value(&encoded).unwrap(), signed(-2));
}

#[test]
fn each_type_has_its_tag_and_payload() {
    assert_eq!(encode_sorted_value(&signed(258)).unwrap(), vec![1u8, 0, 0, 0, 0, 0, 0, 1, 2]);
    assert_eq!(
        encode_sorted_value(&unsigned(0x8000_0000_0000_0001)).unwrap(),
        vec![2u8, 0x80, 0, 0, 0, 0, 0, 0, 1]
    );
    assert_eq!(
        encode_sorted_value(&double(1.5)).unwrap(),
        vec![3u8, 0x3f, 0xf8, 0, 0, 0, 0, 0, 0]
    );
    assert_eq!(encode_sorted_value(&Value::text("ab")).unwrap(), vec![4u8, 0x61, 0x62]);
    assert_eq!(encode_sorted_value(&Value::Bool(true)).unwrap(), vec![5u8, 1]);
    assert_eq!(encode_sorted_value(&Value::Bool(false)).unwrap(), vec![5u8, 0]);
}

#[test]
fn an_unsigned_integer_within_the_signed_range_goes_under_the_signed_tag() {
    assert_eq!(encode_sorted_value(&unsigned(5)).unwrap(), encode_sorted_value(&signed(5)).unwrap());
    assert_eq!(
        encode_sorted_value(&unsigned(i64::MAX as u64)).unwrap(),
        vec![1u8, 0x7f, 255, 255, 255, 255, 255, 255, 255]
    );
}

#[test]
fn what_is_no_scalar_is_not_encoded() {
    assert!(matches!(encode_sorted_value(&Value::Null), Err(DbError::Serde(_))));
    assert!(matches!(encode_sorted_value(&Value::Array(vec![signed(1)])), Err(DbError::Serde(_))));
    let object = Value::object(vec![Field::named("a", signed(1))]);
    assert!(matches!(encode_sorted_value(&object), Err(DbError::Serde(_))));
}

#[test]
fn decoding_inverts_encoding() {
    for value in [
        signed(0),
        signed(1),
        signed(-1),
        signed(i64::MAX),
        signed(i64::MIN),
        unsigned(u64::MAX),
        Value::text(""),
        Value::text("héllo"),
        Value::Bool(true),
        Value::Bool(false),
    ] {
        let encoded = encode_sorted_value(&value).unwrap();
        let back = decode_sorted_value(&encoded).unwrap();
        assert_eq!(compare_values(&back, &value), Some(Relation::Equal));
    }
    for x in [0.0f64, -0.0, 1.5, -2.25, 1e300, f64::MIN_POSITIVE, 5e-324] {
        let encoded = encode_sorted_value(&double(x)).unwrap();
        let back = decode_sorted_value(&encoded).unwrap();
        assert_eq!(back, decoded_double(x));
        assert_eq!(compare_values(&back, &double(x)), Some(Relation::Equal));
    }
}

#[test]
fn a_small_integer_under_the_unsigned_tag_decodes_to_that_integer() {
    let decoded = decode_sorted_value(&[2u8, 0, 0, 0, 0, 0, 0, 0, 5]).unwrap();
    assert_eq!(decoded, unsigned(5));
    assert_eq!(compare_values(&decoded, &signed(5)), Some(Relation::Equal));
}

#[test]
fn bytes_behind_a_fixed_payload_are_passed_over() {
    assert_eq!(decode_sorted_value(&[1u8, 0, 0, 0, 0, 0, 0, 0, 5, 99]).unwrap(), signed(5));
    assert_eq!(decode_sorted_value(&[5u8, 2, 7]).unwrap(), Value::Bool(true));
}

#[test]
fn malformed_encodings_are_refused() {
    assert!(matches!(decode_sorted_value(&[]), Err(DbError::Serde(_))));
    assert!(matches!(decode_sorted_value(&[1u8, 0, 0]), Err(DbError::Serde(_))));
    assert!(matches!(decode_sorted_value(&[2u8, 0, 0, 0, 0, 0, 0, 0]), Err(DbError::Serde(_))));
    assert!(matches!(decode_sorted_value(&[3u8, 0]), Err(DbError::Serde(_))));
    assert!(matches!(decode_sorted_value(&[5u8]), Err(DbError::Serde(_))));
    assert!(matches!(decode_sorted_value(&[9u8, 1, 2]), Err(DbError::Serde(_))));
    let infinity = [3u8, 0x7f, 0xf0, 0, 0, 0, 0, 0, 0];
    assert!(matches!(decode_sorted_value(&infinity), Err(DbError::Serde(_))));
    let not_a_number = [3u8, 0x7f, 0xf8, 0, 0, 0, 0, 0, 1];
    assert!(matches!(decode_sorted_value(&not_a_number), Err(DbError::Serde(_))));
}

#[test]
fn a_string_that_is_not_utf8_is_refused_as_such() {
    assert!(matches!(decode_sorted_value(&[4u8, 0xff, 0xfe]), Err(DbError::Utf8Error(_))));
    assert!(matches!(decode_sorted_value(&[4u8, 0xc3]), Err(DbError::Utf8Error(_))));
    assert_eq!(decode_sorted_value(&[4u8, 0xc3, 0xa9]).unwrap(), Value::text("é"));
    assert_eq!(decode_sorted_value(&[4u8]).unwrap(), Value::text(""));
}

#[test]
fn numbers_compare_by_their_double_projection() {
    assert_eq!(compare_values(&signed(1), &signed(2)), Some(Relation::Less));
    assert_eq!(compare_values(&signed(-5), &signed(-7)), Some(Relation::Greater));
    assert_eq!(compare_values(&signed(1), &double(1.5)), Some(Relation::Less));
    assert_eq!(compare_values(&double(2.0), &signed(2)), Some(Relation::Equal));
    assert_eq!(compare_values(&double(-0.0), &double(0.0)), Some(Relation::Equal));
    assert_eq!(compare_values(&signed(0), &double(-0.0)), Some(Relation::Equal));
    assert_eq!(compare_values(&signed(-1), &double(-0.5)), Some(Relation::Less));
    let two_53 = 1i64 << 53;
    assert_eq!(compare_values(&signed(two_53 + 1), &signed(two_53)), Some(Relation::Equal));
    assert_eq!(compare_values(&signed(two_53 + 2), &signed(two_53)), Some(Relation::Greater));
    assert_eq!(compare_values(&signed(two_53 + 3), &signed(two_53 + 4)), Some(Relation::Equal));
    assert_eq!(compare_values(&signed(i64::MAX), &unsigned(1u64 << 63)), Some(Relation::Equal));
    assert_eq!(compare_values(&unsigned(u64::MAX), &double(18446744073709551616.0)), Some(Relation::Equal));
}

#[test]
fn other_kinds_compare_in_their_own_order_or_not_at_all() {
    assert_eq!(compare_values(&Value::text("a"), &Value::text("b")), Some(Relation::Less));
    assert_eq!(compare_values(&Value::text("b"), &Value::text("ab")), Some(Relation::Greater));
    assert_eq!(compare_values(&Value::text("a"), &Value::text("ab")), Some(Relation::Less));
    assert_eq!(compare_values(&Value::text("x"), &Value::text("x")), Some(Relation::Equal));
    assert_eq!(compare_values(&Value::Bool(false), &Value::Bool(true)), Some(Relation::Less));
    assert_eq!(compare_values(&Value::Bool(true), &Value::Bool(false)), Some(Relation::Greater));
    assert_eq!(compare_values(&Value::Bool(true), &Value::Bool(true)), Some(Relation::Equal));
    assert_eq!(compare_values(&Value::Null, &Value::Null), Some(Relation::Equal));
    assert_eq!(compare_values(&Value::Null, &signed(0)), None);
    assert_eq!(compare_values(&Value::text("1"), &signed(1)), None);
    assert_eq!(compare_values(&Value::Bool(true), &signed(1)), None);
    assert_eq!(compare_values(&Value::Array(vec![]), &Value::Array(vec![])), None);
}

#[test]
fn the_text_of_a_query_value_is_read_by_its_shape() {
    assert_eq!(parse_value(b"true", None).unwrap(), Value::Bool(true));
    assert_eq!(parse_value(b"false", None).unwrap(), Value::Bool(false));
    assert_eq!(parse_value(b"42", None).unwrap(), signed(42));
    assert_eq!(parse_value(b"-7", None).unwrap(), signed(-7));
    assert_eq!(parse_value(b"007", None).unwrap(), signed(7));
    assert_eq!(parse_value(b"-0", None).unwrap(), signed(0));
    assert_eq!(parse_value(b"9223372036854775807", None).unwrap(), signed(i64::MAX));
    assert_eq!(parse_value(b"-9223372036854775808", None).unwrap(), signed(i64::MIN));
    assert_eq!(parse_value(b"Paris", None).unwrap(), Value::text("Paris"));
    assert_eq!(parse_value(b"\"quoted\"", None).unwrap(), Value::text("quoted"));
    assert_eq!(parse_value(b"\"\"a\"b\"\"", None).unwrap(), Value::text("a\"b"));
    assert_eq!(parse_value(b"", None).unwrap(), Value::text(""));
    assert_eq!(parse_value(b"\"", None).unwrap(), Value::text(""));
    assert_eq!(parse_value(b"-", None).unwrap(), Value::text("-"));
    assert_eq!(parse_value(b"1.", None).unwrap(), Value::text("1."));
    assert_eq!(parse_value(b".5", None).unwrap(), Value::text(".5"));
    assert_eq!(parse_value(b"1.2.3", None).unwrap(), Value::text("1.2.3"));
    assert_eq!(parse_value(b"+5", None).unwrap(), Value::text("+5"));
    assert_eq!(parse_value(b"1e5", None).unwrap(), Value::text("1e5"));
    assert_eq!(parse_value(b"True", None).unwrap(), Value::text("True"));
}

#[test]
fn a_numeric_literal_that_is_no_integer_takes_the_double_handed_in() {
    let half = Double::new(1.5f64.to_bits(), b"1.5".to_vec());
    assert_eq!(parse_value(b"1.5", Some(half.clone())).unwrap(), double(1.5));
    let big = Double::new(9223372036854775808.0f64.to_bits(), b"9.223372036854776e18".to_vec());
    assert_eq!(
        parse_value(b"9223372036854775808", Some(big.clone())).unwrap(),
        Value::Number(Number::Float(big))
    );
    assert_eq!(parse_value(b"12", Some(half)).unwrap(), signed(12));
}

#[test]
fn a_numeric_literal_without_a_finite_double_is_refused() {
    assert!(matches!(parse_value(b"1.5", None), Err(DbError::InvalidComparisonValue(_))));
    assert!(matches!(
        parse_value(b"9223372036854775808", None),
        Err(DbError::InvalidComparisonValue(_))
    ));
    let infinite = Double::new(f64::INFINITY.to_bits(), b"inf".to_vec());
    assert!(matches!(
        parse_value(b"1.5", Some(infinite)),
        Err(DbError::InvalidComparisonValue(_))
    ));
}

fn through_the_encoding(value: &Value) -> Value {
    decode_sorted_value(&encode_sorted_value(value).unwrap()).unwrap()
}

#[test]
fn decoded_values_compare_in_order_and_in_the_mirror() {
    let top: i64 = 0x20_0000_0000_0000;
    let pairs = vec![
        (signed(top - 1), signed(top)),
        (signed(-top), signed(-top + 1)),
        (signed(-3), signed(4)),
        (double(-2.5), double(1.5)),
        (double(1.5), double(2.5)),
        (Value::text("ab"), Value::text("b")),
        (Value::Bool(false), Value::Bool(true)),
    ];
    for (low, high) in pairs.iter() {
        let a = through_the_encoding(low);
        let b = through_the_encoding(high);
        assert_eq!(compare_values(&a, &b), Some(Relation::Less));
        assert_eq!(compare_values(&b, &a), Some(Relation::Greater));
        assert_eq!(compare_values(&a, &a), Some(Relation::Equal));
    }
}
