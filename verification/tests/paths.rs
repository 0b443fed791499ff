use rust_db_logic::access::{get_value_by_path, insert_value_by_path};
use rust_db_logic::error::DbError;
use rust_db_logic::path::{parse_index, split, split_path};
use rust_db_logic::value::{Field, Value};

fn object(fields: Vec<(&str, Value)>) -> Value {
    Value::object(fields.into_iter().map(|(name, value)| Field::named(name, value)).collect())
}

fn parts(path: &str) -> Vec<Vec<u8>> {
    split_path(path.as_bytes())
}

fn sample() -> Value {
    object(vec![
        ("name", Value::text("Ada")),
        (
            "address",
            object(vec![("city", Value::text("Paris")), ("zip", Value::integer(75001))]),
        ),
        (
            "items",
            Value::Array(vec![
                object(vec![("name", Value::text("pen"))]),
                object(vec![("name", Value::text("ink"))]),
            ]),
        ),
    ])
}

#[test]
fn a_path_is_split_at_its_dots() {
    assert_eq!(split_path(b"a.b.c"), vec![b"a".to_vec(), b"b".to_vec(), b"c".to_vec()]);
    assert_eq!(split_path(b"a"), vec![b"a".to_vec()]);
    assert_eq!(split_path(b""), Vec::<Vec<u8>>::new());
    assert_eq!(split_path(b"a..b"), vec![b"a".to_vec(), b"".to_vec(), b"b".to_vec()]);
    assert_eq!(split_path(b"."), vec![b"".to_vec(), b"".to_vec()]);
    assert_eq!(split(b"", b':'), vec![b"".to_vec()]);
    assert_eq!(split(b"a:b", b':'), vec![b"a".to_vec(), b"b".to_vec()]);
}

#[test]
fn an_index_is_decimal_digits_after_an_optional_plus() {
    assert_eq!(parse_index(b"0"), Some(0));
    assert_eq!(parse_index(b"12"), Some(12));
    assert_eq!(parse_index(b"007"), Some(7));
    assert_eq!(parse_index(b"+3"), Some(3));
    assert_eq!(parse_index(b""), None);
    assert_eq!(parse_index(b"+"), None);
    assert_eq!(parse_index(b"-1"), None);
    assert_eq!(parse_index(b"1a"), None);
    assert_eq!(parse_index(b" 1"), None);
    assert_eq!(parse_index(b"18446744073709551615"), Some(usize::MAX));
    assert_eq!(parse_index(b"18446744073709551616"), None);
    assert_eq!(parse_index(b"99999999999999999999999"), None);
}

#[test]
fn reading_follows_fields_and_indices() {
    let doc = sample();
    assert_eq!(get_value_by_path(&doc, b"name"), Some(&Value::text("Ada")));
    assert_eq!(get_value_by_path(&doc, b"address.city"), Some(&Value::text("Paris")));
    assert_eq!(get_value_by_path(&doc, b"items.1.name"), Some(&Value::text("ink")));
    assert_eq!(get_value_by_path(&doc, b"items.+1.name"), Some(&Value::text("ink")));
    assert_eq!(get_value_by_path(&doc, b"items.2"), None);
    assert_eq!(get_value_by_path(&doc, b"items.name"), None);
    assert_eq!(get_value_by_path(&doc, b"name.first"), None);
    assert_eq!(get_value_by_path(&doc, b"missing"), None);
    assert_eq!(get_value_by_path(&doc, b"address."), None);
}

#[test]
fn the_empty_path_names_the_root() {
    let doc = sample();
    assert_eq!(get_value_by_path(&doc, b""), Some(&doc));
    let scalar = Value::integer(3);
    assert_eq!(get_value_by_path(&scalar, b""), Some(&scalar));
}

#[test]
fn assigning_sets_and_replaces_fields() {
    let mut doc = object(vec![("b", Value::integer(1))]);
    insert_value_by_path(&mut doc, &parts("a"), Value::integer(2)).unwrap();
    insert_value_by_path(&mut doc, &parts("c"), Value::integer(3)).unwrap();
    insert_value_by_path(&mut doc, &parts("b"), Value::integer(9)).unwrap();
    assert_eq!(
        doc,
        Value::Object(vec![
            Field::named("a", Value::integer(2)),
            Field::named("b", Value::integer(9)),
            Field::named("c", Value::integer(3)),
        ])
    );
}

#[test]
fn assigning_makes_the_objects_on_the_way() {
    let mut doc = object(vec![]);
    insert_value_by_path(&mut doc, &parts("a.b.c"), Value::Bool(true)).unwrap();
    assert_eq!(doc, object(vec![("a", object(vec![("b", object(vec![("c", Value::Bool(true))]))]))]));
}

#[test]
fn assigning_makes_an_array_where_the_next_segment_is_an_index() {
    let mut doc = object(vec![]);
    insert_value_by_path(&mut doc, &parts("list.0"), Value::integer(1)).unwrap();
    insert_value_by_path(&mut doc, &parts("list.1"), Value::integer(2)).unwrap();
    insert_value_by_path(&mut doc, &parts("list.0"), Value::integer(7)).unwrap();
    assert_eq!(
        doc,
        object(vec![("list", Value::Array(vec![Value::integer(7), Value::integer(2)]))])
    );
    let mut nested = object(vec![]);
    insert_value_by_path(&mut nested, &parts("rows.0.0"), Value::integer(5)).unwrap();
    assert_eq!(
        nested,
        object(vec![("rows", Value::Array(vec![Value::Array(vec![Value::integer(5)])]))])
    );
    let mut inner = object(vec![]);
    insert_value_by_path(&mut inner, &parts("rows.0.id"), Value::integer(5)).unwrap();
    assert_eq!(
        inner,
        object(vec![("rows", Value::Array(vec![object(vec![("id", Value::integer(5))])]))])
    );
}

#[test]
fn assigning_beyond_the_end_of_an_array_is_an_invalid_path() {
    let mut doc = object(vec![("list", Value::Array(vec![Value::integer(1)]))]);
    let before = doc.duplicate();
    assert!(matches!(
        insert_value_by_path(&mut doc, &parts("list.2"), Value::integer(3)),
        Err(DbError::InvalidPath(_))
    ));
    assert_eq!(doc, before);
    assert!(matches!(
        insert_value_by_path(&mut doc, &parts("list.5.x"), Value::integer(3)),
        Err(DbError::InvalidPath(_))
    ));
    assert!(matches!(
        insert_value_by_path(&mut doc, &parts("list.x"), Value::integer(3)),
        Err(DbError::InvalidPath(_))
    ));
    assert!(matches!(
        insert_value_by_path(&mut doc, &parts("fresh.3"), Value::integer(3)),
        Err(DbError::InvalidPath(_))
    ));
    assert_eq!(doc, before);
}

#[test]
fn indexing_an_object_with_a_missing_numeric_key_is_an_invalid_path() {
    let mut doc = object(vec![("a", Value::integer(1))]);
    let before = doc.duplicate();
    assert!(matches!(
        insert_value_by_path(&mut doc, &parts("0"), Value::integer(3)),
        Err(DbError::InvalidPath(_))
    ));
    assert!(matches!(
        insert_value_by_path(&mut doc, &parts("7.x"), Value::integer(3)),
        Err(DbError::InvalidPath(_))
    ));
    assert_eq!(doc, before);
}

#[test]
fn assigning_through_a_scalar_or_without_a_segment_is_an_invalid_path() {
    let mut doc = object(vec![("a", Value::integer(1))]);
    assert!(matches!(
        insert_value_by_path(&mut doc, &parts("a.b"), Value::integer(3)),
        Err(DbError::InvalidPath(_))
    ));
    assert!(matches!(
        insert_value_by_path(&mut doc, &parts(""), Value::integer(3)),
        Err(DbError::InvalidPath(_))
    ));
    let mut scalar = Value::integer(1);
    assert!(matches!(
        insert_value_by_path(&mut scalar, &parts("a"), Value::integer(3)),
        Err(DbError::InvalidPath(_))
    ));
    assert_eq!(scalar, Value::integer(1));
}

#[test]
fn an_object_keeps_its_fields_in_the_order_of_their_names() {
    let one = object(vec![("b", Value::integer(2)), ("a", Value::integer(1))]);
    let other = object(vec![("a", Value::integer(1)), ("b", Value::integer(2))]);
    assert_eq!(one, other);
    assert!(one.same(&other));
    let replaced = object(vec![("a", Value::integer(1)), ("a", Value::integer(5))]);
    assert_eq!(replaced, object(vec![("a", Value::integer(5))]));
}

#[test]
fn a_copy_is_the_same_value() {
    let doc = sample();
    let copy = doc.duplicate();
    assert_eq!(doc, copy);
    assert!(doc.same(&copy));
    assert!(!doc.same(&Value::Null));
}
