use rust_db_logic::config::DbConfig;
use rust_db_logic::error::DbError;
use rust_db_logic::ops::set_key;
use rust_db_logic::projection::{apply_projection, get_partial_key};
use rust_db_logic::store::Store;
use rust_db_logic::value::{Field, Value};

fn object(fields: Vec<(&str, Value)>) -> Value {
    Value::object(fields.into_iter().map(|(name, value)| Field::named(name, value)).collect())
}

fn paths(list: &[&str]) -> Vec<Vec<u8>> {
    list.iter().map(|p| p.as_bytes().to_vec()).collect()
}

fn order() -> Value {
    object(vec![
        ("id", Value::integer(7)),
        ("customer", object(vec![("name", Value::text("Ada")), ("vip", Value::Bool(true))])),
        (
            "items",
            Value::Array(vec![
                object(vec![("name", Value::text("pen")), ("qty", Value::integer(2))]),
                object(vec![("name", Value::text("ink"))]),
                Value::text("loose"),
            ]),
        ),
    ])
}

#[test]
fn without_paths_the_documents_come_back_as_they_are() {
    let docs = vec![order(), Value::integer(3)];
    let projected = apply_projection(docs, &Vec::new()).unwrap();
    assert_eq!(projected, vec![order(), Value::integer(3)]);
}

#[test]
fn each_path_is_copied_to_the_same_path() {
    let projected = apply_projection(vec![order()], &paths(&["id", "customer.name"])).unwrap();
    assert_eq!(
        projected,
        vec![object(vec![
            ("id", Value::integer(7)),
            ("customer", object(vec![("name", Value::text("Ada"))])),
        ])]
    );
}

#[test]
fn an_item_of_an_array_is_copied_under_its_index() {
    let projected = apply_projection(vec![order()], &paths(&["items.0.name"])).unwrap();
    assert_eq!(
        projected,
        vec![object(vec![(
            "items",
            Value::Array(vec![object(vec![("name", Value::text("pen"))])])
        )])]
    );
}

#[test]
fn a_field_of_the_items_of_an_array_is_collected_at_the_array() {
    let projected = apply_projection(vec![order()], &paths(&["items.name"])).unwrap();
    assert_eq!(
        projected,
        vec![object(vec![("items", Value::Array(vec![Value::text("pen"), Value::text("ink")]))])]
    );
    let nothing = apply_projection(vec![order()], &paths(&["items.price"])).unwrap();
    assert_eq!(nothing, vec![object(vec![])]);
}

#[test]
fn a_missing_path_gives_nothing() {
    let projected = apply_projection(vec![order()], &paths(&["nope", "customer.age"])).unwrap();
    assert_eq!(projected, vec![object(vec![])]);
}

#[test]
fn what_is_neither_object_nor_null_and_gives_nothing_is_left_out() {
    let docs = vec![Value::integer(3), Value::Null, object(vec![]), Value::Array(vec![])];
    let projected = apply_projection(docs, &paths(&["id"])).unwrap();
    assert_eq!(projected, vec![object(vec![]), object(vec![])]);
}

#[test]
fn a_path_that_cannot_be_assigned_is_an_invalid_path() {
    let doc = object(vec![("a", Value::Array(vec![Value::integer(1), Value::integer(2)]))]);
    let failed = apply_projection(vec![doc], &paths(&["a.1"]));
    assert!(matches!(failed, Err(DbError::InvalidPath(_))));
    let conflict = object(vec![("a", object(vec![("b", Value::integer(1))]))]);
    let failed = apply_projection(vec![conflict], &paths(&["a.b", "a.b.c"]));
    assert!(matches!(failed, Ok(_)));
    let numeric = object(vec![("7", Value::integer(1))]);
    assert!(matches!(apply_projection(vec![numeric], &paths(&["7"])), Err(DbError::InvalidPath(_))));
}

#[test]
fn partial_reads_project_the_stored_document() {
    let mut db = Store::new();
    let config = DbConfig::new();
    set_key(&mut db, b"o1", order(), &config, &Vec::new()).unwrap();
    set_key(&mut db, b"n", Value::integer(3), &config, &Vec::new()).unwrap();
    assert_eq!(
        get_partial_key(&db, b"o1", &paths(&["customer.vip"])).unwrap(),
        object(vec![("customer", object(vec![("vip", Value::Bool(true))]))])
    );
    assert_eq!(get_partial_key(&db, b"o1", &Vec::new()).unwrap(), order());
    assert_eq!(get_partial_key(&db, b"missing", &paths(&["id"])), Err(DbError::NotFound));
    assert_eq!(get_partial_key(&db, b"n", &paths(&["id"])), Err(DbError::NotFound));
    assert_eq!(get_partial_key(&db, b"n", &Vec::new()).unwrap(), Value::integer(3));
}

#[test]
fn the_empty_path_takes_the_whole_document() {
    let projected = apply_projection(vec![object(vec![])], &paths(&[""])).unwrap();
    assert_eq!(projected, vec![object(vec![])]);
    let projected = apply_projection(vec![order(), Value::Null], &paths(&[""])).unwrap();
    assert_eq!(projected, vec![order(), Value::Null]);
    let projected = apply_projection(vec![order()], &paths(&["id", ""])).unwrap();
    assert_eq!(projected, vec![order()]);
    let projected = apply_projection(vec![order()], &paths(&["", "customer.name"])).unwrap();
    assert_eq!(projected, vec![order()]);
}

#[test]
fn a_partial_read_of_the_empty_path_gives_the_document() {
    let mut db = Store::new();
    let config = DbConfig::new();
    set_key(&mut db, b"o1", order(), &config, &Vec::new()).unwrap();
    set_key(&mut db, b"e", object(vec![]), &config, &Vec::new()).unwrap();
    assert_eq!(get_partial_key(&db, b"o1", &paths(&[""])).unwrap(), order());
    assert_eq!(get_partial_key(&db, b"e", &paths(&[""])).unwrap(), object(vec![]));
}
