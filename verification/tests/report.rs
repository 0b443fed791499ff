use rust_db_logic::database::Database;
use rust_db_logic::error::{DbError, Step};
use rust_db_logic::index::{GeoCell, GeoPoint};
use rust_db_logic::ops::{BatchSetItem, TransactionOperation};
use rust_db_logic::query::{DataType, QueryNode};
use rust_db_logic::report::{map_logic_error, message_for, status_code, WasmDbError};
use rust_db_logic::value::{Field, Value};

fn object(fields: Vec<(&str, Value)>) -> Value {
    Value::object(fields.into_iter().map(|(name, value)| Field::named(name, value)).collect())
}

#[test]
fn each_error_has_its_status() {
    let text = || String::from("x");
    assert_eq!(status_code(&DbError::NotFound), 404);
    assert_eq!(
        status_code(&DbError::TransactionOperationFailed(
            Step::Delete,
            b"k".to_vec(),
            Box::new(DbError::NotFound)
        )),
        409
    );
    for e in [
        DbError::Serde(text()),
        DbError::MissingData(text()),
        DbError::InvalidComparisonValue(text()),
        DbError::NotAnObject,
        DbError::FieldNotFound(text()),
        DbError::NotAGeoPoint(text()),
        DbError::AstQueryError(text()),
        DbError::InvalidPath(text()),
        DbError::ImportError(text()),
        DbError::Utf8Error(text()),
    ] {
        assert_eq!(status_code(&e), 400, "for {:?}", e);
    }
    for e in [
        DbError::Sled(text()),
        DbError::Geohash(text()),
        DbError::CasRetryLimit(text()),
        DbError::HexError(text()),
        DbError::TryFromSlice(text()),
        DbError::Transaction(text()),
        DbError::Io(text()),
        DbError::InvalidFieldIndexKey(text()),
        DbError::InvalidGeoSortedKey(text()),
    ] {
        assert_eq!(status_code(&e), 500, "for {:?}", e);
    }
}

#[test]
fn the_message_names_the_kind_and_carries_the_text() {
    assert_eq!(message_for(&DbError::NotFound), "Key not found");
    assert_eq!(message_for(&DbError::NotAnObject), "Value is not an object");
    assert_eq!(message_for(&DbError::InvalidPath("a.b".into())), "Invalid path: a.b");
    assert_eq!(message_for(&DbError::Sled("disk".into())), "Database internal error: disk");
    assert_eq!(
        message_for(&DbError::TransactionOperationFailed(
            Step::Write,
            b"k".to_vec(),
            Box::new(DbError::Geohash("no cell".into()))
        )),
        "Transaction failed: Set failed for key 'k': Geohash error: no cell"
    );
    assert_eq!(
        message_for(&DbError::TransactionOperationFailed(
            Step::Delete,
            "clé:7".as_bytes().to_vec(),
            Box::new(DbError::NotFound)
        )),
        "Transaction failed: Delete failed for key 'clé:7': Key not found"
    );
    assert_eq!(
        message_for(&DbError::TransactionOperationFailed(
            Step::ClearPrefix,
            vec![b'k', 0xff],
            Box::new(DbError::NotFound)
        )),
        "Transaction failed: Clear prefix failed for key 'k\u{fffd}': Key not found"
    );
    assert_eq!(
        rust_db_logic::report::failed_step_message(Step::BatchWrite, "a b", "why"),
        "Transaction failed: Batch set failed for key 'a b': why"
    );
    assert_eq!(
        rust_db_logic::report::failed_step_message(Step::ClearPrefix, "k", "why"),
        "Transaction failed: Clear prefix failed for key 'k': why"
    );
    assert_eq!(
        rust_db_logic::report::failed_step_message(Step::DropDatabase, "k", "why"),
        "Transaction failed: Drop database failed for key 'k': why"
    );
    let mapped = map_logic_error(DbError::MissingData("Unsupported operator".into()));
    assert_eq!(mapped.message(), "Missing data: Unsupported operator");
    assert_eq!(mapped.code(), Some(400));
    let made = WasmDbError::new("m".into(), None);
    assert_eq!(made.message(), "m");
    assert_eq!(made.code(), None);
}

#[test]
fn a_database_answers_through_one_value() {
    let mut db = Database::new();
    db.index_hash(b"city");
    db.index_sorted(b"age");
    let ada = object(vec![("city", Value::text("Paris")), ("age", Value::integer(36))]);
    db.set(b"u1", ada.duplicate()).unwrap();
    assert_eq!(db.get(b"u1").unwrap(), ada);
    assert_eq!(db.get(b"u2").unwrap_err().code(), Some(404));
    assert_eq!(
        db.get_partial(b"u1", &vec![b"age".to_vec()]).unwrap(),
        object(vec![("age", Value::integer(36))])
    );
    let found = db
        .query_ast(
            QueryNode::Gte(b"age".to_vec(), Value::integer(30), DataType::Number),
            Some(vec![b"city".to_vec()]),
            Some(10),
            Some(0),
            &Vec::new(),
        )
        .unwrap();
    assert_eq!(found, vec![object(vec![("city", Value::text("Paris"))])]);
    db.delete(b"u1").unwrap();
    assert_eq!(db.get(b"u1").unwrap_err().message(), "Key not found");
    assert_eq!(db.drop_database().unwrap(), 0);
}

#[test]
fn a_query_records_the_path_of_its_equality_leaf() {
    let mut db = Database::new();
    let doc = object(vec![("kind", Value::text("cat"))]);
    db.set(b"before", doc.duplicate()).unwrap();
    let eq = || QueryNode::Eq(b"kind".to_vec(), Value::text("cat"), DataType::String);
    assert_eq!(db.query_ast(eq(), None, None, None, &Vec::new()).unwrap(), vec![doc.duplicate()]);
    assert!(db.export_data().unwrap() != Value::Array(vec![]));
    db.set(b"after", doc.duplicate()).unwrap();
    let found = db.query_ast(eq(), None, None, None, &Vec::new()).unwrap();
    assert_eq!(found, vec![doc.duplicate()]);
    assert_eq!(db.clear_prefix(b"after").unwrap(), 1);
    assert_eq!(db.query_ast(eq(), None, None, None, &Vec::new()).unwrap(), vec![doc]);
}

#[test]
fn a_database_makes_batches_transactions_and_loads() {
    let mut db = Database::new();
    db.index_geo(b"loc");
    let here = object(vec![(
        "loc",
        object(vec![("lat", Value::integer(1)), ("lon", Value::integer(2))]),
    )]);
    let failed = db.batch_set(&vec![BatchSetItem { key: b"g".to_vec(), value: here.duplicate() }]);
    assert_eq!(failed.unwrap_err().code(), Some(409));
    let point = GeoPoint { lat: 1.0f64.to_bits(), lon: 2.0f64.to_bits() };
    db.add_cell(GeoCell { lat: point.lat, lon: point.lon, hash: b"s02equ04v".to_vec() });
    db.batch_set(&vec![BatchSetItem { key: b"g".to_vec(), value: here.duplicate() }]).unwrap();
    db.transaction(&vec![
        TransactionOperation::Write { key: b"h".to_vec(), value: Value::Null },
        TransactionOperation::Delete { key: b"g".to_vec() },
    ])
    .unwrap();
    let dump = db.export_data().unwrap();
    assert_eq!(dump, Value::Array(vec![object(vec![("key", Value::text("h")), ("value", Value::Null)])]));
    let mut other = Database::new();
    other.import_data(&dump).unwrap();
    assert_eq!(other.get(b"h").unwrap(), Value::Null);
    assert_eq!(other.import_data(&Value::Null).unwrap_err().code(), Some(400));
}

#[test]
fn the_operations_are_reached_from_the_root_of_the_crate() {
    let mut db = rust_db_logic::Store::new();
    let config = rust_db_logic::DbConfig::new();
    rust_db_logic::set_key(&mut db, b"k", rust_db_logic::Value::Null, &config, &Vec::new()).unwrap();
    assert_eq!(rust_db_logic::get_key(&db, b"k").unwrap(), rust_db_logic::Value::Null);
    assert_eq!(rust_db_logic::FIELD_INDEX_PREFIX, "__field_index__");
    assert_eq!(rust_db_logic::FIELD_SORTED_INDEX_PREFIX, "__field_sorted__");
    assert_eq!(rust_db_logic::GEO_SORTED_INDEX_PREFIX, "__geo_sorted__");
}
