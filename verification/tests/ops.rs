use rust_db_logic::bulk::{export_data, import_data};
use rust_db_logic::config::{add_field_to_index, DbConfig};
use rust_db_logic::error::{DbError, Step};
use rust_db_logic::index::{
    delete_key_internal, index_value_recursive, remove_indices_recursive, set_key_internal,
    GeoCell, Mutation, Payload,
};
use rust_db_logic::number::{Double, Number};
use rust_db_logic::ops::{
    batch_set, clear_prefix, delete_key, drop_database, execute_transaction, get_all_keys,
    get_key, set_key, BatchSetItem, TransactionOperation,
};
use rust_db_logic::points::geo_points;
use rust_db_logic::store::{Bound, Store};
use rust_db_logic::value::{Field, Value};

fn object(fields: Vec<(&str, Value)>) -> Value {
    Value::object(fields.into_iter().map(|(name, value)| Field::named(name, value)).collect())
}

fn double(x: f64) -> Value {
    let text = serde_json::Value::from(x).to_string().into_bytes();
    Value::Number(Number::Float(Double::new(x.to_bits(), text)))
}

fn point(lat: f64, lon: f64) -> Value {
    object(vec![("lat", double(lat)), ("lon", double(lon))])
}

fn indexed() -> DbConfig {
    let mut config = DbConfig::new();
    config.hash_indexed_fields.push(b"city".to_vec());
    config.hash_indexed_fields.push(b"tags".to_vec());
    config.sorted_indexed_fields.push(b"age".to_vec());
    config.geo_indexed_fields.push(b"loc".to_vec());
    config
}

fn keys_of(db: &Store) -> Vec<String> {
    let mut keys: Vec<String> = db
        .keys_with_prefix(b"")
        .into_iter()
        .map(|k| String::from_utf8(k).unwrap())
        .collect();
    keys.sort();
    keys
}

fn person(city: &str, age: i64) -> Value {
    object(vec![("city", Value::text(city)), ("age", Value::integer(age))])
}

#[test]
fn a_write_derives_the_index_entries_of_the_document() {
    let mut db = Store::new();
    let config = indexed();
    let doc = object(vec![
        ("city", Value::text("Paris")),
        ("age", Value::integer(37)),
        ("tags", Value::Array(vec![Value::text("x"), Value::text("y"), Value::text("x")])),
        ("other", Value::text("not indexed")),
    ]);
    set_key(&mut db, b"u1", doc, &config, &Vec::new()).unwrap();
    assert_eq!(
        keys_of(&db),
        vec![
            "__field_index__city:Paris:u1",
            "__field_index__tags:x:u1",
            "__field_index__tags:y:u1",
            "__field_sorted__age:010000000000000025:u1",
            "u1",
        ]
    );
    assert_eq!(db.get(b"__field_index__city:Paris:u1"), Some(&Payload::Empty));
}

#[test]
fn the_planned_mutations_are_the_pure_derivation() {
    let config = indexed();
    let doc = person("Lyon", 5);
    let planned = set_key_internal(None, b"k", &doc, &config, &Vec::new()).unwrap();
    assert_eq!(
        planned,
        vec![
            Mutation::Put { key: b"k".to_vec(), payload: Payload::Document(doc.duplicate()) },
            Mutation::Put { key: b"__field_sorted__age:010000000000000005:k".to_vec(), payload: Payload::Empty },
            Mutation::Put { key: b"__field_index__city:Lyon:k".to_vec(), payload: Payload::Empty },
        ]
    );
    let mut creation = Vec::new();
    index_value_recursive(b"k", b"", &doc, &config, &Vec::new(), &mut creation).unwrap();
    assert_eq!(creation.len(), 2);
    let mut removal = Vec::new();
    remove_indices_recursive(b"k", b"", &doc, &config, &Vec::new(), &mut removal).unwrap();
    assert_eq!(
        removal,
        vec![
            Mutation::Remove { key: b"__field_sorted__age:010000000000000005:k".to_vec() },
            Mutation::Remove { key: b"__field_index__city:Lyon:k".to_vec() },
        ]
    );
}

#[test]
fn a_write_over_a_document_replaces_its_index_entries() {
    let mut db = Store::new();
    let config = indexed();
    set_key(&mut db, b"u1", person("Paris", 7), &config, &Vec::new()).unwrap();
    set_key(&mut db, b"u1", person("Lyon", 9), &config, &Vec::new()).unwrap();
    assert_eq!(
        keys_of(&db),
        vec![
            "__field_index__city:Lyon:u1",
            "__field_sorted__age:010000000000000009:u1",
            "u1",
        ]
    );
    let planned = set_key_internal(db.get(b"u1"), b"u1", &person("Lyon", 9), &config, &Vec::new()).unwrap();
    assert!(matches!(planned[0], Mutation::Remove { .. }));
    assert!(matches!(planned[1], Mutation::Remove { .. }));
    assert!(matches!(planned[2], Mutation::Put { payload: Payload::Document(_), .. }));
    assert_eq!(planned.len(), 5);
}

#[test]
fn a_removal_after_a_write_leaves_nothing() {
    let mut db = Store::new();
    let config = indexed();
    let doc = object(vec![
        ("city", Value::text("Paris")),
        ("age", Value::integer(37)),
        ("tags", Value::Array(vec![Value::text("x"), Value::integer(3), Value::Null])),
        ("loc", point(48.8566, 2.3522)),
    ]);
    let cells: Vec<GeoCell> = geo_points(&doc, &config)
        .into_iter()
        .map(|p| GeoCell { lat: p.lat, lon: p.lon, hash: b"u09tvw0f6".to_vec() })
        .collect();
    assert_eq!(cells.len(), 1);
    set_key(&mut db, b"u1", doc, &config, &cells).unwrap();
    assert_eq!(db.len(), 7);
    assert!(db.get(b"__geo_sorted__loc:u09tvw0f6:u1").is_some());
    assert!(db.get(b"__field_index__tags:null:u1").is_some());
    assert!(db.get(b"__field_index__tags:3:u1").is_some());
    delete_key(&mut db, b"u1", &config, &cells).unwrap();
    assert_eq!(db.len(), 0);
    delete_key(&mut db, b"u1", &config, &cells).unwrap();
    assert_eq!(db.len(), 0);
    assert_eq!(delete_key_internal(None, b"u1", &config, &cells).unwrap(), Vec::new());
}

#[test]
fn colons_in_keys_and_values_go_through_a_round_trip() {
    let mut db = Store::new();
    let config = indexed();
    let doc = person("a:b", 1);
    set_key(&mut db, b"user:7", doc.duplicate(), &config, &Vec::new()).unwrap();
    assert_eq!(get_key(&db, b"user:7").unwrap(), doc);
    assert!(db.get(b"__field_index__city:a:b:user:7").is_some());
    delete_key(&mut db, b"user:7", &config, &Vec::new()).unwrap();
    assert_eq!(db.len(), 0);
}

#[test]
fn a_point_without_a_cell_fails_the_write_and_changes_nothing() {
    let mut db = Store::new();
    let config = indexed();
    set_key(&mut db, b"a", person("Paris", 1), &config, &Vec::new()).unwrap();
    let before = keys_of(&db);
    let doc = object(vec![("loc", point(1.0, 2.0))]);
    assert!(matches!(set_key(&mut db, b"b", doc, &config, &Vec::new()), Err(DbError::Geohash(_))));
    assert_eq!(keys_of(&db), before);
}

#[test]
fn what_is_no_point_at_a_geo_path_gets_no_entry() {
    let mut db = Store::new();
    let config = indexed();
    for (key, loc) in [
        ("a", Value::text("nowhere")),
        ("b", object(vec![("lat", double(1.0))])),
        ("c", object(vec![("lat", double(1.0)), ("lon", Value::text("x"))])),
        ("d", object(vec![("lat", double(1.0)), ("lon", double(2.0)), ("alt", double(3.0))])),
        ("e", Value::Null),
    ] {
        set_key(&mut db, key.as_bytes(), object(vec![("loc", loc)]), &config, &Vec::new()).unwrap();
    }
    assert_eq!(keys_of(&db), vec!["a", "b", "c", "d", "e"]);
}

#[test]
fn integer_coordinates_are_points_too() {
    let config = indexed();
    let doc = object(vec![("loc", object(vec![("lat", Value::integer(1)), ("lon", Value::integer(-2))]))]);
    let points = geo_points(&doc, &config);
    assert_eq!(points.len(), 1);
    assert_eq!(points[0].lat, 1.0f64.to_bits());
    assert_eq!(points[0].lon, (-2.0f64).to_bits());
}

#[test]
fn a_transaction_makes_all_of_its_operations() {
    let mut db = Store::new();
    let config = indexed();
    set_key(&mut db, b"old", person("Nice", 3), &config, &Vec::new()).unwrap();
    let ops = vec![
        TransactionOperation::Write { key: b"a".to_vec(), value: person("Paris", 1) },
        TransactionOperation::Write { key: b"a".to_vec(), value: person("Lyon", 2) },
        TransactionOperation::Delete { key: b"old".to_vec() },
        TransactionOperation::Delete { key: b"absent".to_vec() },
    ];
    execute_transaction(&mut db, &ops, &config, &Vec::new()).unwrap();
    assert_eq!(
        keys_of(&db),
        vec!["__field_index__city:Lyon:a", "__field_sorted__age:010000000000000002:a", "a"]
    );
}

#[test]
fn a_failed_operation_fails_the_transaction_and_names_its_key() {
    let mut db = Store::new();
    let config = indexed();
    set_key(&mut db, b"keep", person("Nice", 3), &config, &Vec::new()).unwrap();
    let before = keys_of(&db);
    let ops = vec![
        TransactionOperation::Write { key: b"a".to_vec(), value: person("Paris", 1) },
        TransactionOperation::Delete { key: b"keep".to_vec() },
        TransactionOperation::Write { key: b"bad".to_vec(), value: object(vec![("loc", point(1.0, 1.0))]) },
        TransactionOperation::Write { key: b"c".to_vec(), value: person("Paris", 1) },
    ];
    let failed = execute_transaction(&mut db, &ops, &config, &Vec::new());
    match failed {
        Err(DbError::TransactionOperationFailed(step, key, cause)) => {
            assert_eq!(step, Step::Write);
            assert_eq!(key, b"bad".to_vec());
            assert!(matches!(*cause, DbError::Geohash(_)));
        }
        other => panic!("unexpected {:?}", other),
    }
    assert_eq!(keys_of(&db), before);
}

#[test]
fn a_batch_writes_all_items_or_none() {
    let mut db = Store::new();
    let config = indexed();
    let good = vec![
        BatchSetItem { key: b"a".to_vec(), value: person("Paris", 1) },
        BatchSetItem { key: b"b".to_vec(), value: person("Paris", 2) },
    ];
    batch_set(&mut db, &good, &config, &Vec::new()).unwrap();
    assert_eq!(get_all_keys(&db), vec![b"a".to_vec(), b"b".to_vec()]);
    let bad = vec![
        BatchSetItem { key: b"c".to_vec(), value: person("Paris", 3) },
        BatchSetItem { key: b"d".to_vec(), value: object(vec![("loc", point(1.0, 1.0))]) },
    ];
    let failed = batch_set(&mut db, &bad, &config, &Vec::new());
    assert!(matches!(
        failed,
        Err(DbError::TransactionOperationFailed(Step::BatchWrite, ref key, _)) if key == b"d"
    ));
    assert_eq!(get_all_keys(&db), vec![b"a".to_vec(), b"b".to_vec()]);
    batch_set(&mut db, &Vec::new(), &config, &Vec::new()).unwrap();
}

#[test]
fn reading_by_key_tells_absent_from_unreadable() {
    let mut db = Store::new();
    let config = indexed();
    set_key(&mut db, b"a", person("Paris", 1), &config, &Vec::new()).unwrap();
    assert_eq!(get_key(&db, b"a").unwrap(), person("Paris", 1));
    assert_eq!(get_key(&db, b"b"), Err(DbError::NotFound));
    assert!(matches!(get_key(&db, b"__field_index__city:Paris:a"), Err(DbError::Serde(_))));
}

#[test]
fn clearing_a_prefix_removes_the_documents_under_it_with_their_entries() {
    let mut db = Store::new();
    let config = indexed();
    for key in ["user:1", "user:2", "order:1"] {
        set_key(&mut db, key.as_bytes(), person("Paris", 1), &config, &Vec::new()).unwrap();
    }
    assert_eq!(clear_prefix(&mut db, b"user:", &config, &Vec::new()).unwrap(), 2);
    assert_eq!(
        keys_of(&db),
        vec![
            "__field_index__city:Paris:order:1",
            "__field_sorted__age:010000000000000001:order:1",
            "order:1",
        ]
    );
    assert_eq!(clear_prefix(&mut db, b"__field", &config, &Vec::new()).unwrap(), 0);
    assert_eq!(db.len(), 3);
    assert_eq!(clear_prefix(&mut db, b"nothing", &config, &Vec::new()).unwrap(), 0);
}

#[test]
fn dropping_the_database_removes_every_document() {
    let mut db = Store::new();
    let config = indexed();
    for key in ["a", "b", "c"] {
        set_key(&mut db, key.as_bytes(), person("Paris", 1), &config, &Vec::new()).unwrap();
    }
    assert_eq!(drop_database(&mut db, &config, &Vec::new()).unwrap(), 3);
    assert_eq!(db.len(), 0);
    assert_eq!(drop_database(&mut db, &config, &Vec::new()).unwrap(), 0);
}

#[test]
fn a_dump_loaded_into_an_empty_store_restores_documents_and_entries() {
    let mut db = Store::new();
    let config = indexed();
    set_key(&mut db, b"a", person("Paris", 1), &config, &Vec::new()).unwrap();
    set_key(&mut db, b"b", person("Lyon", 2), &config, &Vec::new()).unwrap();
    set_key(&mut db, b"c", Value::text("a scalar document"), &config, &Vec::new()).unwrap();
    let dump = export_data(&db).unwrap();
    assert_eq!(
        dump,
        Value::Array(vec![
            object(vec![("key", Value::text("a")), ("value", person("Paris", 1))]),
            object(vec![("key", Value::text("b")), ("value", person("Lyon", 2))]),
            object(vec![("key", Value::text("c")), ("value", Value::text("a scalar document"))]),
        ])
    );
    let mut target = Store::new();
    import_data(&mut target, &dump, &config, &Vec::new()).unwrap();
    assert_eq!(keys_of(&target), keys_of(&db));
    for key in keys_of(&db) {
        assert_eq!(target.get(key.as_bytes()), db.get(key.as_bytes()));
    }
}

#[test]
fn a_dump_cannot_be_made_of_what_is_no_document_or_has_no_text_key() {
    let mut db = Store::new();
    db.put(b"raw".to_vec(), Payload::Empty);
    assert!(matches!(export_data(&db), Err(DbError::Serde(_))));
    let mut other = Store::new();
    other.put(vec![0xffu8, 0xfe], Payload::Document(Value::Null));
    assert!(matches!(export_data(&other), Err(DbError::Utf8Error(_))));
    assert_eq!(get_all_keys(&other), Vec::<Vec<u8>>::new());
}

#[test]
fn a_load_stops_at_the_first_item_that_cannot_be_written() {
    let config = indexed();
    let mut db = Store::new();
    assert!(matches!(
        import_data(&mut db, &object(vec![]), &config, &Vec::new()),
        Err(DbError::Serde(_))
    ));
    let dump = Value::Array(vec![
        object(vec![("key", Value::text("a")), ("value", person("Paris", 1))]),
        object(vec![("key", Value::integer(5)), ("value", person("Paris", 1))]),
        object(vec![("key", Value::text("c")), ("value", person("Paris", 1))]),
    ]);
    assert!(matches!(
        import_data(&mut db, &dump, &config, &Vec::new()),
        Err(DbError::ImportError(_))
    ));
    assert_eq!(get_all_keys(&db), vec![b"a".to_vec()]);
    let no_value = Value::Array(vec![object(vec![("key", Value::text("z"))])]);
    assert!(matches!(
        import_data(&mut db, &no_value, &config, &Vec::new()),
        Err(DbError::ImportError(_))
    ));
    let no_cell = Value::Array(vec![object(vec![
        ("key", Value::text("g")),
        ("value", object(vec![("loc", point(1.0, 1.0))])),
    ])]);
    assert!(matches!(
        import_data(&mut db, &no_cell, &config, &Vec::new()),
        Err(DbError::Geohash(_))
    ));
    assert_eq!(get_all_keys(&db), vec![b"a".to_vec()]);
}

#[test]
fn scans_give_the_keys_of_a_prefix_and_of_a_range() {
    let mut db = Store::new();
    for key in ["b", "a", "ab", "c", "abc"] {
        db.put(key.as_bytes().to_vec(), Payload::Empty);
    }
    assert_eq!(db.keys_with_prefix(b"a"), vec![b"a".to_vec(), b"ab".to_vec(), b"abc".to_vec()]);
    assert_eq!(db.keys_with_prefix(b"").len(), 5);
    assert_eq!(
        db.keys_in_range(&Bound::Included(b"ab".to_vec()), &Bound::Excluded(b"c".to_vec())),
        vec![b"b".to_vec(), b"ab".to_vec(), b"abc".to_vec()]
    );
    assert_eq!(
        db.keys_in_range(&Bound::Excluded(b"ab".to_vec()), &Bound::Included(b"c".to_vec())),
        vec![b"b".to_vec(), b"c".to_vec(), b"abc".to_vec()]
    );
    assert_eq!(db.keys_in_range(&Bound::Unbounded, &Bound::Excluded(b"a".to_vec())), Vec::<Vec<u8>>::new());
    db.put(b"a".to_vec(), Payload::Document(Value::Null));
    assert_eq!(db.len(), 5);
    db.remove(b"a");
    db.remove(b"zzz");
    assert_eq!(db.len(), 4);
    assert_eq!(db.get(b"a"), None);
}

#[test]
fn a_queried_path_is_recorded_with_its_beginnings() {
    let mut config = DbConfig::new();
    add_field_to_index(&mut config, b"address.city.name");
    assert_eq!(
        config.hash_indexed_fields,
        vec![b"address".to_vec(), b"address.city".to_vec(), b"address.city.name".to_vec()]
    );
    add_field_to_index(&mut config, b"address.zip");
    assert_eq!(config.hash_indexed_fields.len(), 4);
    assert!(config.is_hash_indexed(b"address.zip"));
    assert!(!config.is_hash_indexed(b"zip"));
    assert!(!config.is_sorted_indexed(b"address"));
    assert!(!config.is_geo_indexed(b"address"));
}

#[test]
fn a_transaction_is_retried_up_to_the_limit() {
    assert_eq!(rust_db_logic::ops::admit_attempt(0), Ok(()));
    assert_eq!(rust_db_logic::ops::admit_attempt(10), Ok(()));
    assert!(matches!(rust_db_logic::ops::admit_attempt(11), Err(DbError::CasRetryLimit(_))));
    assert!(matches!(rust_db_logic::ops::admit_attempt(u32::MAX), Err(DbError::CasRetryLimit(_))));
}

#[test]
fn an_item_of_a_dump_gives_its_key_and_document() {
    let item = object(vec![("key", Value::text("k")), ("value", Value::integer(1)), ("more", Value::Null)]);
    let (key, value) = rust_db_logic::bulk::read_item(&item).unwrap();
    assert_eq!(key, &b"k".to_vec());
    assert_eq!(value, &Value::integer(1));
    assert!(matches!(rust_db_logic::bulk::read_item(&Value::integer(1)), Err(DbError::ImportError(_))));
    assert!(matches!(
        rust_db_logic::bulk::read_item(&Value::Array(vec![Value::text("k"), Value::Null])),
        Err(DbError::ImportError(_))
    ));
    assert!(rust_db_logic::ops::key_is_user_key(b"plain"));
    assert!(!rust_db_logic::ops::key_is_user_key(b"__geo_sorted__x"));
    assert!(!rust_db_logic::ops::key_is_user_key(&[0xff]));
}

#[test]
fn a_key_under_a_reserved_prefix_is_no_primary_key() {
    let mut db = Store::new();
    let config = indexed();
    set_key(&mut db, b"a", person("Paris", 1), &config, &Vec::new()).unwrap();
    let before = keys_of(&db);
    for key in [
        &b"__field_index__x"[..],
        &b"__field_sorted__"[..],
        &b"__geo_sorted__loc:s0:k"[..],
        &b"__field_index__city:Paris:a"[..],
    ] {
        assert!(matches!(
            set_key(&mut db, key, person("Lyon", 2), &config, &Vec::new()),
            Err(DbError::MissingData(_))
        ));
        assert!(matches!(
            delete_key(&mut db, key, &config, &Vec::new()),
            Err(DbError::MissingData(_))
        ));
        assert!(matches!(
            set_key_internal(None, key, &Value::Null, &config, &Vec::new()),
            Err(DbError::MissingData(_))
        ));
        assert!(matches!(
            delete_key_internal(db.get(key), key, &config, &Vec::new()),
            Err(DbError::MissingData(_))
        ));
        assert_eq!(keys_of(&db), before);
    }
    assert!(db.get(b"__field_index__city:Paris:a").is_some());
    set_key(&mut db, b"__field_index_", person("Lyon", 2), &config, &Vec::new()).unwrap();
    let failed = batch_set(
        &mut db,
        &vec![BatchSetItem { key: b"__geo_sorted__k".to_vec(), value: Value::Null }],
        &config,
        &Vec::new(),
    );
    match failed {
        Err(DbError::TransactionOperationFailed(_, key, cause)) => {
            assert_eq!(key, b"__geo_sorted__k".to_vec());
            assert!(matches!(*cause, DbError::MissingData(_)));
        }
        other => panic!("unexpected {:?}", other),
    }
    let dump = Value::Array(vec![object(vec![
        ("key", Value::text("__field_sorted__k")),
        ("value", Value::Null),
    ])]);
    assert!(matches!(
        import_data(&mut db, &dump, &config, &Vec::new()),
        Err(DbError::MissingData(_))
    ));
}

#[test]
fn a_scalar_without_a_sort_encoding_under_a_sorted_path_aborts_the_write() {
    let mut db = Store::new();
    let config = indexed();
    set_key(&mut db, b"a", person("Paris", 1), &config, &Vec::new()).unwrap();
    let before = keys_of(&db);
    let null_age = object(vec![("city", Value::text("Lyon")), ("age", Value::Null)]);
    assert!(matches!(
        set_key(&mut db, b"a", null_age.duplicate(), &config, &Vec::new()),
        Err(DbError::Serde(_))
    ));
    assert!(matches!(
        set_key(&mut db, b"b", null_age.duplicate(), &config, &Vec::new()),
        Err(DbError::Serde(_))
    ));
    let null_item = object(vec![("age", Value::Array(vec![Value::integer(1), Value::Null]))]);
    assert!(matches!(
        set_key(&mut db, b"c", null_item, &config, &Vec::new()),
        Err(DbError::Serde(_))
    ));
    assert_eq!(keys_of(&db), before);
    let mut batch = Vec::new();
    assert!(matches!(
        index_value_recursive(b"k", b"", &null_age, &config, &Vec::new(), &mut batch),
        Err(DbError::Serde(_))
    ));
    assert!(matches!(
        remove_indices_recursive(b"k", b"", &null_age, &config, &Vec::new(), &mut batch),
        Err(DbError::Serde(_))
    ));
    assert!(batch.is_empty());
    let nested = object(vec![("age", Value::Array(vec![object(vec![]), Value::Array(vec![])]))]);
    set_key(&mut db, b"d", nested, &config, &Vec::new()).unwrap();
    let plain = DbConfig::new();
    set_key(&mut db, b"e", null_age, &plain, &Vec::new()).unwrap();
    assert!(matches!(
        delete_key(&mut db, b"e", &config, &Vec::new()),
        Err(DbError::Serde(_))
    ));
    assert!(matches!(
        set_key(&mut db, b"e", person("Paris", 1), &config, &Vec::new()),
        Err(DbError::Serde(_))
    ));
    delete_key(&mut db, b"e", &plain, &Vec::new()).unwrap();
}

#[test]
fn a_stored_payload_that_is_no_document_aborts_the_write_over_it() {
    let mut db = Store::new();
    let config = indexed();
    db.put(b"raw".to_vec(), Payload::Empty);
    assert!(matches!(
        set_key(&mut db, b"raw", person("Paris", 1), &config, &Vec::new()),
        Err(DbError::Serde(_))
    ));
    assert!(matches!(
        delete_key(&mut db, b"raw", &config, &Vec::new()),
        Err(DbError::Serde(_))
    ));
    assert_eq!(db.get(b"raw"), Some(&Payload::Empty));
    assert_eq!(db.len(), 1);
}
