use rust_db_logic::access::{get_value_by_path, insert_value_by_path};
use rust_db_logic::config::DbConfig;
use rust_db_logic::error::{DbError, Step};
use rust_db_logic::executor::execute_ast_query;
use rust_db_logic::index::{GeoCell, GeoPoint};
use rust_db_logic::number::{Double, Number};
use rust_db_logic::geo::{cells_around, query_within_radius_simplified, with_center};
use rust_db_logic::ops::{delete_key, get_key, plan_steps, set_key, TransactionOperation};
use rust_db_logic::path::split_path;
use rust_db_logic::projection::apply_projection;
use rust_db_logic::query::{DataType, QueryNode};
use rust_db_logic::store::Store;
use rust_db_logic::value::{Field, Value};

fn record(fields: Vec<(&str, Value)>) -> Value {
    Value::object(fields.into_iter().map(|(name, value)| Field::named(name, value)).collect())
}

fn coordinate(x: f64) -> Value {
    let text = serde_json::Value::from(x).to_string().into_bytes();
    Value::Number(Number::Float(Double::new(x.to_bits(), text)))
}

fn reserved_keys(db: &Store) -> Vec<String> {
    let mut keys = Vec::new();
    for family in ["__field_index__", "__field_sorted__", "__geo_sorted__"] {
        for key in db.keys_with_prefix(family.as_bytes()) {
            keys.push(String::from_utf8(key).unwrap());
        }
    }
    keys.sort();
    keys
}

fn equal_to(path: &str, value: Value) -> QueryNode {
    QueryNode::Eq(path.as_bytes().to_vec(), value, DataType::String)
}

fn range(path: &str, from: i64, to: i64) -> QueryNode {
    QueryNode::And(
        Box::new(QueryNode::Gte(path.as_bytes().to_vec(), Value::integer(from), DataType::Number)),
        Box::new(QueryNode::Lt(path.as_bytes().to_vec(), Value::integer(to), DataType::Number)),
    )
}

#[test]
fn a_range_below_zero_gives_the_documents_in_it_once() {
    let mut db = Store::new();
    let mut config = DbConfig::new();
    config.sorted_indexed_fields.push(b"depth".to_vec());
    let cells = Vec::new();
    for (key, depth) in [("a", -40), ("b", -25), ("c", -10), ("d", -30), ("e", -20)] {
        let doc = record(vec![("depth", Value::integer(depth))]);
        set_key(&mut db, key.as_bytes(), doc, &config, &cells).unwrap();
    }
    let geo = Vec::new();
    let found =
        execute_ast_query(&db, range("depth", -30, -20), None, None, None, &config, &geo).unwrap();
    assert_eq!(found.len(), 2);
    assert!(found.contains(&record(vec![("depth", Value::integer(-30))])));
    assert!(found.contains(&record(vec![("depth", Value::integer(-25))])));
    let none =
        execute_ast_query(&db, range("depth", -20, -30), None, None, None, &config, &geo).unwrap();
    assert!(none.is_empty());
}

#[test]
fn an_equality_query_finds_an_item_of_an_array() {
    let mut db = Store::new();
    let mut config = DbConfig::new();
    config.hash_indexed_fields.push(b"tags".to_vec());
    let cells = Vec::new();
    let d1 = record(vec![("tags", Value::Array(vec![Value::text("x"), Value::text("y")]))]);
    let d2 = record(vec![("tags", Value::Array(vec![Value::text("z")]))]);
    set_key(&mut db, b"d1", d1.duplicate(), &config, &cells).unwrap();
    set_key(&mut db, b"d2", d2, &config, &cells).unwrap();
    let geo = Vec::new();
    let found =
        execute_ast_query(&db, equal_to("tags", Value::text("x")), None, None, None, &config, &geo)
            .unwrap();
    assert_eq!(found, vec![d1]);
}

#[test]
fn an_equality_query_follows_a_path_through_an_array() {
    let mut db = Store::new();
    let mut config = DbConfig::new();
    config.hash_indexed_fields.push(b"lines.1.item".to_vec());
    let cells = Vec::new();
    let order = record(vec![(
        "lines",
        Value::Array(vec![
            record(vec![("item", Value::text("nut"))]),
            record(vec![("item", Value::text("bolt"))]),
        ]),
    )]);
    set_key(&mut db, b"o1", order.duplicate(), &config, &cells).unwrap();
    assert!(db.get(b"__field_index__lines.1.item:bolt:o1").is_some());
    let geo = Vec::new();
    let found = execute_ast_query(
        &db,
        equal_to("lines.1.item", Value::text("bolt")),
        None,
        None,
        None,
        &config,
        &geo,
    )
    .unwrap();
    assert_eq!(found, vec![order]);
}

#[test]
fn a_later_write_under_another_key_keeps_the_answer() {
    let mut db = Store::new();
    let mut config = DbConfig::new();
    config.hash_indexed_fields.push(b"city".to_vec());
    let cells = Vec::new();
    let paris = record(vec![("city", Value::text("Paris"))]);
    set_key(&mut db, b"a", paris.duplicate(), &config, &cells).unwrap();
    set_key(&mut db, b"b", record(vec![("city", Value::text("Lyon"))]), &config, &cells).unwrap();
    set_key(&mut db, b"b", record(vec![("city", Value::text("Nice"))]), &config, &cells).unwrap();
    delete_key(&mut db, b"b", &config, &cells).unwrap();
    let geo = Vec::new();
    let found = execute_ast_query(
        &db,
        equal_to("city", Value::text("Paris")),
        None,
        None,
        None,
        &config,
        &geo,
    )
    .unwrap();
    assert_eq!(found, vec![paris]);
    assert_eq!(reserved_keys(&db), vec!["__field_index__city:Paris:a".to_string()]);
}

#[test]
fn after_an_overwrite_the_index_entries_are_those_of_the_new_document() {
    let mut db = Store::new();
    let mut config = DbConfig::new();
    config.hash_indexed_fields.push(b"city".to_vec());
    config.sorted_indexed_fields.push(b"age".to_vec());
    let cells = Vec::new();
    let other = record(vec![("city", Value::text("Rome")), ("age", Value::integer(7))]);
    set_key(&mut db, b"k2", other.duplicate(), &config, &cells).unwrap();
    let first = record(vec![("city", Value::text("Oslo")), ("age", Value::integer(1))]);
    set_key(&mut db, b"k", first, &config, &cells).unwrap();
    let second = record(vec![("city", Value::text("Bern"))]);
    set_key(&mut db, b"k", second.duplicate(), &config, &cells).unwrap();
    assert_eq!(
        reserved_keys(&db),
        vec![
            "__field_index__city:Bern:k".to_string(),
            "__field_index__city:Rome:k2".to_string(),
            "__field_sorted__age:010000000000000007:k2".to_string(),
        ]
    );
    assert_eq!(get_key(&db, b"k").unwrap(), second);
    delete_key(&mut db, b"k", &config, &cells).unwrap();
    assert_eq!(
        reserved_keys(&db),
        vec![
            "__field_index__city:Rome:k2".to_string(),
            "__field_sorted__age:010000000000000007:k2".to_string(),
        ]
    );
    assert_eq!(get_key(&db, b"k2").unwrap(), other);
}

#[test]
fn a_written_point_is_a_candidate_of_its_cell() {
    let mut db = Store::new();
    let mut config = DbConfig::new();
    config.geo_indexed_fields.push(b"at".to_vec());
    let lat: f64 = 48.8566;
    let lon: f64 = 2.3522;
    let place = record(vec![(
        "at",
        record(vec![("lat", coordinate(lat)), ("lon", coordinate(lon))]),
    )]);
    let point = GeoPoint { lat: lat.to_bits(), lon: lon.to_bits() };
    let hash = geohash::encode(geohash::Coord { x: lon, y: lat }, 9).unwrap().into_bytes();
    let cells = vec![GeoCell { lat: point.lat, lon: point.lon, hash: hash.clone() }];
    set_key(&mut db, b"p", place.duplicate(), &config, &cells).unwrap();
    let asked = vec![b"zzzzzzzzz".to_vec(), hash];
    let found = query_within_radius_simplified(&db, b"at", &asked);
    assert_eq!(found.len(), 1);
    assert_eq!(found[0].key, b"p".to_vec());
    assert_eq!(found[0].document, place);
    let elsewhere = vec![b"zzzzzzzzz".to_vec()];
    assert!(query_within_radius_simplified(&db, b"at", &elsewhere).is_empty());
}

#[test]
fn a_removal_under_a_wider_configuration_leaves_nothing_of_the_document() {
    let mut db = Store::new();
    let mut config = DbConfig::new();
    config.hash_indexed_fields.push(b"city".to_vec());
    let cells = Vec::new();
    let kept = record(vec![("city", Value::text("Rome")), ("age", Value::integer(7))]);
    set_key(&mut db, b"k2", kept.duplicate(), &config, &cells).unwrap();
    set_key(
        &mut db,
        b"k",
        record(vec![("city", Value::text("Oslo")), ("age", Value::integer(1))]),
        &config,
        &cells,
    )
    .unwrap();
    let mut wider = DbConfig::new();
    wider.hash_indexed_fields.push(b"city".to_vec());
    wider.hash_indexed_fields.push(b"age".to_vec());
    wider.sorted_indexed_fields.push(b"age".to_vec());
    delete_key(&mut db, b"k", &wider, &cells).unwrap();
    assert!(db.get(b"k").is_none());
    assert_eq!(reserved_keys(&db), vec!["__field_index__city:Rome:k2".to_string()]);
    assert_eq!(get_key(&db, b"k2").unwrap(), kept);
}

#[test]
fn the_cells_around_a_cell_are_the_cell_and_those_beside_it() {
    let cells = cells_around(b"9q60y60rhs").unwrap();
    let expected: Vec<Vec<u8>> = [
        "9q60y60rhs", "9q60y60rht", "9q60y60rhv", "9q60y60rhu", "9q60y60rhg", "9q60y60rhe", "9q60y60rh7",
        "9q60y60rhk", "9q60y60rhm",
    ]
    .iter()
    .map(|cell| cell.as_bytes().to_vec())
    .collect();
    assert_eq!(cells, expected);
    let beside = geohash::neighbors("u09tvw0f6").unwrap();
    let cells = cells_around(b"u09tvw0f6").unwrap();
    assert_eq!(cells.len(), 9);
    assert_eq!(cells[0], b"u09tvw0f6".to_vec());
    assert_eq!(cells[1], beside.n.into_bytes());
    assert_eq!(cells[5], beside.s.into_bytes());
    assert_eq!(cells[8], beside.nw.into_bytes());
    assert!(matches!(cells_around(b""), Err(DbError::Geohash(_))));
    assert!(matches!(cells_around(b"9q60a"), Err(DbError::Geohash(_))));
    assert!(matches!(cells_around(b"9q60y60rhs9q60"), Err(DbError::Geohash(_))));
    assert!(matches!(cells_around(&[0xff, 0xfe]), Err(DbError::Geohash(_))));
    assert_eq!(
        with_center(b"c", vec![b"n".to_vec(), b"e".to_vec()]),
        vec![b"c".to_vec(), b"n".to_vec(), b"e".to_vec()]
    );
}

#[test]
fn the_planned_changes_of_a_transaction_give_the_store_that_it_leaves() {
    let mut config = DbConfig::new();
    config.hash_indexed_fields.push(b"city".to_vec());
    let cells = Vec::new();
    let mut db = Store::new();
    set_key(&mut db, b"a", record(vec![("city", Value::text("Oslo"))]), &config, &cells).unwrap();
    let mut twin = db.duplicate();
    let operations = vec![
        TransactionOperation::Write { key: b"a".to_vec(), value: record(vec![("city", Value::text("Bern"))]) },
        TransactionOperation::Write { key: b"b".to_vec(), value: record(vec![("city", Value::text("Rome"))]) },
        TransactionOperation::Delete { key: b"a".to_vec() },
    ];
    let made = plan_steps(&mut db, &operations, &config, &cells, None).unwrap();
    twin.apply(made);
    assert_eq!(reserved_keys(&db), vec!["__field_index__city:Rome:b".to_string()]);
    assert_eq!(reserved_keys(&twin), reserved_keys(&db));
    assert!(twin.get(b"a").is_none());
    assert_eq!(get_key(&twin, b"b").unwrap(), get_key(&db, b"b").unwrap());
    let refused = vec![TransactionOperation::Delete { key: b"__geo_sorted__x".to_vec() }];
    assert!(matches!(
        plan_steps(&mut db, &refused, &config, &cells, Some(Step::ClearPrefix)),
        Err(DbError::TransactionOperationFailed(Step::ClearPrefix, _, _))
    ));
    assert!(matches!(
        plan_steps(&mut db, &refused, &config, &cells, None),
        Err(DbError::TransactionOperationFailed(Step::Delete, _, _))
    ));
}

fn segments(path: &str) -> Vec<Vec<u8>> {
    split_path(path.as_bytes())
}

#[test]
fn what_a_path_leads_to_stands_at_that_path_in_the_projection() {
    let doc = record(vec![
        ("id", Value::integer(7)),
        ("customer", record(vec![("name", Value::text("Ada")), ("vip", Value::Bool(true))])),
        (
            "items",
            Value::Array(vec![
                record(vec![("name", Value::text("pen"))]),
                record(vec![("name", Value::text("ink"))]),
            ]),
        ),
        ("note", Value::Null),
    ]);
    let paths: Vec<Vec<u8>> = ["customer.vip", "id", "items.name", "missing", "customer.name", "note"]
        .iter()
        .map(|p| p.as_bytes().to_vec())
        .collect();
    let projected = apply_projection(vec![doc.duplicate(), record(vec![])], &paths).unwrap();
    assert_eq!(projected.len(), 2);
    for path in &paths {
        if let Some(found) = get_value_by_path(&doc, path) {
            assert_eq!(get_value_by_path(&projected[0], path), Some(found));
        }
    }
    assert_eq!(
        projected[0],
        record(vec![
            ("customer", record(vec![("name", Value::text("Ada")), ("vip", Value::Bool(true))])),
            ("id", Value::integer(7)),
            ("items", Value::Array(vec![Value::text("pen"), Value::text("ink")])),
            ("note", Value::Null),
        ])
    );
    assert_eq!(projected[1], record(vec![]));
}

#[test]
fn a_read_after_an_assignment_gives_the_value_and_other_places_stay() {
    let mut doc = record(vec![
        ("a", record(vec![("b", Value::integer(1)), ("c", Value::integer(2))])),
        ("list", Value::Array(vec![Value::integer(10), Value::integer(20)])),
    ]);
    insert_value_by_path(&mut doc, &segments("a.b"), Value::text("new")).unwrap();
    assert_eq!(get_value_by_path(&doc, b"a.b"), Some(&Value::text("new")));
    assert_eq!(get_value_by_path(&doc, b"a.c"), Some(&Value::integer(2)));
    insert_value_by_path(&mut doc, &segments("list.2"), Value::integer(30)).unwrap();
    assert_eq!(get_value_by_path(&doc, b"list.2"), Some(&Value::integer(30)));
    assert_eq!(get_value_by_path(&doc, b"list.0"), Some(&Value::integer(10)));
    assert_eq!(get_value_by_path(&doc, b"list.1"), Some(&Value::integer(20)));
    insert_value_by_path(&mut doc, &segments("x.y.z"), Value::Bool(true)).unwrap();
    assert_eq!(get_value_by_path(&doc, b"x.y.z"), Some(&Value::Bool(true)));
    assert_eq!(get_value_by_path(&doc, b"a.b"), Some(&Value::text("new")));
    let before = doc.duplicate();
    insert_value_by_path(&mut doc, &segments("a.c"), Value::integer(2)).unwrap();
    assert_eq!(doc, before);
    insert_value_by_path(&mut doc, &segments("list.+1"), Value::integer(21)).unwrap();
    assert_eq!(get_value_by_path(&doc, b"list.1"), Some(&Value::integer(21)));
}
