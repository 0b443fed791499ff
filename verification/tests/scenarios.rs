use geo::HaversineDistance;
use rust_db_logic::conditions::{query_and, Condition};
use rust_db_logic::config::DbConfig;
use rust_db_logic::error::DbError;
use rust_db_logic::executor::execute_ast_query;
use rust_db_logic::geo::{query_in_box, query_within_radius_simplified, GeoCandidate};
use rust_db_logic::index::{GeoCell, GeoPoint};
use rust_db_logic::number::{Double, Number};
use rust_db_logic::ops::{delete_key, get_key, set_key};
use rust_db_logic::points::geo_points;
use rust_db_logic::query::{DataType, QueryNode};
use rust_db_logic::store::Store;
use rust_db_logic::value::{Field, Value};

fn object(fields: Vec<(&str, Value)>) -> Value {
    Value::object(fields.into_iter().map(|(name, value)| Field::named(name, value)).collect())
}

fn double(x: f64) -> Value {
    let text = serde_json::Value::from(x).to_string().into_bytes();
    Value::Number(Number::Float(Double::new(x.to_bits(), text)))
}

fn condition(field: &str, operator: &str, value: &str) -> Condition {
    Condition {
        field: field.as_bytes().to_vec(),
        operator: operator.as_bytes().to_vec(),
        value: value.as_bytes().to_vec(),
        double: None,
    }
}

fn cell_of(point: &GeoPoint) -> GeoCell {
    let coord = geohash::Coord { x: f64::from_bits(point.lon), y: f64::from_bits(point.lat) };
    GeoCell {
        lat: point.lat,
        lon: point.lon,
        hash: geohash::encode(coord, 9).unwrap().into_bytes(),
    }
}

fn within(candidates: Vec<GeoCandidate>, lat: f64, lon: f64, radius: f64) -> Vec<Value> {
    let center = geo::Point::new(lon, lat);
    candidates
        .into_iter()
        .filter(|c| {
            let p = geo::Point::new(f64::from_bits(c.point.lon), f64::from_bits(c.point.lat));
            p.haversine_distance(&center) <= radius
        })
        .map(|c| c.document)
        .collect()
}

#[test]
fn set_get_delete_round_trip() {
    let mut db = Store::new();
    let config = DbConfig::new();
    let cells = Vec::new();
    let doc = object(vec![("name", Value::text("Ada"))]);
    set_key(&mut db, b"u1", doc.duplicate(), &config, &cells).unwrap();
    assert_eq!(get_key(&db, b"u1").unwrap(), doc);
    delete_key(&mut db, b"u1", &config, &cells).unwrap();
    assert_eq!(get_key(&db, b"u1"), Err(DbError::NotFound));
    assert!(db.keys_with_prefix(b"u1").is_empty());
    assert_eq!(db.len(), 0);
}

#[test]
fn equality_index_finds_both_paris_documents() {
    let mut db = Store::new();
    let mut config = DbConfig::new();
    config.hash_indexed_fields.push(b"city".to_vec());
    let cells = Vec::new();
    let paris = object(vec![("city", Value::text("Paris"))]);
    let lyon = object(vec![("city", Value::text("Lyon"))]);
    set_key(&mut db, b"a", paris.duplicate(), &config, &cells).unwrap();
    set_key(&mut db, b"b", paris.duplicate(), &config, &cells).unwrap();
    set_key(&mut db, b"c", lyon, &config, &cells).unwrap();
    assert!(db.get(b"__field_index__city:Paris:a").is_some());
    assert!(db.get(b"__field_index__city:Paris:b").is_some());
    assert!(db.get(b"__field_index__city:Lyon:c").is_some());
    let found = query_and(&db, &vec![condition("city", "===", "Paris")]).unwrap();
    assert_eq!(found.len(), 2);
    assert!(found.iter().all(|d| *d == paris));
}

#[test]
fn range_via_sorted_index_finds_p2_only() {
    let mut db = Store::new();
    let mut config = DbConfig::new();
    config.sorted_indexed_fields.push(b"age".to_vec());
    let cells = Vec::new();
    for (key, age) in [("p1", 10), ("p2", 25), ("p3", 40)] {
        let doc = object(vec![("age", Value::integer(age))]);
        set_key(&mut db, key.as_bytes(), doc, &config, &cells).unwrap();
    }
    assert!(db.get(b"__field_sorted__age:010000000000000019:p2").is_some());
    let found = query_and(
        &db,
        &vec![condition("age", ">=", "20"), condition("age", "<", "30")],
    )
    .unwrap();
    assert_eq!(found, vec![object(vec![("age", Value::integer(25))])]);
}

#[test]
fn array_membership_by_includes() {
    let mut db = Store::new();
    let mut config = DbConfig::new();
    config.hash_indexed_fields.push(b"tags".to_vec());
    let cells = Vec::new();
    let d1 = object(vec![("tags", Value::Array(vec![Value::text("x"), Value::text("y")]))]);
    let d2 = object(vec![("tags", Value::Array(vec![Value::text("y"), Value::text("z")]))]);
    set_key(&mut db, b"d1", d1.duplicate(), &config, &cells).unwrap();
    set_key(&mut db, b"d2", d2.duplicate(), &config, &cells).unwrap();
    let geo = Vec::new();
    let y = execute_ast_query(
        &db,
        QueryNode::Includes(b"tags".to_vec(), Value::text("y"), DataType::String),
        None,
        None,
        None,
        &config,
        &geo,
    )
    .unwrap();
    assert_eq!(y, vec![d1.duplicate(), d2.duplicate()]);
    let x = execute_ast_query(
        &db,
        QueryNode::Includes(b"tags".to_vec(), Value::text("x"), DataType::String),
        None,
        None,
        None,
        &config,
        &geo,
    )
    .unwrap();
    assert_eq!(x, vec![d1]);
}

#[test]
fn geo_radius_keeps_the_two_near_points() {
    let mut db = Store::new();
    let mut config = DbConfig::new();
    config.geo_indexed_fields.push(b"loc".to_vec());
    let docs: Vec<(&str, f64, f64)> = vec![("n0", 0.0, 0.0), ("n1", 0.0, 0.001), ("far", 1.0, 1.0)];
    let mut cells = Vec::new();
    for (key, lat, lon) in &docs {
        let doc = object(vec![("loc", object(vec![("lat", double(*lat)), ("lon", double(*lon))]))]);
        for point in geo_points(&doc, &config) {
            cells.push(cell_of(&point));
        }
        set_key(&mut db, key.as_bytes(), doc, &config, &cells).unwrap();
    }
    assert!(db.get(b"__geo_sorted__loc:s00000000:n0").is_some());
    let candidates = query_in_box(&db, b"loc");
    assert_eq!(candidates.len(), 3);
    let near = within(candidates, 0.0, 0.0, 500.0);
    assert_eq!(near.len(), 2);
    assert_eq!(
        near[0],
        object(vec![("loc", object(vec![("lat", double(0.0)), ("lon", double(0.0))]))])
    );
    assert_eq!(
        near[1],
        object(vec![("loc", object(vec![("lat", double(0.0)), ("lon", double(0.001))]))])
    );
    let geo = vec![near];
    let through_tree = execute_ast_query(
        &db,
        QueryNode::GeoWithinRadius {
            field: b"loc".to_vec(),
            lat: 0.0f64.to_bits(),
            lon: 0.0f64.to_bits(),
            radius: 500.0f64.to_bits(),
        },
        None,
        None,
        None,
        &config,
        &geo,
    )
    .unwrap();
    assert_eq!(through_tree.len(), 2);
}

#[test]
fn geo_cells_give_the_candidates_of_their_cells() {
    let mut db = Store::new();
    let mut config = DbConfig::new();
    config.geo_indexed_fields.push(b"loc".to_vec());
    let mut cells = Vec::new();
    for (key, lat, lon) in [("here", 48.8566, 2.3522), ("there", 45.764, 4.8357)] {
        let doc = object(vec![("loc", object(vec![("lat", double(lat)), ("lon", double(lon))]))]);
        for point in geo_points(&doc, &config) {
            cells.push(cell_of(&point));
        }
        set_key(&mut db, key.as_bytes(), doc, &config, &cells).unwrap();
    }
    let center = geohash::encode(geohash::Coord { x: 2.3522, y: 48.8566 }, 9).unwrap();
    let around = geohash::neighbors(&center).unwrap();
    let mut hashes: Vec<Vec<u8>> = vec![center.into_bytes()];
    for h in [
        around.n, around.ne, around.e, around.se, around.s, around.sw, around.w, around.nw,
    ] {
        hashes.push(h.into_bytes());
    }
    let candidates = query_within_radius_simplified(&db, b"loc", &hashes);
    assert_eq!(candidates.len(), 1);
    assert_eq!(candidates[0].key, b"here".to_vec());
    assert_eq!(
        candidates[0].point,
        GeoPoint { lat: 48.8566f64.to_bits(), lon: 2.3522f64.to_bits() }
    );
}

#[test]
fn projection_and_pagination() {
    let mut db = Store::new();
    let mut config = DbConfig::new();
    config.sorted_indexed_fields.push(b"n".to_vec());
    let cells = Vec::new();
    for i in 1..=5i64 {
        let doc = object(vec![("n", Value::integer(i)), ("bio", Value::text("..."))]);
        set_key(&mut db, format!("k{}", i).as_bytes(), doc, &config, &cells).unwrap();
    }
    let geo = Vec::new();
    let found = execute_ast_query(
        &db,
        QueryNode::Gte(b"n".to_vec(), Value::integer(0), DataType::Number),
        Some(vec![b"n".to_vec()]),
        Some(2),
        Some(1),
        &config,
        &geo,
    )
    .unwrap();
    assert_eq!(
        found,
        vec![object(vec![("n", Value::integer(2))]), object(vec![("n", Value::integer(3))])]
    );
}
