use rust_db_logic::conditions::{parse_operator, query_and, Condition};
use rust_db_logic::config::DbConfig;
use rust_db_logic::error::DbError;
use rust_db_logic::executor::{execute_ast_query, extract_eq_field, paginate};
use rust_db_logic::index::Payload;
use rust_db_logic::number::{Double, Number};
use rust_db_logic::ops::set_key;
use rust_db_logic::query::{
    evaluate_condition_on_doc, fetch_documents, fetch_keys_hash_index, fetch_keys_sorted_index,
    DataType, Operator, QueryNode,
};
use rust_db_logic::store::Store;
use rust_db_logic::value::{Field, Value};

fn object(fields: Vec<(&str, Value)>) -> Value {
    Value::object(fields.into_iter().map(|(name, value)| Field::named(name, value)).collect())
}

fn double(x: f64) -> Value {
    let text = serde_json::Value::from(x).to_string().into_bytes();
    Value::Number(Number::Float(Double::new(x.to_bits(), text)))
}

fn person(name: &str, city: &str, age: i64) -> Value {
    object(vec![
        ("name", Value::text(name)),
        ("city", Value::text(city)),
        ("age", Value::integer(age)),
    ])
}

fn config() -> DbConfig {
    let mut config = DbConfig::new();
    config.hash_indexed_fields.push(b"city".to_vec());
    config.sorted_indexed_fields.push(b"age".to_vec());
    config
}

fn people() -> Store {
    let mut db = Store::new();
    let config = config();
    for (key, name, city, age) in [
        ("p1", "Ada", "Paris", 10),
        ("p2", "Bob", "Paris", 25),
        ("p3", "Cy", "Lyon", 40),
        ("p4", "Di", "Nice", 25),
    ] {
        set_key(&mut db, key.as_bytes(), person(name, city, age), &config, &Vec::new()).unwrap();
    }
    db
}

fn names(docs: &[Value]) -> Vec<String> {
    let mut names: Vec<String> = docs
        .iter()
        .map(|d| match rust_db_logic::access::get_value_by_path(d, b"name") {
            Some(Value::String(s)) => String::from_utf8(s.clone()).unwrap(),
            _ => String::from("?"),
        })
        .collect();
    names.sort();
    names
}

fn run(db: &Store, node: QueryNode) -> Vec<Value> {
    execute_ast_query(db, node, None, None, None, &config(), &Vec::new()).unwrap()
}

fn leaf(op: Operator, path: &str, value: Value) -> QueryNode {
    let p = path.as_bytes().to_vec();
    match op {
        Operator::Eq => QueryNode::Eq(p, value, DataType::String),
        Operator::Includes => QueryNode::Includes(p, value, DataType::String),
        Operator::Gt => QueryNode::Gt(p, value, DataType::Number),
        Operator::Lt => QueryNode::Lt(p, value, DataType::Number),
        Operator::Gte => QueryNode::Gte(p, value, DataType::Number),
        Operator::Lte => QueryNode::Lte(p, value, DataType::Number),
        Operator::Ne => QueryNode::Ne(p, value, DataType::Number),
    }
}

#[test]
fn an_equality_leaf_finds_what_the_index_lists() {
    let db = people();
    assert_eq!(names(&run(&db, leaf(Operator::Eq, "city", Value::text("Paris")))), vec!["Ada", "Bob"]);
    assert_eq!(names(&run(&db, leaf(Operator::Eq, "city", Value::text("Rome")))), Vec::<String>::new());
    assert_eq!(
        fetch_keys_hash_index(&db, b"city", &Value::text("Paris")),
        vec![b"p1".to_vec(), b"p2".to_vec()]
    );
}

#[test]
fn an_equality_leaf_rechecks_the_documents() {
    let mut db = Store::new();
    let config = config();
    set_key(&mut db, b"n", object(vec![("name", Value::text("n")), ("city", Value::integer(5))]), &config, &Vec::new()).unwrap();
    set_key(&mut db, b"s", object(vec![("name", Value::text("s")), ("city", Value::text("5"))]), &config, &Vec::new()).unwrap();
    assert_eq!(fetch_keys_hash_index(&db, b"city", &Value::integer(5)).len(), 2);
    assert_eq!(names(&run(&db, leaf(Operator::Eq, "city", Value::integer(5)))), vec!["n"]);
    assert_eq!(names(&run(&db, leaf(Operator::Eq, "city", Value::text("5")))), vec!["s"]);
}

#[test]
fn an_equality_leaf_on_an_indexed_path_without_entries_scans_all_documents() {
    let mut db = Store::new();
    let plain = DbConfig::new();
    set_key(&mut db, b"a", person("Ada", "Paris", 1), &plain, &Vec::new()).unwrap();
    set_key(&mut db, b"b", person("Bob", "Lyon", 2), &plain, &Vec::new()).unwrap();
    assert_eq!(db.len(), 2);
    let unindexed = execute_ast_query(
        &db,
        leaf(Operator::Eq, "city", Value::text("Paris")),
        None,
        None,
        None,
        &plain,
        &Vec::new(),
    )
    .unwrap();
    assert_eq!(unindexed, Vec::<Value>::new());
    let found = run(&db, leaf(Operator::Eq, "city", Value::text("Paris")));
    assert_eq!(names(&found), vec!["Ada"]);
    assert_eq!(db.len(), 2);
}

#[test]
fn ordered_leaves_find_what_the_sorted_index_lists() {
    let db = people();
    assert_eq!(names(&run(&db, leaf(Operator::Gt, "age", Value::integer(25)))), vec!["Cy"]);
    assert_eq!(names(&run(&db, leaf(Operator::Gte, "age", Value::integer(25)))), vec!["Bob", "Cy", "Di"]);
    assert_eq!(names(&run(&db, leaf(Operator::Lt, "age", Value::integer(25)))), vec!["Ada"]);
    assert_eq!(names(&run(&db, leaf(Operator::Lte, "age", Value::integer(25)))), vec!["Ada", "Bob", "Di"]);
    assert_eq!(names(&run(&db, leaf(Operator::Ne, "age", Value::integer(25)))), vec!["Ada", "Cy"]);
    assert_eq!(names(&run(&db, leaf(Operator::Gt, "age", Value::integer(100)))), Vec::<String>::new());
    assert_eq!(names(&run(&db, leaf(Operator::Gte, "other", Value::integer(0)))), Vec::<String>::new());
}

#[test]
fn a_sorted_scan_keeps_to_the_tag_of_the_query_value() {
    let mut db = people();
    let config = config();
    set_key(&mut db, b"f", object(vec![("name", Value::text("Flo")), ("age", double(30.5))]), &config, &Vec::new()).unwrap();
    set_key(&mut db, b"t", object(vec![("name", Value::text("Tex")), ("age", Value::text("old"))]), &config, &Vec::new()).unwrap();
    assert_eq!(names(&run(&db, leaf(Operator::Gte, "age", Value::integer(0)))), vec!["Ada", "Bob", "Cy", "Di"]);
    assert_eq!(names(&run(&db, leaf(Operator::Gte, "age", double(0.0)))), vec!["Flo"]);
    assert_eq!(names(&run(&db, leaf(Operator::Ne, "age", Value::text("young")))), vec!["Tex"]);
    assert_eq!(
        fetch_keys_sorted_index(&db, b"age", Operator::Lte, &double(30.5), &DataType::Number).unwrap(),
        vec![b"f".to_vec()]
    );
}

#[test]
fn the_sorted_index_does_not_answer_equality_or_what_is_no_scalar() {
    let db = people();
    assert!(matches!(
        fetch_keys_sorted_index(&db, b"age", Operator::Eq, &Value::integer(1), &DataType::Number),
        Err(DbError::AstQueryError(_))
    ));
    assert!(matches!(
        fetch_keys_sorted_index(&db, b"age", Operator::Includes, &Value::integer(1), &DataType::Number),
        Err(DbError::AstQueryError(_))
    ));
    assert!(matches!(
        fetch_keys_sorted_index(&db, b"age", Operator::Gt, &Value::Null, &DataType::Number),
        Err(DbError::Serde(_))
    ));
    let failed = execute_ast_query(
        &db,
        leaf(Operator::Gt, "age", Value::Array(vec![])),
        None,
        None,
        None,
        &config(),
        &Vec::new(),
    );
    assert!(matches!(failed, Err(DbError::Serde(_))));
}

#[test]
fn a_primary_key_with_colons_is_found_through_the_sorted_index() {
    let mut db = Store::new();
    let config = config();
    set_key(&mut db, b"user:7", person("Ada", "Paris", 30), &config, &Vec::new()).unwrap();
    assert_eq!(
        fetch_keys_sorted_index(&db, b"age", Operator::Gte, &Value::integer(30), &DataType::Number).unwrap(),
        vec![b"user:7".to_vec()]
    );
    assert_eq!(fetch_keys_hash_index(&db, b"city", &Value::text("Paris")), vec![b"7".to_vec()]);
    assert_eq!(names(&run(&db, leaf(Operator::Eq, "city", Value::text("Paris")))), Vec::<String>::new());
}

#[test]
fn conjunction_disjunction_and_negation_combine_documents() {
    let db = people();
    let paris = || leaf(Operator::Eq, "city", Value::text("Paris"));
    let adult = || leaf(Operator::Gte, "age", Value::integer(18));
    let both = run(&db, QueryNode::And(Box::new(paris()), Box::new(adult())));
    assert_eq!(names(&both), vec!["Bob"]);
    let either = run(&db, QueryNode::Or(Box::new(paris()), Box::new(adult())));
    assert_eq!(names(&either), vec!["Ada", "Bob", "Cy", "Di"]);
    let neither = run(&db, QueryNode::Not(Box::new(QueryNode::Or(Box::new(paris()), Box::new(adult())))));
    assert_eq!(names(&neither), Vec::<String>::new());
    let not_paris = run(&db, QueryNode::Not(Box::new(paris())));
    assert_eq!(names(&not_paris), vec!["Cy", "Di"]);
    let range = run(
        &db,
        QueryNode::And(
            Box::new(leaf(Operator::Gte, "age", Value::integer(20))),
            Box::new(leaf(Operator::Lt, "age", Value::integer(30))),
        ),
    );
    assert_eq!(names(&range), vec!["Bob", "Di"]);
}

#[test]
fn equal_documents_under_different_keys_count_once_in_combinations() {
    let mut db = Store::new();
    let config = config();
    set_key(&mut db, b"a", person("Twin", "Paris", 5), &config, &Vec::new()).unwrap();
    set_key(&mut db, b"b", person("Twin", "Paris", 5), &config, &Vec::new()).unwrap();
    let paris = || leaf(Operator::Eq, "city", Value::text("Paris"));
    assert_eq!(run(&db, paris()).len(), 2);
    assert_eq!(run(&db, QueryNode::Or(Box::new(paris()), Box::new(paris()))).len(), 1);
    assert_eq!(run(&db, QueryNode::And(Box::new(paris()), Box::new(paris()))).len(), 1);
}

#[test]
fn geospatial_leaves_take_their_results_in_order() {
    let db = people();
    let radius = || QueryNode::GeoWithinRadius { field: b"loc".to_vec(), lat: 0, lon: 0, radius: 0 };
    let area = || QueryNode::GeoInBox { field: b"loc".to_vec(), min_lat: 0, min_lon: 0, max_lat: 0, max_lon: 0 };
    let first = vec![person("G1", "x", 1), person("G2", "x", 2)];
    let second = vec![person("G2", "x", 2), person("G3", "x", 3)];
    let geo = vec![first, second];
    let both = execute_ast_query(
        &db,
        QueryNode::And(Box::new(radius()), Box::new(area())),
        None,
        None,
        None,
        &config(),
        &geo,
    )
    .unwrap();
    assert_eq!(names(&both), vec!["G2"]);
    let missing = execute_ast_query(
        &db,
        QueryNode::Or(Box::new(radius()), Box::new(QueryNode::Not(Box::new(QueryNode::And(Box::new(area()), Box::new(area())))))),
        None,
        None,
        None,
        &config(),
        &geo,
    );
    assert!(matches!(missing, Err(DbError::AstQueryError(_))));
}

#[test]
fn a_page_begins_at_the_offset_and_holds_at_most_the_limit() {
    let docs: Vec<Value> = (0..5).map(Value::integer).collect();
    let page = |offset, limit| paginate(&docs, offset, limit);
    assert_eq!(page(None, None).len(), 5);
    assert_eq!(page(Some(1), Some(2)), vec![Value::integer(1), Value::integer(2)]);
    assert_eq!(page(Some(3), None), vec![Value::integer(3), Value::integer(4)]);
    assert_eq!(page(None, Some(2)), vec![Value::integer(0), Value::integer(1)]);
    assert_eq!(page(Some(4), Some(10)), vec![Value::integer(4)]);
    assert_eq!(page(Some(5), Some(1)), Vec::<Value>::new());
    assert_eq!(page(Some(9), None), Vec::<Value>::new());
    assert_eq!(page(Some(0), Some(0)), Vec::<Value>::new());
    assert_eq!(page(Some(2), Some(usize::MAX)).len(), 3);
}

fn doc_tags() -> Value {
    Value::Array(vec![Value::text("x"), Value::integer(2)])
}

#[test]
fn a_condition_is_evaluated_on_a_document() {
    let doc = object(vec![
        ("n", Value::integer(5)),
        ("s", Value::text("m")),
        ("tags", Value::Array(vec![Value::text("x"), Value::integer(2)])),
        (
            "items",
            Value::Array(vec![
                object(vec![("name", Value::text("pen")), ("qty", Value::integer(2))]),
                object(vec![("name", Value::text("ink")), ("qty", Value::integer(9))]),
                Value::integer(1),
            ]),
        ),
    ]);
    let holds = |path: &str, op, value: Value| evaluate_condition_on_doc(&doc, path.as_bytes(), op, &value);
    assert!(holds("n", Operator::Eq, Value::integer(5)));
    assert!(!holds("n", Operator::Eq, Value::text("5")));
    assert!(holds("n", Operator::Gt, Value::integer(4)));
    assert!(!holds("n", Operator::Gt, Value::integer(5)));
    assert!(holds("n", Operator::Gte, Value::integer(5)));
    assert!(holds("n", Operator::Lt, double(5.5)));
    assert!(holds("n", Operator::Lte, Value::integer(5)));
    assert!(holds("n", Operator::Ne, Value::integer(6)));
    assert!(holds("n", Operator::Ne, Value::text("5")));
    assert!(!holds("n", Operator::Lt, Value::text("z")));
    assert!(holds("s", Operator::Lt, Value::text("z")));
    assert!(holds("tags", Operator::Includes, Value::text("x")));
    assert!(holds("tags", Operator::Includes, Value::integer(2)));
    assert!(!holds("tags", Operator::Includes, Value::text("y")));
    assert!(holds("tags", Operator::Eq, Value::text("x")));
    assert!(holds("tags", Operator::Eq, Value::integer(2)));
    assert!(!holds("tags", Operator::Eq, Value::text("y")));
    assert!(!holds("tags", Operator::Eq, doc_tags()));
    assert!(holds("s", Operator::Includes, Value::text("m")));
    assert!(holds("items.name", Operator::Eq, Value::text("ink")));
    assert!(holds("items.qty", Operator::Gt, Value::integer(5)));
    assert!(!holds("items.qty", Operator::Gt, Value::integer(9)));
    assert!(!holds("items.price", Operator::Eq, Value::integer(1)));
    assert!(!holds("missing", Operator::Eq, Value::Null));
    assert!(!holds("missing", Operator::Ne, Value::integer(1)));
    assert!(holds("items.0.qty", Operator::Eq, Value::integer(2)));
    assert!(holds("", Operator::Eq, doc.duplicate()));
}

#[test]
fn stale_keys_are_passed_over_when_documents_are_fetched() {
    let mut db = people();
    db.put(b"__field_index__city:Paris:gone".to_vec(), Payload::Empty);
    let keys = fetch_keys_hash_index(&db, b"city", &Value::text("Paris"));
    assert_eq!(keys, vec![b"p1".to_vec(), b"p2".to_vec(), b"gone".to_vec()]);
    assert_eq!(fetch_documents(&db, &keys).len(), 2);
    assert_eq!(names(&run(&db, leaf(Operator::Eq, "city", Value::text("Paris")))), vec!["Ada", "Bob"]);
}

#[test]
fn the_first_equality_leaf_names_the_path_to_index() {
    let eq = |p: &str| leaf(Operator::Eq, p, Value::Null);
    let gt = |p: &str| leaf(Operator::Gt, p, Value::Null);
    assert_eq!(extract_eq_field(&eq("a")), Some(b"a".to_vec()));
    assert_eq!(extract_eq_field(&gt("a")), None);
    assert_eq!(
        extract_eq_field(&QueryNode::And(Box::new(gt("x")), Box::new(eq("b")))),
        Some(b"b".to_vec())
    );
    assert_eq!(
        extract_eq_field(&QueryNode::Or(Box::new(eq("a")), Box::new(eq("b")))),
        Some(b"a".to_vec())
    );
    assert_eq!(
        extract_eq_field(&QueryNode::Not(Box::new(QueryNode::Not(Box::new(eq("deep")))))),
        Some(b"deep".to_vec())
    );
    assert_eq!(
        extract_eq_field(&leaf(Operator::Includes, "tags", Value::Null)),
        None
    );
}

#[test]
fn operators_are_read_from_their_text() {
    assert_eq!(parse_operator(b"==="), Some(Operator::Eq));
    assert_eq!(parse_operator(b"includes"), Some(Operator::Includes));
    assert_eq!(parse_operator(b">"), Some(Operator::Gt));
    assert_eq!(parse_operator(b"<"), Some(Operator::Lt));
    assert_eq!(parse_operator(b">="), Some(Operator::Gte));
    assert_eq!(parse_operator(b"<="), Some(Operator::Lte));
    assert_eq!(parse_operator(b"!="), Some(Operator::Ne));
    assert_eq!(parse_operator(b"=="), None);
    assert_eq!(parse_operator(b""), None);
    assert_eq!(parse_operator(b"Includes"), None);
}

#[test]
fn a_conjunctive_query_gives_what_all_conditions_list() {
    let db = people();
    let condition = |field: &str, operator: &str, value: &str| Condition {
        field: field.as_bytes().to_vec(),
        operator: operator.as_bytes().to_vec(),
        value: value.as_bytes().to_vec(),
        double: None,
    };
    let found = query_and(&db, &vec![condition("city", "===", "Paris"), condition("age", ">", "20")]).unwrap();
    assert_eq!(names(&found), vec!["Bob"]);
    let quoted = query_and(&db, &vec![condition("city", "includes", "\"Lyon\"")]).unwrap();
    assert_eq!(names(&quoted), vec!["Cy"]);
    let not_25 = query_and(&db, &vec![condition("age", "!=", "25")]).unwrap();
    assert_eq!(names(&not_25), vec!["Ada", "Cy"]);
    assert_eq!(query_and(&db, &Vec::new()).unwrap(), Vec::<Value>::new());
    assert!(matches!(
        query_and(&db, &vec![condition("age", "~", "1")]),
        Err(DbError::MissingData(_))
    ));
    assert!(matches!(
        query_and(&db, &vec![condition("city", "===", "Paris"), condition("age", ">", "1.5")]),
        Err(DbError::InvalidComparisonValue(_))
    ));
    let mut with_double = condition("age", "<", "25.5");
    with_double.double = Some(Double::new(25.5f64.to_bits(), b"25.5".to_vec()));
    assert_eq!(query_and(&db, &vec![with_double]).unwrap(), Vec::<Value>::new());
}

#[test]
fn the_geospatial_leaves_of_a_tree_come_from_left_to_right() {
    let radius = QueryNode::GeoWithinRadius { field: b"a".to_vec(), lat: 1, lon: 2, radius: 3 };
    let area = QueryNode::GeoInBox { field: b"b".to_vec(), min_lat: 4, min_lon: 5, max_lat: 6, max_lon: 7 };
    let tree = QueryNode::Or(
        Box::new(QueryNode::Not(Box::new(area))),
        Box::new(QueryNode::And(
            Box::new(leaf(Operator::Eq, "x", Value::Null)),
            Box::new(radius),
        )),
    );
    let leaves = rust_db_logic::executor::geo_leaves(&tree);
    assert_eq!(leaves.len(), 2);
    assert_eq!(leaves[0].field, b"b".to_vec());
    assert_eq!(
        leaves[0].shape,
        rust_db_logic::executor::GeoShape::InBox { min_lat: 4, min_lon: 5, max_lat: 6, max_lon: 7 }
    );
    assert_eq!(leaves[1].field, b"a".to_vec());
    assert_eq!(
        leaves[1].shape,
        rust_db_logic::executor::GeoShape::Radius { lat: 1, lon: 2, radius: 3 }
    );
    assert!(rust_db_logic::executor::geo_leaves(&leaf(Operator::Gt, "x", Value::Null)).is_empty());
}
