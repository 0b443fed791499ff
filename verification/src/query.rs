//! Queries: the predicate tree, the index scans that answer its leaves, and
//! the checks that every hit goes through.
use crate::access::{json_member, json_read, member, read_parts};
use crate::bytes::{bytes_equal, copy_bytes, Relation};
use crate::codec::{
    compare_values, decode_sorted_value, encode_sorted_value, json_relation, sort_decoding,
    sort_encoding,
};
use crate::error::DbError;
use crate::keys::{
    equality_prefix, field_sorted_family, get_field_index_prefix, get_field_sorted_index_key,
    get_field_sorted_index_prefix, hex_text, hex_value, index_key, index_key_prefix, key_parts,
    last_fragment, path_prefix, primary_key_of, read_hex, sorted_prefix, split_key,
};
use crate::index::Payload;

use crate::store::document;
use crate::path::{path_parts, split_path};
use crate::store::{prefixed_keys, ranged_keys, stored, Bound, Edge, Store};
use crate::text::{scalar_text, value_text};
use crate::value::{byte_strings, lemma_array_view, views, Json, Value};
use vstd::prelude::*;

verus! {

/// The kind of value that a leaf of a query expects.
#[derive(Clone, Copy, Debug, PartialEq, Eq)]
pub enum DataType {
    String,
    Number,
    Bool,
}

/// The comparison of a leaf.
#[derive(Clone, Copy, Debug, PartialEq, Eq, Structural)]
pub enum Operator {
    Eq,
    Includes,
    Gt,
    Lt,
    Gte,
    Lte,
    Ne,
}

/// A query: leaves that compare what stands at a path of a document with a
/// value, leaves that ask where a point lies, and their combinations. The
/// coordinates and the radius of a geospatial leaf are the bits of doubles.
#[derive(Debug, PartialEq)]
pub enum QueryNode {
    Eq(Vec<u8>, Value, DataType),
    Includes(Vec<u8>, Value, DataType),
    Gt(Vec<u8>, Value, DataType),
    Lt(Vec<u8>, Value, DataType),
    Gte(Vec<u8>, Value, DataType),
    Lte(Vec<u8>, Value, DataType),
    Ne(Vec<u8>, Value, DataType),
    And(Box<QueryNode>, Box<QueryNode>),
    Or(Box<QueryNode>, Box<QueryNode>),
    Not(Box<QueryNode>),
    GeoWithinRadius { field: Vec<u8>, lat: u64, lon: u64, radius: u64 },
    GeoInBox { field: Vec<u8>, min_lat: u64, min_lon: u64, max_lat: u64, max_lon: u64 },
}

/// The first `n` of `s` without repetitions: of equal items the first stays.
pub open spec fn distinct_first<T>(s: Seq<T>, n: nat) -> Seq<T>
    decreases n,
{
    if n == 0 || n > s.len() {
        Seq::empty()
    } else {
        let rest = distinct_first(s, (n - 1) as nat);
        if rest.contains(s[n - 1]) {
            rest
        } else {
            rest.push(s[n - 1])
        }
    }
}

/// `s` without repetitions.
pub open spec fn distinct<T>(s: Seq<T>) -> Seq<T> {
    distinct_first(s, s.len())
}

/// Whether `key` is among `keys`.
pub fn contains_key(keys: &Vec<Vec<u8>>, key: &[u8]) -> (r: bool)
    ensures
        r == byte_strings(keys@).contains(key@),
{
    let mut i: usize = 0;
    while i < keys.len()
        invariant
            i <= keys.len(),
            forall|j: int| 0 <= j < i ==> keys@[j]@ != key@,
        decreases keys.len() - i,
    {
        if bytes_equal(keys[i].as_slice(), key) {
            proof {
                assert(byte_strings(keys@)[i as int] == key@);
            }
            return true;
        }
        i += 1;
    }
    proof {
        if byte_strings(keys@).contains(key@) {
            let j = choose|j: int|
                0 <= j < byte_strings(keys@).len() && byte_strings(keys@)[j] == key@;
            assert(keys@[j]@ == key@);
        }
    }
    false
}

/// The primary keys of the first `n` of `keys`, each what stands behind the
/// last colon of its key, without repetitions.
pub open spec fn primaries_first(keys: Seq<Seq<u8>>, n: nat) -> Seq<Seq<u8>>
    decreases n,
{
    if n == 0 || n > keys.len() {
        Seq::empty()
    } else {
        let rest = primaries_first(keys, (n - 1) as nat);
        if rest.contains(last_fragment(keys[n - 1])) {
            rest
        } else {
            rest.push(last_fragment(keys[n - 1]))
        }
    }
}

/// The primary keys that the equality index holds for the scalar `value` at
/// `path`.
pub open spec fn equality_hits(entries: Seq<(Seq<u8>, Option<Json>)>, path: Seq<u8>, value: Json) -> Seq<
    Seq<u8>,
> {
    let keys = prefixed_keys(entries, index_key_prefix(equality_prefix(), path, value_text(value)));
    primaries_first(keys, keys.len())
}

/// The primary keys of the documents that the equality index lists for
/// `value` at `field_path`, each once.
pub fn fetch_keys_hash_index(db: &Store, field_path: &[u8], value: &Value) -> (r: Vec<Vec<u8>>)
    ensures
        byte_strings(r@) == equality_hits(db@, field_path@, value@),
{
    let text = scalar_text(value);
    let prefix = get_field_index_prefix(field_path, text.as_slice());
    let found = db.keys_with_prefix(prefix.as_slice());
    let ghost keys = byte_strings(found@);
    let mut out: Vec<Vec<u8>> = Vec::new();
    proof {
        assert(byte_strings(out@) =~= Seq::<Seq<u8>>::empty());
    }
    let mut i: usize = 0;
    while i < found.len()
        invariant
            i <= found.len(),
            keys == byte_strings(found@),
            byte_strings(out@) == primaries_first(keys, i as nat),
        decreases found.len() - i,
    {
        let primary = primary_key_of(found[i].as_slice());
        if !contains_key(&out, primary.as_slice()) {
            proof {
                crate::index::lemma_byte_strings_push(out@, primary);
            }
            out.push(primary);
        }
        i += 1;
    }
    out
}

/// Whether a comparison holds of how the stored value stands to the value of
/// the query. Values that do not compare are unequal, and neither above nor
/// below.
pub open spec fn operator_holds(op: Operator, relation: Option<Relation>) -> bool {
    match op {
        Operator::Gt => relation == Some(Relation::Greater),
        Operator::Lt => relation == Some(Relation::Less),
        Operator::Gte => relation == Some(Relation::Greater) || relation == Some(Relation::Equal),
        Operator::Lte => relation == Some(Relation::Less) || relation == Some(Relation::Equal),
        Operator::Ne => relation != Some(Relation::Equal),
        _ => false,
    }
}

/// Whether a comparison holds.
pub fn holds(op: Operator, relation: Option<Relation>) -> (r: bool)
    ensures
        r == operator_holds(op, relation),
{
    match op {
        Operator::Gt => match relation {
            Some(Relation::Greater) => true,
            _ => false,
        },
        Operator::Lt => match relation {
            Some(Relation::Less) => true,
            _ => false,
        },
        Operator::Gte => match relation {
            Some(Relation::Greater) => true,
            Some(Relation::Equal) => true,
            _ => false,
        },
        Operator::Lte => match relation {
            Some(Relation::Less) => true,
            Some(Relation::Equal) => true,
            _ => false,
        },
        Operator::Ne => match relation {
            Some(Relation::Equal) => false,
            _ => true,
        },
        _ => false,
    }
}

/// Whether the sorted index answers a comparison.
pub open spec fn is_ordered(op: Operator) -> bool {
    op != Operator::Eq && op != Operator::Includes
}

/// The bytes of U+FFFF in UTF-8: a primary key that comes behind the primary
/// keys of ordinary text.
pub open spec fn high_sentinel() -> Seq<u8> {
    seq![0xefu8, 0xbf, 0xbf]
}

/// The range of keys that is scanned for a comparison with the scalar encoded
/// as `encoded` at `path`: above the key of that scalar for "greater"; from
/// it on for "greater or equal"; from the beginning of the keys of the path
/// up to it for "less"; up to the key of that scalar with the high sentinel as
/// primary key for "less or equal".
pub open spec fn sorted_range(path: Seq<u8>, op: Operator, encoded: Seq<u8>) -> (Edge, Edge) {
    let at = index_key(sorted_prefix(), path, hex_text(encoded), Seq::empty());
    let from = path_prefix(sorted_prefix(), path);
    match op {
        Operator::Gt => (Edge::Excluded(at), Edge::Unbounded),
        Operator::Gte => (Edge::Included(at), Edge::Unbounded),
        Operator::Lt => (Edge::Included(from), Edge::Excluded(at)),
        Operator::Lte => (
            Edge::Included(from),
            Edge::Included(index_key(sorted_prefix(), path, hex_text(encoded), high_sentinel())),
        ),
        _ => (Edge::Unbounded, Edge::Unbounded),
    }
}

/// The keys that are scanned for a comparison: those in the range of the
/// comparison, and for "not equal" all keys of the sorted index for the path.
pub open spec fn sorted_scan(
    entries: Seq<(Seq<u8>, Option<Json>)>,
    path: Seq<u8>,
    op: Operator,
    encoded: Seq<u8>,
) -> Seq<Seq<u8>> {
    if op == Operator::Ne {
        prefixed_keys(entries, path_prefix(sorted_prefix(), path))
    } else {
        ranged_keys(entries, sorted_range(path, op, encoded).0, sorted_range(path, op, encoded).1)
    }
}

/// The primary key of a scanned key that is a hit: the key is one of the
/// sorted index for `path`, its middle part is hexadecimal, what it writes
/// has the tag of the query's value and decodes to a scalar, and the
/// comparison holds between that scalar and the query's value.
pub open spec fn sorted_hit(key: Seq<u8>, path: Seq<u8>, op: Operator, value: Json) -> Option<
    Seq<u8>,
> {
    match key_parts(sorted_prefix(), key) {
        None => None,
        Some((stored_path, hex, primary)) => if stored_path != path {
            None
        } else {
            match hex_value(hex) {
                None => None,
                Some(encoded) => if encoded.len() == 0 || sort_encoding(value) is None
                    || encoded[0] != sort_encoding(value)->0[0] {
                    None
                } else {
                    match sort_decoding(encoded) {
                        None => None,
                        Some(stored) => if operator_holds(op, json_relation(stored, value)) {
                            Some(primary)
                        } else {
                            None
                        },
                    }
                },
            }
        },
    }
}

/// The primary keys of the hits among the first `n` of `keys`, without
/// repetitions.
pub open spec fn sorted_hits_first(
    keys: Seq<Seq<u8>>,
    n: nat,
    path: Seq<u8>,
    op: Operator,
    value: Json,
) -> Seq<Seq<u8>>
    decreases n,
{
    if n == 0 || n > keys.len() {
        Seq::empty()
    } else {
        let rest = sorted_hits_first(keys, (n - 1) as nat, path, op, value);
        match sorted_hit(keys[n - 1], path, op, value) {
            Some(primary) => if rest.contains(primary) {
                rest
            } else {
                rest.push(primary)
            },
            None => rest,
        }
    }
}

/// The primary keys that the sorted index gives for a comparison with the
/// scalar `value` at `path`.
pub open spec fn sorted_hits(
    entries: Seq<(Seq<u8>, Option<Json>)>,
    path: Seq<u8>,
    op: Operator,
    value: Json,
) -> Seq<Seq<u8>> {
    let keys = sorted_scan(entries, path, op, sort_encoding(value)->0);
    sorted_hits_first(keys, keys.len(), path, op, value)
}

/// The primary key of a scanned key, if the key is a hit.
fn check_sorted_key(key: &[u8], field_path: &[u8], op: Operator, value: &Value, tag: u8) -> (r:
    Option<Vec<u8>>)
    requires
        sort_encoding(value@) is Some,
        tag == sort_encoding(value@)->0[0],
    ensures
        match r {
            Some(primary) => sorted_hit(key@, field_path@, op, value@) == Some(primary@),
            None => sorted_hit(key@, field_path@, op, value@) is None,
        },
{
    let family = field_sorted_family();
    match split_key(family.as_slice(), key) {
        None => None,
        Some(parts) => {
            if !bytes_equal(parts.path.as_slice(), field_path) {
                return None;
            }
            match read_hex(parts.middle.as_slice()) {
                None => None,
                Some(encoded) => {
                    if encoded.len() == 0 || encoded[0] != tag {
                        return None;
                    }
                    match decode_sorted_value(encoded.as_slice()) {
                        Err(_) => None,
                        Ok(stored) => {
                            if holds(op, compare_values(&stored, value)) {
                                Some(parts.primary)
                            } else {
                                None
                            }
                        },
                    }
                },
            }
        },
    }
}

/// The primary keys of the documents that the sorted index lists for a
/// comparison with `value` at `field_path`, each once. A value that is no
/// scalar is refused with `Serde`, a comparison that the sorted index does
/// not answer with `AstQueryError`.
pub fn fetch_keys_sorted_index(
    db: &Store,
    field_path: &[u8],
    operator: Operator,
    value: &Value,
    _expected_type: &DataType,
) -> (r: Result<Vec<Vec<u8>>, DbError>)
    ensures
        match r {
            Ok(keys) => sort_encoding(value@) is Some && is_ordered(operator) && byte_strings(
                keys@,
            ) == sorted_hits(db@, field_path@, operator, value@),
            Err(e) => if sort_encoding(value@) is None {
                e is Serde
            } else {
                !is_ordered(operator) && e is AstQueryError
            },
        },
{
    let encoded = match encode_sorted_value(value) {
        Ok(bytes) => bytes,
        Err(e) => {
            return Err(e);
        },
    };
    let tag = encoded[0];
    let empty: Vec<u8> = Vec::new();
    let sentinel: Vec<u8> = vec![0xefu8, 0xbf, 0xbf];
    proof {
        assert(sentinel@ =~= high_sentinel());
        assert(empty@ =~= Seq::<u8>::empty());
    }
    let found = match operator {
        Operator::Gt => {
            let at = get_field_sorted_index_key(field_path, encoded.as_slice(), empty.as_slice());
            db.keys_in_range(&Bound::Excluded(at), &Bound::Unbounded)
        },
        Operator::Gte => {
            let at = get_field_sorted_index_key(field_path, encoded.as_slice(), empty.as_slice());
            db.keys_in_range(&Bound::Included(at), &Bound::Unbounded)
        },
        Operator::Lt => {
            let at = get_field_sorted_index_key(field_path, encoded.as_slice(), empty.as_slice());
            let from = get_field_sorted_index_prefix(field_path);
            db.keys_in_range(&Bound::Included(from), &Bound::Excluded(at))
        },
        Operator::Lte => {
            let at = get_field_sorted_index_key(
                field_path,
                encoded.as_slice(),
                sentinel.as_slice(),
            );
            let from = get_field_sorted_index_prefix(field_path);
            db.keys_in_range(&Bound::Included(from), &Bound::Included(at))
        },
        Operator::Ne => {
            let from = get_field_sorted_index_prefix(field_path);
            db.keys_with_prefix(from.as_slice())
        },
        _ => {
            return Err(
                DbError::AstQueryError("Unsupported operator for sorted index".to_owned()),
            );
        },
    };
    let ghost keys = byte_strings(found@);
    proof {
        assert(keys == sorted_scan(db@, field_path@, operator, encoded@));
    }
    let mut out: Vec<Vec<u8>> = Vec::new();
    proof {
        assert(byte_strings(out@) =~= Seq::<Seq<u8>>::empty());
    }
    let mut i: usize = 0;
    while i < found.len()
        invariant
            i <= found.len(),
            keys == byte_strings(found@),
            sort_encoding(value@) is Some,
            tag == sort_encoding(value@)->0[0],
            byte_strings(out@) == sorted_hits_first(
                keys,
                i as nat,
                field_path@,
                operator,
                value@,
            ),
        decreases found.len() - i,
    {
        match check_sorted_key(found[i].as_slice(), field_path, operator, value, tag) {
            Some(primary) => {
                if !contains_key(&out, primary.as_slice()) {
                    proof {
                        crate::index::lemma_byte_strings_push(out@, primary);
                    }
                    out.push(primary);
                }
            },
            None => {},
        }
        i += 1;
    }
    Ok(out)
}

/// The documents stored under the first `n` of `keys`, in their order. A key
/// under which no document is stored gives none.
pub open spec fn hydrated_first(
    entries: Seq<(Seq<u8>, Option<Json>)>,
    keys: Seq<Seq<u8>>,
    n: nat,
) -> Seq<Json>
    decreases n,
{
    if n == 0 || n > keys.len() {
        Seq::empty()
    } else {
        let rest = hydrated_first(entries, keys, (n - 1) as nat);
        match document(entries, keys[n - 1]) {
            Some(j) => rest.push(j),
            None => rest,
        }
    }
}

/// The documents stored under `keys`, in their order.
pub open spec fn hydrated(entries: Seq<(Seq<u8>, Option<Json>)>, keys: Seq<Seq<u8>>) -> Seq<Json> {
    hydrated_first(entries, keys, keys.len())
}

/// Pushing a value pushes its view.
pub proof fn lemma_views_push(values: Seq<Value>, v: Value)
    ensures
        views(values.push(v)) == views(values).push(v@),
{
    assert(views(values.push(v)) =~= views(values).push(v@));
}

/// The documents stored under `keys`, in their order. A key under which no
/// document is stored is passed over: one stale entry of an index does not
/// break a query.
pub fn fetch_documents(db: &Store, keys: &Vec<Vec<u8>>) -> (r: Vec<Value>)
    ensures
        views(r@) == hydrated(db@, byte_strings(keys@)),
{
    let mut out: Vec<Value> = Vec::new();
    let ghost all = byte_strings(keys@);
    proof {
        assert(views(out@) =~= Seq::<Json>::empty());
    }
    let mut i: usize = 0;
    while i < keys.len()
        invariant
            i <= keys.len(),
            all == byte_strings(keys@),
            views(out@) == hydrated_first(db@, all, i as nat),
        decreases keys.len() - i,
    {
        match db.get(keys[i].as_slice()) {
            Some(Payload::Document(v)) => {
                let copy = v.duplicate();
                proof {
                    lemma_views_push(out@, copy);
                }
                out.push(copy);
            },
            _ => {},
        }
        i += 1;
    }
    out
}

/// Whether what stands in a document is the value of a query, or is an array
/// that holds it: equality on a scalar, membership where an array stands.
pub open spec fn holds_value(found: Json, query: Json) -> bool {
    match found {
        Json::Array(items) => items.contains(query),
        _ => found == query,
    }
}

/// Whether what stands in a document satisfies a comparison with the value of
/// a query: for `Eq` and for `Includes` it is that value, or an array that
/// holds that value; for the others the comparison holds between the two.
pub open spec fn value_matches(found: Json, op: Operator, query: Json) -> bool {
    match op {
        Operator::Eq => holds_value(found, query),
        Operator::Includes => holds_value(found, query),
        _ => operator_holds(op, json_relation(found, query)),
    }
}

/// Whether an item of an array is an object whose field `name` satisfies the
/// comparison.
pub open spec fn nested_matches(item: Json, name: Seq<u8>, op: Operator, query: Json) -> bool {
    match item {
        Json::Object(_) => match json_member(item, name) {
            Some(found) => value_matches(found, op, query),
            None => false,
        },
        _ => false,
    }
}

/// Whether an item of `items` is an object whose field `name` satisfies the
/// comparison.
pub open spec fn any_nested_matches(items: Seq<Json>, name: Seq<u8>, op: Operator, query: Json) -> bool {
    exists|i: int| 0 <= i < items.len() && #[trigger] nested_matches(items[i], name, op, query)
}

/// Whether a document satisfies a comparison at `path`: what stands at `path`
/// satisfies it; or nothing stands there, the path has more than one segment,
/// an array stands at the path without its last segment, and an item of the
/// array is an object whose field of the last segment's name satisfies it.
pub open spec fn condition_holds(doc: Json, path: Seq<u8>, op: Operator, query: Json) -> bool {
    let parts = path_parts(path);
    match json_read(doc, parts) {
        Some(found) => value_matches(found, op, query),
        None => parts.len() > 1 && match json_read(doc, parts.drop_last()) {
            Some(Json::Array(items)) => any_nested_matches(items, parts.last(), op, query),
            _ => false,
        },
    }
}

/// Whether `v` is among `values`.
pub fn contains_value(values: &Vec<Value>, v: &Value) -> (r: bool)
    ensures
        r == views(values@).contains(v@),
{
    let mut i: usize = 0;
    while i < values.len()
        invariant
            i <= values.len(),
            forall|j: int| 0 <= j < i ==> values@[j]@ != v@,
        decreases values.len() - i,
    {
        if values[i].same(v) {
            proof {
                assert(views(values@)[i as int] == v@);
            }
            return true;
        }
        i += 1;
    }
    proof {
        if views(values@).contains(v@) {
            let j = choose|j: int| 0 <= j < views(values@).len() && views(values@)[j] == v@;
            assert(values@[j]@ == v@);
        }
    }
    false
}

/// Whether what stands in a document satisfies a comparison.
pub fn matches_value(found: &Value, op: Operator, query: &Value) -> (r: bool)
    ensures
        r == value_matches(found@, op, query@),
{
    match op {
        Operator::Eq => has_value(found, query),
        Operator::Includes => has_value(found, query),
        _ => holds(op, compare_values(found, query)),
    }
}

/// Whether what stands in a document is the value of a query, or is an array
/// that holds it.
pub fn has_value(found: &Value, query: &Value) -> (r: bool)
    ensures
        r == holds_value(found@, query@),
{
    match found {
        Value::Array(items) => {
            proof {
                lemma_array_view(*found);
            }
            contains_value(items, query)
        },
        _ => found.same(query),
    }
}

/// The first `n` of `parts`.
fn leading_parts(parts: &Vec<Vec<u8>>, n: usize) -> (r: Vec<Vec<u8>>)
    requires
        n <= parts@.len(),
    ensures
        byte_strings(r@) == byte_strings(parts@).take(n as int),
{
    let mut out: Vec<Vec<u8>> = Vec::new();
    let mut i: usize = 0;
    while i < n
        invariant
            i <= n <= parts@.len(),
            out@.len() == i,
            forall|j: int| 0 <= j < i ==> out@[j]@ == parts@[j]@,
        decreases n - i,
    {
        out.push(copy_bytes(parts[i].as_slice()));
        i += 1;
    }
    proof {
        assert(byte_strings(out@) =~= byte_strings(parts@).take(n as int));
    }
    out
}

/// Whether an item of `items` is an object whose field `name` satisfies the
/// comparison.
fn any_nested(items: &Vec<Value>, name: &[u8], op: Operator, query: &Value) -> (r: bool)
    ensures
        r == any_nested_matches(views(items@), name@, op, query@),
{
    let mut i: usize = 0;
    while i < items.len()
        invariant
            i <= items.len(),
            forall|j: int|
                0 <= j < i ==> !#[trigger] nested_matches(views(items@)[j], name@, op, query@),
        decreases items.len() - i,
    {
        let hit = match &items[i] {
            Value::Object(_) => match member(&items[i], name) {
                Some(found) => matches_value(found, op, query),
                None => false,
            },
            _ => false,
        };
        proof {
            assert(views(items@)[i as int] == items@[i as int]@);
            assert(items@[i as int]@ is Object <==> items@[i as int] is Object);
            assert(hit == nested_matches(views(items@)[i as int], name@, op, query@));
        }
        if hit {
            return true;
        }
        i += 1;
    }
    false
}

/// Whether a document satisfies a comparison at `field_path`.
pub fn evaluate_condition_on_doc(
    doc: &Value,
    field_path: &[u8],
    operator: Operator,
    query_value: &Value,
) -> (r: bool)
    ensures
        r == condition_holds(doc@, field_path@, operator, query_value@),
{
    let parts = split_path(field_path);
    let ghost all = byte_strings(parts@);
    proof {
        assert(all.skip(0) =~= all);
        assert(all == path_parts(field_path@));
    }
    let direct = read_parts(doc, &parts, 0);
    if let Some(found) = direct {
        return matches_value(found, operator, query_value);
    }
    assert(json_read(doc@, all) is None);
    if parts.len() <= 1 {
        return false;
    }
    let parent = leading_parts(&parts, parts.len() - 1);
    proof {
        assert(byte_strings(parent@).skip(0) =~= byte_strings(parent@));
        assert(all.take(all.len() - 1) =~= all.drop_last());
        assert(all.last() == parts@[parts@.len() - 1]@);
    }
    let last = &parts[parts.len() - 1];
    let above = read_parts(doc, &parent, 0);
    match above {
        Some(array) => {
            assert(json_read(doc@, all.drop_last()) == Some(array@));
            match array {
                Value::Array(items) => {
                    proof {
                        lemma_array_view(*array);
                    }
                    let r = any_nested(items, last.as_slice(), operator, query_value);
                    proof {
                        assert(array@ == Json::Array(views(items@)));
                    }
                    r
                },
                _ => {
                    assert(!(array@ is Array));
                    assert(!condition_holds(doc@, field_path@, operator, query_value@));
                    false
                },
            }
        },
        None => {
            assert(json_read(doc@, all.drop_last()) is None);
            assert(!condition_holds(doc@, field_path@, operator, query_value@));
            false
        },
    }
}

} // verus!
