//! The index maintainer: from a document and the configuration to the keys of
//! its index entries, and from there to the mutations of a write.
use crate::bytes::{append_bytes, bytes_equal, copy_bytes};
use crate::codec::{encode_sorted_value, sort_encoding};
use crate::config::{ConfigView, DbConfig};
use crate::error::DbError;
use crate::keys::{
    equality_prefix, geo_prefix, get_field_index_key, get_field_sorted_index_key,
    get_geo_sorted_index_key, hex_text, index_key, is_reserved, key_is_reserved, sorted_prefix,
};
use crate::number::{double_is_finite, number_bits, number_to_bits, Number, NumberView};
use crate::text::{decimal_text, is_scalar, scalar_text, value_text, write_decimal};
use crate::value::{byte_strings, field_views, lemma_array_view, lemma_object_view, views, Json, Value};
use vstd::prelude::*;

verus! {

/// A point on the globe: latitude and longitude in degrees, each as the bits
/// of a double.
#[derive(Clone, Copy, Debug, PartialEq, Eq)]
pub struct GeoPoint {
    pub lat: u64,
    pub lon: u64,
}

/// The cell of a point: the geohash that the point falls into at the precision
/// of the index. The cells of the points that a write touches come with the
/// write.
#[derive(Clone, Debug, PartialEq, Eq)]
pub struct GeoCell {
    pub lat: u64,
    pub lon: u64,
    pub hash: Vec<u8>,
}

/// What a payload of the store is: a document, or nothing, as under the key
/// of an index entry.
#[derive(Debug, PartialEq)]
pub enum Payload {
    Document(Value),
    Empty,
}

impl View for Payload {
    type V = Option<Json>;

    open spec fn view(&self) -> Option<Json> {
        match self {
            Payload::Document(v) => Some(v@),
            Payload::Empty => None,
        }
    }
}

/// One change to the store.
#[derive(Debug, PartialEq)]
pub enum Mutation {
    Put { key: Vec<u8>, payload: Payload },
    Remove { key: Vec<u8> },
}

/// What a `Mutation` stands for.
pub enum Change {
    Put { key: Seq<u8>, payload: Option<Json> },
    Remove { key: Seq<u8> },
}

impl View for Mutation {
    type V = Change;

    open spec fn view(&self) -> Change {
        match self {
            Mutation::Put { key, payload } => Change::Put { key: key@, payload: payload@ },
            Mutation::Remove { key } => Change::Remove { key: key@ },
        }
    }
}

/// The views of a sequence of mutations, one for one.
pub open spec fn changes(mutations: Seq<Mutation>) -> Seq<Change> {
    Seq::new(mutations.len(), |i: int| mutations[i]@)
}

/// The bytes of `lat`.
pub open spec fn lat_name() -> Seq<u8> {
    seq![108u8, 97, 116]
}

/// The bytes of `lon`.
pub open spec fn lon_name() -> Seq<u8> {
    seq![108u8, 111, 110]
}

/// The bits of the double that a coordinate is: a number, finite where it is
/// a double.
pub open spec fn coordinate(j: Json) -> Option<u64> {
    match j {
        Json::Number(NumberView::Int(v)) => Some(number_bits(NumberView::Int(v)) as u64),
        Json::Number(NumberView::Float { bits, text }) => if double_is_finite(bits) {
            Some(bits)
        } else {
            None
        },
        _ => None,
    }
}

/// The point that a value is: an object of exactly the two fields `lat` and
/// `lon`, both coordinates.
pub open spec fn geo_point_of(j: Json) -> Option<GeoPoint> {
    match j {
        Json::Object(fields) => if fields.len() == 2 && fields[0].0 == lat_name() && fields[1].0
            == lon_name() && coordinate(fields[0].1) is Some && coordinate(fields[1].1) is Some {
            Some(GeoPoint { lat: coordinate(fields[0].1)->0, lon: coordinate(fields[1].1)->0 })
        } else {
            None
        },
        _ => None,
    }
}

/// The position of the first cell for `point` at or after `from`, or the
/// number of cells where none is.
pub open spec fn cell_index(cells: Seq<GeoCell>, point: GeoPoint, from: int) -> int
    decreases cells.len() - from,
{
    if from >= cells.len() {
        cells.len() as int
    } else if cells[from].lat == point.lat && cells[from].lon == point.lon {
        from
    } else {
        cell_index(cells, point, from + 1)
    }
}

/// The geohash of `point` among `cells`, if one is there.
pub open spec fn cell_of(cells: Seq<GeoCell>, point: GeoPoint) -> Option<Seq<u8>> {
    let at = cell_index(cells, point, 0);
    if 0 <= at < cells.len() {
        Some(cells[at].hash@)
    } else {
        None
    }
}

/// The path of the field `name` of what stands at `path`.
pub open spec fn child_path(path: Seq<u8>, name: Seq<u8>) -> Seq<u8> {
    if path.len() == 0 {
        name
    } else {
        path + seq![46u8] + name
    }
}

/// The path of the item `i` of the array at `path`.
pub open spec fn item_path(path: Seq<u8>, i: nat) -> Seq<u8> {
    path + seq![46u8] + decimal_text(i)
}

/// The keys for the scalar `j` under `path`: one of the equality index where
/// `path` is hash-indexed and `j` is a scalar, then one of the sorted index
/// where `path` is sorted-indexed and `j` has a sort encoding.
pub open spec fn scalar_keys(primary: Seq<u8>, path: Seq<u8>, j: Json, config: ConfigView) -> Seq<
    Seq<u8>,
> {
    let equality = if config.hash.contains(path) && is_scalar(j) {
        seq![index_key(equality_prefix(), path, value_text(j), primary)]
    } else {
        Seq::empty()
    };
    let sorted = if config.sorted.contains(path) && sort_encoding(j) is Some {
        seq![index_key(sorted_prefix(), path, hex_text(sort_encoding(j)->0), primary)]
    } else {
        Seq::empty()
    };
    equality + sorted
}

/// The key for the object `j` at `path` as a point: one of the geospatial
/// index where `path` is geo-indexed and `j` is a point, and `None` where the
/// point has no cell among `cells`.
pub open spec fn point_keys(
    primary: Seq<u8>,
    path: Seq<u8>,
    j: Json,
    config: ConfigView,
    cells: Seq<GeoCell>,
) -> Option<Seq<Seq<u8>>> {
    if config.geo.contains(path) && geo_point_of(j) is Some {
        match cell_of(cells, geo_point_of(j)->0) {
            Some(hash) => Some(seq![index_key(geo_prefix(), path, hash, primary)]),
            None => None,
        }
    } else {
        Some(Seq::empty())
    }
}

/// `a` and then `b`, where both are there.
pub open spec fn both(a: Option<Seq<Seq<u8>>>, b: Option<Seq<Seq<u8>>>) -> Option<Seq<Seq<u8>>> {
    match (a, b) {
        (Some(x), Some(y)) => Some(x + y),
        _ => None,
    }
}

/// The keys of the index entries of the document of `primary`, for the part
/// `j` of it at `path`, in the order of a walk through `j`: an object gives
/// its key as a point and then the keys of its fields; an array gives, for
/// each item, the keys of the item at its own path and then the keys of the
/// item as a scalar under the path of the array; a scalar gives its keys under
/// `path`. `None` where a point has no cell among `cells`.
pub open spec fn derived_keys(
    primary: Seq<u8>,
    path: Seq<u8>,
    j: Json,
    config: ConfigView,
    cells: Seq<GeoCell>,
) -> Option<Seq<Seq<u8>>>
    decreases j, 0nat,
{
    match j {
        Json::Object(fields) => both(
            point_keys(primary, path, j, config, cells),
            field_keys(primary, path, fields, fields.len(), config, cells),
        ),
        Json::Array(items) => item_keys(primary, path, items, items.len(), config, cells),
        _ => Some(scalar_keys(primary, path, j, config)),
    }
}

/// The keys of the first `n` fields of an object at `path`.
pub open spec fn field_keys(
    primary: Seq<u8>,
    path: Seq<u8>,
    fields: Seq<(Seq<u8>, Json)>,
    n: nat,
    config: ConfigView,
    cells: Seq<GeoCell>,
) -> Option<Seq<Seq<u8>>>
    decreases fields, n,
{
    if n == 0 || n > fields.len() {
        Some(Seq::empty())
    } else {
        both(
            field_keys(primary, path, fields, (n - 1) as nat, config, cells),
            derived_keys(
                primary,
                child_path(path, fields[n - 1].0),
                fields[n - 1].1,
                config,
                cells,
            ),
        )
    }
}

/// The keys of the first `n` items of an array at `path`.
pub open spec fn item_keys(
    primary: Seq<u8>,
    path: Seq<u8>,
    items: Seq<Json>,
    n: nat,
    config: ConfigView,
    cells: Seq<GeoCell>,
) -> Option<Seq<Seq<u8>>>
    decreases items, n,
{
    if n == 0 || n > items.len() {
        Some(Seq::empty())
    } else {
        both(
            both(
                item_keys(primary, path, items, (n - 1) as nat, config, cells),
                derived_keys(primary, item_path(path, (n - 1) as nat), items[n - 1], config, cells),
            ),
            Some(scalar_keys(primary, path, items[n - 1], config)),
        )
    }
}

/// The keys of all index entries of the document `j` of `primary`.
pub open spec fn index_keys(
    primary: Seq<u8>,
    j: Json,
    config: ConfigView,
    cells: Seq<GeoCell>,
) -> Option<Seq<Seq<u8>>> {
    derived_keys(primary, Seq::empty(), j, config, cells)
}

/// Once a point among the first fields has no cell, none of the longer
/// beginnings has keys.
pub proof fn lemma_field_keys_none(
    primary: Seq<u8>,
    path: Seq<u8>,
    fields: Seq<(Seq<u8>, Json)>,
    m: nat,
    n: nat,
    config: ConfigView,
    cells: Seq<GeoCell>,
)
    requires
        m <= n <= fields.len(),
        field_keys(primary, path, fields, m, config, cells) is None,
    ensures
        field_keys(primary, path, fields, n, config, cells) is None,
    decreases n,
{
    if m < n {
        lemma_field_keys_none(primary, path, fields, m, (n - 1) as nat, config, cells);
    }
}

/// Once a point among the first items has no cell, none of the longer
/// beginnings has keys.
pub proof fn lemma_item_keys_none(
    primary: Seq<u8>,
    path: Seq<u8>,
    items: Seq<Json>,
    m: nat,
    n: nat,
    config: ConfigView,
    cells: Seq<GeoCell>,
)
    requires
        m <= n <= items.len(),
        item_keys(primary, path, items, m, config, cells) is None,
    ensures
        item_keys(primary, path, items, n, config, cells) is None,
    decreases n,
{
    if m < n {
        lemma_item_keys_none(primary, path, items, m, (n - 1) as nat, config, cells);
    }
}

/// Pushing a byte string pushes its contents.
pub proof fn lemma_byte_strings_push(strings: Seq<Vec<u8>>, s: Vec<u8>)
    ensures
        byte_strings(strings.push(s)) == byte_strings(strings).push(s@),
{
    assert(byte_strings(strings.push(s)) =~= byte_strings(strings).push(s@));
}

/// The bits of the double that a coordinate is.
fn coordinate_bits(v: &Value) -> (r: Option<u64>)
    ensures
        r == coordinate(v@),
{
    match v {
        Value::Number(n) => match n {
            Number::Float(d) => {
                if d.is_finite() {
                    Some(d.bits)
                } else {
                    None
                }
            },
            _ => Some(number_to_bits(n)),
        },
        _ => None,
    }
}

/// The point that a value is, if it is one.
pub fn geo_point(v: &Value) -> (r: Option<GeoPoint>)
    ensures
        r == geo_point_of(v@),
{
    match v {
        Value::Object(fields) => {
            proof {
                lemma_object_view(*v);
            }
            if fields.len() != 2 {
                return None;
            }
            let lat: Vec<u8> = vec![108u8, 97, 116];
            let lon: Vec<u8> = vec![108u8, 111, 110];
            proof {
                assert(lat@ =~= lat_name());
                assert(lon@ =~= lon_name());
            }
            if !bytes_equal(fields[0].name.as_slice(), lat.as_slice()) || !bytes_equal(
                fields[1].name.as_slice(),
                lon.as_slice(),
            ) {
                return None;
            }
            match (coordinate_bits(&fields[0].value), coordinate_bits(&fields[1].value)) {
                (Some(a), Some(b)) => Some(GeoPoint { lat: a, lon: b }),
                _ => None,
            }
        },
        _ => None,
    }
}

/// The geohash of `point` among `cells`, if one is there.
pub fn find_cell<'a>(cells: &'a Vec<GeoCell>, point: &GeoPoint) -> (r: Option<&'a Vec<u8>>)
    ensures
        match r {
            Some(hash) => cell_of(cells@, *point) == Some(hash@),
            None => cell_of(cells@, *point) is None,
        },
{
    let mut i: usize = 0;
    while i < cells.len()
        invariant
            i <= cells.len(),
            cell_index(cells@, *point, 0) == cell_index(cells@, *point, i as int),
        decreases cells.len() - i,
    {
        if cells[i].lat == point.lat && cells[i].lon == point.lon {
            return Some(&cells[i].hash);
        }
        i += 1;
    }
    None
}

/// The path of the field `name` of what stands at `path`.
fn make_child_path(path: &[u8], name: &[u8]) -> (r: Vec<u8>)
    ensures
        r@ == child_path(path@, name@),
{
    if path.len() == 0 {
        copy_bytes(name)
    } else {
        let mut out = copy_bytes(path);
        out.push(46);
        append_bytes(&mut out, name);
        out
    }
}

/// The path of the item `i` of the array at `path`.
fn make_item_path(path: &[u8], i: usize) -> (r: Vec<u8>)
    ensures
        r@ == item_path(path@, i as nat),
{
    let mut out = copy_bytes(path);
    out.push(46);
    let digits = write_decimal(i as u64);
    append_bytes(&mut out, digits.as_slice());
    out
}

/// Appends the keys for the scalar `value` under `path`.
fn push_scalar_keys(
    key: &[u8],
    path: &[u8],
    value: &Value,
    config: &DbConfig,
    out: &mut Vec<Vec<u8>>,
)
    ensures
        byte_strings(final(out)@) == byte_strings(old(out)@) + scalar_keys(
            key@,
            path@,
            value@,
            config@,
        ),
{
    let ghost before = byte_strings(out@);
    let scalar = match value {
        Value::Array(_) => false,
        Value::Object(_) => false,
        _ => true,
    };
    if scalar && config.is_hash_indexed(path) {
        let text = scalar_text(value);
        let index_key = get_field_index_key(path, text.as_slice(), key);
        proof {
            lemma_byte_strings_push(out@, index_key);
        }
        out.push(index_key);
    }
    let ghost middle = byte_strings(out@);
    if config.is_sorted_indexed(path) {
        match encode_sorted_value(value) {
            Ok(encoded) => {
                let sorted_key = get_field_sorted_index_key(path, encoded.as_slice(), key);
                proof {
                    lemma_byte_strings_push(out@, sorted_key);
                }
                out.push(sorted_key);
            },
            Err(_) => {},
        }
    }
    proof {
        assert(byte_strings(out@) =~= before + scalar_keys(key@, path@, value@, config@));
    }
}

/// Appends to `out` the keys of the index entries of the document of `key`,
/// for the part `value` of it at `current_path`. A point without a cell among
/// `cells` is refused with `Geohash`.
fn collect_index_keys(
    key: &[u8],
    current_path: &[u8],
    value: &Value,
    config: &DbConfig,
    cells: &Vec<GeoCell>,
    out: &mut Vec<Vec<u8>>,
) -> (r: Result<(), DbError>)
    ensures
        match derived_keys(key@, current_path@, value@, config@, cells@) {
            Some(keys) => r is Ok && byte_strings(final(out)@) == byte_strings(old(out)@) + keys,
            None => r matches Err(DbError::Geohash(_)),
        },
    decreases value,
{
    let ghost before = byte_strings(out@);
    match value {
        Value::Object(fields) => {
            proof {
                lemma_object_view(*value);
            }
            if config.is_geo_indexed(current_path) {
                match geo_point(value) {
                    Some(point) => match find_cell(cells, &point) {
                        Some(hash) => {
                            let geo_key = get_geo_sorted_index_key(
                                current_path,
                                hash.as_slice(),
                                key,
                            );
                            proof {
                                lemma_byte_strings_push(out@, geo_key);
                            }
                            out.push(geo_key);
                        },
                        None => {
                            return Err(DbError::Geohash("the point has no cell".to_owned()));
                        },
                    },
                    None => {},
                }
            }
            let ghost own = point_keys(key@, current_path@, value@, config@, cells@)->0;
            let ghost members = field_views(fields@);
            proof {
                assert(byte_strings(out@) =~= before + own);
            }
            let mut i: usize = 0;
            while i < fields.len()
                invariant
                    i <= fields.len(),
                    value is Object,
                    value->Object_0 == *fields,
                    members == field_views(fields@),
                    value@ == Json::Object(members),
                    point_keys(key@, current_path@, value@, config@, cells@) == Some(own),
                    field_keys(key@, current_path@, members, i as nat, config@, cells@) is Some,
                    byte_strings(out@) == before + own + field_keys(
                        key@,
                        current_path@,
                        members,
                        i as nat,
                        config@,
                        cells@,
                    )->0,
                decreases fields.len() - i,
            {
                let path = make_child_path(current_path, fields[i].name.as_slice());
                let ghost so_far = byte_strings(out@);
                match collect_index_keys(key, path.as_slice(), &fields[i].value, config, cells, out) {
                    Ok(()) => {
                        proof {
                            let next = field_keys(
                                key@,
                                current_path@,
                                members,
                                (i + 1) as nat,
                                config@,
                                cells@,
                            );
                            assert(next is Some);
                            assert(byte_strings(out@) =~= before + own + next->0);
                        }
                    },
                    Err(e) => {
                        proof {
                            lemma_field_keys_none(
                                key@,
                                current_path@,
                                members,
                                (i + 1) as nat,
                                members.len(),
                                config@,
                                cells@,
                            );
                        }
                        return Err(e);
                    },
                }
                i += 1;
            }
            proof {
                assert(byte_strings(out@) =~= before + (own + field_keys(
                    key@,
                    current_path@,
                    members,
                    members.len(),
                    config@,
                    cells@,
                )->0));
            }
            Ok(())
        },
        Value::Array(items) => {
            proof {
                lemma_array_view(*value);
            }
            let ghost members = views(items@);
            let mut i: usize = 0;
            proof {
                assert(byte_strings(out@) =~= before + Seq::<Seq<u8>>::empty());
            }
            while i < items.len()
                invariant
                    i <= items.len(),
                    value is Array,
                    value->Array_0 == *items,
                    members == views(items@),
                    value@ == Json::Array(members),
                    item_keys(key@, current_path@, members, i as nat, config@, cells@) is Some,
                    byte_strings(out@) == before + item_keys(
                        key@,
                        current_path@,
                        members,
                        i as nat,
                        config@,
                        cells@,
                    )->0,
                decreases items.len() - i,
            {
                let path = make_item_path(current_path, i);
                match collect_index_keys(key, path.as_slice(), &items[i], config, cells, out) {
                    Ok(()) => {},
                    Err(e) => {
                        proof {
                            lemma_item_keys_none(
                                key@,
                                current_path@,
                                members,
                                (i + 1) as nat,
                                members.len(),
                                config@,
                                cells@,
                            );
                        }
                        return Err(e);
                    },
                }
                push_scalar_keys(key, current_path, &items[i], config, out);
                proof {
                    let next = item_keys(
                        key@,
                        current_path@,
                        members,
                        (i + 1) as nat,
                        config@,
                        cells@,
                    );
                    assert(next is Some);
                    assert(byte_strings(out@) =~= before + next->0);
                }
                i += 1;
            }
            Ok(())
        },
        _ => {
            push_scalar_keys(key, current_path, value, config, out);
            Ok(())
        },
    }
}

/// Whether the part `j` of a document at `path` can be indexed: every scalar
/// in it that stands at a sorted-indexed path, or is an item of an array at
/// one, has a sort encoding. Null has none.
pub open spec fn encodable_at(path: Seq<u8>, j: Json, config: ConfigView) -> bool
    decreases j, 0nat,
{
    match j {
        Json::Object(fields) => fields_encodable(path, fields, fields.len(), config),
        Json::Array(items) => items_encodable(path, items, items.len(), config),
        _ => !config.sorted.contains(path) || sort_encoding(j) is Some,
    }
}

/// The same for the first `n` fields of an object at `path`.
pub open spec fn fields_encodable(
    path: Seq<u8>,
    fields: Seq<(Seq<u8>, Json)>,
    n: nat,
    config: ConfigView,
) -> bool
    decreases fields, n,
{
    if n == 0 || n > fields.len() {
        true
    } else {
        fields_encodable(path, fields, (n - 1) as nat, config) && encodable_at(
            child_path(path, fields[n - 1].0),
            fields[n - 1].1,
            config,
        )
    }
}

/// The same for the first `n` items of an array at `path`.
pub open spec fn items_encodable(
    path: Seq<u8>,
    items: Seq<Json>,
    n: nat,
    config: ConfigView,
) -> bool
    decreases items, n,
{
    if n == 0 || n > items.len() {
        true
    } else {
        &&& items_encodable(path, items, (n - 1) as nat, config)
        &&& encodable_at(item_path(path, (n - 1) as nat), items[n - 1], config)
        &&& is_scalar(items[n - 1]) && config.sorted.contains(path) ==> sort_encoding(
            items[n - 1],
        ) is Some
    }
}

/// Whether a document can be indexed.
pub open spec fn encodable(j: Json, config: ConfigView) -> bool {
    encodable_at(Seq::empty(), j, config)
}

/// Once a field cannot be indexed, the object cannot.
pub proof fn lemma_fields_not_encodable(
    path: Seq<u8>,
    fields: Seq<(Seq<u8>, Json)>,
    m: nat,
    n: nat,
    config: ConfigView,
)
    requires
        m <= n <= fields.len(),
        !fields_encodable(path, fields, m, config),
    ensures
        !fields_encodable(path, fields, n, config),
    decreases n,
{
    if m < n {
        lemma_fields_not_encodable(path, fields, m, (n - 1) as nat, config);
    }
}

/// Once an item cannot be indexed, the array cannot.
pub proof fn lemma_items_not_encodable(
    path: Seq<u8>,
    items: Seq<Json>,
    m: nat,
    n: nat,
    config: ConfigView,
)
    requires
        m <= n <= items.len(),
        !items_encodable(path, items, m, config),
    ensures
        !items_encodable(path, items, n, config),
    decreases n,
{
    if m < n {
        lemma_items_not_encodable(path, items, m, (n - 1) as nat, config);
    }
}

/// Whether the scalar `value` under the sorted-indexed `path` has a sort
/// encoding, or `path` is not sorted-indexed.
fn scalar_is_encodable(path: &[u8], value: &Value, config: &DbConfig) -> (r: bool)
    ensures
        r == (!config@.sorted.contains(path@) || sort_encoding(value@) is Some),
{
    if config.is_sorted_indexed(path) {
        encode_sorted_value(value).is_ok()
    } else {
        true
    }
}

/// Whether the part `value` of a document at `path` can be indexed.
pub fn is_encodable_at(path: &[u8], value: &Value, config: &DbConfig) -> (r: bool)
    ensures
        r == encodable_at(path@, value@, config@),
    decreases value,
{
    match value {
        Value::Object(fields) => {
            proof {
                lemma_object_view(*value);
            }
            let ghost members = field_views(fields@);
            let mut i: usize = 0;
            while i < fields.len()
                invariant
                    i <= fields.len(),
                    value is Object,
                    value->Object_0 == *fields,
                    members == field_views(fields@),
                    value@ == Json::Object(members),
                    fields_encodable(path@, members, i as nat, config@),
                decreases fields.len() - i,
            {
                let child = make_child_path(path, fields[i].name.as_slice());
                if !is_encodable_at(child.as_slice(), &fields[i].value, config) {
                    proof {
                        lemma_fields_not_encodable(
                            path@,
                            members,
                            (i + 1) as nat,
                            members.len(),
                            config@,
                        );
                    }
                    return false;
                }
                i += 1;
            }
            true
        },
        Value::Array(items) => {
            proof {
                lemma_array_view(*value);
            }
            let ghost members = views(items@);
            let mut i: usize = 0;
            while i < items.len()
                invariant
                    i <= items.len(),
                    value is Array,
                    value->Array_0 == *items,
                    members == views(items@),
                    value@ == Json::Array(members),
                    items_encodable(path@, members, i as nat, config@),
                decreases items.len() - i,
            {
                let child = make_item_path(path, i);
                let scalar = match &items[i] {
                    Value::Array(_) => false,
                    Value::Object(_) => false,
                    _ => true,
                };
                proof {
                    assert(members[i as int] == items@[i as int]@);
                    assert(scalar == is_scalar(members[i as int]));
                }
                let inner = is_encodable_at(child.as_slice(), &items[i], config);
                let own = !scalar || scalar_is_encodable(path, &items[i], config);
                if !inner || !own {
                    proof {
                        lemma_items_not_encodable(
                            path@,
                            members,
                            (i + 1) as nat,
                            members.len(),
                            config@,
                        );
                    }
                    return false;
                }
                i += 1;
            }
            true
        },
        _ => scalar_is_encodable(path, value, config),
    }
}

/// One put of nothing for each key.
pub open spec fn puts(keys: Seq<Seq<u8>>) -> Seq<Change> {
    Seq::new(keys.len(), |i: int| Change::Put { key: keys[i], payload: None })
}

/// One removal for each key.
pub open spec fn removes(keys: Seq<Seq<u8>>) -> Seq<Change> {
    Seq::new(keys.len(), |i: int| Change::Remove { key: keys[i] })
}

/// Appends to `batch` the puts that create the index entries of the document
/// of `key`, for the part `value` of it at `current_path`. Where a scalar
/// under a sorted-indexed path has no sort encoding, the error is `Serde`;
/// else, where a point has no cell among `cells`, the error is `Geohash`. On
/// an error `batch` stays as it was.
pub fn index_value_recursive(
    key: &[u8],
    current_path: &[u8],
    value: &Value,
    config: &DbConfig,
    cells: &Vec<GeoCell>,
    batch: &mut Vec<Mutation>,
) -> (r: Result<(), DbError>)
    ensures
        if !encodable_at(current_path@, value@, config@) {
            r matches Err(DbError::Serde(_)) && changes(final(batch)@) == changes(old(batch)@)
        } else {
            match derived_keys(key@, current_path@, value@, config@, cells@) {
                Some(keys) => r is Ok && changes(final(batch)@) == changes(old(batch)@) + puts(
                    keys,
                ),
                None => r matches Err(DbError::Geohash(_)) && changes(final(batch)@) == changes(
                    old(batch)@,
                ),
            }
        },
{
    if !is_encodable_at(current_path, value, config) {
        return Err(DbError::Serde("a scalar has no sort encoding".to_owned()));
    }
    let mut keys: Vec<Vec<u8>> = Vec::new();
    proof {
        assert(byte_strings(keys@) =~= Seq::<Seq<u8>>::empty());
    }
    match collect_index_keys(key, current_path, value, config, cells, &mut keys) {
        Ok(()) => {},
        Err(e) => {
            return Err(e);
        },
    }
    let ghost before = changes(batch@);
    let ghost all = byte_strings(keys@);
    proof {
        assert(all =~= derived_keys(key@, current_path@, value@, config@, cells@)->0);
        assert(changes(batch@) =~= before + puts(all.take(0)));
    }
    let mut i: usize = 0;
    while i < keys.len()
        invariant
            i <= keys.len(),
            all == byte_strings(keys@),
            changes(batch@) == before + puts(all.take(i as int)),
        decreases keys.len() - i,
    {
        let ghost so_far = changes(batch@);
        batch.push(Mutation::Put { key: copy_bytes(keys[i].as_slice()), payload: Payload::Empty });
        proof {
            let c = Change::Put { key: all[i as int], payload: None };
            assert(changes(batch@) =~= so_far.push(c));
            assert(puts(all.take(i + 1)) =~= puts(all.take(i as int)).push(c));
            assert(changes(batch@) =~= before + puts(all.take(i + 1)));
        }
        i += 1;
    }
    proof {
        assert(all.take(keys@.len() as int) =~= all);
    }
    Ok(())
}

/// Appends to `batch` the removals that take out the index entries of the
/// document of `key`, for the part `value` of it at `current_path`. Where a
/// scalar under a sorted-indexed path has no sort encoding, the error is
/// `Serde`; else, where a point has no cell among `cells`, the error is
/// `Geohash`. On an error `batch` stays as it was.
pub fn remove_indices_recursive(
    key: &[u8],
    current_path: &[u8],
    value: &Value,
    config: &DbConfig,
    cells: &Vec<GeoCell>,
    batch: &mut Vec<Mutation>,
) -> (r: Result<(), DbError>)
    ensures
        if !encodable_at(current_path@, value@, config@) {
            r matches Err(DbError::Serde(_)) && changes(final(batch)@) == changes(old(batch)@)
        } else {
            match derived_keys(key@, current_path@, value@, config@, cells@) {
                Some(keys) => r is Ok && changes(final(batch)@) == changes(old(batch)@)
                    + removes(keys),
                None => r matches Err(DbError::Geohash(_)) && changes(final(batch)@) == changes(
                    old(batch)@,
                ),
            }
        },
{
    if !is_encodable_at(current_path, value, config) {
        return Err(DbError::Serde("a scalar has no sort encoding".to_owned()));
    }
    let mut keys: Vec<Vec<u8>> = Vec::new();
    proof {
        assert(byte_strings(keys@) =~= Seq::<Seq<u8>>::empty());
    }
    match collect_index_keys(key, current_path, value, config, cells, &mut keys) {
        Ok(()) => {},
        Err(e) => {
            return Err(e);
        },
    }
    let ghost before = changes(batch@);
    let ghost all = byte_strings(keys@);
    proof {
        assert(all =~= derived_keys(key@, current_path@, value@, config@, cells@)->0);
        assert(changes(batch@) =~= before + removes(all.take(0)));
    }
    let mut i: usize = 0;
    while i < keys.len()
        invariant
            i <= keys.len(),
            all == byte_strings(keys@),
            changes(batch@) == before + removes(all.take(i as int)),
        decreases keys.len() - i,
    {
        let ghost so_far = changes(batch@);
        batch.push(Mutation::Remove { key: copy_bytes(keys[i].as_slice()) });
        proof {
            let c = Change::Remove { key: all[i as int] };
            assert(changes(batch@) =~= so_far.push(c));
            assert(removes(all.take(i + 1)) =~= removes(all.take(i as int)).push(c));
            assert(changes(batch@) =~= before + removes(all.take(i + 1)));
        }
        i += 1;
    }
    proof {
        assert(all.take(keys@.len() as int) =~= all);
    }
    Ok(())
}

/// The keys of the index entries to take out before a write or a removal
/// under `key`: those of the document that is stored there, none where
/// nothing or no document is.
pub open spec fn stale_keys(
    stored: Option<Option<Json>>,
    key: Seq<u8>,
    config: ConfigView,
    cells: Seq<GeoCell>,
) -> Option<Seq<Seq<u8>>> {
    match stored {
        Some(Some(old)) => index_keys(key, old, config, cells),
        _ => Some(Seq::empty()),
    }
}

/// Why a write or a removal is refused.
pub enum WriteFault {
    /// The key lies under a reserved prefix: it is no primary key.
    Reserved,
    /// What is stored under the key is no document, so the index entries to
    /// take out cannot be derived.
    Unreadable,
    /// A scalar under a sorted-indexed path has no sort encoding, in the
    /// document to write or in the stored one.
    Unencodable,
    /// A point has no cell among those handed in.
    NoCell,
}

/// The error that stands for a fault of a write.
pub open spec fn is_write_fault(e: DbError, fault: WriteFault) -> bool {
    match fault {
        WriteFault::Reserved => e is MissingData,
        WriteFault::Unreadable => e is Serde,
        WriteFault::Unencodable => e is Serde,
        WriteFault::NoCell => e is Geohash,
    }
}

/// Why a write of `value` under `key` over what is stored there is refused,
/// if it is: the key lies under a reserved prefix; else what is stored is no
/// document; else the stored document or `value` cannot be indexed; else a
/// point of either has no cell among `cells`.
pub open spec fn write_fault(
    stored: Option<Option<Json>>,
    key: Seq<u8>,
    value: Json,
    config: ConfigView,
    cells: Seq<GeoCell>,
) -> Option<WriteFault> {
    if is_reserved(key) {
        Some(WriteFault::Reserved)
    } else if stored == Some(None::<Json>) {
        Some(WriteFault::Unreadable)
    } else if (stored matches Some(Some(old)) && !encodable(old, config)) || !encodable(
        value,
        config,
    ) {
        Some(WriteFault::Unencodable)
    } else if stale_keys(stored, key, config, cells) is None || index_keys(
        key,
        value,
        config,
        cells,
    ) is None {
        Some(WriteFault::NoCell)
    } else {
        None
    }
}

/// The changes of a write of `value` under `key` over what is stored there:
/// the index entries of the old document are taken out, the document is put,
/// the index entries of the new document are put. `None` where the write is
/// refused.
pub open spec fn write_changes(
    stored: Option<Option<Json>>,
    key: Seq<u8>,
    value: Json,
    config: ConfigView,
    cells: Seq<GeoCell>,
) -> Option<Seq<Change>> {
    if write_fault(stored, key, value, config, cells) is Some {
        None
    } else {
        Some(
            removes(stale_keys(stored, key, config, cells)->0) + seq![
                Change::Put { key, payload: Some(value) },
            ] + puts(index_keys(key, value, config, cells)->0),
        )
    }
}

/// Why a removal of `key` is refused, if it is: the key lies under a
/// reserved prefix; else, where something is stored under it, that is no
/// document, or the document cannot be indexed, or a point of it has no cell
/// among `cells`.
pub open spec fn delete_fault(
    stored: Option<Option<Json>>,
    key: Seq<u8>,
    config: ConfigView,
    cells: Seq<GeoCell>,
) -> Option<WriteFault> {
    if is_reserved(key) {
        Some(WriteFault::Reserved)
    } else {
        match stored {
            None => None,
            Some(None) => Some(WriteFault::Unreadable),
            Some(Some(old)) => if !encodable(old, config) {
                Some(WriteFault::Unencodable)
            } else if index_keys(key, old, config, cells) is None {
                Some(WriteFault::NoCell)
            } else {
                None
            },
        }
    }
}

/// The changes of a removal of `key`: none where nothing is stored there;
/// else the index entries of the stored document are taken out, and then the
/// entry itself. `None` where the removal is refused.
pub open spec fn delete_changes(
    stored: Option<Option<Json>>,
    key: Seq<u8>,
    config: ConfigView,
    cells: Seq<GeoCell>,
) -> Option<Seq<Change>> {
    if delete_fault(stored, key, config, cells) is Some {
        None
    } else {
        match stored {
            None => Some(Seq::empty()),
            Some(_) => Some(
                removes(stale_keys(stored, key, config, cells)->0).push(Change::Remove { key }),
            ),
        }
    }
}

/// What a reference to a payload, if there is one, stands for.
pub open spec fn payload_view(stored: Option<&Payload>) -> Option<Option<Json>> {
    match stored {
        Some(p) => Some(p@),
        None => None,
    }
}

/// The mutations of a write of `value` under `key`, over what is stored under
/// `key` now. They are to be made together or not at all. A key under a
/// reserved prefix is refused with `MissingData`; a stored payload that is no
/// document, and a scalar without a sort encoding under a sorted-indexed path
/// of either document, with `Serde`; a point without a cell with `Geohash`.
pub fn set_key_internal(
    stored: Option<&Payload>,
    key: &[u8],
    value: &Value,
    config: &DbConfig,
    cells: &Vec<GeoCell>,
) -> (r: Result<Vec<Mutation>, DbError>)
    ensures
        match write_changes(payload_view(stored), key@, value@, config@, cells@) {
            Some(cs) => r is Ok && changes(r->Ok_0@) == cs,
            None => r is Err && is_write_fault(
                r->Err_0,
                write_fault(payload_view(stored), key@, value@, config@, cells@)->0,
            ),
        },
{
    if key_is_reserved(key) {
        return Err(DbError::MissingData("the key lies under a reserved prefix".to_owned()));
    }
    let mut batch: Vec<Mutation> = Vec::new();
    let empty: Vec<u8> = Vec::new();
    proof {
        assert(changes(batch@) =~= Seq::<Change>::empty());
    }
    match stored {
        Some(Payload::Empty) => {
            return Err(DbError::Serde("the stored payload is no document".to_owned()));
        },
        Some(Payload::Document(old)) => {
            if !is_encodable_at(empty.as_slice(), old, config) {
                return Err(DbError::Serde("a stored scalar has no sort encoding".to_owned()));
            }
        },
        None => {},
    }
    if !is_encodable_at(empty.as_slice(), value, config) {
        return Err(DbError::Serde("a scalar has no sort encoding".to_owned()));
    }
    match stored {
        Some(Payload::Document(old)) => {
            match remove_indices_recursive(key, empty.as_slice(), old, config, cells, &mut batch) {
                Ok(()) => {},
                Err(e) => {
                    return Err(e);
                },
            }
        },
        _ => {},
    }
    let ghost gone = changes(batch@);
    proof {
        assert(gone =~= removes(stale_keys(payload_view(stored), key@, config@, cells@)->0));
    }
    batch.push(Mutation::Put { key: copy_bytes(key), payload: Payload::Document(value.duplicate()) });
    proof {
        assert(changes(batch@) =~= gone + seq![Change::Put { key: key@, payload: Some(value@) }]);
    }
    match index_value_recursive(key, empty.as_slice(), value, config, cells, &mut batch) {
        Ok(()) => {},
        Err(e) => {
            return Err(e);
        },
    }
    Ok(batch)
}

/// The mutations of a removal of `key`, over what is stored under `key` now.
/// They are to be made together or not at all. A key under a reserved prefix
/// is refused with `MissingData`; a stored payload that is no document, and a
/// stored scalar without a sort encoding under a sorted-indexed path, with
/// `Serde`; a point without a cell with `Geohash`.
pub fn delete_key_internal(
    stored: Option<&Payload>,
    key: &[u8],
    config: &DbConfig,
    cells: &Vec<GeoCell>,
) -> (r: Result<Vec<Mutation>, DbError>)
    ensures
        match delete_changes(payload_view(stored), key@, config@, cells@) {
            Some(cs) => r is Ok && changes(r->Ok_0@) == cs,
            None => r is Err && is_write_fault(
                r->Err_0,
                delete_fault(payload_view(stored), key@, config@, cells@)->0,
            ),
        },
{
    if key_is_reserved(key) {
        return Err(DbError::MissingData("the key lies under a reserved prefix".to_owned()));
    }
    let mut batch: Vec<Mutation> = Vec::new();
    let empty: Vec<u8> = Vec::new();
    proof {
        assert(changes(batch@) =~= Seq::<Change>::empty());
    }
    match stored {
        None => Ok(batch),
        Some(Payload::Empty) => Err(
            DbError::Serde("the stored payload is no document".to_owned()),
        ),
        Some(Payload::Document(old)) => {
            match remove_indices_recursive(key, empty.as_slice(), old, config, cells, &mut batch) {
                Ok(()) => {},
                Err(e) => {
                    return Err(e);
                },
            }
            let ghost gone = changes(batch@);
            batch.push(Mutation::Remove { key: copy_bytes(key) });
            proof {
                assert(changes(batch@) =~= gone.push(Change::Remove { key: key@ }));
            }
            Ok(batch)
        },
    }
}

} // verus!
