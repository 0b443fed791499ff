//! The points of a document that the geospatial index keeps: what a caller
//! has to have the cells of before a write.
use crate::config::{ConfigView, DbConfig};
use crate::index::{cell_of, child_path, derived_keys, field_keys, geo_point, geo_point_of, item_keys, item_path, GeoCell, GeoPoint};
use crate::bytes::{append_bytes, copy_bytes};
use crate::text::write_decimal;
use crate::value::{field_views, lemma_array_view, lemma_object_view, views, Json, Value};
use vstd::prelude::*;

verus! {

/// The point of the object `j` at `path`, where `path` is geo-indexed and `j`
/// is a point.
pub open spec fn own_point(path: Seq<u8>, j: Json, config: ConfigView) -> Seq<GeoPoint> {
    if config.geo.contains(path) && geo_point_of(j) is Some {
        seq![geo_point_of(j)->0]
    } else {
        Seq::empty()
    }
}

/// The points at geo-indexed paths in the part `j` of a document at `path`,
/// in the order of a walk through `j`.
pub open spec fn points_at(path: Seq<u8>, j: Json, config: ConfigView) -> Seq<GeoPoint>
    decreases j, 0nat,
{
    match j {
        Json::Object(fields) => own_point(path, j, config) + field_points(
            path,
            fields,
            fields.len(),
            config,
        ),
        Json::Array(items) => item_points(path, items, items.len(), config),
        _ => Seq::empty(),
    }
}

/// The points in the first `n` fields of an object at `path`.
pub open spec fn field_points(
    path: Seq<u8>,
    fields: Seq<(Seq<u8>, Json)>,
    n: nat,
    config: ConfigView,
) -> Seq<GeoPoint>
    decreases fields, n,
{
    if n == 0 || n > fields.len() {
        Seq::empty()
    } else {
        field_points(path, fields, (n - 1) as nat, config) + points_at(
            child_path(path, fields[n - 1].0),
            fields[n - 1].1,
            config,
        )
    }
}

/// The points in the first `n` items of an array at `path`.
pub open spec fn item_points(path: Seq<u8>, items: Seq<Json>, n: nat, config: ConfigView) -> Seq<
    GeoPoint,
>
    decreases items, n,
{
    if n == 0 || n > items.len() {
        Seq::empty()
    } else {
        item_points(path, items, (n - 1) as nat, config) + points_at(
            item_path(path, (n - 1) as nat),
            items[n - 1],
            config,
        )
    }
}

/// The points of a document that the geospatial index keeps.
pub open spec fn document_points(j: Json, config: ConfigView) -> Seq<GeoPoint> {
    points_at(Seq::empty(), j, config)
}

/// Whether every one of `points` has a cell among `cells`.
pub open spec fn covered(points: Seq<GeoPoint>, cells: Seq<GeoCell>) -> bool {
    forall|i: int| 0 <= i < points.len() ==> cell_of(cells, #[trigger] points[i]) is Some
}

/// Points that are covered together are covered each for themselves.
pub proof fn lemma_covered_parts(a: Seq<GeoPoint>, b: Seq<GeoPoint>, cells: Seq<GeoCell>)
    requires
        covered(a + b, cells),
    ensures
        covered(a, cells),
        covered(b, cells),
{
    assert forall|i: int| 0 <= i < a.len() implies cell_of(cells, #[trigger] a[i]) is Some by {
        assert((a + b)[i] == a[i]);
    }
    assert forall|i: int| 0 <= i < b.len() implies cell_of(cells, #[trigger] b[i]) is Some by {
        assert((a + b)[a.len() + i] == b[i]);
    }
}

/// A write is owed its index keys where the points of the document are
/// covered: with a cell for every point at a geo-indexed path, the keys of
/// the index entries are there.
pub proof fn lemma_covered_has_keys(
    primary: Seq<u8>,
    path: Seq<u8>,
    j: Json,
    config: ConfigView,
    cells: Seq<GeoCell>,
)
    requires
        covered(points_at(path, j, config), cells),
    ensures
        derived_keys(primary, path, j, config, cells) is Some,
    decreases j, 0nat,
{
    match j {
        Json::Object(fields) => {
            let own = own_point(path, j, config);
            let rest = field_points(path, fields, fields.len(), config);
            lemma_covered_parts(own, rest, cells);
            if config.geo.contains(path) && geo_point_of(j) is Some {
                assert(own[0] == geo_point_of(j)->0);
            }
            lemma_covered_fields(primary, path, fields, fields.len(), config, cells);
        },
        Json::Array(items) => {
            lemma_covered_items(primary, path, items, items.len(), config, cells);
        },
        _ => {},
    }
}

/// The same for the first `n` fields of an object.
pub proof fn lemma_covered_fields(
    primary: Seq<u8>,
    path: Seq<u8>,
    fields: Seq<(Seq<u8>, Json)>,
    n: nat,
    config: ConfigView,
    cells: Seq<GeoCell>,
)
    requires
        n <= fields.len(),
        covered(field_points(path, fields, n, config), cells),
    ensures
        field_keys(primary, path, fields, n, config, cells) is Some,
    decreases fields, n,
{
    if n > 0 {
        let before = field_points(path, fields, (n - 1) as nat, config);
        let last = points_at(child_path(path, fields[n - 1].0), fields[n - 1].1, config);
        lemma_covered_parts(before, last, cells);
        lemma_covered_fields(primary, path, fields, (n - 1) as nat, config, cells);
        lemma_covered_has_keys(
            primary,
            child_path(path, fields[n - 1].0),
            fields[n - 1].1,
            config,
            cells,
        );
    }
}

/// The same for the first `n` items of an array.
pub proof fn lemma_covered_items(
    primary: Seq<u8>,
    path: Seq<u8>,
    items: Seq<Json>,
    n: nat,
    config: ConfigView,
    cells: Seq<GeoCell>,
)
    requires
        n <= items.len(),
        covered(item_points(path, items, n, config), cells),
    ensures
        item_keys(primary, path, items, n, config, cells) is Some,
    decreases items, n,
{
    if n > 0 {
        let before = item_points(path, items, (n - 1) as nat, config);
        let last = points_at(item_path(path, (n - 1) as nat), items[n - 1], config);
        lemma_covered_parts(before, last, cells);
        lemma_covered_items(primary, path, items, (n - 1) as nat, config, cells);
        lemma_covered_has_keys(primary, item_path(path, (n - 1) as nat), items[n - 1], config, cells);
    }
}

/// Appends the points at geo-indexed paths in the part `value` of a document
/// at `path`.
fn collect_points(path: &[u8], value: &Value, config: &DbConfig, out: &mut Vec<GeoPoint>)
    ensures
        final(out)@ == old(out)@ + points_at(path@, value@, config@),
    decreases value,
{
    let ghost before = out@;
    match value {
        Value::Object(fields) => {
            proof {
                lemma_object_view(*value);
            }
            if config.is_geo_indexed(path) {
                match geo_point(value) {
                    Some(point) => {
                        out.push(point);
                    },
                    None => {},
                }
            }
            let ghost own = own_point(path@, value@, config@);
            let ghost members = field_views(fields@);
            proof {
                assert(out@ =~= before + own);
            }
            let mut i: usize = 0;
            while i < fields.len()
                invariant
                    i <= fields.len(),
                    value is Object,
                    value->Object_0 == *fields,
                    members == field_views(fields@),
                    out@ == before + own + field_points(path@, members, i as nat, config@),
                decreases fields.len() - i,
            {
                let child = if path.len() == 0 {
                    copy_bytes(fields[i].name.as_slice())
                } else {
                    let mut p = copy_bytes(path);
                    p.push(46);
                    append_bytes(&mut p, fields[i].name.as_slice());
                    p
                };
                proof {
                    assert(child@ =~= child_path(path@, fields@[i as int].name@));
                }
                let ghost so_far = out@;
                collect_points(child.as_slice(), &fields[i].value, config, out);
                proof {
                    assert(out@ =~= before + own + field_points(
                        path@,
                        members,
                        (i + 1) as nat,
                        config@,
                    ));
                }
                i += 1;
            }
            proof {
                assert(out@ =~= before + (own + field_points(
                    path@,
                    members,
                    members.len(),
                    config@,
                )));
            }
        },
        Value::Array(items) => {
            proof {
                lemma_array_view(*value);
                assert(out@ =~= before + Seq::<GeoPoint>::empty());
            }
            let ghost members = views(items@);
            let mut i: usize = 0;
            while i < items.len()
                invariant
                    i <= items.len(),
                    value is Array,
                    value->Array_0 == *items,
                    members == views(items@),
                    out@ == before + item_points(path@, members, i as nat, config@),
                decreases items.len() - i,
            {
                let mut child = copy_bytes(path);
                child.push(46);
                let digits = write_decimal(i as u64);
                append_bytes(&mut child, digits.as_slice());
                proof {
                    assert(child@ =~= item_path(path@, i as nat));
                }
                collect_points(child.as_slice(), &items[i], config, out);
                proof {
                    assert(out@ =~= before + item_points(path@, members, (i + 1) as nat, config@));
                }
                i += 1;
            }
        },
        _ => {
            proof {
                assert(out@ =~= before + Seq::<GeoPoint>::empty());
            }
        },
    }
}

/// The points of a document that the geospatial index keeps, in the order of
/// a walk through the document. A write of the document, and a write over it
/// or a removal of it, needs a cell for each.
pub fn geo_points(value: &Value, config: &DbConfig) -> (r: Vec<GeoPoint>)
    ensures
        r@ == document_points(value@, config@),
{
    let mut out: Vec<GeoPoint> = Vec::new();
    let empty: Vec<u8> = Vec::new();
    collect_points(empty.as_slice(), value, config, &mut out);
    proof {
        assert(out@ =~= document_points(value@, config@));
    }
    out
}

/// A write is owed where nothing stands against it. Under a key that lies
/// under no reserved prefix, over nothing or over a document, where both
/// documents can be indexed and have a cell among `cells` for every point at
/// a geo-indexed path, the write has its changes, and so do a removal and a
/// removal of the written document.
pub proof fn law_covered_write_succeeds(
    stored: Option<Option<Json>>,
    key: Seq<u8>,
    value: Json,
    config: ConfigView,
    cells: Seq<GeoCell>,
)
    requires
        !crate::keys::is_reserved(key),
        stored != Some(None::<Json>),
        crate::index::encodable(value, config),
        covered(document_points(value, config), cells),
        stored matches Some(Some(old)) ==> crate::index::encodable(old, config) && covered(
            document_points(old, config),
            cells,
        ),
    ensures
        crate::index::write_changes(stored, key, value, config, cells) is Some,
        crate::index::delete_changes(stored, key, config, cells) is Some,
        crate::index::delete_changes(Some(Some(value)), key, config, cells) is Some,
{
    lemma_covered_has_keys(key, Seq::empty(), value, config, cells);
    match stored {
        Some(Some(old)) => {
            lemma_covered_has_keys(key, Seq::empty(), old, config, cells);
        },
        _ => {},
    }
}

} // verus!
