//! Laws of queries over a store that is as the write path leaves it: a
//! query finds every stored document that holds what it asks for.
use crate::access::read_path;
use crate::bulk_laws::{entry_is_consistent, is_consistent, lemma_entry_of_stored};
use crate::config::ConfigView;
use crate::executor::{answer, equality_answer};
use crate::geo::{box_candidates, has_candidate, radius_candidates};
use crate::geo_laws::{law_listed_point_is_a_candidate, lemma_point_key_is_derived};
use crate::index::{
    cell_of, derived_keys, geo_point_of, index_keys, scalar_keys, GeoCell, GeoPoint,
};
use crate::keys::{equality_prefix, geo_prefix, index_key};
use crate::path::path_parts;
use crate::query::{holds_value, QueryNode};
use crate::query_laws::law_listed_value_is_found;
use crate::range_laws::{
    integer, integer_key, lemma_answer_of_range, lemma_range_query_finds_listed,
};
use crate::store::{document, stored};
use crate::text::{is_scalar, value_text};
use crate::value::Json;
use crate::walk_laws::{
    lemma_item_scalar_keys_contain, lemma_walk_lists_subtree, lemma_walked_parts,
    through_members,
};
use vstd::prelude::*;

verus! {

/// In a consistent store, the key of every index entry of a stored document
/// has an entry.
proof fn lemma_consistent_lists(
    entries: Seq<(Seq<u8>, Option<Json>)>,
    key: Seq<u8>,
    doc: Json,
    config: ConfigView,
    cells: Seq<GeoCell>,
    x: Seq<u8>,
)
    requires
        is_consistent(entries, config, cells),
        document(entries, key) == Some(doc),
        index_keys(key, doc, config, cells) is Some ==> index_keys(
            key,
            doc,
            config,
            cells,
        )->0.contains(x),
    ensures
        stored(entries, x) == Some(None::<Json>),
{
    let i = lemma_entry_of_stored(entries, key);
    assert(entry_is_consistent(entries, i, config, cells));
    let theirs = index_keys(key, doc, config, cells)->0;
    let m = choose|m: int| 0 <= m < theirs.len() && theirs[m] == x;
    assert(stored(entries, theirs[m]) == Some(None::<Json>));
}

/// The key of the equality index for a scalar that a path leads to in a
/// document, or that an array there holds, is among the keys of the index
/// entries of the document.
proof fn lemma_equality_key_is_derived(
    key: Seq<u8>,
    doc: Json,
    path: Seq<u8>,
    value: Json,
    config: ConfigView,
    cells: Seq<GeoCell>,
)
    requires
        path.len() > 0,
        path[0] != 46u8,
        config.hash.contains(path),
        is_scalar(value),
        read_path(doc, path) is Some,
        holds_value(read_path(doc, path)->0, value),
        through_members(doc, path_parts(path), true),
    ensures
        index_keys(key, doc, config, cells) is Some ==> index_keys(
            key,
            doc,
            config,
            cells,
        )->0.contains(index_key(equality_prefix(), path, value_text(value), key)),
{
    if index_keys(key, doc, config, cells) is Some {
        lemma_equality_key_in(key, doc, path, value, config, cells);
    }
}

/// The same, where the document can be indexed.
proof fn lemma_equality_key_in(
    key: Seq<u8>,
    doc: Json,
    path: Seq<u8>,
    value: Json,
    config: ConfigView,
    cells: Seq<GeoCell>,
)
    requires
        path.len() > 0,
        path[0] != 46u8,
        config.hash.contains(path),
        is_scalar(value),
        read_path(doc, path) is Some,
        holds_value(read_path(doc, path)->0, value),
        through_members(doc, path_parts(path), true),
        derived_keys(key, Seq::empty(), doc, config, cells) is Some,
    ensures
        derived_keys(key, Seq::empty(), doc, config, cells)->0.contains(
            index_key(equality_prefix(), path, value_text(value), key),
        ),
{
    lemma_walked_parts(path);
    let found = read_path(doc, path)->0;
    let listed = index_key(equality_prefix(), path, value_text(value), key);
    match found {
        Json::Array(items) => {
            let i = choose|i: int| 0 <= i < items.len() && items[i] == value;
            assert(scalar_keys(key, path, items[i], config)[0] == listed);
            if derived_keys(key, path, found, config, cells) is Some {
                lemma_item_scalar_keys_contain(
                    key,
                    path,
                    items,
                    items.len(),
                    i,
                    config,
                    cells,
                    listed,
                );
            }
        },
        _ => {
            assert(scalar_keys(key, path, value, config)[0] == listed);
        },
    }
    lemma_walk_lists_subtree(
        key,
        Seq::empty(),
        doc,
        path_parts(path),
        found,
        config,
        cells,
        listed,
        true,
    );
}

/// The key of the sorted index for an integer that a path leads to in a
/// document is among the keys of the index entries of the document.
proof fn lemma_integer_key_is_derived(
    key: Seq<u8>,
    doc: Json,
    path: Seq<u8>,
    v: int,
    config: ConfigView,
    cells: Seq<GeoCell>,
)
    requires
        path.len() > 0,
        path[0] != 46u8,
        config.sorted.contains(path),
        read_path(doc, path) == Some(integer(v)),
        through_members(doc, path_parts(path), true),
        -0x8000_0000_0000_0000 <= v < 0x1_0000_0000_0000_0000,
    ensures
        index_keys(key, doc, config, cells) is Some ==> index_keys(
            key,
            doc,
            config,
            cells,
        )->0.contains(integer_key(path, v, key)),
{
    if index_keys(key, doc, config, cells) is Some {
        let listed = integer_key(path, v, key);
        lemma_walked_parts(path);
        let keys_of_value = scalar_keys(key, path, integer(v), config);
        assert(keys_of_value[keys_of_value.len() - 1] == listed);
        lemma_walk_lists_subtree(
            key,
            Seq::empty(),
            doc,
            path_parts(path),
            integer(v),
            config,
            cells,
            listed,
            true,
        );
    }
}

/// An equality query finds every document that holds the value. In a store
/// that is as the write path leaves it, an equality query for a scalar at a
/// hash-indexed path gives every document, stored under a key without a
/// colon, in which the path leads to that scalar or to an array that holds
/// it: where the path does not begin with a dot and leads there as the walk
/// of the index maintainer goes, through fields, and through items of arrays
/// by their plain decimal indices.
pub proof fn law_equality_query_finds_stored(
    entries: Seq<(Seq<u8>, Option<Json>)>,
    key: Seq<u8>,
    doc: Json,
    path: Seq<u8>,
    value: Json,
    config: ConfigView,
    cells: Seq<GeoCell>,
)
    requires
        is_consistent(entries, config, cells),
        !key.contains(58u8),
        document(entries, key) == Some(doc),
        path.len() > 0,
        path[0] != 46u8,
        config.hash.contains(path),
        is_scalar(value),
        read_path(doc, path) is Some,
        holds_value(read_path(doc, path)->0, value),
        through_members(doc, path_parts(path), true),
    ensures
        equality_answer(entries, path, value, config).contains(doc),
{
    let listed = index_key(equality_prefix(), path, value_text(value), key);
    lemma_equality_key_is_derived(key, doc, path, value, config, cells);
    lemma_consistent_lists(entries, key, doc, config, cells, listed);
    law_listed_value_is_found(entries, key, doc, path, value, config);
}

/// A range query finds every document in the range. In a store that is as
/// the write path leaves it, the conjunction of "at least `a`" and "less
/// than `b`" at a sorted-indexed path without a colon gives every stored
/// document in which the path leads to an integer `v` with `a <= v < b`,
/// for integers of at most 2^53 in magnitude that are all negative or all
/// not: where the path does not begin with a dot and leads there as the walk
/// of the index maintainer goes.
pub proof fn law_range_query_finds_stored(
    entries: Seq<(Seq<u8>, Option<Json>)>,
    key: Seq<u8>,
    doc: Json,
    path: Seq<u8>,
    v: int,
    a: int,
    b: int,
    node: QueryNode,
    config: ConfigView,
    cells: Seq<GeoCell>,
    geo: Seq<Seq<Json>>,
    cursor: nat,
)
    requires
        is_consistent(entries, config, cells),
        document(entries, key) == Some(doc),
        path.len() > 0,
        path[0] != 46u8,
        !path.contains(58u8),
        config.sorted.contains(path),
        read_path(doc, path) == Some(integer(v)),
        through_members(doc, path_parts(path), true),
        -0x20_0000_0000_0000 <= a <= v < b <= 0x20_0000_0000_0000,
        a >= 0 || b < 0,
        node matches QueryNode::And(left, right) && (*left matches QueryNode::Gte(lp, lv, _)
            && lp@ == path && lv@ == integer(a)) && (*right matches QueryNode::Lt(rp, rv, _)
            && rp@ == path && rv@ == integer(b)),
    ensures
        answer(entries, node, config, geo, cursor) is Ok,
        answer(entries, node, config, geo, cursor)->Ok_0.0.contains(doc),
{
    let listed = integer_key(path, v, key);
    lemma_integer_key_is_derived(key, doc, path, v, config, cells);
    lemma_consistent_lists(entries, key, doc, config, cells, listed);
    lemma_range_query_finds_listed(entries, key, doc, path, v, a, b);
    lemma_answer_of_range(entries, path, a, b, node, config, geo, cursor);
}

/// Every stored point is among the candidates. In a store that is as the
/// write path leaves it, where a path without a colon, geo-indexed and not
/// beginning with a dot, leads in a document stored under a key without a
/// colon to a point whose cell holds no colon, the candidates of a query for
/// all points at that path hold one for the key, and so do the candidates of
/// a query for the points in a list of cells that holds the point's cell.
pub proof fn law_stored_point_is_a_candidate(
    entries: Seq<(Seq<u8>, Option<Json>)>,
    key: Seq<u8>,
    doc: Json,
    path: Seq<u8>,
    point: GeoPoint,
    config: ConfigView,
    cells: Seq<GeoCell>,
    asked: Seq<Seq<u8>>,
)
    requires
        is_consistent(entries, config, cells),
        !key.contains(58u8),
        document(entries, key) == Some(doc),
        path.len() > 0,
        path[0] != 46u8,
        !path.contains(58u8),
        config.geo.contains(path),
        read_path(doc, path) is Some,
        geo_point_of(read_path(doc, path)->0) == Some(point),
        through_members(doc, path_parts(path), true),
        cell_of(cells, point) is Some ==> !cell_of(cells, point)->0.contains(58u8),
    ensures
        cell_of(cells, point) is Some,
        has_candidate(box_candidates(entries, path), key),
        asked.contains(cell_of(cells, point)->0) ==> has_candidate(
            radius_candidates(entries, path, asked),
            key,
        ),
{
    let home = lemma_entry_of_stored(entries, key);
    assert(entry_is_consistent(entries, home, config, cells));
    lemma_point_key_is_derived(key, doc, path, point, config, cells);
    let hash = cell_of(cells, point)->0;
    let listed = index_key(geo_prefix(), path, hash, key);
    lemma_consistent_lists(entries, key, doc, config, cells, listed);
    law_listed_point_is_a_candidate(entries, key, doc, path, point, hash, asked);
}

} // verus!
