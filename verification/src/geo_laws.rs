//! Laws of the geospatial index: every written point is among the
//! candidates of a query, and every candidate is a stored point.
use crate::access::read_path;
use crate::config::ConfigView;
use crate::geo::{
    box_candidates, candidates_first, cell_keys_first, geo_hit, has_candidate,
    radius_candidates, Candidate,
};
use crate::index::{
    cell_of, derived_keys, field_keys, geo_point_of, index_keys, point_keys, write_changes,
    GeoCell, GeoPoint,
};
use crate::keys::{geo_prefix, index_key, index_key_prefix, path_prefix};
use crate::path::path_parts;
use crate::query_laws::{lemma_last_fragment_of_index_key, lemma_prefixed_contains};
use crate::range_laws::lemma_key_parts_of_index_key;
use crate::store::{
    applied, document, entry_index, lemma_entry_index, prefixed_keys, stored, unique_keys,
};
use crate::value::Json;
use crate::walk_laws::{lemma_walk_lists_subtree, lemma_walked_parts, through_members};
use crate::write_laws::law_write_rederives_index;
use vstd::prelude::*;

verus! {

/// The candidate that a key of the index leads to is among the candidates of
/// the scanned keys, or one with the same primary key is.
pub proof fn lemma_candidates_contain(
    entries: Seq<(Seq<u8>, Option<Json>)>,
    path: Seq<u8>,
    keys: Seq<Seq<u8>>,
    n: nat,
    i: int,
)
    requires
        0 <= i < n <= keys.len(),
        geo_hit(entries, path, keys[i]) is Some,
    ensures
        has_candidate(
            candidates_first(entries, path, keys, n),
            geo_hit(entries, path, keys[i])->0.key,
        ),
    decreases n,
{
    let rest = candidates_first(entries, path, keys, (n - 1) as nat);
    let all = candidates_first(entries, path, keys, n);
    let wanted = geo_hit(entries, path, keys[i])->0.key;
    if i == n - 1 {
        if has_candidate(rest, wanted) {
            let at = choose|at: int| 0 <= at < rest.len() && (#[trigger] rest[at]).key == wanted;
            assert(all[at].key == wanted);
        } else {
            assert(all[rest.len() as int].key == wanted);
        }
    } else {
        lemma_candidates_contain(entries, path, keys, (n - 1) as nat, i);
        let at = choose|at: int| 0 <= at < rest.len() && (#[trigger] rest[at]).key == wanted;
        match geo_hit(entries, path, keys[n - 1]) {
            Some(c) => {
                if !has_candidate(rest, c.key) {
                    assert(rest.push(c)[at] == rest[at]);
                }
            },
            None => {},
        }
        assert(all[at].key == wanted);
    }
}

/// Whether a candidate is what the store holds: its document is stored under
/// its key, and its point stands in the document at the path.
pub open spec fn is_stored_point(
    entries: Seq<(Seq<u8>, Option<Json>)>,
    path: Seq<u8>,
    c: Candidate,
) -> bool {
    &&& document(entries, c.key) == Some(c.document)
    &&& read_path(c.document, path) is Some
    &&& geo_point_of(read_path(c.document, path)->0) == Some(c.point)
}

/// Every candidate is a stored point. Each candidate that scanned keys lead
/// to holds the document that is stored under its key and the point that
/// stands in that document at the path.
pub proof fn law_candidates_are_stored_points(
    entries: Seq<(Seq<u8>, Option<Json>)>,
    path: Seq<u8>,
    keys: Seq<Seq<u8>>,
    n: nat,
    at: int,
)
    requires
        n <= keys.len(),
        0 <= at < candidates_first(entries, path, keys, n).len(),
    ensures
        is_stored_point(entries, path, candidates_first(entries, path, keys, n)[at]),
    decreases n,
{
    if n > 0 {
        let rest = candidates_first(entries, path, keys, (n - 1) as nat);
        if at < rest.len() {
            law_candidates_are_stored_points(entries, path, keys, (n - 1) as nat, at);
            match geo_hit(entries, path, keys[n - 1]) {
                Some(c) => {
                    if !has_candidate(rest, c.key) {
                        assert(rest.push(c)[at] == rest[at]);
                    }
                },
                None => {},
            }
        }
    }
}

/// The key of the geospatial index for a point that a path leads to in a
/// document is among the keys of the index entries of the document.
pub proof fn lemma_point_key_is_derived(
    key: Seq<u8>,
    doc: Json,
    path: Seq<u8>,
    point: GeoPoint,
    config: ConfigView,
    cells: Seq<GeoCell>,
)
    requires
        path.len() > 0,
        path[0] != 46u8,
        config.geo.contains(path),
        read_path(doc, path) is Some,
        geo_point_of(read_path(doc, path)->0) == Some(point),
        through_members(doc, path_parts(path), true),
        index_keys(key, doc, config, cells) is Some,
    ensures
        cell_of(cells, point) is Some,
        index_keys(key, doc, config, cells)->0.contains(
            index_key(geo_prefix(), path, cell_of(cells, point)->0, key),
        ),
{
    let place = read_path(doc, path)->0;
    lemma_walked_parts(path);
    let hash = cell_of(cells, point)->0;
    let listed = index_key(geo_prefix(), path, hash, key);
    if derived_keys(key, path, place, config, cells) is Some {
        let own = point_keys(key, path, place, config, cells)->0;
        let below = field_keys(key, path, place->Object_0, place->Object_0.len(), config, cells)->0;
        assert(own[0] == listed);
        assert((own + below)[0] == listed);
    }
    lemma_walk_lists_subtree(
        key,
        Seq::empty(),
        doc,
        path_parts(path),
        place,
        config,
        cells,
        listed,
        true,
    );
}

/// A listed point is a candidate. Where the store holds the entry of the
/// geospatial index for a cell under a key, and under the key a document
/// with a point at the path, the candidates of a query for all points at the
/// path hold one for the key, and so do the candidates of a query for the
/// points in a list of cells that holds the cell: for a key, a path and a
/// cell without a colon.
pub proof fn law_listed_point_is_a_candidate(
    entries: Seq<(Seq<u8>, Option<Json>)>,
    key: Seq<u8>,
    doc: Json,
    path: Seq<u8>,
    point: GeoPoint,
    hash: Seq<u8>,
    asked: Seq<Seq<u8>>,
)
    requires
        !key.contains(58u8),
        !path.contains(58u8),
        !hash.contains(58u8),
        stored(entries, index_key(geo_prefix(), path, hash, key)) is Some,
        document(entries, key) == Some(doc),
        read_path(doc, path) is Some,
        geo_point_of(read_path(doc, path)->0) == Some(point),
    ensures
        has_candidate(box_candidates(entries, path), key),
        asked.contains(hash) ==> has_candidate(radius_candidates(entries, path, asked), key),
{
    let listed = index_key(geo_prefix(), path, hash, key);
    lemma_key_parts_of_index_key(geo_prefix(), path, hash, key);
    lemma_last_fragment_of_index_key(geo_prefix(), path, hash, key);
    assert(geo_hit(entries, path, listed) == Some(Candidate { key, document: doc, point }));
    lemma_entry_index(entries, listed, 0);
    let at = entry_index(entries, listed, 0);
    let prefix = path_prefix(geo_prefix(), path);
    assert(prefix.is_prefix_of(listed)) by {
        assert(listed.subrange(0, prefix.len() as int) =~= prefix);
    }
    lemma_prefixed_contains(entries, prefix, entries.len(), at);
    let keys = prefixed_keys(entries, prefix);
    let i = choose|i: int| 0 <= i < keys.len() && keys[i] == listed;
    lemma_candidates_contain(entries, path, keys, keys.len(), i);
    if asked.contains(hash) {
        let j = choose|j: int| 0 <= j < asked.len() && asked[j] == hash;
        let narrow = index_key_prefix(geo_prefix(), path, hash);
        assert(narrow.is_prefix_of(listed)) by {
            assert(listed.subrange(0, narrow.len() as int) =~= narrow);
        }
        lemma_cell_keys_contain(entries, path, asked, asked.len(), j, listed);
        let found = cell_keys_first(entries, path, asked, asked.len());
        let k = choose|k: int| 0 <= k < found.len() && found[k] == listed;
        lemma_candidates_contain(entries, path, found, found.len(), k);
    }
}

/// A key that has an entry and begins with the prefix of one of the first
/// `n` cells is among the keys that the scan of those cells gives.
pub proof fn lemma_cell_keys_contain(
    entries: Seq<(Seq<u8>, Option<Json>)>,
    path: Seq<u8>,
    cells: Seq<Seq<u8>>,
    n: nat,
    j: int,
    x: Seq<u8>,
)
    requires
        0 <= j < n <= cells.len(),
        stored(entries, x) is Some,
        index_key_prefix(geo_prefix(), path, cells[j]).is_prefix_of(x),
    ensures
        cell_keys_first(entries, path, cells, n).contains(x),
    decreases n,
{
    let rest = cell_keys_first(entries, path, cells, (n - 1) as nat);
    let last = prefixed_keys(entries, index_key_prefix(geo_prefix(), path, cells[n - 1]));
    if j == n - 1 {
        lemma_entry_index(entries, x, 0);
        let at = entry_index(entries, x, 0);
        lemma_prefixed_contains(
            entries,
            index_key_prefix(geo_prefix(), path, cells[j]),
            entries.len(),
            at,
        );
        let i = choose|i: int| 0 <= i < last.len() && last[i] == x;
        assert((rest + last)[rest.len() + i] == x);
    } else {
        lemma_cell_keys_contain(entries, path, cells, (n - 1) as nat, j, x);
        let i = choose|i: int| 0 <= i < rest.len() && rest[i] == x;
        assert((rest + last)[i] == x);
    }
}

/// Every written point is among the candidates. After a document is written
/// under a key that holds no colon, where a path without a colon, geo-indexed
/// and not beginning with a dot, leads in the document to a point whose cell
/// holds no colon, the candidates of a query for all points at that path hold
/// one for the key, and so do the candidates of a query for the points in a
/// list of cells that holds the point's cell. Together with the law that
/// every candidate is a stored point, that candidate is the document with
/// its point.
pub proof fn law_written_point_is_a_candidate(
    entries: Seq<(Seq<u8>, Option<Json>)>,
    key: Seq<u8>,
    doc: Json,
    path: Seq<u8>,
    point: GeoPoint,
    config: ConfigView,
    cells: Seq<GeoCell>,
    asked: Seq<Seq<u8>>,
)
    requires
        unique_keys(entries),
        !key.contains(58u8),
        path.len() > 0,
        path[0] != 46u8,
        !path.contains(58u8),
        config.geo.contains(path),
        read_path(doc, path) is Some,
        geo_point_of(read_path(doc, path)->0) == Some(point),
        through_members(doc, path_parts(path), true),
        cell_of(cells, point) is Some ==> !cell_of(cells, point)->0.contains(58u8),
        write_changes(stored(entries, key), key, doc, config, cells) is Some,
    ensures
        ({
            let after = applied(
                entries,
                write_changes(stored(entries, key), key, doc, config, cells)->0,
            );
            &&& cell_of(cells, point) is Some
            &&& has_candidate(box_candidates(after, path), key)
            &&& asked.contains(cell_of(cells, point)->0) ==> has_candidate(
                radius_candidates(after, path, asked),
                key,
            )
        }),
{
    let after = applied(entries, write_changes(stored(entries, key), key, doc, config, cells)->0);
    lemma_point_key_is_derived(key, doc, path, point, config, cells);
    let hash = cell_of(cells, point)->0;
    let listed = index_key(geo_prefix(), path, hash, key);
    law_write_rederives_index(entries, key, doc, config, cells, listed);
    law_write_rederives_index(entries, key, doc, config, cells, key);
    law_listed_point_is_a_candidate(after, key, doc, path, point, hash, asked);
}

} // verus!
