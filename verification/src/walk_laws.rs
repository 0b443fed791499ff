//! Laws of the walk of the index maintainer: a scalar that a path leads to,
//! through fields and items of arrays, is listed under that path.
use crate::access::{field_index, json_member, json_read, lemma_field_index, read_path};
use crate::bytes::{find_byte, lemma_find_byte};
use crate::config::ConfigView;
use crate::executor::equality_answer;
use crate::index::{
    child_path, derived_keys, field_keys, item_keys, item_path, point_keys, scalar_keys,
    write_changes, GeoCell,
};
use crate::keys::{equality_prefix, index_key};
use crate::path::{index_of, path_parts, split_from};
use crate::query_laws::law_equality_query_finds_written;
use crate::store::{applied, stored, unique_keys};
use crate::text::{decimal_text, is_scalar, value_text};
use crate::value::Json;
use vstd::prelude::*;

verus! {

/// The path that the walk has when it has gone from `path` down the fields
/// named by `parts`.
pub open spec fn walked(path: Seq<u8>, parts: Seq<Seq<u8>>) -> Seq<u8>
    decreases parts.len(),
{
    if parts.len() == 0 {
        path
    } else {
        walked(child_path(path, parts[0]), parts.skip(1))
    }
}

/// Whether `parts` lead from `j` down as the walk of the index maintainer
/// goes: through the fields of objects, and through the items of arrays by
/// their indices written in decimal digits without a sign or leading zeros.
/// At the root, where the walk has no path yet, only a field leads on.
pub open spec fn through_members(j: Json, parts: Seq<Seq<u8>>, at_root: bool) -> bool
    decreases parts.len(),
{
    if parts.len() == 0 {
        true
    } else {
        match json_member(j, parts[0]) {
            Some(child) => (j is Object || (!at_root && parts[0] == decimal_text(
                index_of(parts[0])->0,
            ))) && through_members(child, parts.skip(1), false),
            None => false,
        }
    }
}

/// What is among the keys of a field is among the keys of the fields.
pub proof fn lemma_field_keys_contain(
    primary: Seq<u8>,
    path: Seq<u8>,
    fields: Seq<(Seq<u8>, Json)>,
    n: nat,
    i: int,
    config: ConfigView,
    cells: Seq<GeoCell>,
    x: Seq<u8>,
)
    requires
        0 <= i < n <= fields.len(),
        field_keys(primary, path, fields, n, config, cells) is Some,
        derived_keys(primary, child_path(path, fields[i].0), fields[i].1, config, cells) is Some
            ==> derived_keys(
            primary,
            child_path(path, fields[i].0),
            fields[i].1,
            config,
            cells,
        )->0.contains(x),
    ensures
        derived_keys(primary, child_path(path, fields[i].0), fields[i].1, config, cells) is Some,
        field_keys(primary, path, fields, n, config, cells)->0.contains(x),
    decreases n,
{
    let before = field_keys(primary, path, fields, (n - 1) as nat, config, cells)->0;
    let last = derived_keys(
        primary,
        child_path(path, fields[n - 1].0),
        fields[n - 1].1,
        config,
        cells,
    )->0;
    if i == n - 1 {
        let at = choose|at: int| 0 <= at < last.len() && last[at] == x;
        assert((before + last)[before.len() + at] == x);
    } else {
        lemma_field_keys_contain(primary, path, fields, (n - 1) as nat, i, config, cells, x);
        let at = choose|at: int| 0 <= at < before.len() && before[at] == x;
        assert((before + last)[at] == x);
    }
}

/// What is among the keys of an item is among the keys of the items.
pub proof fn lemma_item_keys_contain(
    primary: Seq<u8>,
    path: Seq<u8>,
    items: Seq<Json>,
    n: nat,
    i: int,
    config: ConfigView,
    cells: Seq<GeoCell>,
    x: Seq<u8>,
)
    requires
        0 <= i < n <= items.len(),
        item_keys(primary, path, items, n, config, cells) is Some,
        derived_keys(primary, item_path(path, i as nat), items[i], config, cells) is Some
            ==> derived_keys(primary, item_path(path, i as nat), items[i], config, cells)->0.contains(
            x,
        ),
    ensures
        derived_keys(primary, item_path(path, i as nat), items[i], config, cells) is Some,
        item_keys(primary, path, items, n, config, cells)->0.contains(x),
    decreases n,
{
    let before = item_keys(primary, path, items, (n - 1) as nat, config, cells)->0;
    let inner = derived_keys(
        primary,
        item_path(path, (n - 1) as nat),
        items[n - 1],
        config,
        cells,
    )->0;
    let own = crate::index::scalar_keys(primary, path, items[n - 1], config);
    if i == n - 1 {
        let at = choose|at: int| 0 <= at < inner.len() && inner[at] == x;
        assert((before + inner + own)[before.len() + at] == x);
    } else {
        lemma_item_keys_contain(primary, path, items, (n - 1) as nat, i, config, cells, x);
        let at = choose|at: int| 0 <= at < before.len() && before[at] == x;
        assert((before + inner + own)[at] == x);
    }
}

/// The walk lists the keys of what a path leads to: where `parts` lead from
/// `j` down to `value` as the walk goes, every key derived from `value` under
/// the path that the walk has there is among the keys derived from `j`.
pub proof fn lemma_walk_lists_subtree(
    primary: Seq<u8>,
    path: Seq<u8>,
    j: Json,
    parts: Seq<Seq<u8>>,
    value: Json,
    config: ConfigView,
    cells: Seq<GeoCell>,
    x: Seq<u8>,
    at_root: bool,
)
    requires
        json_read(j, parts) == Some(value),
        through_members(j, parts, at_root),
        !at_root ==> path.len() > 0,
        at_root && parts.len() > 0 ==> parts[0].len() > 0,
        derived_keys(primary, path, j, config, cells) is Some,
        derived_keys(primary, walked(path, parts), value, config, cells) is Some ==> derived_keys(
            primary,
            walked(path, parts),
            value,
            config,
            cells,
        )->0.contains(x),
    ensures
        derived_keys(primary, walked(path, parts), value, config, cells) is Some,
        derived_keys(primary, path, j, config, cells)->0.contains(x),
    decreases parts.len(),
{
    if parts.len() > 0 {
        let next = child_path(path, parts[0]);
        assert(next.len() > 0);
        match j {
            Json::Object(fields) => {
                let at = field_index(fields, parts[0], 0);
                lemma_field_index(fields, parts[0], 0);
                let child = fields[at].1;
                let own = point_keys(primary, path, j, config, cells)->0;
                let all = field_keys(primary, path, fields, fields.len(), config, cells)->0;
                if derived_keys(primary, child_path(path, fields[at].0), child, config, cells) is Some {
                    lemma_walk_lists_subtree(
                        primary,
                        next,
                        child,
                        parts.skip(1),
                        value,
                        config,
                        cells,
                        x,
                        false,
                    );
                }
                lemma_field_keys_contain(primary, path, fields, fields.len(), at, config, cells, x);
                let i = choose|i: int| 0 <= i < all.len() && all[i] == x;
                assert((own + all)[own.len() + i] == x);
            },
            Json::Array(items) => {
                let at = index_of(parts[0])->0 as int;
                let child = items[at];
                assert(item_path(path, at as nat) =~= next);
                if derived_keys(primary, item_path(path, at as nat), child, config, cells) is Some {
                    lemma_walk_lists_subtree(
                        primary,
                        next,
                        child,
                        parts.skip(1),
                        value,
                        config,
                        cells,
                        x,
                        false,
                    );
                }
                lemma_item_keys_contain(primary, path, items, items.len(), at, config, cells, x);
            },
            _ => {},
        }
    }
}

/// The segments of a path from `from` on, walked from the beginning of the
/// path before `from`, give the path.
pub proof fn lemma_walked_from(path: Seq<u8>, from: int)
    requires
        2 <= from <= path.len(),
        path[from - 1] == 46u8,
    ensures
        walked(path.take(from - 1), split_from(path, 46, from)) == path,
    decreases path.len() - from,
{
    let at = find_byte(path, 46, from);
    lemma_find_byte(path, 46, from);
    let piece = path.subrange(from, at);
    let parts = split_from(path, 46, from);
    assert(parts[0] == piece);
    let child = child_path(path.take(from - 1), piece);
    assert(child =~= path.take(at));
    assert(walked(path.take(from - 1), parts) == walked(child, parts.skip(1)));
    if at >= path.len() {
        assert(parts.skip(1) =~= Seq::<Seq<u8>>::empty());
        assert(path.take(at) =~= path);
        assert(walked(child, Seq::<Seq<u8>>::empty()) == child);
    } else {
        assert(parts.skip(1) =~= split_from(path, 46, at + 1));
        lemma_walked_from(path, at + 1);
    }
}

/// The segments of a path that does not begin with a dot, walked from the
/// root, give the path.
pub proof fn lemma_walked_parts(path: Seq<u8>)
    requires
        path.len() > 0,
        path[0] != 46u8,
    ensures
        walked(Seq::empty(), path_parts(path)) == path,
        path_parts(path).len() > 0,
        path_parts(path)[0].len() > 0,
{
    let at = find_byte(path, 46, 0);
    lemma_find_byte(path, 46, 0);
    let piece = path.subrange(0, at);
    let parts = split_from(path, 46, 0);
    assert(parts[0] == piece);
    let child = child_path(Seq::empty(), piece);
    assert(child =~= path.take(at));
    assert(path_parts(path) == parts);
    assert(walked(Seq::empty(), parts) == walked(child, parts.skip(1)));
    if at >= path.len() {
        assert(parts.skip(1) =~= Seq::<Seq<u8>>::empty());
        assert(path.take(at) =~= path);
        assert(walked(child, Seq::<Seq<u8>>::empty()) == child);
    } else {
        assert(parts.skip(1) =~= split_from(path, 46, at + 1));
        lemma_walked_from(path, at + 1);
    }
}

/// An equality query finds the written document. After a document is written
/// under a key that holds no colon, an equality query for a scalar at a
/// hash-indexed path gives the document, where the path does not begin with a
/// dot and leads to that scalar in the document as the walk of the index
/// maintainer goes: through fields, and through items of arrays by their
/// plain decimal indices.
pub proof fn law_equality_query_finds_field(
    entries: Seq<(Seq<u8>, Option<Json>)>,
    key: Seq<u8>,
    doc: Json,
    path: Seq<u8>,
    value: Json,
    config: ConfigView,
    cells: Seq<GeoCell>,
)
    requires
        unique_keys(entries),
        !key.contains(58u8),
        path.len() > 0,
        path[0] != 46u8,
        config.hash.contains(path),
        is_scalar(value),
        read_path(doc, path) == Some(value),
        through_members(doc, path_parts(path), true),
        write_changes(stored(entries, key), key, doc, config, cells) is Some,
    ensures
        equality_answer(
            applied(entries, write_changes(stored(entries, key), key, doc, config, cells)->0),
            path,
            value,
            config,
        ).contains(doc),
{
    lemma_walked_parts(path);
    let listed = index_key(equality_prefix(), path, value_text(value), key);
    assert(scalar_keys(key, path, value, config)[0] == listed);
    lemma_walk_lists_subtree(
        key,
        Seq::empty(),
        doc,
        path_parts(path),
        value,
        config,
        cells,
        listed,
        true,
    );
    law_equality_query_finds_written(entries, key, doc, path, value, config, cells);
}

/// The keys of an item as a scalar under the path of its array are among the
/// keys of the items.
pub proof fn lemma_item_scalar_keys_contain(
    primary: Seq<u8>,
    path: Seq<u8>,
    items: Seq<Json>,
    n: nat,
    i: int,
    config: ConfigView,
    cells: Seq<GeoCell>,
    x: Seq<u8>,
)
    requires
        0 <= i < n <= items.len(),
        item_keys(primary, path, items, n, config, cells) is Some,
        scalar_keys(primary, path, items[i], config).contains(x),
    ensures
        item_keys(primary, path, items, n, config, cells)->0.contains(x),
    decreases n,
{
    let before = item_keys(primary, path, items, (n - 1) as nat, config, cells)->0;
    let inner = derived_keys(
        primary,
        item_path(path, (n - 1) as nat),
        items[n - 1],
        config,
        cells,
    )->0;
    let own = scalar_keys(primary, path, items[n - 1], config);
    if i == n - 1 {
        let at = choose|at: int| 0 <= at < own.len() && own[at] == x;
        assert((before + inner + own)[before.len() + inner.len() + at] == x);
    } else {
        lemma_item_scalar_keys_contain(primary, path, items, (n - 1) as nat, i, config, cells, x);
        let at = choose|at: int| 0 <= at < before.len() && before[at] == x;
        assert((before + inner + own)[at] == x);
    }
}

/// An equality query finds the written document by an item of its array.
/// After a document is written under a key that holds no colon, an equality
/// query for a scalar at a hash-indexed path gives the document, where the
/// path does not begin with a dot and leads in the document, as the walk of
/// the index maintainer goes, to an array that holds that scalar.
pub proof fn law_equality_query_finds_item(
    entries: Seq<(Seq<u8>, Option<Json>)>,
    key: Seq<u8>,
    doc: Json,
    path: Seq<u8>,
    items: Seq<Json>,
    value: Json,
    config: ConfigView,
    cells: Seq<GeoCell>,
)
    requires
        unique_keys(entries),
        !key.contains(58u8),
        path.len() > 0,
        path[0] != 46u8,
        config.hash.contains(path),
        is_scalar(value),
        items.contains(value),
        read_path(doc, path) == Some(Json::Array(items)),
        through_members(doc, path_parts(path), true),
        write_changes(stored(entries, key), key, doc, config, cells) is Some,
    ensures
        equality_answer(
            applied(entries, write_changes(stored(entries, key), key, doc, config, cells)->0),
            path,
            value,
            config,
        ).contains(doc),
{
    lemma_walked_parts(path);
    let listed = index_key(equality_prefix(), path, value_text(value), key);
    let i = choose|i: int| 0 <= i < items.len() && items[i] == value;
    assert(scalar_keys(key, path, items[i], config)[0] == listed);
    if derived_keys(key, path, Json::Array(items), config, cells) is Some {
        lemma_item_scalar_keys_contain(key, path, items, items.len(), i, config, cells, listed);
    }
    lemma_walk_lists_subtree(
        key,
        Seq::empty(),
        doc,
        path_parts(path),
        Json::Array(items),
        config,
        cells,
        listed,
        true,
    );
    law_equality_query_finds_written(entries, key, doc, path, value, config, cells);
}

} // verus!
