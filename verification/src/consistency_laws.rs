//! Laws of index consistency: in a store that is as the write path leaves
//! it, the index entries of a primary key are exactly those of its document,
//! before and after every write and removal.
use crate::bulk_laws::{
    all_stored, derives, entry_is_consistent, is_consistent, lemma_entry_of_stored,
    lemma_stored_at,
};
use crate::codec::sort_encoding;
use crate::config::ConfigView;
use crate::index::{
    both, child_path, delete_changes, derived_keys, encodable, field_keys, index_keys,
    item_keys, item_path, point_keys, removes, scalar_keys, stale_keys, write_changes, Change,
    GeoCell,
};
use crate::keys::{equality_prefix, hex_text, index_key, is_reserved, sorted_prefix};
use crate::store::{applied, stored, unique_keys};
use crate::store_laws::{lemma_applied, overlay};
use crate::text::{is_scalar, value_text};
use crate::value::Json;
use crate::write_laws::{
    all_keys_of, is_index_key_of, lemma_derived_keys_of, lemma_index_key_of_reserved, lemma_keys_of_different_primaries, lemma_overlay_concat,
    lemma_overlay_removes, lemma_write_overlay,
};
use vstd::prelude::*;
use vstd::utf8::valid_utf8;

verus! {

/// Whether no user's document stands under a key with a colon.
pub open spec fn plain_keys(entries: Seq<(Seq<u8>, Option<Json>)>) -> bool {
    forall|i: int|
        0 <= i < entries.len() && !is_reserved(#[trigger] entries[i].0) ==> !entries[i].0.contains(
            58u8,
        )
}

/// Whether every index entry in the store for the primary key `key` is one
/// of the document that is stored under `key`.
pub open spec fn index_is_current(
    entries: Seq<(Seq<u8>, Option<Json>)>,
    key: Seq<u8>,
    config: ConfigView,
    cells: Seq<GeoCell>,
) -> bool {
    forall|y: Seq<u8>| #[trigger]
        is_index_key_of(y, key) && stored(entries, y) is Some ==> stale_keys(
            stored(entries, key),
            key,
            config,
            cells,
        ) is Some && stale_keys(stored(entries, key), key, config, cells)->0.contains(y)
}

/// What a removal leaves under each key: no entry under the key and under
/// the keys of the index entries; every other key as it was.
pub proof fn lemma_delete_overlay(
    before: Option<Option<Json>>,
    gone: Seq<Seq<u8>>,
    key: Seq<u8>,
    x: Seq<u8>,
)
    ensures
        ({
            let cs = removes(gone).push(Change::Remove { key });
            overlay(before, cs, cs.len(), x) == (if x == key || gone.contains(x) {
                None
            } else {
                before
            })
        }),
{
    let first = removes(gone);
    let last = seq![Change::Remove { key }];
    assert(first.push(Change::Remove { key }) =~= first + last);
    lemma_overlay_concat(before, first, last, 1, x);
    lemma_overlay_removes(before, gone, gone.len(), x);
    assert(gone.take(gone.len() as int) =~= gone);
    assert(last[0] == Change::Remove { key });
    assert(overlay(overlay(before, first, first.len(), x), last, 0, x) == overlay(
        before,
        first,
        first.len(),
        x,
    ));
}

/// In a consistent store whose primary keys hold no colon, every index
/// entry for a primary key without a colon is one of the document that is
/// stored under that key.
pub proof fn lemma_consistent_is_current(
    entries: Seq<(Seq<u8>, Option<Json>)>,
    key: Seq<u8>,
    config: ConfigView,
    cells: Seq<GeoCell>,
)
    requires
        is_consistent(entries, config, cells),
        plain_keys(entries),
        !key.contains(58u8),
    ensures
        index_is_current(entries, key, config, cells),
{
    assert forall|y: Seq<u8>| #[trigger]
        is_index_key_of(y, key) && stored(entries, y) is Some implies stale_keys(
        stored(entries, key),
        key,
        config,
        cells,
    ) is Some && stale_keys(stored(entries, key), key, config, cells)->0.contains(y) by {
        let i = lemma_entry_of_stored(entries, y);
        lemma_index_key_of_reserved(y, key);
        assert(entry_is_consistent(entries, i, config, cells));
        let d = choose|d: int|
            0 <= d < entries.len() && d < entries.len() && #[trigger] derives(
                entries[d],
                config,
                cells,
                y,
            );
        let owner = entries[d].0;
        lemma_stored_at(entries, d);
        lemma_derived_keys_of(owner, Seq::empty(), entries[d].1->0, config, cells);
        let theirs = index_keys(owner, entries[d].1->0, config, cells)->0;
        let m = choose|m: int| 0 <= m < theirs.len() && theirs[m] == y;
        assert(is_index_key_of(theirs[m], owner));
        lemma_keys_of_different_primaries(y, key, owner);
    }
}

/// A write leaves exactly the index entries of the written document. Where
/// every index entry in the store for the primary key is one of the document
/// stored under it, as in a store that holds nothing for the key yet, then
/// after a write the document is stored under its key; a key of an index for
/// the primary key has an entry, with an empty payload, exactly where the
/// derivation from the written document gives it; and what is stored under
/// every other key is what was.
pub proof fn law_write_derives_exactly(
    entries: Seq<(Seq<u8>, Option<Json>)>,
    key: Seq<u8>,
    value: Json,
    config: ConfigView,
    cells: Seq<GeoCell>,
    x: Seq<u8>,
)
    requires
        unique_keys(entries),
        index_is_current(entries, key, config, cells),
        write_changes(stored(entries, key), key, value, config, cells) is Some,
    ensures
        ({
            let after = applied(
                entries,
                write_changes(stored(entries, key), key, value, config, cells)->0,
            );
            let made = index_keys(key, value, config, cells)->0;
            &&& stored(after, key) == Some(Some(value))
            &&& is_index_key_of(x, key) ==> stored(after, x) == (if made.contains(x) {
                Some(None::<Json>)
            } else {
                None
            })
            &&& made.contains(x) ==> is_index_key_of(x, key)
            &&& x != key && !is_index_key_of(x, key) ==> stored(after, x) == stored(entries, x)
        }),
{
    let cs = write_changes(stored(entries, key), key, value, config, cells)->0;
    let made = index_keys(key, value, config, cells)->0;
    let gone = stale_keys(stored(entries, key), key, config, cells)->0;
    lemma_applied(entries, cs, x);
    lemma_applied(entries, cs, key);
    lemma_write_overlay(stored(entries, x), gone, key, value, made, x);
    lemma_write_overlay(stored(entries, key), gone, key, value, made, key);
    lemma_keys_are_of(key, value, config, cells);
    lemma_stale_are_of(stored(entries, key), key, config, cells);
    if made.contains(key) {
        let i = choose|i: int| 0 <= i < made.len() && made[i] == key;
        assert(is_index_key_of(made[i], key));
        lemma_index_key_of_reserved(key, key);
    }
    if made.contains(x) {
        let i = choose|i: int| 0 <= i < made.len() && made[i] == x;
        assert(is_index_key_of(made[i], key));
    }
    if gone.contains(x) {
        let i = choose|i: int| 0 <= i < gone.len() && gone[i] == x;
        assert(is_index_key_of(gone[i], key));
    }
    if is_index_key_of(x, key) {
        lemma_index_key_of_reserved(x, key);
    }
}

/// A removal leaves nothing of the document. Where every index entry in the
/// store for the primary key is one of the document stored under it, then
/// after a removal no entry is stored under the key, none under any key of
/// an index for the primary key, and what is stored under every other key is
/// what was.
pub proof fn law_delete_leaves_nothing_of_key(
    entries: Seq<(Seq<u8>, Option<Json>)>,
    key: Seq<u8>,
    config: ConfigView,
    cells: Seq<GeoCell>,
    x: Seq<u8>,
)
    requires
        unique_keys(entries),
        index_is_current(entries, key, config, cells),
        delete_changes(stored(entries, key), key, config, cells) is Some,
    ensures
        ({
            let after = applied(
                entries,
                delete_changes(stored(entries, key), key, config, cells)->0,
            );
            &&& unique_keys(after)
            &&& stored(after, key) is None
            &&& is_index_key_of(x, key) ==> stored(after, x) is None
            &&& x != key && !is_index_key_of(x, key) ==> stored(after, x) == stored(entries, x)
        }),
{
    let cs = delete_changes(stored(entries, key), key, config, cells)->0;
    let gone = stale_keys(stored(entries, key), key, config, cells)->0;
    lemma_applied(entries, cs, x);
    lemma_applied(entries, cs, key);
    lemma_stale_are_of(stored(entries, key), key, config, cells);
    if stored(entries, key) is Some {
        lemma_delete_overlay(stored(entries, x), gone, key, x);
        lemma_delete_overlay(stored(entries, key), gone, key, key);
        if gone.contains(x) {
            let i = choose|i: int| 0 <= i < gone.len() && gone[i] == x;
            assert(is_index_key_of(gone[i], key));
        }
    } else {
        assert(gone =~= Seq::<Seq<u8>>::empty());
    }
}

/// The keys of the index entries of a document are keys of an index for its
/// primary key.
pub proof fn lemma_keys_are_of(key: Seq<u8>, value: Json, config: ConfigView, cells: Seq<GeoCell>)
    ensures
        index_keys(key, value, config, cells) is Some ==> all_keys_of(
            index_keys(key, value, config, cells)->0,
            key,
        ),
{
    lemma_derived_keys_of(key, Seq::empty(), value, config, cells);
}

/// The keys of the index entries to take out are keys of an index for the
/// primary key.
pub proof fn lemma_stale_are_of(
    before: Option<Option<Json>>,
    key: Seq<u8>,
    config: ConfigView,
    cells: Seq<GeoCell>,
)
    ensures
        stale_keys(before, key, config, cells) is Some ==> all_keys_of(
            stale_keys(before, key, config, cells)->0,
            key,
        ),
{
    match before {
        Some(Some(old)) => {
            lemma_derived_keys_of(key, Seq::empty(), old, config, cells);
        },
        _ => {},
    }
}

/// The empty store is consistent, and no primary key in it holds a colon.
pub proof fn law_empty_store_is_consistent(config: ConfigView, cells: Seq<GeoCell>)
    ensures
        is_consistent(Seq::empty(), config, cells),
        plain_keys(Seq::empty()),
{
}

/// A write over a consistent store succeeds exactly where the new document
/// allows it: the key lies under no reserved prefix, every scalar of the
/// document under a sorted-indexed path has a sort encoding, and every point
/// of it has a cell among those handed in.
pub proof fn law_write_over_consistent_is_owed(
    entries: Seq<(Seq<u8>, Option<Json>)>,
    key: Seq<u8>,
    value: Json,
    config: ConfigView,
    cells: Seq<GeoCell>,
)
    requires
        is_consistent(entries, config, cells),
    ensures
        write_changes(stored(entries, key), key, value, config, cells) is Some <==> !is_reserved(
            key,
        ) && encodable(value, config) && index_keys(key, value, config, cells) is Some,
        delete_changes(stored(entries, key), key, config, cells) is Some <==> !is_reserved(key),
{
    if !is_reserved(key) && stored(entries, key) is Some {
        let i = lemma_entry_of_stored(entries, key);
        assert(entry_is_consistent(entries, i, config, cells));
    }
}

/// Whether `after` holds, outside the key `key` and the keys of an index for
/// it, what `entries` holds, and of the keys of an index for `key` only
/// `made`, each with an empty payload.
pub open spec fn left_as(
    entries: Seq<(Seq<u8>, Option<Json>)>,
    after: Seq<(Seq<u8>, Option<Json>)>,
    key: Seq<u8>,
    made: Seq<Seq<u8>>,
) -> bool {
    &&& forall|x: Seq<u8>|
        x != key && !is_index_key_of(x, key) ==> #[trigger] stored(after, x) == stored(entries, x)
    &&& forall|x: Seq<u8>|
        is_index_key_of(x, key) && !made.contains(x) ==> #[trigger] stored(after, x) is None
    &&& all_stored(after, made)
    &&& all_keys_of(made, key)
}

/// An entry that a write or a removal under `key` left as it was is
/// consistent in the store afterwards.
proof fn lemma_kept_entry_is_consistent(
    entries: Seq<(Seq<u8>, Option<Json>)>,
    after: Seq<(Seq<u8>, Option<Json>)>,
    key: Seq<u8>,
    made: Seq<Seq<u8>>,
    config: ConfigView,
    cells: Seq<GeoCell>,
    i: int,
)
    requires
        is_consistent(entries, config, cells),
        plain_keys(entries),
        unique_keys(after),
        !key.contains(58u8),
        !is_reserved(key),
        left_as(entries, after, key, made),
        0 <= i < after.len(),
        after[i].0 != key,
        !made.contains(after[i].0),
    ensures
        entry_is_consistent(after, i, config, cells),
        !is_reserved(after[i].0) ==> !after[i].0.contains(58u8),
{
    let x = after[i].0;
    lemma_stored_at(after, i);
    assert(!is_index_key_of(x, key));
    let j = lemma_entry_of_stored(entries, x);
    assert(entry_is_consistent(entries, j, config, cells));
    if is_reserved(x) {
        let d = choose|d: int|
            0 <= d < entries.len() && d < entries.len() && #[trigger] derives(
                entries[d],
                config,
                cells,
                x,
            );
        lemma_stored_at(entries, d);
        let owner = entries[d].0;
        lemma_keys_are_of(owner, entries[d].1->0, config, cells);
        let theirs = index_keys(owner, entries[d].1->0, config, cells)->0;
        let m = choose|m: int| 0 <= m < theirs.len() && theirs[m] == x;
        assert(is_index_key_of(theirs[m], owner));
        assert(owner != key);
        if is_index_key_of(owner, key) {
            lemma_index_key_of_reserved(owner, key);
        }
        assert(stored(after, owner) == Some(entries[d].1));
        let moved = lemma_entry_of_stored(after, owner);
        assert(derives(after[moved], config, cells, x));
    } else {
        assert(entries[j].0 == x);
        let theirs = index_keys(x, entries[j].1->0, config, cells)->0;
        lemma_keys_are_of(x, entries[j].1->0, config, cells);
        assert forall|m: int| 0 <= m < theirs.len() implies stored(after, #[trigger] theirs[m])
            == Some(None::<Json>) by {
            assert(stored(entries, theirs[m]) == Some(None::<Json>));
            assert(is_index_key_of(theirs[m], x));
            if is_index_key_of(theirs[m], key) {
                lemma_keys_of_different_primaries(theirs[m], x, key);
            }
            lemma_index_key_of_reserved(theirs[m], x);
        }
    }
}

/// Every entry of the store after a write is consistent in it.
proof fn lemma_entry_after_write(
    entries: Seq<(Seq<u8>, Option<Json>)>,
    after: Seq<(Seq<u8>, Option<Json>)>,
    key: Seq<u8>,
    doc: Json,
    made: Seq<Seq<u8>>,
    config: ConfigView,
    cells: Seq<GeoCell>,
    i: int,
)
    requires
        is_consistent(entries, config, cells),
        plain_keys(entries),
        unique_keys(after),
        valid_utf8(key),
        !key.contains(58u8),
        !is_reserved(key),
        encodable(doc, config),
        index_keys(key, doc, config, cells) == Some(made),
        stored(after, key) == Some(Some(doc)),
        left_as(entries, after, key, made),
        0 <= i < after.len(),
    ensures
        entry_is_consistent(after, i, config, cells),
        !is_reserved(after[i].0) ==> !after[i].0.contains(58u8),
{
    let x = after[i].0;
    lemma_stored_at(after, i);
    if made.contains(x) {
        let m = choose|m: int| 0 <= m < made.len() && made[m] == x;
        assert(is_index_key_of(made[m], key));
        lemma_index_key_of_reserved(x, key);
        assert(stored(after, made[m]) == Some(None::<Json>));
        let home = lemma_entry_of_stored(after, key);
        assert(derives(after[home], config, cells, x));
    } else if x == key {
    } else {
        lemma_kept_entry_is_consistent(entries, after, key, made, config, cells, i);
    }
}

/// What a write leaves is what was, but for the key and the keys of an index
/// for it.
proof fn lemma_write_leaves_as(
    entries: Seq<(Seq<u8>, Option<Json>)>,
    key: Seq<u8>,
    doc: Json,
    config: ConfigView,
    cells: Seq<GeoCell>,
)
    requires
        unique_keys(entries),
        index_is_current(entries, key, config, cells),
        write_changes(stored(entries, key), key, doc, config, cells) is Some,
    ensures
        left_as(
            entries,
            applied(entries, write_changes(stored(entries, key), key, doc, config, cells)->0),
            key,
            index_keys(key, doc, config, cells)->0,
        ),
{
    let after = applied(entries, write_changes(stored(entries, key), key, doc, config, cells)->0);
    let made = index_keys(key, doc, config, cells)->0;
    lemma_keys_are_of(key, doc, config, cells);
    assert forall|x: Seq<u8>| x != key && !is_index_key_of(x, key) implies #[trigger] stored(
        after,
        x,
    ) == stored(entries, x) by {
        law_write_derives_exactly(entries, key, doc, config, cells, x);
    }
    assert forall|x: Seq<u8>| is_index_key_of(x, key) && !made.contains(x) implies #[trigger] stored(
        after,
        x,
    ) is None by {
        law_write_derives_exactly(entries, key, doc, config, cells, x);
    }
    assert forall|m: int| 0 <= m < made.len() implies stored(after, #[trigger] made[m]) == Some(
        None::<Json>,
    ) by {
        assert(made.contains(made[m]));
        law_write_derives_exactly(entries, key, doc, config, cells, made[m]);
    }
}

/// What a removal leaves is what was, but for the key and the keys of an
/// index for it, of which none is left.
proof fn lemma_delete_leaves_as(
    entries: Seq<(Seq<u8>, Option<Json>)>,
    key: Seq<u8>,
    config: ConfigView,
    cells: Seq<GeoCell>,
)
    requires
        unique_keys(entries),
        index_is_current(entries, key, config, cells),
        delete_changes(stored(entries, key), key, config, cells) is Some,
    ensures
        left_as(
            entries,
            applied(entries, delete_changes(stored(entries, key), key, config, cells)->0),
            key,
            Seq::empty(),
        ),
{
    let after = applied(entries, delete_changes(stored(entries, key), key, config, cells)->0);
    assert forall|x: Seq<u8>| x != key && !is_index_key_of(x, key) implies #[trigger] stored(
        after,
        x,
    ) == stored(entries, x) by {
        law_delete_leaves_nothing_of_key(entries, key, config, cells, x);
    }
    assert forall|x: Seq<u8>| is_index_key_of(x, key) implies #[trigger] stored(after, x)
        is None by {
        law_delete_leaves_nothing_of_key(entries, key, config, cells, x);
    }
}

/// A write keeps the store consistent. Where a store is as the write path
/// leaves it, with no colon in a primary key, and a document is written
/// under a UTF-8 key without a colon, over another document or not, then the
/// document is stored under its key; a key of an index for the primary key
/// has an entry, with an empty payload, exactly where the derivation from the
/// written document gives it; what is stored under every other key is what
/// was; and the store is again as the write path leaves it, with no colon in
/// a primary key. With the law on removals, so is every store that is built
/// from the empty store by such writes and removals.
pub proof fn law_write_keeps_consistency(
    entries: Seq<(Seq<u8>, Option<Json>)>,
    key: Seq<u8>,
    doc: Json,
    config: ConfigView,
    cells: Seq<GeoCell>,
    x: Seq<u8>,
)
    requires
        is_consistent(entries, config, cells),
        plain_keys(entries),
        valid_utf8(key),
        !key.contains(58u8),
        write_changes(stored(entries, key), key, doc, config, cells) is Some,
    ensures
        ({
            let after = applied(
                entries,
                write_changes(stored(entries, key), key, doc, config, cells)->0,
            );
            let made = index_keys(key, doc, config, cells)->0;
            &&& stored(after, key) == Some(Some(doc))
            &&& is_index_key_of(x, key) ==> stored(after, x) == (if made.contains(x) {
                Some(None::<Json>)
            } else {
                None
            })
            &&& x != key && !is_index_key_of(x, key) ==> stored(after, x) == stored(entries, x)
            &&& is_consistent(after, config, cells)
            &&& plain_keys(after)
        }),
{
    let after = applied(entries, write_changes(stored(entries, key), key, doc, config, cells)->0);
    let made = index_keys(key, doc, config, cells)->0;
    lemma_consistent_is_current(entries, key, config, cells);
    lemma_write_leaves_as(entries, key, doc, config, cells);
    law_write_derives_exactly(entries, key, doc, config, cells, key);
    law_write_derives_exactly(entries, key, doc, config, cells, x);
    lemma_applied(
        entries,
        write_changes(stored(entries, key), key, doc, config, cells)->0,
        key,
    );
    assert forall|i: int| 0 <= i < after.len() implies #[trigger] entry_is_consistent(
        after,
        i,
        config,
        cells,
    ) by {
        lemma_entry_after_write(entries, after, key, doc, made, config, cells, i);
    }
    assert forall|i: int| 0 <= i < after.len() && !is_reserved(#[trigger] after[i].0) implies
        !after[i].0.contains(58u8) by {
        lemma_entry_after_write(entries, after, key, doc, made, config, cells, i);
    }
}

/// Whether a configuration names every path that another names.
pub open spec fn covers(wider: ConfigView, config: ConfigView) -> bool {
    &&& config.hash.subset_of(wider.hash)
    &&& config.sorted.subset_of(wider.sorted)
    &&& config.geo.subset_of(wider.geo)
}

/// Whether every one of `keys` is among `more`.
pub open spec fn all_among(keys: Seq<Seq<u8>>, more: Seq<Seq<u8>>) -> bool {
    forall|i: int| 0 <= i < keys.len() ==> more.contains(#[trigger] keys[i])
}

/// Keys that are among others stay so when both are put one behind the
/// other.
proof fn lemma_among_both(
    a: Option<Seq<Seq<u8>>>,
    b: Option<Seq<Seq<u8>>>,
    c: Option<Seq<Seq<u8>>>,
    d: Option<Seq<Seq<u8>>>,
)
    requires
        a is Some && c is Some ==> all_among(a->0, c->0),
        b is Some && d is Some ==> all_among(b->0, d->0),
    ensures
        both(a, b) is Some && both(c, d) is Some ==> all_among(both(a, b)->0, both(c, d)->0),
{
    if both(a, b) is Some && both(c, d) is Some {
        let x = a->0 + b->0;
        let y = c->0 + d->0;
        assert forall|i: int| 0 <= i < x.len() implies y.contains(#[trigger] x[i]) by {
            if i < a->0.len() {
                assert(x[i] == a->0[i]);
                let at = choose|at: int| 0 <= at < c->0.len() && c->0[at] == x[i];
                assert(y[at] == x[i]);
            } else {
                assert(x[i] == b->0[i - a->0.len()]);
                let at = choose|at: int| 0 <= at < d->0.len() && d->0[at] == x[i];
                assert(y[c->0.len() + at] == x[i]);
            }
        }
    }
}

/// The keys of a scalar under a configuration are among its keys under a
/// wider one.
proof fn lemma_scalar_keys_among(
    primary: Seq<u8>,
    path: Seq<u8>,
    j: Json,
    config: ConfigView,
    wider: ConfigView,
)
    requires
        covers(wider, config),
    ensures
        all_among(scalar_keys(primary, path, j, config), scalar_keys(primary, path, j, wider)),
{
    let few = scalar_keys(primary, path, j, config);
    let many = scalar_keys(primary, path, j, wider);
    assert forall|i: int| 0 <= i < few.len() implies many.contains(#[trigger] few[i]) by {
        let e = index_key(equality_prefix(), path, value_text(j), primary);
        let o = index_key(sorted_prefix(), path, hex_text(sort_encoding(j)->0), primary);
        if few[i] == e && config.hash.contains(path) && is_scalar(j) {
            assert(many[0] == e);
        } else {
            assert(few[i] == o);
            assert(config.sorted.contains(path) && sort_encoding(j) is Some);
            assert(many[many.len() - 1] == o);
        }
    }
}

/// The keys derived from a document under a configuration are among those
/// derived under a wider one.
proof fn lemma_derived_among(
    primary: Seq<u8>,
    path: Seq<u8>,
    j: Json,
    config: ConfigView,
    wider: ConfigView,
    cells: Seq<GeoCell>,
)
    requires
        covers(wider, config),
    ensures
        derived_keys(primary, path, j, config, cells) is Some && derived_keys(
            primary,
            path,
            j,
            wider,
            cells,
        ) is Some ==> all_among(
            derived_keys(primary, path, j, config, cells)->0,
            derived_keys(primary, path, j, wider, cells)->0,
        ),
    decreases j, 0nat,
{
    match j {
        Json::Object(fields) => {
            let few = point_keys(primary, path, j, config, cells);
            let many = point_keys(primary, path, j, wider, cells);
            if few is Some && many is Some {
                assert forall|i: int| 0 <= i < few->0.len() implies many->0.contains(
                    #[trigger] few->0[i],
                ) by {
                    assert(many->0[0] == few->0[i]);
                }
            }
            lemma_fields_among(primary, path, fields, fields.len(), config, wider, cells);
            lemma_among_both(
                few,
                field_keys(primary, path, fields, fields.len(), config, cells),
                many,
                field_keys(primary, path, fields, fields.len(), wider, cells),
            );
        },
        Json::Array(items) => {
            lemma_items_among(primary, path, items, items.len(), config, wider, cells);
        },
        _ => {
            lemma_scalar_keys_among(primary, path, j, config, wider);
        },
    }
}

/// The same for the first `n` fields of an object.
proof fn lemma_fields_among(
    primary: Seq<u8>,
    path: Seq<u8>,
    fields: Seq<(Seq<u8>, Json)>,
    n: nat,
    config: ConfigView,
    wider: ConfigView,
    cells: Seq<GeoCell>,
)
    requires
        covers(wider, config),
        n <= fields.len(),
    ensures
        field_keys(primary, path, fields, n, config, cells) is Some && field_keys(
            primary,
            path,
            fields,
            n,
            wider,
            cells,
        ) is Some ==> all_among(
            field_keys(primary, path, fields, n, config, cells)->0,
            field_keys(primary, path, fields, n, wider, cells)->0,
        ),
    decreases fields, n,
{
    if n > 0 {
        let at = child_path(path, fields[n - 1].0);
        lemma_fields_among(primary, path, fields, (n - 1) as nat, config, wider, cells);
        lemma_derived_among(primary, at, fields[n - 1].1, config, wider, cells);
        lemma_among_both(
            field_keys(primary, path, fields, (n - 1) as nat, config, cells),
            derived_keys(primary, at, fields[n - 1].1, config, cells),
            field_keys(primary, path, fields, (n - 1) as nat, wider, cells),
            derived_keys(primary, at, fields[n - 1].1, wider, cells),
        );
    }
}

/// The same for the first `n` items of an array.
proof fn lemma_items_among(
    primary: Seq<u8>,
    path: Seq<u8>,
    items: Seq<Json>,
    n: nat,
    config: ConfigView,
    wider: ConfigView,
    cells: Seq<GeoCell>,
)
    requires
        covers(wider, config),
        n <= items.len(),
    ensures
        item_keys(primary, path, items, n, config, cells) is Some && item_keys(
            primary,
            path,
            items,
            n,
            wider,
            cells,
        ) is Some ==> all_among(
            item_keys(primary, path, items, n, config, cells)->0,
            item_keys(primary, path, items, n, wider, cells)->0,
        ),
    decreases items, n,
{
    if n > 0 {
        let at = item_path(path, (n - 1) as nat);
        lemma_items_among(primary, path, items, (n - 1) as nat, config, wider, cells);
        lemma_derived_among(primary, at, items[n - 1], config, wider, cells);
        let few = item_keys(primary, path, items, (n - 1) as nat, config, cells);
        let many = item_keys(primary, path, items, (n - 1) as nat, wider, cells);
        let few_inner = derived_keys(primary, at, items[n - 1], config, cells);
        let many_inner = derived_keys(primary, at, items[n - 1], wider, cells);
        lemma_among_both(few, few_inner, many, many_inner);
        lemma_scalar_keys_among(primary, path, items[n - 1], config, wider);
        lemma_among_both(
            both(few, few_inner),
            Some(scalar_keys(primary, path, items[n - 1], config)),
            both(many, many_inner),
            Some(scalar_keys(primary, path, items[n - 1], wider)),
        );
    }
}

/// In a store that is consistent under a configuration, the index entries
/// for a primary key are among those that a wider configuration derives from
/// the document stored under it.
proof fn lemma_consistent_is_current_under_wider(
    entries: Seq<(Seq<u8>, Option<Json>)>,
    key: Seq<u8>,
    config: ConfigView,
    wider: ConfigView,
    cells: Seq<GeoCell>,
)
    requires
        is_consistent(entries, config, cells),
        plain_keys(entries),
        !key.contains(58u8),
        covers(wider, config),
        stale_keys(stored(entries, key), key, wider, cells) is Some,
    ensures
        index_is_current(entries, key, wider, cells),
{
    lemma_consistent_is_current(entries, key, config, cells);
    let few = stale_keys(stored(entries, key), key, config, cells);
    let many = stale_keys(stored(entries, key), key, wider, cells);
    match stored(entries, key) {
        Some(Some(old)) => {
            lemma_derived_among(key, Seq::empty(), old, config, wider, cells);
        },
        _ => {},
    }
    assert forall|y: Seq<u8>| #[trigger]
        is_index_key_of(y, key) && stored(entries, y) is Some implies many->0.contains(y) by {
        assert(few is Some && few->0.contains(y));
        let i = choose|i: int| 0 <= i < few->0.len() && few->0[i] == y;
        assert(many->0.contains(few->0[i]));
    }
}

/// A removal keeps the store consistent, also under a wider configuration.
/// Where a store is as the write path leaves it under a configuration, with
/// no colon in a primary key, and a key without a colon is removed under a
/// configuration that names every path of the first, then no entry is left
/// under the key nor under any key of an index for it, what is stored under
/// every other key is what was, and the store is again as the write path
/// leaves it under the first configuration.
pub proof fn law_delete_keeps_consistency(
    entries: Seq<(Seq<u8>, Option<Json>)>,
    key: Seq<u8>,
    config: ConfigView,
    wider: ConfigView,
    cells: Seq<GeoCell>,
    x: Seq<u8>,
)
    requires
        is_consistent(entries, config, cells),
        plain_keys(entries),
        !key.contains(58u8),
        covers(wider, config),
        delete_changes(stored(entries, key), key, wider, cells) is Some,
    ensures
        ({
            let after = applied(
                entries,
                delete_changes(stored(entries, key), key, wider, cells)->0,
            );
            &&& stored(after, key) is None
            &&& is_index_key_of(x, key) ==> stored(after, x) is None
            &&& x != key && !is_index_key_of(x, key) ==> stored(after, x) == stored(entries, x)
            &&& is_consistent(after, config, cells)
            &&& plain_keys(after)
        }),
{
    let after = applied(entries, delete_changes(stored(entries, key), key, wider, cells)->0);
    lemma_consistent_is_current_under_wider(entries, key, config, wider, cells);
    lemma_delete_leaves_as(entries, key, wider, cells);
    law_delete_leaves_nothing_of_key(entries, key, wider, cells, key);
    law_delete_leaves_nothing_of_key(entries, key, wider, cells, x);
    assert forall|i: int| 0 <= i < after.len() implies #[trigger] entry_is_consistent(
        after,
        i,
        config,
        cells,
    ) by {
        lemma_stored_at(after, i);
        lemma_kept_entry_is_consistent(entries, after, key, Seq::empty(), config, cells, i);
    }
    assert forall|i: int| 0 <= i < after.len() && !is_reserved(#[trigger] after[i].0) implies
        !after[i].0.contains(58u8) by {
        lemma_stored_at(after, i);
        lemma_kept_entry_is_consistent(entries, after, key, Seq::empty(), config, cells, i);
    }
}

} // verus!
