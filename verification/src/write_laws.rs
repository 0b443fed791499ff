//! Laws of the write path: what a write and a removal leave in the store.
use crate::config::ConfigView;
use crate::index::{
    both, delete_changes, derived_keys, field_keys, index_keys, item_keys, point_keys, puts,
    removes, scalar_keys, stale_keys, write_changes, Change, GeoCell,
};
use crate::keys::{equality_prefix, geo_prefix, index_key, is_reserved, sorted_prefix};
use crate::store::{applied, stored, unique_keys};
use crate::store_laws::{lemma_applied, overlay};
use crate::value::Json;
use vstd::prelude::*;

verus! {

/// Whether every one of `keys` lies under a reserved prefix.
pub open spec fn all_reserved(keys: Seq<Seq<u8>>) -> bool {
    forall|i: int| 0 <= i < keys.len() ==> is_reserved(#[trigger] keys[i])
}

/// A key of an index lies under the prefix of its family.
pub proof fn lemma_index_key_reserved(
    family: Seq<u8>,
    path: Seq<u8>,
    middle: Seq<u8>,
    primary: Seq<u8>,
)
    requires
        family == equality_prefix() || family == sorted_prefix() || family == geo_prefix(),
    ensures
        is_reserved(index_key(family, path, middle, primary)),
{
    let key = index_key(family, path, middle, primary);
    assert(key.subrange(0, family.len() as int) =~= family);
}

/// Keys that are reserved together are reserved when put one behind the
/// other.
pub proof fn lemma_all_reserved_both(a: Option<Seq<Seq<u8>>>, b: Option<Seq<Seq<u8>>>)
    requires
        a is Some ==> all_reserved(a->0),
        b is Some ==> all_reserved(b->0),
    ensures
        both(a, b) is Some ==> all_reserved(both(a, b)->0),
{
    if both(a, b) is Some {
        let x = a->0;
        let y = b->0;
        assert forall|i: int| 0 <= i < (x + y).len() implies is_reserved(#[trigger] (x + y)[i]) by {
            if i < x.len() {
                assert((x + y)[i] == x[i]);
            } else {
                assert((x + y)[i] == y[i - x.len()]);
            }
        }
    }
}

/// The keys of a scalar lie under reserved prefixes.
pub proof fn lemma_scalar_keys_reserved(
    primary: Seq<u8>,
    path: Seq<u8>,
    j: Json,
    config: ConfigView,
)
    ensures
        all_reserved(scalar_keys(primary, path, j, config)),
{
    let keys = scalar_keys(primary, path, j, config);
    assert forall|i: int| 0 <= i < keys.len() implies is_reserved(#[trigger] keys[i]) by {
        lemma_index_key_reserved(
            equality_prefix(),
            path,
            crate::text::value_text(j),
            primary,
        );
        if crate::codec::sort_encoding(j) is Some {
            lemma_index_key_reserved(
                sorted_prefix(),
                path,
                crate::keys::hex_text(crate::codec::sort_encoding(j)->0),
                primary,
            );
        }
    }
}

/// Every key of an index entry of a document lies under a reserved prefix:
/// no index entry is taken for a user's document.
pub proof fn lemma_derived_reserved(
    primary: Seq<u8>,
    path: Seq<u8>,
    j: Json,
    config: ConfigView,
    cells: Seq<GeoCell>,
)
    ensures
        derived_keys(primary, path, j, config, cells) is Some ==> all_reserved(
            derived_keys(primary, path, j, config, cells)->0,
        ),
    decreases j, 0nat,
{
    match j {
        Json::Object(fields) => {
            let own = point_keys(primary, path, j, config, cells);
            if own is Some {
                assert forall|i: int| 0 <= i < own->0.len() implies is_reserved(
                    #[trigger] own->0[i],
                ) by {
                    let point = crate::index::geo_point_of(j)->0;
                    lemma_index_key_reserved(
                        geo_prefix(),
                        path,
                        crate::index::cell_of(cells, point)->0,
                        primary,
                    );
                }
            }
            lemma_fields_reserved(primary, path, fields, fields.len(), config, cells);
            lemma_all_reserved_both(
                own,
                field_keys(primary, path, fields, fields.len(), config, cells),
            );
        },
        Json::Array(items) => {
            lemma_items_reserved(primary, path, items, items.len(), config, cells);
        },
        _ => {
            lemma_scalar_keys_reserved(primary, path, j, config);
        },
    }
}

/// The same for the first `n` fields of an object.
pub proof fn lemma_fields_reserved(
    primary: Seq<u8>,
    path: Seq<u8>,
    fields: Seq<(Seq<u8>, Json)>,
    n: nat,
    config: ConfigView,
    cells: Seq<GeoCell>,
)
    requires
        n <= fields.len(),
    ensures
        field_keys(primary, path, fields, n, config, cells) is Some ==> all_reserved(
            field_keys(primary, path, fields, n, config, cells)->0,
        ),
    decreases fields, n,
{
    if n > 0 {
        lemma_fields_reserved(primary, path, fields, (n - 1) as nat, config, cells);
        lemma_derived_reserved(
            primary,
            crate::index::child_path(path, fields[n - 1].0),
            fields[n - 1].1,
            config,
            cells,
        );
        lemma_all_reserved_both(
            field_keys(primary, path, fields, (n - 1) as nat, config, cells),
            derived_keys(
                primary,
                crate::index::child_path(path, fields[n - 1].0),
                fields[n - 1].1,
                config,
                cells,
            ),
        );
    }
}

/// The same for the first `n` items of an array.
pub proof fn lemma_items_reserved(
    primary: Seq<u8>,
    path: Seq<u8>,
    items: Seq<Json>,
    n: nat,
    config: ConfigView,
    cells: Seq<GeoCell>,
)
    requires
        n <= items.len(),
    ensures
        item_keys(primary, path, items, n, config, cells) is Some ==> all_reserved(
            item_keys(primary, path, items, n, config, cells)->0,
        ),
    decreases items, n,
{
    if n > 0 {
        lemma_items_reserved(primary, path, items, (n - 1) as nat, config, cells);
        let inner = derived_keys(
            primary,
            crate::index::item_path(path, (n - 1) as nat),
            items[n - 1],
            config,
            cells,
        );
        lemma_derived_reserved(
            primary,
            crate::index::item_path(path, (n - 1) as nat),
            items[n - 1],
            config,
            cells,
        );
        let before = item_keys(primary, path, items, (n - 1) as nat, config, cells);
        lemma_all_reserved_both(before, inner);
        lemma_scalar_keys_reserved(primary, path, items[n - 1], config);
        lemma_all_reserved_both(both(before, inner), Some(scalar_keys(primary, path, items[n - 1], config)));
    }
}

/// Changes made one behind the other leave what the later ones leave of what
/// the earlier ones left.
pub proof fn lemma_overlay_concat(
    before: Option<Option<Json>>,
    a: Seq<Change>,
    b: Seq<Change>,
    n: nat,
    x: Seq<u8>,
)
    requires
        n <= b.len(),
    ensures
        overlay(before, a + b, a.len() + n, x) == overlay(
            overlay(before, a, a.len(), x),
            b,
            n,
            x,
        ),
    decreases n,
{
    if n > 0 {
        lemma_overlay_concat(before, a, b, (n - 1) as nat, x);
        assert((a + b)[a.len() + n - 1] == b[n - 1]);
    } else {
        lemma_overlay_prefix(before, a, a + b, a.len(), x);
    }
}

/// What the first `n` changes leave does not depend on the changes behind
/// them.
pub proof fn lemma_overlay_prefix(
    before: Option<Option<Json>>,
    a: Seq<Change>,
    b: Seq<Change>,
    n: nat,
    x: Seq<u8>,
)
    requires
        n <= a.len(),
        n <= b.len(),
        forall|i: int| 0 <= i < n ==> a[i] == b[i],
    ensures
        overlay(before, a, n, x) == overlay(before, b, n, x),
    decreases n,
{
    if n > 0 {
        lemma_overlay_prefix(before, a, b, (n - 1) as nat, x);
    }
}

/// Puts of nothing leave nothing under each of their keys, and every other
/// key as it was.
pub proof fn lemma_overlay_puts(
    before: Option<Option<Json>>,
    keys: Seq<Seq<u8>>,
    n: nat,
    x: Seq<u8>,
)
    requires
        n <= keys.len(),
    ensures
        overlay(before, puts(keys), n, x) == (if keys.take(n as int).contains(x) {
            Some(None::<Json>)
        } else {
            before
        }),
    decreases n,
{
    if n > 0 {
        lemma_overlay_puts(before, keys, (n - 1) as nat, x);
        let shorter = keys.take(n - 1);
        let longer = keys.take(n as int);
        assert(longer =~= shorter.push(keys[n - 1]));
        if keys[n - 1] == x {
            assert(longer[n - 1] == x);
        } else if shorter.contains(x) {
            let i = choose|i: int| 0 <= i < shorter.len() && shorter[i] == x;
            assert(longer[i] == x);
        } else if longer.contains(x) {
            let i = choose|i: int| 0 <= i < longer.len() && longer[i] == x;
            assert(shorter[i] == x);
        }
    } else {
        assert(keys.take(0).len() == 0);
    }
}

/// Removals leave no entry under each of their keys, and every other key as
/// it was.
pub proof fn lemma_overlay_removes(
    before: Option<Option<Json>>,
    keys: Seq<Seq<u8>>,
    n: nat,
    x: Seq<u8>,
)
    requires
        n <= keys.len(),
    ensures
        overlay(before, removes(keys), n, x) == (if keys.take(n as int).contains(x) {
            None
        } else {
            before
        }),
    decreases n,
{
    if n > 0 {
        lemma_overlay_removes(before, keys, (n - 1) as nat, x);
        let shorter = keys.take(n - 1);
        let longer = keys.take(n as int);
        assert(longer =~= shorter.push(keys[n - 1]));
        if keys[n - 1] == x {
            assert(longer[n - 1] == x);
        } else if shorter.contains(x) {
            let i = choose|i: int| 0 <= i < shorter.len() && shorter[i] == x;
            assert(longer[i] == x);
        } else if longer.contains(x) {
            let i = choose|i: int| 0 <= i < longer.len() && longer[i] == x;
            assert(shorter[i] == x);
        }
    } else {
        assert(keys.take(0).len() == 0);
    }
}

/// What a write leaves under each key: nothing under the keys of the new
/// index entries; the document under its key; no entry under the keys of the
/// old index entries that are not made anew; every other key as it was.
pub proof fn lemma_write_overlay(
    before: Option<Option<Json>>,
    gone: Seq<Seq<u8>>,
    key: Seq<u8>,
    value: Json,
    made: Seq<Seq<u8>>,
    x: Seq<u8>,
)
    ensures
        ({
            let cs = removes(gone) + seq![Change::Put { key, payload: Some(value) }] + puts(made);
            overlay(before, cs, cs.len(), x) == (if made.contains(x) {
                Some(None::<Json>)
            } else if x == key {
                Some(Some(value))
            } else if gone.contains(x) {
                None
            } else {
                before
            })
        }),
{
    let first = removes(gone);
    let middle = seq![Change::Put { key, payload: Some(value) }];
    let last = puts(made);
    let cs = first + middle + last;
    lemma_overlay_concat(before, first + middle, last, last.len(), x);
    lemma_overlay_concat(before, first, middle, 1, x);
    lemma_overlay_removes(before, gone, gone.len(), x);
    lemma_overlay_puts(
        overlay(before, first + middle, (first + middle).len(), x),
        made,
        made.len(),
        x,
    );
    assert(gone.take(gone.len() as int) =~= gone);
    assert(made.take(made.len() as int) =~= made);
    assert(middle[0] == Change::Put { key, payload: Some(value) });
    assert(overlay(overlay(before, first, first.len(), x), middle, 0, x) == overlay(
        before,
        first,
        first.len(),
        x,
    ));
}

/// A write re-derives the index. After a write of `value` under a key, the
/// document is stored under its key; the index entries in the store are
/// those that the derivation from `value` and the configuration gives, and
/// those that were there before and do not belong to the document that was
/// replaced; and what is stored under every other key, of a user's document
/// or of an index entry that belongs to neither document, is what was.
pub proof fn law_write_rederives_index(
    entries: Seq<(Seq<u8>, Option<Json>)>,
    key: Seq<u8>,
    value: Json,
    config: ConfigView,
    cells: Seq<GeoCell>,
    x: Seq<u8>,
)
    requires
        unique_keys(entries),
        write_changes(stored(entries, key), key, value, config, cells) is Some,
    ensures
        ({
            let after = applied(
                entries,
                write_changes(stored(entries, key), key, value, config, cells)->0,
            );
            let made = index_keys(key, value, config, cells)->0;
            let gone = stale_keys(stored(entries, key), key, config, cells)->0;
            &&& unique_keys(after)
            &&& stored(after, key) == Some(Some(value))
            &&& made.contains(x) ==> stored(after, x) == Some(None::<Json>)
            &&& is_reserved(x) ==> (stored(after, x) is Some <==> (made.contains(x) || (stored(
                entries,
                x,
            ) is Some && !gone.contains(x))))
            &&& !is_reserved(x) && x != key ==> stored(after, x) == stored(entries, x)
            &&& x != key && !made.contains(x) && !gone.contains(x) ==> stored(after, x) == stored(
                entries,
                x,
            )
        }),
{
    let cs = write_changes(stored(entries, key), key, value, config, cells)->0;
    let made = index_keys(key, value, config, cells)->0;
    let gone = stale_keys(stored(entries, key), key, config, cells)->0;
    lemma_applied(entries, cs, x);
    lemma_applied(entries, cs, key);
    lemma_write_overlay(stored(entries, x), gone, key, value, made, x);
    lemma_write_overlay(stored(entries, key), gone, key, value, made, key);
    lemma_derived_reserved(key, Seq::empty(), value, config, cells);
    if made.contains(key) {
        let i = choose|i: int| 0 <= i < made.len() && made[i] == key;
        assert(is_reserved(made[i]));
    }
    if made.contains(x) {
        let i = choose|i: int| 0 <= i < made.len() && made[i] == x;
        assert(is_reserved(made[i]));
    }
    if gone.contains(x) {
        let i = choose|i: int| 0 <= i < gone.len() && gone[i] == x;
        match stored(entries, key) {
            Some(Some(old)) => {
                lemma_derived_reserved(key, Seq::empty(), old, config, cells);
                assert(is_reserved(gone[i]));
            },
            _ => {},
        }
    }
}

/// A removal after a write leaves nothing of the document. After `value` was
/// written under a key and the key was removed again, no entry is stored
/// under the key, none under any key of an index entry of `value`, no index
/// entry is in the store that was not there before the write, and what is
/// stored under every key that belongs neither to `value` nor to the
/// document that it replaced is what was.
pub proof fn law_delete_after_write_leaves_nothing(
    entries: Seq<(Seq<u8>, Option<Json>)>,
    key: Seq<u8>,
    value: Json,
    config: ConfigView,
    cells: Seq<GeoCell>,
    x: Seq<u8>,
)
    requires
        unique_keys(entries),
        write_changes(stored(entries, key), key, value, config, cells) is Some,
    ensures
        ({
            let written = applied(
                entries,
                write_changes(stored(entries, key), key, value, config, cells)->0,
            );
            let removal = delete_changes(stored(written, key), key, config, cells);
            let made = index_keys(key, value, config, cells)->0;
            &&& removal is Some
            &&& stored(applied(written, removal->0), key) is None
            &&& made.contains(x) ==> stored(applied(written, removal->0), x) is None
            &&& is_reserved(x) && stored(applied(written, removal->0), x) is Some ==> stored(
                entries,
                x,
            ) is Some
            &&& !is_reserved(x) && x != key ==> stored(applied(written, removal->0), x) == stored(
                entries,
                x,
            )
            &&& x != key && !made.contains(x) && !stale_keys(
                stored(entries, key),
                key,
                config,
                cells,
            )->0.contains(x) ==> stored(applied(written, removal->0), x) == stored(entries, x)
        }),
{
    let written = applied(
        entries,
        write_changes(stored(entries, key), key, value, config, cells)->0,
    );
    law_write_rederives_index(entries, key, value, config, cells, x);
    law_write_rederives_index(entries, key, value, config, cells, key);
    let made = index_keys(key, value, config, cells)->0;
    let removal = delete_changes(stored(written, key), key, config, cells);
    assert(removal is Some);
    let cs = removal->0;
    lemma_applied(written, cs, x);
    lemma_applied(written, cs, key);
    let gone = removes(made);
    let last = seq![Change::Remove { key }];
    assert(cs =~= gone + last);
    lemma_overlay_concat(stored(written, x), gone, last, 1, x);
    lemma_overlay_concat(stored(written, key), gone, last, 1, key);
    lemma_overlay_removes(stored(written, x), made, made.len(), x);
    lemma_overlay_removes(stored(written, key), made, made.len(), key);
    assert(made.take(made.len() as int) =~= made);
    assert(last[0] == Change::Remove { key });
    assert(overlay(overlay(stored(written, x), gone, gone.len(), x), last, 0, x) == overlay(
        stored(written, x),
        gone,
        gone.len(),
        x,
    ));
    assert(overlay(overlay(stored(written, key), gone, gone.len(), key), last, 0, key) == overlay(
        stored(written, key),
        gone,
        gone.len(),
        key,
    ));
    lemma_derived_reserved(key, Seq::empty(), value, config, cells);
    if made.contains(x) {
        let i = choose|i: int| 0 <= i < made.len() && made[i] == x;
        assert(is_reserved(made[i]));
    }
}

/// Writes lose nothing. Of two writes made one after the other, both
/// documents are stored where the keys differ, and the later document is
/// stored where the keys are the same.
pub proof fn law_writes_lose_no_document(
    entries: Seq<(Seq<u8>, Option<Json>)>,
    first_key: Seq<u8>,
    first: Json,
    second_key: Seq<u8>,
    second: Json,
    config: ConfigView,
    cells: Seq<GeoCell>,
)
    requires
        unique_keys(entries),
        write_changes(stored(entries, first_key), first_key, first, config, cells) is Some,
        write_changes(
            stored(
                applied(
                    entries,
                    write_changes(stored(entries, first_key), first_key, first, config, cells)->0,
                ),
                second_key,
            ),
            second_key,
            second,
            config,
            cells,
        ) is Some,
    ensures
        ({
            let middle = applied(
                entries,
                write_changes(stored(entries, first_key), first_key, first, config, cells)->0,
            );
            let after = applied(
                middle,
                write_changes(stored(middle, second_key), second_key, second, config, cells)->0,
            );
            &&& stored(after, second_key) == Some(Some(second))
            &&& first_key != second_key ==> stored(after, first_key) == Some(Some(first))
        }),
{
    let middle = applied(
        entries,
        write_changes(stored(entries, first_key), first_key, first, config, cells)->0,
    );
    law_write_rederives_index(entries, first_key, first, config, cells, first_key);
    law_write_rederives_index(middle, second_key, second, config, cells, first_key);
    law_write_rederives_index(middle, second_key, second, config, cells, second_key);
}

/// Whether `x` is a key of an index for the primary key `primary`: the prefix
/// of a family, a path, a colon, a middle part, a colon and `primary`.
pub open spec fn is_index_key_of(x: Seq<u8>, primary: Seq<u8>) -> bool {
    exists|family: Seq<u8>, path: Seq<u8>, middle: Seq<u8>|
        (family == equality_prefix() || family == sorted_prefix() || family == geo_prefix()) && x
            == #[trigger] index_key(family, path, middle, primary)
}

/// Whether every one of `keys` is a key of an index for `primary`.
pub open spec fn all_keys_of(keys: Seq<Seq<u8>>, primary: Seq<u8>) -> bool {
    forall|i: int| 0 <= i < keys.len() ==> is_index_key_of(#[trigger] keys[i], primary)
}

/// Keys of one primary key put one behind the other are keys of it.
pub proof fn lemma_all_keys_of_both(
    a: Option<Seq<Seq<u8>>>,
    b: Option<Seq<Seq<u8>>>,
    primary: Seq<u8>,
)
    requires
        a is Some ==> all_keys_of(a->0, primary),
        b is Some ==> all_keys_of(b->0, primary),
    ensures
        both(a, b) is Some ==> all_keys_of(both(a, b)->0, primary),
{
    if both(a, b) is Some {
        let x = a->0;
        let y = b->0;
        assert forall|i: int| 0 <= i < (x + y).len() implies is_index_key_of(
            #[trigger] (x + y)[i],
            primary,
        ) by {
            if i < x.len() {
                assert((x + y)[i] == x[i]);
            } else {
                assert((x + y)[i] == y[i - x.len()]);
            }
        }
    }
}

/// The keys of a scalar are keys of an index for its primary key.
pub proof fn lemma_scalar_keys_of(primary: Seq<u8>, path: Seq<u8>, j: Json, config: ConfigView)
    ensures
        all_keys_of(scalar_keys(primary, path, j, config), primary),
{
    let keys = scalar_keys(primary, path, j, config);
    assert forall|i: int| 0 <= i < keys.len() implies is_index_key_of(
        #[trigger] keys[i],
        primary,
    ) by {
        let e = index_key(equality_prefix(), path, crate::text::value_text(j), primary);
        let o = index_key(
            sorted_prefix(),
            path,
            crate::keys::hex_text(crate::codec::sort_encoding(j)->0),
            primary,
        );
        assert(keys[i] == e || keys[i] == o);
    }
}

/// Every key derived from a document is a key of an index for the primary
/// key of the document.
pub proof fn lemma_derived_keys_of(
    primary: Seq<u8>,
    path: Seq<u8>,
    j: Json,
    config: ConfigView,
    cells: Seq<GeoCell>,
)
    ensures
        derived_keys(primary, path, j, config, cells) is Some ==> all_keys_of(
            derived_keys(primary, path, j, config, cells)->0,
            primary,
        ),
    decreases j, 0nat,
{
    match j {
        Json::Object(fields) => {
            let own = point_keys(primary, path, j, config, cells);
            if own is Some {
                assert forall|i: int| 0 <= i < own->0.len() implies is_index_key_of(
                    #[trigger] own->0[i],
                    primary,
                ) by {
                    let point = crate::index::geo_point_of(j)->0;
                    let g = index_key(
                        geo_prefix(),
                        path,
                        crate::index::cell_of(cells, point)->0,
                        primary,
                    );
                    assert(own->0[i] == g);
                }
            }
            lemma_fields_keys_of(primary, path, fields, fields.len(), config, cells);
            lemma_all_keys_of_both(
                own,
                field_keys(primary, path, fields, fields.len(), config, cells),
                primary,
            );
        },
        Json::Array(items) => {
            lemma_items_keys_of(primary, path, items, items.len(), config, cells);
        },
        _ => {
            lemma_scalar_keys_of(primary, path, j, config);
        },
    }
}

/// The same for the first `n` fields of an object.
pub proof fn lemma_fields_keys_of(
    primary: Seq<u8>,
    path: Seq<u8>,
    fields: Seq<(Seq<u8>, Json)>,
    n: nat,
    config: ConfigView,
    cells: Seq<GeoCell>,
)
    requires
        n <= fields.len(),
    ensures
        field_keys(primary, path, fields, n, config, cells) is Some ==> all_keys_of(
            field_keys(primary, path, fields, n, config, cells)->0,
            primary,
        ),
    decreases fields, n,
{
    if n > 0 {
        lemma_fields_keys_of(primary, path, fields, (n - 1) as nat, config, cells);
        lemma_derived_keys_of(
            primary,
            crate::index::child_path(path, fields[n - 1].0),
            fields[n - 1].1,
            config,
            cells,
        );
        lemma_all_keys_of_both(
            field_keys(primary, path, fields, (n - 1) as nat, config, cells),
            derived_keys(
                primary,
                crate::index::child_path(path, fields[n - 1].0),
                fields[n - 1].1,
                config,
                cells,
            ),
            primary,
        );
    }
}

/// The same for the first `n` items of an array.
pub proof fn lemma_items_keys_of(
    primary: Seq<u8>,
    path: Seq<u8>,
    items: Seq<Json>,
    n: nat,
    config: ConfigView,
    cells: Seq<GeoCell>,
)
    requires
        n <= items.len(),
    ensures
        item_keys(primary, path, items, n, config, cells) is Some ==> all_keys_of(
            item_keys(primary, path, items, n, config, cells)->0,
            primary,
        ),
    decreases items, n,
{
    if n > 0 {
        lemma_items_keys_of(primary, path, items, (n - 1) as nat, config, cells);
        let inner = derived_keys(
            primary,
            crate::index::item_path(path, (n - 1) as nat),
            items[n - 1],
            config,
            cells,
        );
        lemma_derived_keys_of(
            primary,
            crate::index::item_path(path, (n - 1) as nat),
            items[n - 1],
            config,
            cells,
        );
        let before = item_keys(primary, path, items, (n - 1) as nat, config, cells);
        lemma_all_keys_of_both(before, inner, primary);
        lemma_scalar_keys_of(primary, path, items[n - 1], config);
        lemma_all_keys_of_both(
            both(before, inner),
            Some(scalar_keys(primary, path, items[n - 1], config)),
            primary,
        );
    }
}

/// Keys of indices for different primary keys without colons are different
/// keys: no index entry belongs to two such documents.
pub proof fn lemma_keys_of_different_primaries(x: Seq<u8>, a: Seq<u8>, b: Seq<u8>)
    requires
        is_index_key_of(x, a),
        is_index_key_of(x, b),
        !a.contains(58u8),
        !b.contains(58u8),
    ensures
        a == b,
{
    let (fa, pa, ma) = choose|family: Seq<u8>, path: Seq<u8>, middle: Seq<u8>|
        (family == equality_prefix() || family == sorted_prefix() || family == geo_prefix()) && x
            == #[trigger] index_key(family, path, middle, a);
    let (fb, pb, mb) = choose|family: Seq<u8>, path: Seq<u8>, middle: Seq<u8>|
        (family == equality_prefix() || family == sorted_prefix() || family == geo_prefix()) && x
            == #[trigger] index_key(family, path, middle, b);
    crate::query_laws::lemma_last_fragment_of_index_key(fa, pa, ma, a);
    crate::query_laws::lemma_last_fragment_of_index_key(fb, pb, mb, b);
}

/// A key of an index lies under a reserved prefix.
pub proof fn lemma_index_key_of_reserved(x: Seq<u8>, primary: Seq<u8>)
    requires
        is_index_key_of(x, primary),
    ensures
        is_reserved(x),
{
    let (f, p, m) = choose|family: Seq<u8>, path: Seq<u8>, middle: Seq<u8>|
        (family == equality_prefix() || family == sorted_prefix() || family == geo_prefix()) && x
            == #[trigger] index_key(family, path, middle, primary);
    lemma_index_key_reserved(f, p, m, primary);
}

/// A key of an index holds a colon.
pub proof fn lemma_keys_of_hold_colon(x: Seq<u8>, primary: Seq<u8>)
    requires
        is_index_key_of(x, primary),
    ensures
        x.contains(58u8),
{
    let (f, p, m) = choose|family: Seq<u8>, path: Seq<u8>, middle: Seq<u8>|
        (family == equality_prefix() || family == sorted_prefix() || family == geo_prefix()) && x
            == #[trigger] index_key(family, path, middle, primary);
    let at = f.len() + p.len();
    assert(index_key(f, p, m, primary)[at as int] == 58u8);
}

/// What belongs to another document is none of `keys`, where `keys` are keys
/// of an index for `key` and neither primary key holds a colon.
pub proof fn lemma_other_is_none_of(
    keys: Seq<Seq<u8>>,
    key: Seq<u8>,
    other: Seq<u8>,
    x: Seq<u8>,
)
    requires
        all_keys_of(keys, key),
        !key.contains(58u8),
        !other.contains(58u8),
        other != key,
        x == other || is_index_key_of(x, other),
    ensures
        !keys.contains(x),
{
    if keys.contains(x) {
        let i = choose|i: int| 0 <= i < keys.len() && keys[i] == x;
        assert(is_index_key_of(keys[i], key));
        if x == other {
            lemma_keys_of_hold_colon(x, key);
        } else {
            lemma_keys_of_different_primaries(x, key, other);
        }
    }
}

/// A write keeps what belongs to other documents. A write under a key
/// without a colon changes nothing that is stored under the key of another
/// user's document or under a key of an index for another primary key
/// without a colon.
pub proof fn law_write_keeps_other_documents(
    entries: Seq<(Seq<u8>, Option<Json>)>,
    key: Seq<u8>,
    value: Json,
    config: ConfigView,
    cells: Seq<GeoCell>,
    other: Seq<u8>,
    x: Seq<u8>,
)
    requires
        unique_keys(entries),
        !key.contains(58u8),
        !other.contains(58u8),
        other != key,
        write_changes(stored(entries, key), key, value, config, cells) is Some,
        x == other || is_index_key_of(x, other),
    ensures
        stored(
            applied(entries, write_changes(stored(entries, key), key, value, config, cells)->0),
            x,
        ) == stored(entries, x),
{
    let made = index_keys(key, value, config, cells)->0;
    let gone = stale_keys(stored(entries, key), key, config, cells)->0;
    assert(all_keys_of(made, key)) by {
        lemma_derived_keys_of(key, Seq::empty(), value, config, cells);
    }
    assert(all_keys_of(gone, key)) by {
        match stored(entries, key) {
            Some(Some(old)) => {
                lemma_derived_keys_of(key, Seq::empty(), old, config, cells);
            },
            _ => {},
        }
    }
    lemma_other_is_none_of(made, key, other, x);
    lemma_other_is_none_of(gone, key, other, x);
    if x == key {
        lemma_keys_of_hold_colon(x, other);
    }
    law_write_rederives_index(entries, key, value, config, cells, x);
}

} // verus!
