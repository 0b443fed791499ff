//! Laws of dump and load: what it is for a store to be as the write path
//! leaves it, that writes under fresh keys keep it so, and that the dump of
//! such a store, loaded into an empty store, gives the store that was dumped.
use crate::access::field_index;
use crate::bulk::{
    export_item, exported, exported_first, import_item, import_step, imported, imported_first,
    key_name, value_name, ExportFault, ImportFault,
};
use crate::config::ConfigView;
use crate::index::{index_keys, removes, write_changes, Change, GeoCell};
use crate::keys::is_reserved;
use crate::store::{applied, entry_index, lemma_entry_index, stored, unique_keys};
use crate::store_laws::lemma_applied;
use crate::value::Json;
use crate::write_laws::{lemma_derived_reserved, lemma_write_overlay};
use vstd::prelude::*;
use vstd::utf8::valid_utf8;

verus! {

/// Whether `x` is the key of an index entry of the document of an entry.
pub open spec fn derives(
    entry: (Seq<u8>, Option<Json>),
    config: ConfigView,
    cells: Seq<GeoCell>,
    x: Seq<u8>,
) -> bool {
    !is_reserved(entry.0) && entry.1 is Some && index_keys(entry.0, entry.1->0, config, cells) is Some
        && index_keys(entry.0, entry.1->0, config, cells)->0.contains(x)
}

/// Whether `x` is the key of an index entry of a document among the first `n`
/// entries.
pub open spec fn derived_within(
    entries: Seq<(Seq<u8>, Option<Json>)>,
    n: nat,
    config: ConfigView,
    cells: Seq<GeoCell>,
    x: Seq<u8>,
) -> bool {
    exists|i: int| 0 <= i < n && i < entries.len() && #[trigger] derives(entries[i], config, cells, x)
}

/// Whether nothing is stored under each of `keys`, each having an entry.
pub open spec fn all_stored(entries: Seq<(Seq<u8>, Option<Json>)>, keys: Seq<Seq<u8>>) -> bool {
    forall|m: int| 0 <= m < keys.len() ==> stored(entries, #[trigger] keys[m]) == Some(None::<Json>)
}

/// Whether the entry at `i` is as the write path leaves entries: an entry
/// under a reserved prefix holds nothing and is an index entry of a user's
/// document in the store; any other entry has a UTF-8 key and holds a
/// document that can be indexed, whose index entries are all in the store.
pub open spec fn entry_is_consistent(
    entries: Seq<(Seq<u8>, Option<Json>)>,
    i: int,
    config: ConfigView,
    cells: Seq<GeoCell>,
) -> bool {
    if is_reserved(entries[i].0) {
        entries[i].1 is None && derived_within(entries, entries.len(), config, cells, entries[i].0)
    } else {
        &&& valid_utf8(entries[i].0)
        &&& entries[i].1 is Some
        &&& crate::index::encodable(entries[i].1->0, config)
        &&& index_keys(entries[i].0, entries[i].1->0, config, cells) is Some
        &&& all_stored(entries, index_keys(entries[i].0, entries[i].1->0, config, cells)->0)
    }
}

/// Whether a store is as the write path leaves it under a configuration:
/// every key once, users' documents under UTF-8 keys outside the reserved
/// prefixes, and under the reserved prefixes exactly the index entries of
/// those documents.
pub open spec fn is_consistent(
    entries: Seq<(Seq<u8>, Option<Json>)>,
    config: ConfigView,
    cells: Seq<GeoCell>,
) -> bool {
    &&& unique_keys(entries)
    &&& forall|i: int|
        0 <= i < entries.len() ==> #[trigger] entry_is_consistent(entries, i, config, cells)
}

/// What a load of the dump of the first `n` entries leaves under `x`.
pub open spec fn expected(
    entries: Seq<(Seq<u8>, Option<Json>)>,
    n: nat,
    config: ConfigView,
    cells: Seq<GeoCell>,
    x: Seq<u8>,
) -> Option<Option<Json>>
    decreases n,
{
    if n == 0 || n > entries.len() {
        None
    } else if is_reserved(entries[n - 1].0) {
        expected(entries, (n - 1) as nat, config, cells, x)
    } else if derives(entries[n - 1], config, cells, x) {
        Some(None)
    } else if x == entries[n - 1].0 {
        Some(entries[n - 1].1)
    } else {
        expected(entries, (n - 1) as nat, config, cells, x)
    }
}

/// An item of a dump gives back its key and its document.
pub proof fn lemma_import_item_of_export(key: Seq<u8>, doc: Json)
    ensures
        import_item(export_item(key, doc)) == Ok::<(Seq<u8>, Json), ImportFault>((key, doc)),
{
    let fields = seq![(key_name(), Json::String(key)), (value_name(), doc)];
    assert(fields[0].0 == key_name());
    assert(fields[1].0 == value_name());
    assert(key_name() != value_name()) by {
        assert(key_name()[0] != value_name()[0]);
    }
    assert(field_index(fields, key_name(), 0) == 0);
    assert(field_index(fields, value_name(), 1) == 1);
    assert(field_index(fields, value_name(), 0) == 1);
}

/// What the first `n` items of a dump leave does not depend on the items
/// behind them.
pub proof fn lemma_imported_prefix(
    entries: Seq<(Seq<u8>, Option<Json>)>,
    a: Seq<Json>,
    b: Seq<Json>,
    n: nat,
    config: ConfigView,
    cells: Seq<GeoCell>,
)
    requires
        n <= a.len(),
        n <= b.len(),
        forall|i: int| 0 <= i < n ==> a[i] == b[i],
    ensures
        imported_first(entries, a, n, config, cells) == imported_first(
            entries,
            b,
            n,
            config,
            cells,
        ),
    decreases n,
{
    if n > 0 {
        lemma_imported_prefix(entries, a, b, (n - 1) as nat, config, cells);
    }
}

/// A key outside the reserved prefixes is the key of no index entry.
pub proof fn lemma_derives_reserved(
    entry: (Seq<u8>, Option<Json>),
    config: ConfigView,
    cells: Seq<GeoCell>,
    x: Seq<u8>,
)
    requires
        derives(entry, config, cells, x),
    ensures
        is_reserved(x),
{
    let made = index_keys(entry.0, entry.1->0, config, cells)->0;
    lemma_derived_reserved(entry.0, Seq::empty(), entry.1->0, config, cells);
    let i = choose|i: int| 0 <= i < made.len() && made[i] == x;
    assert(is_reserved(made[i]));
}

/// Under a key outside the reserved prefixes, a load leaves what the entry of
/// that key among the dumped ones holds, and nothing where there is none.
pub proof fn lemma_expected_user(
    entries: Seq<(Seq<u8>, Option<Json>)>,
    n: nat,
    config: ConfigView,
    cells: Seq<GeoCell>,
    x: Seq<u8>,
)
    requires
        unique_keys(entries),
        n <= entries.len(),
        !is_reserved(x),
    ensures
        expected(entries, n, config, cells, x) == (if entry_index(entries, x, 0) < n {
            Some(entries[entry_index(entries, x, 0)].1)
        } else {
            None
        }),
    decreases n,
{
    lemma_entry_index(entries, x, 0);
    if n > 0 {
        lemma_expected_user(entries, (n - 1) as nat, config, cells, x);
        if derives(entries[n - 1], config, cells, x) {
            lemma_derives_reserved(entries[n - 1], config, cells, x);
        }
        let at = entry_index(entries, x, 0);
        if entries[n - 1].0 == x {
            if at < n - 1 {
                assert(entries[at].0 != entries[n - 1].0);
            }
        }
    }
}

/// Under a key under a reserved prefix, a load leaves an entry that holds
/// nothing where the key is that of an index entry of a dumped document, and
/// no entry else.
pub proof fn lemma_expected_reserved(
    entries: Seq<(Seq<u8>, Option<Json>)>,
    n: nat,
    config: ConfigView,
    cells: Seq<GeoCell>,
    x: Seq<u8>,
)
    requires
        n <= entries.len(),
        is_reserved(x),
    ensures
        expected(entries, n, config, cells, x) == (if derived_within(entries, n, config, cells, x) {
            Some(None::<Json>)
        } else {
            None
        }),
    decreases n,
{
    if n > 0 {
        lemma_expected_reserved(entries, (n - 1) as nat, config, cells, x);
        let shorter = derived_within(entries, (n - 1) as nat, config, cells, x);
        let longer = derived_within(entries, n, config, cells, x);
        if shorter {
            let i = choose|i: int|
                0 <= i < n - 1 && i < entries.len() && #[trigger] derives(
                    entries[i],
                    config,
                    cells,
                    x,
                );
            assert(0 <= i < n && derives(entries[i], config, cells, x));
        }
        if derives(entries[n - 1], config, cells, x) {
            assert(longer);
        } else if longer {
            let i = choose|i: int|
                0 <= i < n && i < entries.len() && #[trigger] derives(entries[i], config, cells, x);
            assert(i < n - 1);
            assert(shorter);
        }
    }
}

/// A dump of the first `n` entries of a consistent store can be made, and
/// loading it into an empty store succeeds and leaves what `expected` says.
pub proof fn lemma_round_trip_first(
    entries: Seq<(Seq<u8>, Option<Json>)>,
    n: nat,
    config: ConfigView,
    cells: Seq<GeoCell>,
)
    requires
        is_consistent(entries, config, cells),
        n <= entries.len(),
    ensures
        exported_first(entries, n) is Ok,
        ({
            let items = exported_first(entries, n)->Ok_0;
            let loaded = imported_first(Seq::empty(), items, items.len(), config, cells);
            &&& loaded.1 is None
            &&& unique_keys(loaded.0)
            &&& forall|x: Seq<u8>| #[trigger]
                stored(loaded.0, x) == expected(entries, n, config, cells, x)
        }),
    decreases n,
{
    let empty = Seq::<(Seq<u8>, Option<Json>)>::empty();
    if n == 0 {
        assert forall|x: Seq<u8>| #[trigger] stored(empty, x) == expected(
            entries,
            0,
            config,
            cells,
            x,
        ) by {}
    } else {
        lemma_round_trip_first(entries, (n - 1) as nat, config, cells);
        let before_items = exported_first(entries, (n - 1) as nat)->Ok_0;
        let before = imported_first(empty, before_items, before_items.len(), config, cells);
        let key = entries[n - 1].0;
        assert(entry_is_consistent(entries, n - 1, config, cells));
        if is_reserved(key) {
            assert forall|x: Seq<u8>| #[trigger] stored(before.0, x) == expected(
                entries,
                n,
                config,
                cells,
                x,
            ) by {}
        } else {
            let doc = entries[n - 1].1->0;
            let item = export_item(key, doc);
            let items = before_items.push(item);
            assert(exported_first(entries, n) == Ok::<Seq<Json>, ExportFault>(items));
            lemma_imported_prefix(empty, items, before_items, before_items.len(), config, cells);
            lemma_import_item_of_export(key, doc);
            reveal(import_step);
            assert(stored(before.0, key) == expected(entries, (n - 1) as nat, config, cells, key));
            lemma_expected_user(entries, (n - 1) as nat, config, cells, key);
            lemma_entry_index(entries, key, 0);
            let at = entry_index(entries, key, 0);
            if at < n - 1 {
                assert(entries[at].0 != entries[n - 1].0);
            }
            assert(stored(before.0, key) is None);
            let made = index_keys(key, doc, config, cells)->0;
            let cs = write_changes(None, key, doc, config, cells)->0;
            let loaded = imported_first(empty, items, items.len(), config, cells);
            assert(items[items.len() - 1] == item);
            assert(loaded == import_step(before.0, item, config, cells));
            assert(loaded.0 == applied(before.0, cs));
            assert forall|x: Seq<u8>| #[trigger] stored(loaded.0, x) == expected(
                entries,
                n,
                config,
                cells,
                x,
            ) by {
                lemma_applied(before.0, cs, x);
                lemma_write_overlay(stored(before.0, x), Seq::empty(), key, doc, made, x);
                assert(stored(before.0, x) == expected(entries, (n - 1) as nat, config, cells, x));
                assert(removes(Seq::<Seq<u8>>::empty()) =~= Seq::<Change>::empty());
            }
            lemma_applied(before.0, cs, key);
        }
    }
}

/// Loading a dump restores the store. A store that is as the write path
/// leaves it can be dumped, and its dump, loaded into an empty store under
/// the same configuration, leaves under every key what the store holds
/// there: the same documents and the same index entries.
pub proof fn law_import_of_export_restores(
    entries: Seq<(Seq<u8>, Option<Json>)>,
    config: ConfigView,
    cells: Seq<GeoCell>,
    x: Seq<u8>,
)
    requires
        is_consistent(entries, config, cells),
    ensures
        exported(entries) is Ok,
        imported(Seq::empty(), exported(entries)->Ok_0, config, cells).1 is None,
        stored(imported(Seq::empty(), exported(entries)->Ok_0, config, cells).0, x) == stored(
            entries,
            x,
        ),
{
    lemma_round_trip_first(entries, entries.len(), config, cells);
    let items = exported_first(entries, entries.len())->Ok_0;
    let loaded = imported_first(Seq::empty(), items, items.len(), config, cells);
    assert(stored(loaded.0, x) == expected(entries, entries.len(), config, cells, x));
    lemma_entry_index(entries, x, 0);
    let at = entry_index(entries, x, 0);
    if is_reserved(x) {
        lemma_expected_reserved(entries, entries.len(), config, cells, x);
        if at < entries.len() {
            assert(entry_is_consistent(entries, at, config, cells));
        } else if derived_within(entries, entries.len(), config, cells, x) {
            let i = choose|i: int|
                0 <= i < entries.len() && i < entries.len() && #[trigger] derives(
                    entries[i],
                    config,
                    cells,
                    x,
                );
            assert(entry_is_consistent(entries, i, config, cells));
            let made = index_keys(entries[i].0, entries[i].1->0, config, cells)->0;
            let m = choose|m: int| 0 <= m < made.len() && made[m] == x;
            assert(stored(entries, made[m]) == Some(None::<Json>));
        }
    } else {
        lemma_expected_user(entries, entries.len(), config, cells, x);
        if at < entries.len() {
            assert(entry_is_consistent(entries, at, config, cells));
        }
    }
}

/// Under the key of an entry, the payload of the entry is stored.
pub proof fn lemma_stored_at(entries: Seq<(Seq<u8>, Option<Json>)>, i: int)
    requires
        unique_keys(entries),
        0 <= i < entries.len(),
    ensures
        stored(entries, entries[i].0) == Some(entries[i].1),
{
    lemma_entry_index(entries, entries[i].0, 0);
    let at = entry_index(entries, entries[i].0, 0);
    if at < i {
        assert(entries[at].0 != entries[i].0);
    }
}

/// What is stored under a key is the payload of an entry.
pub proof fn lemma_entry_of_stored(entries: Seq<(Seq<u8>, Option<Json>)>, x: Seq<u8>) -> (i: int)
    requires
        stored(entries, x) is Some,
    ensures
        0 <= i < entries.len(),
        entries[i] == (x, stored(entries, x)->0),
{
    lemma_entry_index(entries, x, 0);
    entry_index(entries, x, 0)
}

/// A write under a fresh key keeps the store consistent. Where a store is as
/// the write path leaves it and a document is written under a UTF-8 key that
/// has no entry yet, the store is again as the write path leaves it: so is
/// every store that is built from the empty store by such writes.
pub proof fn law_fresh_write_keeps_consistency(
    entries: Seq<(Seq<u8>, Option<Json>)>,
    key: Seq<u8>,
    doc: Json,
    config: ConfigView,
    cells: Seq<GeoCell>,
)
    requires
        is_consistent(entries, config, cells),
        valid_utf8(key),
        stored(entries, key) is None,
        write_changes(stored(entries, key), key, doc, config, cells) is Some,
    ensures
        is_consistent(
            applied(entries, write_changes(stored(entries, key), key, doc, config, cells)->0),
            config,
            cells,
        ),
{
    let cs = write_changes(stored(entries, key), key, doc, config, cells)->0;
    let after = applied(entries, cs);
    let made = index_keys(key, doc, config, cells)->0;
    lemma_applied(entries, cs, key);
    lemma_derived_reserved(key, Seq::empty(), doc, config, cells);
    assert(crate::index::removes(Seq::<Seq<u8>>::empty()) =~= Seq::<Change>::empty());
    assert forall|x: Seq<u8>| #[trigger]
        stored(after, x) == (if made.contains(x) {
            Some(None::<Json>)
        } else if x == key {
            Some(Some(doc))
        } else {
            stored(entries, x)
        }) by {
        lemma_applied(entries, cs, x);
        lemma_write_overlay(stored(entries, x), Seq::empty(), key, doc, made, x);
    }
    if made.contains(key) {
        let m = choose|m: int| 0 <= m < made.len() && made[m] == key;
        assert(is_reserved(made[m]));
    }
    let home = lemma_entry_of_stored(after, key);
    assert(derives(after[home], config, cells, key) == made.contains(key));
    assert forall|i: int| 0 <= i < after.len() implies #[trigger] entry_is_consistent(
        after,
        i,
        config,
        cells,
    ) by {
        let x = after[i].0;
        lemma_stored_at(after, i);
        if made.contains(x) {
            let m = choose|m: int| 0 <= m < made.len() && made[m] == x;
            assert(is_reserved(made[m]));
            assert(derives(after[home], config, cells, x));
        } else if x == key {
            assert forall|m: int| 0 <= m < made.len() implies stored(after, #[trigger] made[m])
                == Some(None::<Json>) by {
                assert(made.contains(made[m]));
            }
        } else {
            let j = lemma_entry_of_stored(entries, x);
            assert(entry_is_consistent(entries, j, config, cells));
            if is_reserved(x) {
                let d = choose|d: int|
                    0 <= d < entries.len() && d < entries.len() && #[trigger] derives(
                        entries[d],
                        config,
                        cells,
                        x,
                    );
                lemma_stored_at(entries, d);
                let owner = entries[d].0;
                if made.contains(owner) {
                    let m = choose|m: int| 0 <= m < made.len() && made[m] == owner;
                    assert(is_reserved(made[m]));
                }
                assert(stored(after, owner) == Some(entries[d].1));
                let moved = lemma_entry_of_stored(after, owner);
                assert(derives(after[moved], config, cells, x));
            } else {
                let theirs = index_keys(x, entries[j].1->0, config, cells)->0;
                assert forall|m: int| 0 <= m < theirs.len() implies stored(
                    after,
                    #[trigger] theirs[m],
                ) == Some(None::<Json>) by {
                    assert(stored(entries, theirs[m]) == Some(None::<Json>));
                    lemma_derived_reserved(x, Seq::empty(), entries[j].1->0, config, cells);
                    assert(is_reserved(theirs[m]));
                }
            }
        }
    }
}

} // verus!
