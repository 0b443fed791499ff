//! What the operations of the store do to what is stored under each key.
use crate::index::Change;
use crate::store::{applied, applied_first, entry_index, lemma_entry_index, stored, unique_keys, with_entry, without_entry};
use crate::value::Json;
use vstd::prelude::*;

verus! {

/// A position is where `entry_index` lands if the key stands there, or the
/// entries end there, and the key stands nowhere between `from` and it.
pub proof fn lemma_entry_index_is(
    entries: Seq<(Seq<u8>, Option<Json>)>,
    key: Seq<u8>,
    from: int,
    at: int,
)
    requires
        0 <= from <= at <= entries.len(),
        at < entries.len() ==> entries[at].0 == key,
        forall|j: int| from <= j < at ==> entries[j].0 != key,
    ensures
        entry_index(entries, key, from) == at,
    decreases at - from,
{
    if from < at {
        lemma_entry_index_is(entries, key, from + 1, at);
    }
}

/// After a put under `key`, the payload is stored under `key` and what is
/// stored under every other key is what was.
pub proof fn lemma_stored_with_entry(
    entries: Seq<(Seq<u8>, Option<Json>)>,
    key: Seq<u8>,
    payload: Option<Json>,
    x: Seq<u8>,
)
    requires
        unique_keys(entries),
    ensures
        unique_keys(with_entry(entries, key, payload)),
        stored(with_entry(entries, key, payload), x) == (if x == key {
            Some(payload)
        } else {
            stored(entries, x)
        }),
{
    let after = with_entry(entries, key, payload);
    let at = entry_index(entries, key, 0);
    let xat = entry_index(entries, x, 0);
    lemma_entry_index(entries, key, 0);
    lemma_entry_index(entries, x, 0);
    if at < entries.len() {
        assert forall|i: int| 0 <= i < after.len() implies (#[trigger] after[i]).0
            == entries[i].0 by {}
        lemma_entry_index_is(after, x, 0, xat);
        assert forall|i: int, j: int| 0 <= i < j < after.len() implies (#[trigger] after[i]).0 != (
        #[trigger] after[j]).0 by {
            assert(after[i].0 == entries[i].0);
            assert(after[j].0 == entries[j].0);
        }
    } else {
        if x == key {
            lemma_entry_index_is(after, x, 0, entries.len() as int);
        } else if xat < entries.len() {
            lemma_entry_index_is(after, x, 0, xat);
        } else {
            lemma_entry_index_is(after, x, 0, after.len() as int);
        }
        assert forall|i: int, j: int| 0 <= i < j < after.len() implies (#[trigger] after[i]).0 != (
        #[trigger] after[j]).0 by {
            if j < entries.len() {
                assert(after[i].0 == entries[i].0);
                assert(after[j].0 == entries[j].0);
            } else {
                assert(after[i].0 == entries[i].0);
            }
        }
    }
}

/// After a removal of `key`, nothing is stored under `key` and what is stored
/// under every other key is what was.
pub proof fn lemma_stored_without_entry(
    entries: Seq<(Seq<u8>, Option<Json>)>,
    key: Seq<u8>,
    x: Seq<u8>,
)
    requires
        unique_keys(entries),
    ensures
        unique_keys(without_entry(entries, key)),
        stored(without_entry(entries, key), x) == (if x == key {
            None
        } else {
            stored(entries, x)
        }),
{
    let after = without_entry(entries, key);
    let at = entry_index(entries, key, 0);
    let xat = entry_index(entries, x, 0);
    lemma_entry_index(entries, key, 0);
    lemma_entry_index(entries, x, 0);
    if at < entries.len() {
        assert forall|i: int| 0 <= i < after.len() implies (#[trigger] after[i]) == (if i < at {
            entries[i]
        } else {
            entries[i + 1]
        }) by {}
        assert forall|i: int, j: int| 0 <= i < j < after.len() implies (#[trigger] after[i]).0 != (
        #[trigger] after[j]).0 by {
            let a = if i < at {
                i
            } else {
                i + 1
            };
            let b = if j < at {
                j
            } else {
                j + 1
            };
            assert(after[i] == entries[a]);
            assert(after[j] == entries[b]);
        }
        if x == key {
            assert forall|j: int| 0 <= j < after.len() implies after[j].0 != key by {
                let b = if j < at {
                    j
                } else {
                    j + 1
                };
                assert(after[j] == entries[b]);
                if b < at {
                    assert(entries[b].0 != entries[at].0);
                } else {
                    assert(entries[at].0 != entries[b].0);
                }
            }
            lemma_entry_index_is(after, x, 0, after.len() as int);
        } else if xat < entries.len() {
            let target = if xat < at {
                xat
            } else {
                xat - 1
            };
            assert forall|j: int| 0 <= j < target implies after[j].0 != x by {
                let b = if j < at {
                    j
                } else {
                    j + 1
                };
                assert(after[j] == entries[b]);
            }
            assert(after[target] == entries[xat]);
            lemma_entry_index_is(after, x, 0, target);
        } else {
            assert forall|j: int| 0 <= j < after.len() implies after[j].0 != x by {
                let b = if j < at {
                    j
                } else {
                    j + 1
                };
                assert(after[j] == entries[b]);
            }
            lemma_entry_index_is(after, x, 0, after.len() as int);
        }
    }
}

/// What is stored under `x` after the first `n` of `changes`, where `before`
/// was stored there: what the last of them that is about `x` leaves.
pub open spec fn overlay(
    before: Option<Option<Json>>,
    changes: Seq<Change>,
    n: nat,
    x: Seq<u8>,
) -> Option<Option<Json>>
    decreases n,
{
    if n == 0 || n > changes.len() {
        before
    } else {
        match changes[n - 1] {
            Change::Put { key, payload } => if key == x {
                Some(payload)
            } else {
                overlay(before, changes, (n - 1) as nat, x)
            },
            Change::Remove { key } => if key == x {
                None
            } else {
                overlay(before, changes, (n - 1) as nat, x)
            },
        }
    }
}

/// Changes made one after the other leave under each key what the last
/// change about that key leaves, and keep every key once.
pub proof fn lemma_applied_first(
    entries: Seq<(Seq<u8>, Option<Json>)>,
    changes: Seq<Change>,
    n: nat,
    x: Seq<u8>,
)
    requires
        unique_keys(entries),
        n <= changes.len(),
    ensures
        unique_keys(applied_first(entries, changes, n)),
        stored(applied_first(entries, changes, n), x) == overlay(
            stored(entries, x),
            changes,
            n,
            x,
        ),
    decreases n,
{
    if n > 0 {
        lemma_applied_first(entries, changes, (n - 1) as nat, x);
        let before = applied_first(entries, changes, (n - 1) as nat);
        match changes[n - 1] {
            Change::Put { key, payload } => {
                lemma_stored_with_entry(before, key, payload, x);
            },
            Change::Remove { key } => {
                lemma_stored_without_entry(before, key, x);
            },
        }
    }
}

/// The same for all of `changes`.
pub proof fn lemma_applied(entries: Seq<(Seq<u8>, Option<Json>)>, changes: Seq<Change>, x: Seq<u8>)
    requires
        unique_keys(entries),
    ensures
        unique_keys(applied(entries, changes)),
        stored(applied(entries, changes), x) == overlay(
            stored(entries, x),
            changes,
            changes.len(),
            x,
        ),
{
    lemma_applied_first(entries, changes, changes.len(), x);
}

} // verus!
