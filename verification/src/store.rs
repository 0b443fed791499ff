//! The store: byte keys with their payloads, each key once, with the five
//! operations that everything else rests on: get, put, remove, and scans by
//! prefix and by range.
use crate::bytes::{
    bytes_equal, bytes_relation, compare_bytes, copy_bytes, starts_with, Relation,
};
use crate::index::{Change, Mutation, Payload};
use crate::value::Json;
use vstd::prelude::*;

verus! {

/// One end of a range of keys.
#[derive(Debug, PartialEq)]
pub enum Bound {
    Unbounded,
    Included(Vec<u8>),
    Excluded(Vec<u8>),
}

/// What a `Bound` stands for.
pub enum Edge {
    Unbounded,
    Included(Seq<u8>),
    Excluded(Seq<u8>),
}

impl View for Bound {
    type V = Edge;

    open spec fn view(&self) -> Edge {
        match self {
            Bound::Unbounded => Edge::Unbounded,
            Bound::Included(k) => Edge::Included(k@),
            Bound::Excluded(k) => Edge::Excluded(k@),
        }
    }
}

/// Whether `key` lies at or above the lower end `lo` and at or below the upper
/// end `hi`, in the lexicographic order of keys.
pub open spec fn in_range(key: Seq<u8>, lo: Edge, hi: Edge) -> bool {
    &&& match lo {
        Edge::Unbounded => true,
        Edge::Included(k) => bytes_relation(k, key) != Relation::Greater,
        Edge::Excluded(k) => bytes_relation(k, key) == Relation::Less,
    }
    &&& match hi {
        Edge::Unbounded => true,
        Edge::Included(k) => bytes_relation(key, k) != Relation::Greater,
        Edge::Excluded(k) => bytes_relation(key, k) == Relation::Less,
    }
}

/// The position of the first entry under `key` at or after `from`, or the
/// number of entries where none is.
pub open spec fn entry_index(entries: Seq<(Seq<u8>, Option<Json>)>, key: Seq<u8>, from: int) -> int
    decreases entries.len() - from,
{
    if from >= entries.len() {
        entries.len() as int
    } else if entries[from].0 == key {
        from
    } else {
        entry_index(entries, key, from + 1)
    }
}

/// Where `entry_index` lands.
pub proof fn lemma_entry_index(entries: Seq<(Seq<u8>, Option<Json>)>, key: Seq<u8>, from: int)
    requires
        0 <= from <= entries.len(),
    ensures
        from <= entry_index(entries, key, from) <= entries.len(),
        entry_index(entries, key, from) < entries.len() ==> entries[entry_index(
            entries,
            key,
            from,
        )].0 == key,
        forall|j: int| from <= j < entry_index(entries, key, from) ==> entries[j].0 != key,
    decreases entries.len() - from,
{
    if from < entries.len() && entries[from].0 != key {
        lemma_entry_index(entries, key, from + 1);
    }
}

/// What is stored under `key`: `None` where there is no entry, else the
/// payload, which is a document or nothing.
pub open spec fn stored(entries: Seq<(Seq<u8>, Option<Json>)>, key: Seq<u8>) -> Option<
    Option<Json>,
> {
    let at = entry_index(entries, key, 0);
    if 0 <= at < entries.len() {
        Some(entries[at].1)
    } else {
        None
    }
}

/// The document stored under `key`, if one is.
pub open spec fn document(entries: Seq<(Seq<u8>, Option<Json>)>, key: Seq<u8>) -> Option<Json> {
    match stored(entries, key) {
        Some(Some(j)) => Some(j),
        _ => None,
    }
}

/// The entries with `payload` under `key`: in place of what was there, or
/// behind the last entry.
pub open spec fn with_entry(
    entries: Seq<(Seq<u8>, Option<Json>)>,
    key: Seq<u8>,
    payload: Option<Json>,
) -> Seq<(Seq<u8>, Option<Json>)> {
    let at = entry_index(entries, key, 0);
    if 0 <= at < entries.len() {
        entries.update(at, (key, payload))
    } else {
        entries.push((key, payload))
    }
}

/// The entries without the one under `key`.
pub open spec fn without_entry(entries: Seq<(Seq<u8>, Option<Json>)>, key: Seq<u8>) -> Seq<
    (Seq<u8>, Option<Json>),
> {
    let at = entry_index(entries, key, 0);
    if 0 <= at < entries.len() {
        entries.remove(at)
    } else {
        entries
    }
}

/// The entries after one change.
pub open spec fn changed(entries: Seq<(Seq<u8>, Option<Json>)>, change: Change) -> Seq<
    (Seq<u8>, Option<Json>),
> {
    match change {
        Change::Put { key, payload } => with_entry(entries, key, payload),
        Change::Remove { key } => without_entry(entries, key),
    }
}

/// The entries after the first `n` of `changes`, one after the other.
pub open spec fn applied_first(
    entries: Seq<(Seq<u8>, Option<Json>)>,
    changes: Seq<Change>,
    n: nat,
) -> Seq<(Seq<u8>, Option<Json>)>
    decreases n,
{
    if n == 0 || n > changes.len() {
        entries
    } else {
        changed(applied_first(entries, changes, (n - 1) as nat), changes[n - 1])
    }
}

/// The entries after all of `changes`, one after the other.
pub open spec fn applied(entries: Seq<(Seq<u8>, Option<Json>)>, changes: Seq<Change>) -> Seq<
    (Seq<u8>, Option<Json>),
> {
    applied_first(entries, changes, changes.len())
}

/// Whether no key stands twice.
pub open spec fn unique_keys(entries: Seq<(Seq<u8>, Option<Json>)>) -> bool {
    forall|i: int, j: int|
        0 <= i < j < entries.len() ==> (#[trigger] entries[i]).0 != (#[trigger] entries[j]).0
}

/// The keys among the first `n` entries that begin with `prefix`, in the order
/// of the entries.
pub open spec fn prefixed_first(
    entries: Seq<(Seq<u8>, Option<Json>)>,
    prefix: Seq<u8>,
    n: nat,
) -> Seq<Seq<u8>>
    decreases n,
{
    if n == 0 || n > entries.len() {
        Seq::empty()
    } else if prefix.is_prefix_of(entries[n - 1].0) {
        prefixed_first(entries, prefix, (n - 1) as nat).push(entries[n - 1].0)
    } else {
        prefixed_first(entries, prefix, (n - 1) as nat)
    }
}

/// The keys that begin with `prefix`, in the order of the entries.
pub open spec fn prefixed_keys(entries: Seq<(Seq<u8>, Option<Json>)>, prefix: Seq<u8>) -> Seq<
    Seq<u8>,
> {
    prefixed_first(entries, prefix, entries.len())
}

/// The keys among the first `n` entries that lie in the range, in the order of
/// the entries.
pub open spec fn ranged_first(
    entries: Seq<(Seq<u8>, Option<Json>)>,
    lo: Edge,
    hi: Edge,
    n: nat,
) -> Seq<Seq<u8>>
    decreases n,
{
    if n == 0 || n > entries.len() {
        Seq::empty()
    } else if in_range(entries[n - 1].0, lo, hi) {
        ranged_first(entries, lo, hi, (n - 1) as nat).push(entries[n - 1].0)
    } else {
        ranged_first(entries, lo, hi, (n - 1) as nat)
    }
}

/// The keys that lie in the range, in the order of the entries.
pub open spec fn ranged_keys(entries: Seq<(Seq<u8>, Option<Json>)>, lo: Edge, hi: Edge) -> Seq<
    Seq<u8>,
> {
    ranged_first(entries, lo, hi, entries.len())
}

/// An entry of the store.
#[derive(Debug, PartialEq)]
pub struct Entry {
    pub key: Vec<u8>,
    pub payload: Payload,
}

/// The store.
#[derive(Debug, PartialEq)]
pub struct Store {
    entries: Vec<Entry>,
}

/// The views of a sequence of entries, one for one.
pub open spec fn entry_views(entries: Seq<Entry>) -> Seq<(Seq<u8>, Option<Json>)> {
    Seq::new(entries.len(), |i: int| (entries[i].key@, entries[i].payload@))
}

impl View for Store {
    type V = Seq<(Seq<u8>, Option<Json>)>;

    closed spec fn view(&self) -> Seq<(Seq<u8>, Option<Json>)> {
        entry_views(self.entries@)
    }
}

/// Whether `key` lies in the range.
pub fn key_in_range(key: &[u8], lo: &Bound, hi: &Bound) -> (r: bool)
    ensures
        r == in_range(key@, lo@, hi@),
{
    let above = match lo {
        Bound::Unbounded => true,
        Bound::Included(k) => match compare_bytes(k.as_slice(), key) {
            Relation::Greater => false,
            _ => true,
        },
        Bound::Excluded(k) => match compare_bytes(k.as_slice(), key) {
            Relation::Less => true,
            _ => false,
        },
    };
    let below = match hi {
        Bound::Unbounded => true,
        Bound::Included(k) => match compare_bytes(key, k.as_slice()) {
            Relation::Greater => false,
            _ => true,
        },
        Bound::Excluded(k) => match compare_bytes(key, k.as_slice()) {
            Relation::Less => true,
            _ => false,
        },
    };
    above && below
}

impl Store {
    /// Whether the store is well formed: no key stands twice.
    pub open spec fn wf(&self) -> bool {
        unique_keys(self@)
    }

    /// An empty store.
    pub fn new() -> (r: Store)
        ensures
            r@ == Seq::<(Seq<u8>, Option<Json>)>::empty(),
            r.wf(),
    {
        let r = Store { entries: Vec::new() };
        proof {
            assert(r@ =~= Seq::<(Seq<u8>, Option<Json>)>::empty());
        }
        r
    }

    /// A copy of the store.
    pub fn duplicate(&self) -> (r: Store)
        ensures
            r@ == self@,
    {
        let mut out: Vec<Entry> = Vec::new();
        let mut i: usize = 0;
        while i < self.entries.len()
            invariant
                i <= self.entries.len(),
                out@.len() == i,
                forall|j: int|
                    0 <= j < i ==> out@[j].key@ == self.entries@[j].key@ && out@[j].payload@
                        == self.entries@[j].payload@,
            decreases self.entries.len() - i,
        {
            let payload = match &self.entries[i].payload {
                Payload::Document(v) => Payload::Document(v.duplicate()),
                Payload::Empty => Payload::Empty,
            };
            out.push(Entry { key: copy_bytes(self.entries[i].key.as_slice()), payload });
            i += 1;
        }
        let r = Store { entries: out };
        proof {
            assert(r@ =~= self@);
        }
        r
    }

    /// The number of entries.
    pub fn len(&self) -> (r: usize)
        ensures
            r == self@.len(),
    {
        self.entries.len()
    }

    /// The key of the entry at `i`.
    pub fn key_at(&self, i: usize) -> (r: &Vec<u8>)
        requires
            i < self@.len(),
        ensures
            r@ == self@[i as int].0,
    {
        &self.entries[i].key
    }

    /// The payload of the entry at `i`.
    pub fn payload_at(&self, i: usize) -> (r: &Payload)
        requires
            i < self@.len(),
        ensures
            r@ == self@[i as int].1,
    {
        &self.entries[i].payload
    }

    /// The position of the entry under `key`, or the number of entries.
    fn position(&self, key: &[u8]) -> (r: usize)
        ensures
            r == entry_index(self@, key@, 0),
            r <= self@.len(),
            r < self@.len() ==> self@[r as int].0 == key@,
    {
        let mut i: usize = 0;
        while i < self.entries.len()
            invariant
                i <= self.entries.len(),
                entry_index(self@, key@, 0) == entry_index(self@, key@, i as int),
            decreases self.entries.len() - i,
        {
            if bytes_equal(self.entries[i].key.as_slice(), key) {
                return i;
            }
            i += 1;
        }
        i
    }

    /// What is stored under `key`.
    pub fn get(&self, key: &[u8]) -> (r: Option<&Payload>)
        ensures
            match r {
                Some(payload) => stored(self@, key@) == Some(payload@),
                None => stored(self@, key@) is None,
            },
    {
        let at = self.position(key);
        if at < self.entries.len() {
            Some(&self.entries[at].payload)
        } else {
            None
        }
    }

    /// Stores `payload` under `key`, in place of what was there.
    pub fn put(&mut self, key: Vec<u8>, payload: Payload)
        requires
            old(self).wf(),
        ensures
            final(self)@ == with_entry(old(self)@, key@, payload@),
            final(self).wf(),
    {
        let at = self.position(key.as_slice());
        let ghost before = self@;
        proof {
            lemma_entry_index(before, key@, 0);
        }
        if at < self.entries.len() {
            let _ = self.entries.remove(at);
            self.entries.insert(at, Entry { key, payload });
            proof {
                assert(self@ =~= before.update(at as int, (key@, payload@)));
                assert forall|i: int, j: int| 0 <= i < j < self@.len() implies (
                #[trigger] self@[i]).0 != (#[trigger] self@[j]).0 by {
                    assert(self@[i].0 == before[i].0);
                    assert(self@[j].0 == before[j].0);
                }
            }
        } else {
            self.entries.push(Entry { key, payload });
            proof {
                assert(self@ =~= before.push((key@, payload@)));
                assert forall|i: int, j: int| 0 <= i < j < self@.len() implies (
                #[trigger] self@[i]).0 != (#[trigger] self@[j]).0 by {
                    if j < before.len() {
                        assert(self@[i].0 == before[i].0);
                        assert(self@[j].0 == before[j].0);
                    }
                }
            }
        }
    }

    /// Takes the entry under `key` out, if there is one.
    pub fn remove(&mut self, key: &[u8])
        requires
            old(self).wf(),
        ensures
            final(self)@ == without_entry(old(self)@, key@),
            final(self).wf(),
    {
        let at = self.position(key);
        let ghost before = self@;
        if at < self.entries.len() {
            let _ = self.entries.remove(at);
            proof {
                assert(self@ =~= before.remove(at as int));
                assert forall|i: int, j: int| 0 <= i < j < self@.len() implies (
                #[trigger] self@[i]).0 != (#[trigger] self@[j]).0 by {
                    let a = if i < at {
                        i
                    } else {
                        i + 1
                    };
                    let b = if j < at {
                        j
                    } else {
                        j + 1
                    };
                    assert(self@[i].0 == before[a].0);
                    assert(self@[j].0 == before[b].0);
                }
            }
        }
    }

    /// Makes the changes, one after the other.
    pub fn apply(&mut self, mutations: Vec<Mutation>)
        requires
            old(self).wf(),
        ensures
            final(self)@ == applied(old(self)@, crate::index::changes(mutations@)),
            final(self).wf(),
    {
        let ghost all = crate::index::changes(mutations@);
        let ghost start = self@;
        let mut rest = mutations;
        let mut done: usize = 0;
        let total = rest.len();
        while rest.len() > 0
            invariant
                self.wf(),
                done + rest@.len() == total,
                total == all.len(),
                forall|j: int| 0 <= j < rest@.len() ==> rest@[j]@ == all[done + j],
                self@ == applied_first(start, all, done as nat),
            decreases rest@.len(),
        {
            let m = rest.remove(0);
            match m {
                Mutation::Put { key, payload } => {
                    self.put(key, payload);
                },
                Mutation::Remove { key } => {
                    self.remove(key.as_slice());
                },
            }
            done += 1;
        }
    }

    /// The keys that begin with `prefix`, in the order of the entries.
    pub fn keys_with_prefix(&self, prefix: &[u8]) -> (r: Vec<Vec<u8>>)
        ensures
            crate::value::byte_strings(r@) == prefixed_keys(self@, prefix@),
    {
        let mut out: Vec<Vec<u8>> = Vec::new();
        let mut i: usize = 0;
        proof {
            assert(crate::value::byte_strings(out@) =~= Seq::<Seq<u8>>::empty());
        }
        while i < self.entries.len()
            invariant
                i <= self.entries.len(),
                crate::value::byte_strings(out@) == prefixed_first(self@, prefix@, i as nat),
            decreases self.entries.len() - i,
        {
            if starts_with(self.entries[i].key.as_slice(), prefix) {
                let k = copy_bytes(self.entries[i].key.as_slice());
                proof {
                    crate::index::lemma_byte_strings_push(out@, k);
                }
                out.push(k);
            }
            i += 1;
        }
        out
    }

    /// The keys that lie in the range, in the order of the entries.
    pub fn keys_in_range(&self, lo: &Bound, hi: &Bound) -> (r: Vec<Vec<u8>>)
        ensures
            crate::value::byte_strings(r@) == ranged_keys(self@, lo@, hi@),
    {
        let mut out: Vec<Vec<u8>> = Vec::new();
        let mut i: usize = 0;
        proof {
            assert(crate::value::byte_strings(out@) =~= Seq::<Seq<u8>>::empty());
        }
        while i < self.entries.len()
            invariant
                i <= self.entries.len(),
                crate::value::byte_strings(out@) == ranged_first(self@, lo@, hi@, i as nat),
            decreases self.entries.len() - i,
        {
            if key_in_range(self.entries[i].key.as_slice(), lo, hi) {
                let k = copy_bytes(self.entries[i].key.as_slice());
                proof {
                    crate::index::lemma_byte_strings_push(out@, k);
                }
                out.push(k);
            }
            i += 1;
        }
        out
    }
}

} // verus!
