//! Which field paths are indexed, and how.
use crate::bytes::{bytes_equal, copy_bytes, copy_range, find, find_byte, lemma_find_byte};
use crate::value::byte_strings;
use vstd::prelude::*;

verus! {

/// The indexing configuration: three sets of field paths, each held as a list
/// in which a path counts once however often it stands there.
#[derive(Clone, Debug, Default)]
pub struct DbConfig {
    pub hash_indexed_fields: Vec<Vec<u8>>,
    pub sorted_indexed_fields: Vec<Vec<u8>>,
    pub geo_indexed_fields: Vec<Vec<u8>>,
}

/// What a `DbConfig` stands for.
pub struct ConfigView {
    pub hash: Set<Seq<u8>>,
    pub sorted: Set<Seq<u8>>,
    pub geo: Set<Seq<u8>>,
}

/// The set of the paths in a list.
pub open spec fn path_set(paths: Seq<Vec<u8>>) -> Set<Seq<u8>> {
    Set::new(|p: Seq<u8>| byte_strings(paths).contains(p))
}

impl View for DbConfig {
    type V = ConfigView;

    open spec fn view(&self) -> ConfigView {
        ConfigView {
            hash: path_set(self.hash_indexed_fields@),
            sorted: path_set(self.sorted_indexed_fields@),
            geo: path_set(self.geo_indexed_fields@),
        }
    }
}

/// Whether `path` is in the list.
pub fn contains_path(paths: &Vec<Vec<u8>>, path: &[u8]) -> (r: bool)
    ensures
        r == path_set(paths@).contains(path@),
{
    let mut i: usize = 0;
    while i < paths.len()
        invariant
            i <= paths.len(),
            forall|j: int| 0 <= j < i ==> paths@[j]@ != path@,
        decreases paths.len() - i,
    {
        if bytes_equal(paths[i].as_slice(), path) {
            proof {
                assert(byte_strings(paths@)[i as int] == path@);
            }
            return true;
        }
        i += 1;
    }
    proof {
        if byte_strings(paths@).contains(path@) {
            let j = choose|j: int|
                0 <= j < byte_strings(paths@).len() && byte_strings(paths@)[j] == path@;
            assert(paths@[j]@ == path@);
        }
    }
    false
}

/// Puts `path` into the list unless it is there. Says whether it was put in.
pub fn insert_path(paths: &mut Vec<Vec<u8>>, path: &[u8]) -> (r: bool)
    ensures
        path_set(final(paths)@) == path_set(old(paths)@).insert(path@),
        r == !path_set(old(paths)@).contains(path@),
{
    if contains_path(paths, path) {
        proof {
            assert(path_set(paths@) =~= path_set(paths@).insert(path@));
        }
        false
    } else {
        let ghost before = paths@;
        paths.push(copy_bytes(path));
        proof {
            assert(byte_strings(paths@) =~= byte_strings(before).push(path@));
            assert forall|p: Seq<u8>| path_set(paths@).contains(p) == path_set(before).insert(
                path@,
            ).contains(p) by {
                if byte_strings(before).contains(p) {
                    let j = choose|j: int|
                        0 <= j < byte_strings(before).len() && byte_strings(before)[j] == p;
                    assert(byte_strings(paths@)[j] == p);
                }
                if p == path@ {
                    assert(byte_strings(paths@)[before.len() as int] == p);
                }
            }
            assert(path_set(paths@) =~= path_set(before).insert(path@));
        }
        true
    }
}

/// The beginnings of `path` that end before a dot at or after `from`, and
/// `path` itself.
pub open spec fn beginnings_from(path: Seq<u8>, from: int) -> Set<Seq<u8>>
    decreases path.len() - from,
{
    if from < 0 || from > path.len() {
        Set::empty()
    } else {
        let at = find_byte(path, 46, from);
        if at >= path.len() {
            set![path]
        } else {
            proof {
                lemma_find_byte(path, 46, from);
            }
            beginnings_from(path, at + 1).insert(path.take(at))
        }
    }
}

/// The beginnings of `path` that end before a dot, and `path` itself: for
/// `a.b.c` these are `a`, `a.b` and `a.b.c`.
pub open spec fn path_beginnings(path: Seq<u8>) -> Set<Seq<u8>> {
    beginnings_from(path, 0)
}

impl DbConfig {
    /// A configuration that indexes nothing.
    pub fn new() -> (r: DbConfig)
        ensures
            r@.hash == Set::<Seq<u8>>::empty(),
            r@.sorted == Set::<Seq<u8>>::empty(),
            r@.geo == Set::<Seq<u8>>::empty(),
    {
        let r = DbConfig {
            hash_indexed_fields: Vec::new(),
            sorted_indexed_fields: Vec::new(),
            geo_indexed_fields: Vec::new(),
        };
        proof {
            assert(byte_strings(Seq::<Vec<u8>>::empty()) =~= Seq::<Seq<u8>>::empty());
            assert(r@.hash =~= Set::<Seq<u8>>::empty());
            assert(r@.sorted =~= Set::<Seq<u8>>::empty());
            assert(r@.geo =~= Set::<Seq<u8>>::empty());
        }
        r
    }

    /// A copy of the configuration, for a query to run on while the
    /// configuration itself may change.
    pub fn snapshot(&self) -> (r: DbConfig)
        ensures
            r@ == self@,
    {
        let r = DbConfig {
            hash_indexed_fields: copy_paths(&self.hash_indexed_fields),
            sorted_indexed_fields: copy_paths(&self.sorted_indexed_fields),
            geo_indexed_fields: copy_paths(&self.geo_indexed_fields),
        };
        r
    }

    /// Whether `path` is in the equality index.
    pub fn is_hash_indexed(&self, path: &[u8]) -> (r: bool)
        ensures
            r == self@.hash.contains(path@),
    {
        contains_path(&self.hash_indexed_fields, path)
    }

    /// Whether `path` is in the sorted index.
    pub fn is_sorted_indexed(&self, path: &[u8]) -> (r: bool)
        ensures
            r == self@.sorted.contains(path@),
    {
        contains_path(&self.sorted_indexed_fields, path)
    }

    /// Whether `path` is in the geospatial index.
    pub fn is_geo_indexed(&self, path: &[u8]) -> (r: bool)
        ensures
            r == self@.geo.contains(path@),
    {
        contains_path(&self.geo_indexed_fields, path)
    }
}

/// A copy of a list of paths.
pub fn copy_paths(paths: &Vec<Vec<u8>>) -> (r: Vec<Vec<u8>>)
    ensures
        byte_strings(r@) == byte_strings(paths@),
{
    let mut out: Vec<Vec<u8>> = Vec::new();
    let mut i: usize = 0;
    while i < paths.len()
        invariant
            i <= paths.len(),
            out@.len() == i,
            forall|j: int| 0 <= j < i ==> out@[j]@ == paths@[j]@,
        decreases paths.len() - i,
    {
        out.push(copy_bytes(paths[i].as_slice()));
        i += 1;
    }
    proof {
        assert(byte_strings(out@) =~= byte_strings(paths@));
    }
    out
}

/// Puts a field path and every beginning of it that ends before a dot into
/// the equality index: a query on the path has been seen, and writes from now
/// on keep entries for it. Nothing is ever taken out.
pub fn add_field_to_index(db_config: &mut DbConfig, field_path: &[u8])
    ensures
        final(db_config)@.hash == old(db_config)@.hash.union(path_beginnings(field_path@)),
        final(db_config)@.sorted == old(db_config)@.sorted,
        final(db_config)@.geo == old(db_config)@.geo,
{
    let mut start: usize = 0;
    let ghost goal = db_config@.hash.union(path_beginnings(field_path@));
    let ghost path = field_path@;
    loop
        invariant_except_break
            start <= field_path@.len(),
            path == field_path@,
            db_config@.sorted == old(db_config)@.sorted,
            db_config@.geo == old(db_config)@.geo,
            db_config@.hash.union(beginnings_from(path, start as int)) == goal,
        ensures
            db_config@.hash == goal,
            db_config@.sorted == old(db_config)@.sorted,
            db_config@.geo == old(db_config)@.geo,
        decreases field_path@.len() - start,
    {
        let at = find(field_path, 46, start);
        let piece = copy_range(field_path, 0, at);
        proof {
            assert(piece@ =~= path.take(at as int));
        }
        let ghost prior = db_config@.hash;
        let _ = insert_path(&mut db_config.hash_indexed_fields, piece.as_slice());
        if at >= field_path.len() {
            proof {
                assert(path.take(at as int) =~= path);
                assert(prior.insert(path) =~= prior.union(set![path]));
            }
            break;
        }
        proof {
            assert(prior.insert(path.take(at as int)).union(beginnings_from(path, at + 1))
                =~= prior.union(beginnings_from(path, start as int)));
        }
        start = at + 1;
    }
}

} // verus!
