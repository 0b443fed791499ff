//! Geospatial queries: the documents whose points the index lists, for the
//! caller to measure. Distances and containment are computed on doubles,
//! which this library holds as bits only; so a query here gives each
//! candidate with its point, and the caller keeps those that lie within.
//! The cells beside a cell are what `geohash` gives.
use crate::access::{get_value_by_path, read_path};
use crate::bytes::{bytes_equal, copy_bytes};
use crate::error::DbError;
use crate::index::{geo_point, geo_point_of, GeoPoint, Payload};
use crate::keys::{
    geo_prefix, geo_sorted_family, get_geo_sorted_index_prefix_for_field,
    get_geo_sorted_index_prefix_for_hash, index_key_prefix, key_parts, last_fragment,
    path_prefix, primary_key_of, split_key,
};
use crate::store::{document, prefixed_keys, Store};
use crate::value::{byte_strings, Json, Value};
use vstd::prelude::*;

verus! {

/// A document that the geospatial index lists, with its key and its point.
#[derive(Debug, PartialEq)]
pub struct GeoCandidate {
    pub key: Vec<u8>,
    pub document: Value,
    pub point: GeoPoint,
}

/// What a `GeoCandidate` stands for.
pub struct Candidate {
    pub key: Seq<u8>,
    pub document: Json,
    pub point: GeoPoint,
}

impl View for GeoCandidate {
    type V = Candidate;

    open spec fn view(&self) -> Candidate {
        Candidate { key: self.key@, document: self.document@, point: self.point }
    }
}

/// The views of a sequence of candidates, one for one.
pub open spec fn candidates(found: Seq<GeoCandidate>) -> Seq<Candidate> {
    Seq::new(found.len(), |i: int| found[i]@)
}

/// Whether a candidate with the key `key` is among `found`.
pub open spec fn has_candidate(found: Seq<Candidate>, key: Seq<u8>) -> bool {
    exists|i: int| 0 <= i < found.len() && (#[trigger] found[i]).key == key
}

/// The candidate that a key of the index leads to: the key is one of the
/// geospatial index for `path`, a document is stored under the primary key
/// behind its last colon, and a point stands in the document at `path`.
pub open spec fn geo_hit(entries: Seq<(Seq<u8>, Option<Json>)>, path: Seq<u8>, key: Seq<u8>) -> Option<
    Candidate,
> {
    match key_parts(geo_prefix(), key) {
        None => None,
        Some((stored_path, _, _)) => if stored_path != path {
            None
        } else {
            match document(entries, last_fragment(key)) {
                None => None,
                Some(doc) => match read_path(doc, path) {
                    None => None,
                    Some(found) => match geo_point_of(found) {
                        None => None,
                        Some(point) => Some(
                            Candidate { key: last_fragment(key), document: doc, point },
                        ),
                    },
                },
            }
        },
    }
}

/// The candidates that the first `n` of `keys` lead to, one for each primary
/// key, in the order of the keys.
pub open spec fn candidates_first(
    entries: Seq<(Seq<u8>, Option<Json>)>,
    path: Seq<u8>,
    keys: Seq<Seq<u8>>,
    n: nat,
) -> Seq<Candidate>
    decreases n,
{
    if n == 0 || n > keys.len() {
        Seq::empty()
    } else {
        let rest = candidates_first(entries, path, keys, (n - 1) as nat);
        match geo_hit(entries, path, keys[n - 1]) {
            Some(c) => if has_candidate(rest, c.key) {
                rest
            } else {
                rest.push(c)
            },
            None => rest,
        }
    }
}

/// The keys of the geospatial index for `path` in the first `n` of `cells`,
/// cell after cell.
pub open spec fn cell_keys_first(
    entries: Seq<(Seq<u8>, Option<Json>)>,
    path: Seq<u8>,
    cells: Seq<Seq<u8>>,
    n: nat,
) -> Seq<Seq<u8>>
    decreases n,
{
    if n == 0 || n > cells.len() {
        Seq::empty()
    } else {
        cell_keys_first(entries, path, cells, (n - 1) as nat) + prefixed_keys(
            entries,
            index_key_prefix(geo_prefix(), path, cells[n - 1]),
        )
    }
}

/// The candidates of a query for the points in `cells`.
pub open spec fn radius_candidates(
    entries: Seq<(Seq<u8>, Option<Json>)>,
    path: Seq<u8>,
    cells: Seq<Seq<u8>>,
) -> Seq<Candidate> {
    let keys = cell_keys_first(entries, path, cells, cells.len());
    candidates_first(entries, path, keys, keys.len())
}

/// The candidates of a query for all points at `path`.
pub open spec fn box_candidates(entries: Seq<(Seq<u8>, Option<Json>)>, path: Seq<u8>) -> Seq<
    Candidate,
> {
    let keys = prefixed_keys(entries, path_prefix(geo_prefix(), path));
    candidates_first(entries, path, keys, keys.len())
}

/// Whether a candidate with the key `key` is among `found`.
fn seen(found: &Vec<GeoCandidate>, key: &[u8]) -> (r: bool)
    ensures
        r == has_candidate(candidates(found@), key@),
{
    let mut i: usize = 0;
    while i < found.len()
        invariant
            i <= found.len(),
            forall|j: int| 0 <= j < i ==> found@[j].key@ != key@,
        decreases found.len() - i,
    {
        if bytes_equal(found[i].key.as_slice(), key) {
            proof {
                assert(candidates(found@)[i as int].key == key@);
            }
            return true;
        }
        i += 1;
    }
    proof {
        if has_candidate(candidates(found@), key@) {
            let j = choose|j: int|
                0 <= j < candidates(found@).len() && (#[trigger] candidates(found@)[j]).key
                    == key@;
            assert(found@[j].key@ == key@);
        }
    }
    false
}

/// The candidate that a key of the index leads to.
fn follow(db: &Store, field_path: &[u8], index_key: &[u8]) -> (r: Option<GeoCandidate>)
    ensures
        match r {
            Some(c) => geo_hit(db@, field_path@, index_key@) == Some(c@),
            None => geo_hit(db@, field_path@, index_key@) is None,
        },
{
    let family = geo_sorted_family();
    let parts = match split_key(family.as_slice(), index_key) {
        Some(parts) => parts,
        None => {
            return None;
        },
    };
    if !bytes_equal(parts.path.as_slice(), field_path) {
        return None;
    }
    let primary = primary_key_of(index_key);
    match db.get(primary.as_slice()) {
        Some(Payload::Document(doc)) => match get_value_by_path(doc, field_path) {
            Some(found) => match geo_point(found) {
                Some(point) => Some(GeoCandidate { key: primary, document: doc.duplicate(), point }),
                None => None,
            },
            None => None,
        },
        _ => None,
    }
}

/// Appends the candidates that `keys` lead to and that `out` does not hold
/// yet.
fn gather(
    db: &Store,
    field_path: &[u8],
    keys: &Vec<Vec<u8>>,
    out: &mut Vec<GeoCandidate>,
    Ghost(all): Ghost<Seq<Seq<u8>>>,
    Ghost(from): Ghost<nat>,
)
    requires
        from + keys@.len() <= all.len(),
        forall|j: int| 0 <= j < keys@.len() ==> all[from + j] == #[trigger] keys@[j]@,
        candidates(old(out)@) == candidates_first(db@, field_path@, all, from),
    ensures
        candidates(final(out)@) == candidates_first(
            db@,
            field_path@,
            all,
            (from + keys@.len()) as nat,
        ),
{
    let mut i: usize = 0;
    while i < keys.len()
        invariant
            i <= keys.len(),
            from + keys@.len() <= all.len(),
            forall|j: int| 0 <= j < keys@.len() ==> all[from + j] == #[trigger] keys@[j]@,
            candidates(out@) == candidates_first(db@, field_path@, all, (from + i) as nat),
        decreases keys.len() - i,
    {
        proof {
            assert(all[from + i] == keys@[i as int]@);
        }
        match follow(db, field_path, keys[i].as_slice()) {
            Some(c) => {
                if !seen(out, c.key.as_slice()) {
                    let ghost before = candidates(out@);
                    out.push(c);
                    proof {
                        assert(candidates(out@) =~= before.push(c@));
                    }
                }
            },
            None => {},
        }
        i += 1;
    }
}

/// Changing what lies behind the first `n` keys changes nothing for them.
pub proof fn lemma_candidates_prefix(
    entries: Seq<(Seq<u8>, Option<Json>)>,
    path: Seq<u8>,
    a: Seq<Seq<u8>>,
    b: Seq<Seq<u8>>,
    n: nat,
)
    requires
        n <= a.len(),
        n <= b.len(),
        forall|j: int| 0 <= j < n ==> a[j] == b[j],
    ensures
        candidates_first(entries, path, a, n) == candidates_first(entries, path, b, n),
    decreases n,
{
    if n > 0 {
        lemma_candidates_prefix(entries, path, a, b, (n - 1) as nat);
    }
}

#[verifier::external_type_specification]
#[verifier::external_body]
pub struct ExGeohashError(geohash::GeohashError);

/// The eight cells beside the cell `hash`, as `geohash::neighbors` gives them
/// for the text of `hash`: to the north first, then clockwise. `None` where
/// it gives an error.
pub uninterp spec fn cells_beside(hash: Seq<u8>) -> Option<Seq<Seq<u8>>>;

/// `geohash::neighbors` on the text of a cell, that text made of the bytes as
/// `String::from_utf8_lossy` makes it, and the eight cells taken as bytes: to
/// the north first, then clockwise. An empty text is left out.
#[verifier::external_body]
fn neighbours_of(hash: &[u8]) -> (r: Result<Vec<Vec<u8>>, geohash::GeohashError>)
    requires
        hash@.len() > 0,
    ensures
        match r {
            Ok(cells) => cells_beside(hash@) == Some(byte_strings(cells@)) && cells@.len() == 8,
            Err(_) => cells_beside(hash@) is None,
        },
{
    let around = geohash::neighbors(&String::from_utf8_lossy(hash))?;
    Ok(
        vec![
            around.n.into_bytes(),
            around.ne.into_bytes(),
            around.e.into_bytes(),
            around.se.into_bytes(),
            around.s.into_bytes(),
            around.sw.into_bytes(),
            around.w.into_bytes(),
            around.nw.into_bytes(),
        ],
    )
}

/// The cells of a query around a cell: the cell itself, then the cells
/// beside it.
pub fn with_center(center: &[u8], beside: Vec<Vec<u8>>) -> (r: Vec<Vec<u8>>)
    ensures
        byte_strings(r@) == seq![center@] + byte_strings(beside@),
{
    let mut out: Vec<Vec<u8>> = Vec::new();
    out.push(copy_bytes(center));
    let mut rest = beside;
    out.append(&mut rest);
    proof {
        assert(byte_strings(out@) =~= seq![center@] + byte_strings(beside@));
    }
    out
}

/// The cells that a query around the cell `center` scans, if the cell has
/// cells beside it.
pub open spec fn cells_to_scan(center: Seq<u8>) -> Option<Seq<Seq<u8>>> {
    if center.len() == 0 {
        None
    } else {
        match cells_beside(center) {
            Some(beside) => Some(seq![center] + beside),
            None => None,
        }
    }
}

/// The nine cells that a query around the cell `center` scans: the cell and
/// the eight beside it. The error is `Geohash` where `center` is empty or is
/// no cell that has cells beside it.
pub fn cells_around(center: &[u8]) -> (r: Result<Vec<Vec<u8>>, DbError>)
    ensures
        match cells_to_scan(center@) {
            Some(cells) => r is Ok && byte_strings(r->Ok_0@) == cells,
            None => r matches Err(DbError::Geohash(_)),
        },
{
    if center.len() == 0 {
        return Err(DbError::Geohash("the cell is empty".to_owned()));
    }
    match neighbours_of(center) {
        Ok(beside) => Ok(with_center(center, beside)),
        Err(_) => Err(DbError::Geohash("the cell has no cells beside it".to_owned())),
    }
}

/// The documents with a point at `field_path` that the geospatial index lists
/// in `cells`, each once, with their points: the candidates of a query for
/// the points within a radius, whose cells are those that cover the circle.
/// Which of them lie within the radius is for the caller to measure.
pub fn query_within_radius_simplified(db: &Store, field_path: &[u8], cells: &Vec<Vec<u8>>) -> (r:
    Vec<GeoCandidate>)
    ensures
        candidates(r@) == radius_candidates(db@, field_path@, byte_strings(cells@)),
{
    let mut out: Vec<GeoCandidate> = Vec::new();
    let ghost hashes = byte_strings(cells@);
    let ghost mut scanned: Seq<Seq<u8>> = Seq::empty();
    proof {
        assert(candidates(out@) =~= Seq::<Candidate>::empty());
    }
    let mut i: usize = 0;
    while i < cells.len()
        invariant
            i <= cells.len(),
            hashes == byte_strings(cells@),
            scanned == cell_keys_first(db@, field_path@, hashes, i as nat),
            candidates(out@) == candidates_first(db@, field_path@, scanned, scanned.len()),
        decreases cells.len() - i,
    {
        let prefix = get_geo_sorted_index_prefix_for_hash(field_path, cells[i].as_slice());
        let keys = db.keys_with_prefix(prefix.as_slice());
        let ghost next = scanned + byte_strings(keys@);
        proof {
            lemma_candidates_prefix(db@, field_path@, scanned, next, scanned.len());
            assert forall|j: int| 0 <= j < keys@.len() implies next[scanned.len() + j]
                == #[trigger] keys@[j]@ by {
                assert(byte_strings(keys@)[j] == keys@[j]@);
            }
        }
        gather(db, field_path, &keys, &mut out, Ghost(next), Ghost(scanned.len()));
        proof {
            assert(next.len() == scanned.len() + keys@.len());
        }
        proof {
            scanned = next;
        }
        i += 1;
    }
    out
}

/// The documents with a point at `field_path` that the geospatial index
/// lists, each once, with their points: the candidates of a query for the
/// points in a box. Which of them lie in the box is for the caller to
/// measure.
pub fn query_in_box(db: &Store, field_path: &[u8]) -> (r: Vec<GeoCandidate>)
    ensures
        candidates(r@) == box_candidates(db@, field_path@),
{
    let prefix = get_geo_sorted_index_prefix_for_field(field_path);
    let keys = db.keys_with_prefix(prefix.as_slice());
    let mut out: Vec<GeoCandidate> = Vec::new();
    proof {
        assert(candidates(out@) =~= Seq::<Candidate>::empty());
        assert forall|j: int| 0 <= j < keys@.len() implies byte_strings(keys@)[0 + j]
            == #[trigger] keys@[j]@ by {}
    }
    gather(db, field_path, &keys, &mut out, Ghost(byte_strings(keys@)), Ghost(0));
    out
}

} // verus!
