//! Projection: the parts of a document that a list of paths names, put
//! together as a document of their own.
use crate::access::{
    insert_value_by_path, json_assign, json_member, json_read, member, read_parts,
};
use crate::bytes::copy_bytes;
use crate::error::DbError;
use crate::ops::get_key;
use crate::path::{path_parts, split_path};
use crate::query::lemma_views_push;
use crate::store::{stored, Store};
use crate::value::{byte_strings, field_views, lemma_array_view, lemma_object_view, views, Json, Value};
use vstd::prelude::*;

verus! {

/// The fields named `name` of the objects among the first `n` of `items`, in
/// their order.
pub open spec fn collected_first(items: Seq<Json>, name: Seq<u8>, n: nat) -> Seq<Json>
    decreases n,
{
    if n == 0 || n > items.len() {
        Seq::empty()
    } else {
        let rest = collected_first(items, name, (n - 1) as nat);
        match items[n - 1] {
            Json::Object(_) => match json_member(items[n - 1], name) {
                Some(found) => rest.push(found),
                None => rest,
            },
            _ => rest,
        }
    }
}

/// What an array-valued parent gives for a path that leads through it: the
/// fields of the last segment's name of its items, as an array assigned at
/// the parent's path; nothing where the parent is no array or no item has the
/// field.
pub open spec fn project_through_array(doc: Json, projected: Json, parts: Seq<Seq<u8>>) -> Option<
    Json,
> {
    match json_read(doc, parts.drop_last()) {
        Some(Json::Array(items)) => {
            let collected = collected_first(items, parts.last(), items.len());
            if collected.len() > 0 {
                json_assign(projected, parts.drop_last(), Json::Array(collected))
            } else {
                Some(projected)
            }
        },
        _ => Some(projected),
    }
}

/// `projected` with what `doc` holds at `path` assigned at `path`. The empty
/// path names the root: the whole of `doc` is taken. Where nothing stands at
/// `path` and the path has more than one segment, an array-valued parent
/// gives the fields of its items. `None` where the assignment cannot be made.
pub open spec fn project_path(doc: Json, projected: Json, path: Seq<u8>) -> Option<Json> {
    let parts = path_parts(path);
    if parts.len() == 0 {
        Some(doc)
    } else {
        match json_read(doc, parts) {
            Some(found) => json_assign(projected, parts, found),
            None => if parts.len() > 1 {
                project_through_array(doc, projected, parts)
            } else {
                Some(projected)
            },
        }
    }
}

/// The projection of `doc` on the first `n` of `paths`, begun as an empty
/// object.
pub open spec fn projected_first(doc: Json, paths: Seq<Seq<u8>>, n: nat) -> Option<Json>
    decreases n,
{
    if n == 0 || n > paths.len() {
        Some(Json::Object(Seq::empty()))
    } else {
        match projected_first(doc, paths, (n - 1) as nat) {
            Some(projected) => project_path(doc, projected, paths[n - 1]),
            None => None,
        }
    }
}

/// Whether the projection of a document is given out: it holds something, or
/// the document is an object or null.
pub open spec fn is_kept(doc: Json, projected: Json) -> bool {
    projected != Json::Object(Seq::empty()) || doc is Object || doc is Null
}

/// The projections of the first `n` of `docs` that are given out.
pub open spec fn projection_first(docs: Seq<Json>, paths: Seq<Seq<u8>>, n: nat) -> Option<
    Seq<Json>,
>
    decreases n,
{
    if n == 0 || n > docs.len() {
        Some(Seq::empty())
    } else {
        match (
            projection_first(docs, paths, (n - 1) as nat),
            projected_first(docs[n - 1], paths, paths.len()),
        ) {
            (Some(rest), Some(projected)) => Some(
                if is_kept(docs[n - 1], projected) {
                    rest.push(projected)
                } else {
                    rest
                },
            ),
            _ => None,
        }
    }
}

/// The projection of `docs` on `paths`: `docs` as they are where there is no
/// path; else the projection of each, where it is given out. `None` where an
/// assignment cannot be made.
pub open spec fn projection(docs: Seq<Json>, paths: Seq<Seq<u8>>) -> Option<Seq<Json>> {
    if paths.len() == 0 {
        Some(docs)
    } else {
        projection_first(docs, paths, docs.len())
    }
}

/// Once an assignment could not be made, the projection has failed.
pub proof fn lemma_projected_none(doc: Json, paths: Seq<Seq<u8>>, m: nat, n: nat)
    requires
        m <= n <= paths.len(),
        projected_first(doc, paths, m) is None,
    ensures
        projected_first(doc, paths, n) is None,
    decreases n,
{
    if m < n {
        lemma_projected_none(doc, paths, m, (n - 1) as nat);
    }
}

/// Once a document could not be projected, the projection of all has failed.
pub proof fn lemma_projection_none(docs: Seq<Json>, paths: Seq<Seq<u8>>, m: nat, n: nat)
    requires
        m <= n <= docs.len(),
        projection_first(docs, paths, m) is None,
    ensures
        projection_first(docs, paths, n) is None,
    decreases n,
{
    if m < n {
        lemma_projection_none(docs, paths, m, (n - 1) as nat);
    }
}

/// The fields named `name` of the objects among `items`.
fn collect_members(items: &Vec<Value>, name: &[u8]) -> (r: Vec<Value>)
    ensures
        views(r@) == collected_first(views(items@), name@, items@.len()),
{
    let mut out: Vec<Value> = Vec::new();
    proof {
        assert(views(out@) =~= Seq::<Json>::empty());
    }
    let mut i: usize = 0;
    while i < items.len()
        invariant
            i <= items.len(),
            views(out@) == collected_first(views(items@), name@, i as nat),
        decreases items.len() - i,
    {
        proof {
            assert(views(items@)[i as int] == items@[i as int]@);
            assert(items@[i as int]@ is Object <==> items@[i as int] is Object);
        }
        match &items[i] {
            Value::Object(_) => match member(&items[i], name) {
                Some(found) => {
                    let copy = found.duplicate();
                    proof {
                        lemma_views_push(out@, copy);
                    }
                    out.push(copy);
                },
                None => {},
            },
            _ => {},
        }
        i += 1;
    }
    out
}

/// The first `n` of `parts`.
fn leading(parts: &Vec<Vec<u8>>, n: usize) -> (r: Vec<Vec<u8>>)
    requires
        n <= parts@.len(),
    ensures
        byte_strings(r@) == byte_strings(parts@).take(n as int),
{
    let mut out: Vec<Vec<u8>> = Vec::new();
    let mut i: usize = 0;
    while i < n
        invariant
            i <= n <= parts@.len(),
            out@.len() == i,
            forall|j: int| 0 <= j < i ==> out@[j]@ == parts@[j]@,
        decreases n - i,
    {
        out.push(copy_bytes(parts[i].as_slice()));
        i += 1;
    }
    proof {
        assert(byte_strings(out@) =~= byte_strings(parts@).take(n as int));
    }
    out
}

/// Assigns in `projected` what `doc` holds at `path`.
fn project_one(doc: &Value, projected: &mut Value, path: &[u8]) -> (r: Result<(), DbError>)
    ensures
        match project_path(doc@, old(projected)@, path@) {
            Some(j) => r is Ok && final(projected)@ == j,
            None => r matches Err(DbError::InvalidPath(_)),
        },
{
    let parts = split_path(path);
    if parts.len() == 0 {
        *projected = doc.duplicate();
        return Ok(());
    }
    let ghost all = byte_strings(parts@);
    proof {
        assert(all.skip(0) =~= all);
    }
    let direct = read_parts(doc, &parts, 0);
    if let Some(found) = direct {
        return insert_value_by_path(projected, &parts, found.duplicate());
    }
    if parts.len() <= 1 {
        return Ok(());
    }
    let parent = leading(&parts, parts.len() - 1);
    proof {
        assert(byte_strings(parent@).skip(0) =~= byte_strings(parent@));
        assert(all.take(all.len() - 1) =~= all.drop_last());
        assert(all.last() == parts@[parts@.len() - 1]@);
    }
    let last = &parts[parts.len() - 1];
    let above = read_parts(doc, &parent, 0);
    match above {
        Some(array) => {
            match array {
                Value::Array(items) => {
                    proof {
                        lemma_array_view(*array);
                    }
                    let collected = collect_members(items, last.as_slice());
                    if collected.len() > 0 {
                        let made = Value::Array(collected);
                        proof {
                            lemma_array_view(made);
                        }
                        insert_value_by_path(projected, &parent, made)
                    } else {
                        Ok(())
                    }
                },
                _ => Ok(()),
            }
        },
        None => Ok(()),
    }
}

/// Whether a value is the empty object.
fn is_empty_object(v: &Value) -> (r: bool)
    ensures
        r == (v@ == Json::Object(Seq::empty())),
{
    match v {
        Value::Object(fields) => {
            proof {
                lemma_object_view(*v);
                if fields@.len() == 0 {
                    assert(field_views(fields@) =~= Seq::empty());
                } else {
                    assert(field_views(fields@).len() > 0);
                }
            }
            fields.len() == 0
        },
        _ => false,
    }
}

/// The projection of one document on `paths`.
fn project_document(doc: &Value, paths: &Vec<Vec<u8>>) -> (r: Result<Value, DbError>)
    ensures
        match projected_first(doc@, byte_strings(paths@), paths@.len()) {
            Some(j) => r is Ok && r->Ok_0@ == j,
            None => r matches Err(DbError::InvalidPath(_)),
        },
{
    let mut projected = Value::Object(Vec::new());
    let ghost all = byte_strings(paths@);
    proof {
        lemma_object_view(projected);
        assert(field_views(projected->Object_0@) =~= Seq::empty());
    }
    let mut i: usize = 0;
    while i < paths.len()
        invariant
            i <= paths.len(),
            all == byte_strings(paths@),
            projected_first(doc@, all, i as nat) == Some(projected@),
        decreases paths.len() - i,
    {
        match project_one(doc, &mut projected, paths[i].as_slice()) {
            Ok(()) => {},
            Err(e) => {
                proof {
                    lemma_projected_none(doc@, all, (i + 1) as nat, all.len());
                }
                return Err(e);
            },
        }
        i += 1;
    }
    Ok(projected)
}

/// Projects the documents on the paths. With no path the documents come back
/// as they are. Else each document gives an object that holds, at each path,
/// what the document holds there, and the whole document for the empty path,
/// which names the root; where nothing stands at a path of more than
/// one segment and an array stands at the path without its last segment, the
/// fields of the last segment's name of the array's items are put there as an
/// array. A document that is neither an object nor null and gives nothing is
/// left out. Where an assignment cannot be made, the error is `InvalidPath`.
pub fn apply_projection(documents: Vec<Value>, projection: &Vec<Vec<u8>>) -> (r: Result<
    Vec<Value>,
    DbError,
>)
    ensures
        match self::projection(views(documents@), byte_strings(projection@)) {
            Some(js) => r is Ok && views(r->Ok_0@) == js,
            None => r matches Err(DbError::InvalidPath(_)),
        },
{
    if projection.len() == 0 {
        return Ok(documents);
    }
    let ghost docs = views(documents@);
    let ghost paths = byte_strings(projection@);
    let mut out: Vec<Value> = Vec::new();
    proof {
        assert(views(out@) =~= Seq::<Json>::empty());
    }
    let mut i: usize = 0;
    while i < documents.len()
        invariant
            i <= documents.len(),
            docs == views(documents@),
            paths == byte_strings(projection@),
            projection_first(docs, paths, i as nat) == Some(views(out@)),
        decreases documents.len() - i,
    {
        proof {
            assert(docs[i as int] == documents@[i as int]@);
        }
        match project_document(&documents[i], projection) {
            Ok(projected) => {
                let skip = is_empty_object(&projected) && match &documents[i] {
                    Value::Object(_) => false,
                    Value::Null => false,
                    _ => true,
                };
                if !skip {
                    proof {
                        lemma_views_push(out@, projected);
                    }
                    out.push(projected);
                }
            },
            Err(e) => {
                proof {
                    lemma_projection_none(docs, paths, (i + 1) as nat, docs.len());
                }
                return Err(e);
            },
        }
        i += 1;
    }
    Ok(out)
}

/// The parts of the document under `key` that `fields` names, as a document
/// of their own, made as `apply_projection` makes it. The error is `NotFound`
/// where nothing is stored under `key` or the projection is left out, `Serde`
/// where what is stored is no document, and `InvalidPath` where an assignment
/// cannot be made.
pub fn get_partial_key(db: &Store, key: &[u8], fields: &Vec<Vec<u8>>) -> (r: Result<
    Value,
    DbError,
>)
    ensures
        match stored(db@, key@) {
            None => r matches Err(DbError::NotFound),
            Some(None) => r matches Err(DbError::Serde(_)),
            Some(Some(doc)) => match projection(seq![doc], byte_strings(fields@)) {
                None => r matches Err(DbError::InvalidPath(_)),
                Some(js) => if js.len() > 0 {
                    r is Ok && r->Ok_0@ == js[0]
                } else {
                    r matches Err(DbError::NotFound)
                },
            },
        },
{
    let full = match get_key(db, key) {
        Ok(v) => v,
        Err(e) => {
            return Err(e);
        },
    };
    let mut single: Vec<Value> = Vec::new();
    single.push(full);
    proof {
        assert(views(single@) =~= seq![full@]);
    }
    let mut projected = match apply_projection(single, fields) {
        Ok(docs) => docs,
        Err(e) => {
            return Err(e);
        },
    };
    if projected.len() > 0 {
        let first = projected.remove(0);
        Ok(first)
    } else {
        Err(DbError::NotFound)
    }
}

} // verus!
