//! Laws of projection: what a path leads to in a document stands at that
//! path in the projection of the document.
use crate::access::{
    field_index, field_slot, fresh_container, has_field, json_assign, json_member, json_read,
    lemma_field_index, put_field, read_path,
};
use crate::access_laws::{
    law_assigning_what_stands_changes_nothing, law_read_after_assignment, lemma_before_slot,
    lemma_field_index_is, lemma_member_after_put, lemma_other_member_after_put,
    lemma_slot_is_index,
};
use crate::canon::{is_canonical, lemma_put_field_sorted, sorted_names};
use crate::path::{index_of, path_parts};
use crate::projection::{
    collected_first, project_path, projected_first, projection, projection_first,
};
use crate::value::Json;
use vstd::prelude::*;

verus! {

/// Whether no segment is an index of an array.
pub open spec fn plain(parts: Seq<Seq<u8>>) -> bool {
    forall|i: int| 0 <= i < parts.len() ==> index_of(#[trigger] parts[i]) is None
}

/// Whether the segments `w` are the first of the segments `parts`, or all of
/// them.
pub open spec fn leads(w: Seq<Seq<u8>>, parts: Seq<Seq<u8>>) -> bool {
    w.len() <= parts.len() && forall|i: int| 0 <= i < w.len() ==> #[trigger] w[i] == parts[i]
}

/// Whether `x` is made of parts of `y`: it is `y`; or `y` is an array, in
/// whose place anything may stand; or both are objects, the fields of `x`
/// stand in the order of their names, and each is made of parts of the field
/// of `y` of the same name.
pub open spec fn fits(x: Json, y: Json) -> bool
    decreases x,
{
    x == y || y is Array || (x is Object && y is Object && sorted_names(x->Object_0)
        && forall|i: int|
        0 <= i < x->Object_0.len() ==> json_member(y, (#[trigger] x->Object_0[i]).0) is Some
            && fits(x->Object_0[i].1, json_member(y, x->Object_0[i].0)->0))
}

/// Whether an object is made of parts of another, field by field.
pub open spec fn fits_fieldwise(xf: Seq<(Seq<u8>, Json)>, y: Json) -> bool {
    sorted_names(xf) && forall|i: int|
        0 <= i < xf.len() ==> json_member(y, (#[trigger] xf[i]).0) is Some && fits(
            xf[i].1,
            json_member(y, xf[i].0)->0,
        )
}

/// An object that is made of parts of an object is so field by field.
pub proof fn lemma_fits_object(x: Json, y: Json)
    requires
        fits(x, y),
        is_canonical(y),
        y is Object,
    ensures
        x is Object,
        fits_fieldwise(x->Object_0, y),
{
    if x == y {
        let fields = y->Object_0;
        assert forall|i: int| 0 <= i < fields.len() implies json_member(
            y,
            (#[trigger] fields[i]).0,
        ) is Some && fits(fields[i].1, json_member(y, fields[i].0)->0) by {
            assert forall|j: int| 0 <= j < i implies (#[trigger] fields[j]).0 != fields[i].0 by {
                assert(crate::bytes::bytes_lt(fields[j].0, fields[i].0));
                crate::bytes::lemma_relation_equal(fields[j].0, fields[i].0);
            }
            lemma_field_index_is(fields, fields[i].0, 0, i);
        }
    }
}

/// What a member of a canonical document is, is canonical.
pub proof fn lemma_member_is_canonical(y: Json, name: Seq<u8>)
    requires
        is_canonical(y),
        json_member(y, name) is Some,
    ensures
        is_canonical(json_member(y, name)->0),
{
    match y {
        Json::Object(fields) => {
            lemma_field_index(fields, name, 0);
            let at = field_index(fields, name, 0);
            assert(is_canonical(fields[at].1));
        },
        Json::Array(items) => {
            let i = index_of(name)->0 as int;
            assert(is_canonical(items[i]));
        },
        _ => {},
    }
}

/// An object that fits another field by field still does after a field is
/// set to something that fits the other's field of that name.
pub proof fn lemma_put_fits(xf: Seq<(Seq<u8>, Json)>, y: Json, name: Seq<u8>, c: Json)
    requires
        fits_fieldwise(xf, y),
        y is Object,
        json_member(y, name) is Some,
        fits(c, json_member(y, name)->0),
    ensures
        fits(Json::Object(put_field(xf, name, c)), y),
{
    lemma_put_field_sorted(xf, name, c);
    lemma_before_slot(xf, name);
    let at = field_slot(xf, name, 0);
    let after = put_field(xf, name, c);
    assert forall|i: int| 0 <= i < after.len() implies json_member(y, (#[trigger] after[i]).0)
        is Some && fits(after[i].1, json_member(y, after[i].0)->0) by {
        if i == at {
            assert(after[i] == (name, c));
        } else if has_field(xf, name) {
            assert(after[i] == xf[i]);
        } else if i < at {
            assert(after[i] == xf[i]);
        } else {
            assert(after[i] == xf[i - 1]);
        }
    }
    let made = Json::Object(after);
    assert(made->Object_0 == after);
}

/// An assignment of a part of `y`, or at the place of an array of `y`, in
/// what is made of parts of `y`, can be made and gives what is made of parts
/// of `y`: for segments of which none is an index.
pub proof fn lemma_assign_fits(x: Json, y: Json, parts: Seq<Seq<u8>>, v: Json)
    requires
        fits(x, y),
        is_canonical(y),
        parts.len() > 0,
        plain(parts),
        json_read(y, parts) == Some(v) || json_read(y, parts)->0 is Array,
        json_read(y, parts) is Some,
    ensures
        json_assign(x, parts, v) is Some,
        fits(json_assign(x, parts, v)->0, y),
    decreases parts.len(),
{
    let name = parts[0];
    let rest = parts.skip(1);
    assert(index_of(name) is None);
    assert(y is Object);
    lemma_fits_object(x, y);
    let xf = x->Object_0;
    let yc = json_member(y, name)->0;
    lemma_member_is_canonical(y, name);
    if parts.len() == 1 {
        assert(json_read(yc, rest) == Some(yc));
        lemma_put_fits(xf, y, name, v);
    } else {
        assert(index_of(rest[0]) is None);
        assert(rest[0] == parts[1]);
        assert(plain(rest)) by {
            assert forall|i: int| 0 <= i < rest.len() implies index_of(#[trigger] rest[i])
                is None by {
                assert(rest[i] == parts[i + 1]);
            }
        }
        let child = if has_field(xf, name) {
            xf[field_slot(xf, name, 0)].1
        } else {
            fresh_container(parts)
        };
        assert(fits(child, yc)) by {
            if has_field(xf, name) {
                let at = field_slot(xf, name, 0);
                assert(xf[at].0 == name);
            } else {
                assert(yc is Object);
                assert(sorted_names(Seq::<(Seq<u8>, Json)>::empty()));
                assert(child->Object_0 =~= Seq::<(Seq<u8>, Json)>::empty());
            }
        }
        lemma_assign_fits(child, yc, rest, v);
        lemma_put_fits(xf, y, name, json_assign(child, rest, v)->0);
    }
}

/// An assignment keeps the reads that agree. Where `x` is made of parts of
/// `y` and a read of `x` along `w` gives what the read of `y` gives, it
/// still does after an assignment in `x` of the part of `y` at `parts`; and
/// after an assignment of anything at the place of an array of `y`, unless
/// `w` leads towards that place.
pub proof fn lemma_assign_keeps_reads(
    x: Json,
    y: Json,
    parts: Seq<Seq<u8>>,
    v: Json,
    w: Seq<Seq<u8>>,
)
    requires
        fits(x, y),
        is_canonical(y),
        parts.len() > 0,
        plain(parts),
        plain(w),
        json_read(y, parts) is Some,
        json_read(y, parts) == Some(v) || (json_read(y, parts)->0 is Array && !leads(w, parts)),
        json_read(y, w) is Some,
        json_read(x, w) == json_read(y, w),
        json_assign(x, parts, v) is Some,
    ensures
        json_read(json_assign(x, parts, v)->0, w) == json_read(y, w),
    decreases parts.len(),
{
    let name = parts[0];
    let rest = parts.skip(1);
    let after = json_assign(x, parts, v)->0;
    if w.len() == 0 {
        assert(leads(w, parts));
        law_assigning_what_stands_changes_nothing(y, parts, v);
    } else {
        assert(index_of(name) is None);
        assert(index_of(w[0]) is None);
        assert(y is Object);
        lemma_fits_object(x, y);
        let xf = x->Object_0;
        let tail = w.skip(1);
        let yc = json_member(y, name)->0;
        lemma_member_is_canonical(y, name);
        assert(plain(rest)) by {
            assert forall|i: int| 0 <= i < rest.len() implies index_of(#[trigger] rest[i])
                is None by {
                assert(rest[i] == parts[i + 1]);
            }
        }
        assert(plain(tail)) by {
            assert forall|i: int| 0 <= i < tail.len() implies index_of(#[trigger] tail[i])
                is None by {
                assert(tail[i] == w[i + 1]);
            }
        }
        if w[0] != name {
            if parts.len() == 1 {
                lemma_other_member_after_put(xf, name, v, w[0]);
            } else {
                let child = if has_field(xf, name) {
                    xf[field_slot(xf, name, 0)].1
                } else {
                    fresh_container(parts)
                };
                lemma_other_member_after_put(xf, name, json_assign(child, rest, v)->0, w[0]);
            }
        } else {
            lemma_field_index(xf, name, 0);
            lemma_slot_is_index(xf, name);
            let at = field_slot(xf, name, 0);
            let xc = xf[at].1;
            assert(json_member(x, name) == Some(xc));
            assert(fits(xc, yc));
            if parts.len() == 1 {
                lemma_member_after_put(xf, name, v);
                assert(json_read(yc, rest) == Some(yc));
                if v != yc {
                    assert(yc is Array);
                    if tail.len() == 0 {
                        assert(leads(w, parts));
                    } else {
                        assert(index_of(tail[0]) is None);
                        assert(json_member(yc, tail[0]) is None);
                    }
                }
            } else {
                let c = json_assign(xc, rest, v)->0;
                lemma_member_after_put(xf, name, c);
                if tail.len() == 0 {
                    assert(leads(w, parts));
                    assert(json_read(xc, tail) == Some(xc));
                    assert(json_read(yc, tail) == Some(yc));
                    law_assigning_what_stands_changes_nothing(yc, rest, v);
                } else {
                    if leads(tail, rest) {
                        assert(leads(w, parts)) by {
                            assert forall|i: int| 0 <= i < w.len() implies #[trigger] w[i]
                                == parts[i] by {
                                if i > 0 {
                                    assert(tail[i - 1] == rest[i - 1]);
                                }
                            }
                        }
                    }
                    lemma_assign_keeps_reads(xc, yc, rest, v, tail);
                }
            }
        }
    }
}

/// What a read of a canonical document gives, is canonical.
pub proof fn lemma_read_is_canonical(y: Json, parts: Seq<Seq<u8>>)
    requires
        is_canonical(y),
        json_read(y, parts) is Some,
    ensures
        is_canonical(json_read(y, parts)->0),
    decreases parts.len(),
{
    if parts.len() > 0 {
        lemma_member_is_canonical(y, parts[0]);
        lemma_read_is_canonical(json_member(y, parts[0])->0, parts.skip(1));
    }
}

/// What one path of a projection does to what is made of parts of the
/// document: it can be done and gives what is made of parts of the document,
/// where no segment of the path is an index.
pub proof fn lemma_path_fits(doc: Json, projected: Json, path: Seq<u8>)
    requires
        is_canonical(doc),
        fits(projected, doc),
        plain(path_parts(path)),
    ensures
        project_path(doc, projected, path) is Some,
        fits(project_path(doc, projected, path)->0, doc),
{
    let parts = path_parts(path);
    if parts.len() > 0 {
        match json_read(doc, parts) {
            Some(found) => {
                lemma_assign_fits(projected, doc, parts, found);
            },
            None => {
                if parts.len() > 1 {
                    let above = parts.drop_last();
                    assert(plain(above)) by {
                        assert forall|i: int| 0 <= i < above.len() implies index_of(
                            #[trigger] above[i],
                        ) is None by {
                            assert(above[i] == parts[i]);
                        }
                    }
                    match json_read(doc, above) {
                        Some(Json::Array(items)) => {
                            let collected = collected_first(items, parts.last(), items.len());
                            if collected.len() > 0 {
                                lemma_assign_fits(projected, doc, above, Json::Array(collected));
                            }
                        },
                        _ => {},
                    }
                }
            },
        }
    }
}

/// What one path of a projection does keeps the reads that agree with the
/// document, along segments that do not lead towards the path.
pub proof fn lemma_path_keeps_reads(doc: Json, projected: Json, path: Seq<u8>, w: Seq<Seq<u8>>)
    requires
        is_canonical(doc),
        fits(projected, doc),
        plain(path_parts(path)),
        plain(w),
        !leads(w, path_parts(path)),
        json_read(doc, w) is Some,
        json_read(projected, w) == json_read(doc, w),
    ensures
        project_path(doc, projected, path) is Some,
        json_read(project_path(doc, projected, path)->0, w) == json_read(doc, w),
{
    let parts = path_parts(path);
    lemma_path_fits(doc, projected, path);
    if parts.len() > 0 {
        match json_read(doc, parts) {
            Some(found) => {
                lemma_assign_keeps_reads(projected, doc, parts, found, w);
            },
            None => {
                if parts.len() > 1 {
                    let above = parts.drop_last();
                    assert(plain(above)) by {
                        assert forall|i: int| 0 <= i < above.len() implies index_of(
                            #[trigger] above[i],
                        ) is None by {
                            assert(above[i] == parts[i]);
                        }
                    }
                    if leads(w, above) {
                        assert(leads(w, parts)) by {
                            assert forall|i: int| 0 <= i < w.len() implies #[trigger] w[i]
                                == parts[i] by {
                                assert(above[i] == parts[i]);
                            }
                        }
                    }
                    match json_read(doc, above) {
                        Some(Json::Array(items)) => {
                            let collected = collected_first(items, parts.last(), items.len());
                            if collected.len() > 0 {
                                lemma_assign_keeps_reads(
                                    projected,
                                    doc,
                                    above,
                                    Json::Array(collected),
                                    w,
                                );
                            }
                        },
                        _ => {},
                    }
                }
            },
        }
    }
}

/// Whether no path of the list leads towards another: none is the beginning
/// of another, segment by segment, and none stands twice.
pub open spec fn apart(paths: Seq<Seq<u8>>) -> bool {
    forall|i: int, j: int|
        0 <= i < paths.len() && 0 <= j < paths.len() && i != j ==> !leads(
            #[trigger] path_parts(paths[i]),
            #[trigger] path_parts(paths[j]),
        )
}

/// Whether no segment of a path of the list is an index of an array.
pub open spec fn all_plain(paths: Seq<Seq<u8>>) -> bool {
    forall|i: int| 0 <= i < paths.len() ==> plain(#[trigger] path_parts(paths[i]))
}

/// The projection on the first `n` paths can be made, is made of parts of
/// the document, and holds at each of the first `n` paths what the document
/// holds there.
pub proof fn lemma_projected_keeps(doc: Json, paths: Seq<Seq<u8>>, n: nat, k: int)
    requires
        is_canonical(doc),
        doc is Object,
        all_plain(paths),
        apart(paths),
        n <= paths.len(),
        0 <= k < n,
        read_path(doc, paths[k]) is Some,
    ensures
        projected_first(doc, paths, n) is Some,
        fits(projected_first(doc, paths, n)->0, doc),
        read_path(projected_first(doc, paths, n)->0, paths[k]) == read_path(doc, paths[k]),
    decreases n,
{
    lemma_projected_fits(doc, paths, (n - 1) as nat);
    let before = projected_first(doc, paths, (n - 1) as nat)->0;
    let path = paths[n - 1];
    let parts = path_parts(path);
    assert(plain(parts));
    lemma_path_fits(doc, before, path);
    if k == n - 1 {
        if parts.len() > 0 {
            law_read_after_assignment(before, parts, json_read(doc, parts)->0);
        }
    } else {
        lemma_projected_keeps(doc, paths, (n - 1) as nat, k);
        assert(plain(path_parts(paths[k])));
        assert(!leads(path_parts(paths[k]), path_parts(paths[n - 1])));
        lemma_path_keeps_reads(doc, before, path, path_parts(paths[k]));
    }
}

/// The projection on the first `n` paths can be made and is made of parts of
/// the document.
pub proof fn lemma_projected_fits(doc: Json, paths: Seq<Seq<u8>>, n: nat)
    requires
        is_canonical(doc),
        doc is Object,
        all_plain(paths),
        n <= paths.len(),
    ensures
        projected_first(doc, paths, n) is Some,
        fits(projected_first(doc, paths, n)->0, doc),
    decreases n,
{
    if n == 0 {
        let empty = Json::Object(Seq::empty());
        assert(sorted_names(Seq::<(Seq<u8>, Json)>::empty()));
        assert(empty->Object_0 =~= Seq::<(Seq<u8>, Json)>::empty());
    } else {
        lemma_projected_fits(doc, paths, (n - 1) as nat);
        assert(plain(path_parts(paths[n - 1])));
        lemma_path_fits(doc, projected_first(doc, paths, (n - 1) as nat)->0, paths[n - 1]);
    }
}

/// What a path leads to in a document stands at that path in its
/// projection. For a canonical object and a list of paths of which no
/// segment is an index of an array and none leads towards another, the
/// projection can be made, and at each path of the list that leads to
/// something in the document, it holds what the document holds there. The
/// empty path, which names the root, is such a path where it is the only
/// one: the projection is then the document.
pub proof fn law_projection_keeps_what_paths_lead_to(doc: Json, paths: Seq<Seq<u8>>, k: int)
    requires
        is_canonical(doc),
        doc is Object,
        all_plain(paths),
        apart(paths),
        0 <= k < paths.len(),
        read_path(doc, paths[k]) is Some,
    ensures
        projected_first(doc, paths, paths.len()) is Some,
        read_path(projected_first(doc, paths, paths.len())->0, paths[k]) == read_path(
            doc,
            paths[k],
        ),
{
    lemma_projected_keeps(doc, paths, paths.len(), k);
}

/// Whether every one of `docs` is a canonical object.
pub open spec fn all_objects(docs: Seq<Json>) -> bool {
    forall|i: int| 0 <= i < docs.len() ==> (#[trigger] docs[i]) is Object && is_canonical(docs[i])
}

/// The projection of the first `n` of a list of canonical objects gives one
/// document for each, in their order.
pub proof fn lemma_projection_of_objects(docs: Seq<Json>, paths: Seq<Seq<u8>>, n: nat)
    requires
        all_objects(docs),
        all_plain(paths),
        n <= docs.len(),
    ensures
        projection_first(docs, paths, n) is Some,
        projection_first(docs, paths, n)->0.len() == n,
        forall|i: int|
            0 <= i < n ==> (#[trigger] projection_first(docs, paths, n)->0[i]) == projected_first(
                docs[i],
                paths,
                paths.len(),
            )->0,
    decreases n,
{
    if n > 0 {
        lemma_projection_of_objects(docs, paths, (n - 1) as nat);
        assert(docs[n - 1] is Object);
        lemma_projected_fits(docs[n - 1], paths, paths.len());
        let rest = projection_first(docs, paths, (n - 1) as nat)->0;
        let all = projection_first(docs, paths, n)->0;
        assert forall|i: int| 0 <= i < n implies (#[trigger] all[i]) == projected_first(
            docs[i],
            paths,
            paths.len(),
        )->0 by {
            if i < n - 1 {
                assert(all[i] == rest[i]);
            }
        }
    }
}

/// A projection of objects gives one document for each. For canonical
/// objects and a list of paths, at least one, of which no segment is an index
/// of an array, the projection can be made and gives, for each document and
/// in their order, the projection of that document.
pub proof fn law_projection_gives_one_for_each(docs: Seq<Json>, paths: Seq<Seq<u8>>)
    requires
        all_objects(docs),
        all_plain(paths),
        paths.len() > 0,
    ensures
        projection(docs, paths) is Some,
        projection(docs, paths)->0.len() == docs.len(),
        forall|i: int|
            0 <= i < docs.len() ==> (#[trigger] projection(docs, paths)->0[i]) == projected_first(
                docs[i],
                paths,
                paths.len(),
            )->0,
{
    lemma_projection_of_objects(docs, paths, docs.len());
}

/// Whether every field of an object is named by the first segment of one of
/// the first `n` paths.
pub open spec fn named_by(fields: Seq<(Seq<u8>, Json)>, paths: Seq<Seq<u8>>, n: nat) -> bool {
    forall|i: int|
        0 <= i < fields.len() ==> exists|k: int|
            0 <= k < n && k < paths.len() && path_parts(paths[k]).len() > 0 && #[trigger] path_parts(
                paths[k],
            )[0] == (#[trigger] fields[i]).0
}

/// An assignment in an object gives an object with the fields that were and
/// the field that the first segment names.
pub proof fn lemma_assign_names(x: Json, parts: Seq<Seq<u8>>, v: Json, i: int)
    requires
        x is Object,
        json_assign(x, parts, v) is Some,
        0 <= i < json_assign(x, parts, v)->0->Object_0.len(),
    ensures
        json_assign(x, parts, v)->0 is Object,
        json_assign(x, parts, v)->0->Object_0[i].0 == parts[0] || exists|j: int|
            0 <= j < x->Object_0.len() && (#[trigger] x->Object_0[j]).0 == json_assign(
                x,
                parts,
                v,
            )->0->Object_0[i].0,
{
    let xf = x->Object_0;
    let name = parts[0];
    lemma_before_slot(xf, name);
    let at = field_slot(xf, name, 0);
    let c = if parts.len() == 1 {
        v
    } else {
        let child = if has_field(xf, name) {
            xf[at].1
        } else {
            fresh_container(parts)
        };
        json_assign(child, parts.skip(1), v)->0
    };
    let after = put_field(xf, name, c);
    assert(json_assign(x, parts, v)->0 == Json::Object(after));
    if i == at {
        assert(after[i].0 == name);
    } else if has_field(xf, name) {
        assert(after[i] == xf[i]);
    } else if i < at {
        assert(after[i] == xf[i]);
    } else {
        assert(after[i] == xf[i - 1]);
    }
}

/// A projection holds only what the paths name. Where no path of the list is
/// empty and the projection on the first `n` paths can be made, it is an
/// object, and each of its fields is named by the first segment of one of
/// those paths.
pub proof fn law_projection_holds_only_named_fields(doc: Json, paths: Seq<Seq<u8>>, n: nat)
    requires
        n <= paths.len(),
        forall|k: int| 0 <= k < paths.len() ==> (#[trigger] paths[k]).len() > 0,
        projected_first(doc, paths, n) is Some,
    ensures
        projected_first(doc, paths, n)->0 is Object,
        named_by(projected_first(doc, paths, n)->0->Object_0, paths, n),
    decreases n,
{
    if n == 0 {
        let empty = Json::Object(Seq::empty());
        assert(empty->Object_0 =~= Seq::<(Seq<u8>, Json)>::empty());
    } else {
        law_projection_holds_only_named_fields(doc, paths, (n - 1) as nat);
        let before = projected_first(doc, paths, (n - 1) as nat)->0;
        let after = projected_first(doc, paths, n)->0;
        let path = paths[n - 1];
        let parts = path_parts(path);
        assert(path.len() > 0);
        assert(parts.len() > 0);
        let at = if json_read(doc, parts) is Some {
            parts
        } else {
            parts.drop_last()
        };
        if after != before {
            let v = choose|v: Json| json_assign(before, at, v) == Some(after);
            assert(at.len() > 0 && at[0] == parts[0]);
            assert forall|i: int| 0 <= i < after->Object_0.len() implies exists|k: int|
                0 <= k < n && k < paths.len() && path_parts(paths[k]).len() > 0
                    && #[trigger] path_parts(paths[k])[0] == (#[trigger] after->Object_0[i]).0 by {
                lemma_assign_names(before, at, v, i);
                if after->Object_0[i].0 == at[0] {
                    assert(path_parts(paths[n - 1])[0] == after->Object_0[i].0);
                } else {
                    let j = choose|j: int|
                        0 <= j < before->Object_0.len() && (#[trigger] before->Object_0[j]).0
                            == after->Object_0[i].0;
                    let k = choose|k: int|
                        0 <= k < n - 1 && k < paths.len() && path_parts(paths[k]).len() > 0
                            && #[trigger] path_parts(paths[k])[0] == before->Object_0[j].0;
                    assert(path_parts(paths[k])[0] == after->Object_0[i].0);
                }
            }
            lemma_assign_names(before, at, v, 0);
        } else {
            assert forall|i: int| 0 <= i < after->Object_0.len() implies exists|k: int|
                0 <= k < n && k < paths.len() && path_parts(paths[k]).len() > 0
                    && #[trigger] path_parts(paths[k])[0] == (#[trigger] after->Object_0[i]).0 by {
                let k = choose|k: int|
                    0 <= k < n - 1 && k < paths.len() && path_parts(paths[k]).len() > 0
                        && #[trigger] path_parts(paths[k])[0] == before->Object_0[i].0;
                assert(path_parts(paths[k])[0] == after->Object_0[i].0);
            }
        }
    }
}

} // verus!
