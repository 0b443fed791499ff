//! Laws of reading and assigning by path: a read after an assignment gives
//! what was assigned, an assignment leaves the other places as they were,
//! and assigning what already stands there changes nothing.
use crate::access::{
    field_index, field_slot, has_field, json_assign, json_member, json_read, lemma_field_index,
    put_field, put_item,
};
use crate::bytes::lemma_relation_equal;
use crate::canon::{is_canonical, lemma_field_slot, sorted_names};
use crate::path::index_of;
use crate::value::Json;
use vstd::prelude::*;

verus! {

/// The first field of a name is where `field_index` lands.
pub proof fn lemma_field_index_is(
    fields: Seq<(Seq<u8>, Json)>,
    name: Seq<u8>,
    from: int,
    at: int,
)
    requires
        0 <= from <= at < fields.len(),
        fields[at].0 == name,
        forall|j: int| from <= j < at ==> (#[trigger] fields[j]).0 != name,
    ensures
        field_index(fields, name, from) == at,
    decreases at - from,
{
    if from < at {
        assert(fields[from].0 != name);
        lemma_field_index_is(fields, name, from + 1, at);
    }
}

/// `field_index` lands behind all fields where none has the name.
pub proof fn lemma_field_index_none(fields: Seq<(Seq<u8>, Json)>, name: Seq<u8>, from: int)
    requires
        0 <= from <= fields.len(),
        forall|j: int| from <= j < fields.len() ==> (#[trigger] fields[j]).0 != name,
    ensures
        field_index(fields, name, from) == fields.len(),
    decreases fields.len() - from,
{
    if from < fields.len() {
        assert(fields[from].0 != name);
        lemma_field_index_none(fields, name, from + 1);
    }
}

/// No field before the one where `field_index` lands has the name.
pub proof fn lemma_field_index_first(fields: Seq<(Seq<u8>, Json)>, name: Seq<u8>, from: int)
    requires
        0 <= from <= fields.len(),
    ensures
        forall|j: int|
            from <= j < field_index(fields, name, from) ==> (#[trigger] fields[j]).0 != name,
    decreases fields.len() - from,
{
    if from < fields.len() && fields[from].0 != name {
        lemma_field_index_first(fields, name, from + 1);
    }
}

/// No field before the slot of a name has the name.
pub proof fn lemma_before_slot(fields: Seq<(Seq<u8>, Json)>, name: Seq<u8>)
    ensures
        0 <= field_slot(fields, name, 0) <= fields.len(),
        forall|j: int|
            0 <= j < field_slot(fields, name, 0) ==> (#[trigger] fields[j]).0 != name,
{
    lemma_field_slot(fields, name, 0);
    assert forall|j: int| 0 <= j < field_slot(fields, name, 0) implies (#[trigger] fields[j]).0
        != name by {
        lemma_relation_equal(fields[j].0, name);
    }
}

/// After a field is set, the object has the value under the field's name.
pub proof fn lemma_member_after_put(fields: Seq<(Seq<u8>, Json)>, name: Seq<u8>, v: Json)
    ensures
        json_member(Json::Object(put_field(fields, name, v)), name) == Some(v),
{
    lemma_before_slot(fields, name);
    let at = field_slot(fields, name, 0);
    let after = put_field(fields, name, v);
    assert(after[at] == (name, v));
    assert forall|j: int| 0 <= j < at implies (#[trigger] after[j]).0 != name by {
        assert(after[j] == fields[j]);
    }
    lemma_field_index_is(after, name, 0, at);
}

/// After a field is set, the object has under every other name what it had.
pub proof fn lemma_other_member_after_put(
    fields: Seq<(Seq<u8>, Json)>,
    name: Seq<u8>,
    v: Json,
    other: Seq<u8>,
)
    requires
        other != name,
    ensures
        json_member(Json::Object(put_field(fields, name, v)), other) == json_member(
            Json::Object(fields),
            other,
        ),
{
    lemma_before_slot(fields, name);
    let at = field_slot(fields, name, 0);
    let after = put_field(fields, name, v);
    let k = field_index(fields, other, 0);
    lemma_field_index(fields, other, 0);
    lemma_field_index_first(fields, other, 0);
    if has_field(fields, name) {
        if k < fields.len() {
            assert(after[k] == fields[k]);
            assert forall|j: int| 0 <= j < k implies (#[trigger] after[j]).0 != other by {
                assert(after[j].0 == fields[j].0);
            }
            lemma_field_index_is(after, other, 0, k);
        } else {
            assert forall|j: int| 0 <= j < after.len() implies (#[trigger] after[j]).0
                != other by {
                assert(after[j].0 == fields[j].0);
            }
            lemma_field_index_none(after, other, 0);
        }
    } else {
        if k < fields.len() {
            let moved = if k < at {
                k
            } else {
                k + 1
            };
            assert(after[moved] == fields[k]);
            assert forall|j: int| 0 <= j < moved implies (#[trigger] after[j]).0 != other by {
                if j < at {
                    assert(after[j] == fields[j]);
                } else if j == at {
                    assert(after[j].0 == name);
                } else {
                    assert(after[j] == fields[j - 1]);
                }
            }
            lemma_field_index_is(after, other, 0, moved);
        } else {
            assert forall|j: int| 0 <= j < after.len() implies (#[trigger] after[j]).0
                != other by {
                if j < at {
                    assert(after[j] == fields[j]);
                } else if j == at {
                    assert(after[j].0 == name);
                } else {
                    assert(after[j] == fields[j - 1]);
                }
            }
            lemma_field_index_none(after, other, 0);
        }
    }
}

/// Among fields in the order of their names, a field that has the name
/// stands at the slot of the name.
pub proof fn lemma_slot_is_index(fields: Seq<(Seq<u8>, Json)>, name: Seq<u8>)
    requires
        sorted_names(fields),
        field_index(fields, name, 0) < fields.len(),
    ensures
        has_field(fields, name),
        field_slot(fields, name, 0) == field_index(fields, name, 0),
{
    lemma_field_index(fields, name, 0);
    lemma_field_slot(fields, name, 0);
    let at = field_index(fields, name, 0);
    let slot = field_slot(fields, name, 0);
    lemma_relation_equal(fields[at].0, name);
    if slot < at {
        assert(crate::bytes::bytes_lt(fields[slot].0, fields[at].0));
    }
    if slot > at {
        assert(crate::bytes::bytes_lt(fields[at].0, name));
    }
}

/// A read after an assignment gives the assigned value. Where a value is
/// assigned in a document at the place where segments lead, a read of what
/// comes of it, along the same segments, gives that value.
pub proof fn law_read_after_assignment(target: Json, parts: Seq<Seq<u8>>, v: Json)
    requires
        json_assign(target, parts, v) is Some,
    ensures
        json_read(json_assign(target, parts, v)->0, parts) == Some(v),
    decreases parts.len(),
{
    let rest = parts.skip(1);
    match target {
        Json::Object(fields) => {
            if parts.len() == 1 {
                lemma_member_after_put(fields, parts[0], v);
                assert(json_read(v, rest) == Some(v));
            } else {
                let child = if has_field(fields, parts[0]) {
                    fields[field_slot(fields, parts[0], 0)].1
                } else {
                    crate::access::fresh_container(parts)
                };
                law_read_after_assignment(child, rest, v);
                lemma_member_after_put(fields, parts[0], json_assign(child, rest, v)->0);
            }
        },
        Json::Array(items) => {
            let i = index_of(parts[0])->0 as int;
            if parts.len() == 1 {
                assert(put_item(items, i, v)[i] == v);
                assert(json_read(v, rest) == Some(v));
            } else {
                let child = if i < items.len() {
                    items[i]
                } else {
                    crate::access::fresh_container(parts)
                };
                law_read_after_assignment(child, rest, v);
                assert(put_item(items, i, json_assign(child, rest, v)->0)[i] == json_assign(
                    child,
                    rest,
                    v,
                )->0);
            }
        },
        _ => {},
    }
}

/// Assigning what stands there changes nothing. Where segments, at least
/// one, lead to a value in a canonical document, the assignment of that
/// value at the same place gives the document as it is.
pub proof fn law_assigning_what_stands_changes_nothing(y: Json, parts: Seq<Seq<u8>>, f: Json)
    requires
        is_canonical(y),
        parts.len() > 0,
        json_read(y, parts) == Some(f),
    ensures
        json_assign(y, parts, f) == Some(y),
    decreases parts.len(),
{
    let rest = parts.skip(1);
    match y {
        Json::Object(fields) => {
            lemma_field_index(fields, parts[0], 0);
            lemma_slot_is_index(fields, parts[0]);
            let at = field_index(fields, parts[0], 0);
            assert(is_canonical(fields[at].1));
            if parts.len() == 1 {
                assert(json_read(fields[at].1, rest) == Some(fields[at].1));
                assert(put_field(fields, parts[0], f) =~= fields);
            } else {
                law_assigning_what_stands_changes_nothing(fields[at].1, rest, f);
                assert(put_field(fields, parts[0], fields[at].1) =~= fields);
            }
        },
        Json::Array(items) => {
            let i = index_of(parts[0])->0 as int;
            assert(is_canonical(items[i]));
            if parts.len() == 1 {
                assert(json_read(items[i], rest) == Some(items[i]));
                assert(put_item(items, i, f) =~= items);
            } else {
                law_assigning_what_stands_changes_nothing(items[i], rest, f);
                assert(put_item(items, i, items[i]) =~= items);
            }
        },
        _ => {},
    }
}

/// Whether two segments may name the same member: they are the same text,
/// or both are indices of the same value.
pub open spec fn same_member(a: Seq<u8>, b: Seq<u8>) -> bool {
    a == b || (index_of(a) is Some && index_of(a) == index_of(b))
}

/// An assignment leaves the other places as they were. Where a value is
/// assigned in a canonical document along segments, a read along other
/// segments gives what it gave before: where the two part ways at a segment
/// `d`, being the same up to it and naming different members there.
pub proof fn law_assignment_keeps_other_reads(
    target: Json,
    parts: Seq<Seq<u8>>,
    v: Json,
    w: Seq<Seq<u8>>,
    d: int,
)
    requires
        is_canonical(target),
        json_assign(target, parts, v) is Some,
        0 <= d < parts.len(),
        d < w.len(),
        forall|i: int| 0 <= i < d ==> w[i] == parts[i],
        !same_member(w[d], parts[d]),
    ensures
        json_read(json_assign(target, parts, v)->0, w) == json_read(target, w),
    decreases d,
{
    let name = parts[0];
    let rest = parts.skip(1);
    let tail = w.skip(1);
    let fresh = crate::access::fresh_container(parts);
    assert(is_canonical(fresh)) by {
        assert(sorted_names(Seq::<(Seq<u8>, Json)>::empty()));
    }
    match target {
        Json::Object(fields) => {
            let at = field_slot(fields, name, 0);
            lemma_before_slot(fields, name);
            let child = if has_field(fields, name) {
                fields[at].1
            } else {
                fresh
            };
            let c = if parts.len() == 1 {
                v
            } else {
                json_assign(child, rest, v)->0
            };
            if d == 0 {
                lemma_other_member_after_put(fields, name, c, w[0]);
            } else {
                assert(w[0] == name);
                lemma_member_after_put(fields, name, c);
                if has_field(fields, name) {
                    lemma_field_index_is(fields, name, 0, at);
                    assert(is_canonical(fields[at].1));
                } else {
                    lemma_field_index(fields, name, 0);
                    if field_index(fields, name, 0) < fields.len() {
                        lemma_slot_is_index(fields, name);
                    }
                    assert(json_member(fresh, tail[0]) is None);
                }
                assert forall|i: int| 0 <= i < d - 1 implies tail[i] == rest[i] by {
                    assert(w[i + 1] == parts[i + 1]);
                }
                law_assignment_keeps_other_reads(child, rest, v, tail, d - 1);
            }
        },
        Json::Array(items) => {
            let i = index_of(name)->0 as int;
            let child = if i < items.len() {
                items[i]
            } else {
                fresh
            };
            let c = if parts.len() == 1 {
                v
            } else {
                json_assign(child, rest, v)->0
            };
            let after = put_item(items, i, c);
            if d == 0 {
                match index_of(w[0]) {
                    Some(other) => {
                        if other < items.len() {
                            assert(after[other as int] == items[other as int]);
                        }
                    },
                    None => {},
                }
            } else {
                assert(w[0] == name);
                assert(after[i] == c);
                if i < items.len() {
                    assert(is_canonical(items[i]));
                } else {
                    assert(json_member(fresh, tail[0]) is None);
                }
                assert forall|k: int| 0 <= k < d - 1 implies tail[k] == rest[k] by {
                    assert(w[k + 1] == parts[k + 1]);
                }
                law_assignment_keeps_other_reads(child, rest, v, tail, d - 1);
            }
        },
        _ => {},
    }
}

} // verus!
