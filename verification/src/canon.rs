//! The canonical form of documents: the fields of every object in the order
//! of their names, each name once. In this form two documents are the same
//! value exactly when they hold the same members, in whatever order their
//! fields were given.
use crate::access::{
    field_slot, fresh_container, gathered_first, has_field, json_assign, put_field, put_item,
};
use crate::bytes::{
    bytes_lt, bytes_relation, lemma_relation_equal, lemma_relation_flip,
    lemma_relation_transitive, Relation,
};
use crate::value::Json;
use vstd::prelude::*;

verus! {

/// Whether the names of the fields come in strictly rising order.
pub open spec fn sorted_names(fields: Seq<(Seq<u8>, Json)>) -> bool {
    forall|i: int, j: int|
        0 <= i < j < fields.len() ==> bytes_lt((#[trigger] fields[i]).0, (#[trigger] fields[j]).0)
}

/// Whether a value is in canonical form: the fields of every object in it
/// come in the strictly rising order of their names.
pub open spec fn is_canonical(j: Json) -> bool
    decreases j,
{
    match j {
        Json::Object(fields) => sorted_names(fields) && forall|i: int|
            0 <= i < fields.len() ==> is_canonical((#[trigger] fields[i]).1),
        Json::Array(items) => forall|i: int| 0 <= i < items.len() ==> is_canonical(#[trigger] items[i]),
        _ => true,
    }
}

/// Where `field_slot` lands: behind the names that come before `name`, and
/// before a name that does not.
pub proof fn lemma_field_slot(fields: Seq<(Seq<u8>, Json)>, name: Seq<u8>, from: int)
    requires
        0 <= from <= fields.len(),
    ensures
        from <= field_slot(fields, name, from) <= fields.len(),
        forall|i: int|
            from <= i < field_slot(fields, name, from) ==> bytes_lt((#[trigger] fields[i]).0, name),
        field_slot(fields, name, from) < fields.len() ==> !bytes_lt(
            fields[field_slot(fields, name, from)].0,
            name,
        ),
    decreases fields.len() - from,
{
    if from < fields.len() && bytes_relation(fields[from].0, name) == Relation::Less {
        lemma_field_slot(fields, name, from + 1);
    }
}

/// Among fields in the order of their names, every name behind the slot of
/// `name` comes behind `name`, and the name at the slot does unless it is
/// `name`.
pub proof fn lemma_behind_slot(fields: Seq<(Seq<u8>, Json)>, name: Seq<u8>, j: int)
    requires
        sorted_names(fields),
        field_slot(fields, name, 0) <= j < fields.len(),
        j > field_slot(fields, name, 0) || fields[j].0 != name,
    ensures
        bytes_lt(name, fields[j].0),
{
    lemma_field_slot(fields, name, 0);
    let at = field_slot(fields, name, 0);
    lemma_relation_flip(fields[at].0, name);
    lemma_relation_equal(fields[at].0, name);
    if j > at {
        assert(bytes_lt(fields[at].0, fields[j].0));
        if fields[at].0 != name {
            lemma_relation_transitive(name, fields[at].0, fields[j].0);
        }
    }
}

/// Setting a field keeps the order of the names.
pub proof fn lemma_put_field_sorted(fields: Seq<(Seq<u8>, Json)>, name: Seq<u8>, v: Json)
    requires
        sorted_names(fields),
    ensures
        sorted_names(put_field(fields, name, v)),
{
    lemma_field_slot(fields, name, 0);
    let at = field_slot(fields, name, 0);
    let after = put_field(fields, name, v);
    if has_field(fields, name) {
        assert forall|i: int, j: int| 0 <= i < j < after.len() implies bytes_lt(
            (#[trigger] after[i]).0,
            (#[trigger] after[j]).0,
        ) by {
            assert(after[i].0 == fields[i].0);
            assert(after[j].0 == fields[j].0);
        }
    } else {
        assert forall|i: int, j: int| 0 <= i < j < after.len() implies bytes_lt(
            (#[trigger] after[i]).0,
            (#[trigger] after[j]).0,
        ) by {
            if j < at {
                assert(after[i] == fields[i] && after[j] == fields[j]);
            } else if j == at {
                assert(after[i] == fields[i]);
                assert(after[j].0 == name);
            } else if i < at {
                assert(after[i] == fields[i] && after[j] == fields[j - 1]);
            } else if i == at {
                assert(after[j] == fields[j - 1]);
                lemma_behind_slot(fields, name, j - 1);
            } else {
                assert(after[i] == fields[i - 1] && after[j] == fields[j - 1]);
            }
        }
    }
}

/// Setting a field to a canonical value keeps an object canonical.
pub proof fn lemma_put_field_canonical(fields: Seq<(Seq<u8>, Json)>, name: Seq<u8>, v: Json)
    requires
        is_canonical(Json::Object(fields)),
        is_canonical(v),
    ensures
        is_canonical(Json::Object(put_field(fields, name, v))),
{
    lemma_put_field_sorted(fields, name, v);
    lemma_field_slot(fields, name, 0);
    let at = field_slot(fields, name, 0);
    let after = put_field(fields, name, v);
    assert forall|i: int| 0 <= i < after.len() implies is_canonical((#[trigger] after[i]).1) by {
        if i == at {
        } else if has_field(fields, name) {
            assert(after[i] == fields[i]);
        } else if i < at {
            assert(after[i] == fields[i]);
        } else {
            assert(after[i] == fields[i - 1]);
        }
    }
}

/// Setting an item to a canonical value keeps an array canonical.
pub proof fn lemma_put_item_canonical(items: Seq<Json>, i: int, v: Json)
    requires
        is_canonical(Json::Array(items)),
        is_canonical(v),
        0 <= i <= items.len(),
    ensures
        is_canonical(Json::Array(put_item(items, i, v))),
{
    let after = put_item(items, i, v);
    let whole = Json::Array(items);
    assert(whole->Array_0 == items);
    assert(forall|k: int| 0 <= k < items.len() ==> is_canonical(#[trigger] items[k]));
    assert forall|k: int| 0 <= k < after.len() implies is_canonical(#[trigger] after[k]) by {
        if k != i {
            assert(after[k] == items[k]);
            assert(is_canonical(items[k]));
        } else {
            assert(after[k] == v);
        }
    }
}

/// Assignment keeps the canonical form. Where a canonical value is assigned
/// in a canonical document, the document that comes of it is canonical.
pub proof fn law_assignment_keeps_canonical_form(target: Json, parts: Seq<Seq<u8>>, v: Json)
    requires
        is_canonical(target),
        is_canonical(v),
        json_assign(target, parts, v) is Some,
    ensures
        is_canonical(json_assign(target, parts, v)->0),
    decreases parts.len(),
{
    match target {
        Json::Object(fields) => {
            if parts.len() == 1 {
                lemma_put_field_canonical(fields, parts[0], v);
            } else {
                let child = if has_field(fields, parts[0]) {
                    fields[field_slot(fields, parts[0], 0)].1
                } else {
                    fresh_container(parts)
                };
                if has_field(fields, parts[0]) {
                    lemma_field_slot(fields, parts[0], 0);
                    let at = field_slot(fields, parts[0], 0);
                    assert(is_canonical(fields[at].1));
                } else {
                    assert(is_canonical(fresh_container(parts))) by {
                        assert(sorted_names(Seq::<(Seq<u8>, Json)>::empty()));
                    }
                }
                law_assignment_keeps_canonical_form(child, parts.skip(1), v);
                lemma_put_field_canonical(
                    fields,
                    parts[0],
                    json_assign(child, parts.skip(1), v)->0,
                );
            }
        },
        Json::Array(items) => {
            let i = crate::path::index_of(parts[0])->0 as int;
            if parts.len() == 1 {
                lemma_put_item_canonical(items, i, v);
            } else {
                let child = if i < items.len() {
                    items[i]
                } else {
                    fresh_container(parts)
                };
                if i < items.len() {
                    assert(is_canonical(items[i]));
                } else {
                    assert(is_canonical(fresh_container(parts))) by {
                        assert(sorted_names(Seq::<(Seq<u8>, Json)>::empty()));
                    }
                }
                law_assignment_keeps_canonical_form(child, parts.skip(1), v);
                lemma_put_item_canonical(items, i, json_assign(child, parts.skip(1), v)->0);
            }
        },
        _ => {},
    }
}

/// An object made of canonical values is canonical, in whatever order its
/// fields were given.
pub proof fn law_gathered_fields_are_canonical(fields: Seq<(Seq<u8>, Json)>, n: nat)
    requires
        n <= fields.len(),
        forall|i: int| 0 <= i < fields.len() ==> is_canonical((#[trigger] fields[i]).1),
    ensures
        is_canonical(Json::Object(gathered_first(fields, n))),
    decreases n,
{
    if n > 0 {
        law_gathered_fields_are_canonical(fields, (n - 1) as nat);
        assert(is_canonical(fields[n - 1].1));
        lemma_put_field_canonical(
            gathered_first(fields, (n - 1) as nat),
            fields[n - 1].0,
            fields[n - 1].1,
        );
    } else {
        assert(sorted_names(Seq::<(Seq<u8>, Json)>::empty()));
    }
}

} // verus!
