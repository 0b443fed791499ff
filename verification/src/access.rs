//! Reading and assigning parts of a document by path.
use crate::bytes::{bytes_equal, bytes_relation, compare_bytes, copy_bytes, Relation};
use crate::error::DbError;
use crate::path::{index_of, parse_index, path_parts, split_path};
use crate::value::{
    byte_strings, field_views, lemma_array_view, lemma_object_view, views, Field, Json, Value,
};
use vstd::prelude::*;
use vstd::string::*;

verus! {

/// The position of the first field named `name` at or after `from`, or the
/// number of fields where none is.
pub open spec fn field_index(fields: Seq<(Seq<u8>, Json)>, name: Seq<u8>, from: int) -> int
    decreases fields.len() - from,
{
    if from >= fields.len() {
        fields.len() as int
    } else if fields[from].0 == name {
        from
    } else {
        field_index(fields, name, from + 1)
    }
}

/// Where `field_index` lands.
pub proof fn lemma_field_index(fields: Seq<(Seq<u8>, Json)>, name: Seq<u8>, from: int)
    requires
        0 <= from <= fields.len(),
    ensures
        from <= field_index(fields, name, from) <= fields.len(),
        field_index(fields, name, from) < fields.len() ==> fields[field_index(
            fields,
            name,
            from,
        )].0 == name,
    decreases fields.len() - from,
{
    if from < fields.len() && fields[from].0 != name {
        lemma_field_index(fields, name, from + 1);
    }
}

/// The member of `j` that one path segment names: the field of that name in an
/// object, the item at that index in an array.
pub open spec fn json_member(j: Json, part: Seq<u8>) -> Option<Json> {
    match j {
        Json::Object(fields) => {
            let at = field_index(fields, part, 0);
            if 0 <= at < fields.len() {
                Some(fields[at].1)
            } else {
                None
            }
        },
        Json::Array(items) => match index_of(part) {
            Some(i) => if i < items.len() {
                Some(items[i as int])
            } else {
                None
            },
            None => None,
        },
        _ => None,
    }
}

/// What stands in `j` where the segments lead, if they lead anywhere.
pub open spec fn json_read(j: Json, parts: Seq<Seq<u8>>) -> Option<Json>
    decreases parts.len(),
{
    if parts.len() == 0 {
        Some(j)
    } else {
        match json_member(j, parts[0]) {
            Some(child) => json_read(child, parts.skip(1)),
            None => None,
        }
    }
}

/// What stands in `j` at `path`. The empty path names `j` itself.
pub open spec fn read_path(j: Json, path: Seq<u8>) -> Option<Json> {
    json_read(j, path_parts(path))
}

/// The member of `v` that one path segment names.
pub fn member<'a>(v: &'a Value, part: &[u8]) -> (r: Option<&'a Value>)
    ensures
        match r {
            Some(child) => json_member(v@, part@) == Some(child@),
            None => json_member(v@, part@) is None,
        },
{
    match v {
        Value::Object(fields) => {
            proof {
                lemma_object_view(*v);
            }
            let mut i: usize = 0;
            while i < fields.len()
                invariant
                    i <= fields.len(),
                    field_index(field_views(fields@), part@, 0) == field_index(
                        field_views(fields@),
                        part@,
                        i as int,
                    ),
                    v@ == Json::Object(field_views(fields@)),
                decreases fields.len() - i,
            {
                if bytes_equal(fields[i].name.as_slice(), part) {
                    return Some(&fields[i].value);
                }
                i += 1;
            }
            None
        },
        Value::Array(items) => {
            proof {
                lemma_array_view(*v);
            }
            match parse_index(part) {
                Some(i) => {
                    if i < items.len() {
                        Some(&items[i])
                    } else {
                        None
                    }
                },
                None => None,
            }
        },
        _ => None,
    }
}

/// What stands in `value` where the segments from `from` on lead.
pub fn read_parts<'a>(value: &'a Value, parts: &Vec<Vec<u8>>, from: usize) -> (r: Option<
    &'a Value,
>)
    requires
        from <= parts@.len(),
    ensures
        match r {
            Some(found) => json_read(value@, byte_strings(parts@).skip(from as int)) == Some(
                found@,
            ),
            None => json_read(value@, byte_strings(parts@).skip(from as int)) is None,
        },
{
    let mut current: &Value = value;
    let mut i: usize = from;
    let ghost all = byte_strings(parts@);
    while i < parts.len()
        invariant
            from <= i <= parts@.len(),
            all == byte_strings(parts@),
            json_read(value@, all.skip(from as int)) == json_read(current@, all.skip(i as int)),
        decreases parts@.len() - i,
    {
        proof {
            assert(all.skip(i as int).skip(1) =~= all.skip(i + 1));
            assert(all.skip(i as int)[0] == parts@[i as int]@);
        }
        match member(current, parts[i].as_slice()) {
            Some(child) => {
                current = child;
            },
            None => {
                return None;
            },
        }
        i += 1;
    }
    Some(current)
}

/// What stands in `value` at `path`, if anything does. The empty path names
/// `value` itself.
pub fn get_value_by_path<'a>(value: &'a Value, path: &[u8]) -> (r: Option<&'a Value>)
    ensures
        match r {
            Some(found) => read_path(value@, path@) == Some(found@),
            None => read_path(value@, path@) is None,
        },
{
    let parts = split_path(path);
    proof {
        assert(byte_strings(parts@).skip(0) =~= byte_strings(parts@));
    }
    read_parts(value, &parts, 0)
}

/// Where a field named `name` stands or would stand among fields kept in the
/// order of their names: the first position at or after `from` whose name does
/// not come before `name`.
pub open spec fn field_slot(fields: Seq<(Seq<u8>, Json)>, name: Seq<u8>, from: int) -> int
    decreases fields.len() - from,
{
    if from >= fields.len() || bytes_relation(fields[from].0, name) != Relation::Less {
        from
    } else {
        field_slot(fields, name, from + 1)
    }
}

/// Whether a field named `name` stands at its slot.
pub open spec fn has_field(fields: Seq<(Seq<u8>, Json)>, name: Seq<u8>) -> bool {
    let at = field_slot(fields, name, 0);
    0 <= at < fields.len() && fields[at].0 == name
}

/// `fields` with the field `name` set to `v`: in place of the one at its slot,
/// or put in there.
pub open spec fn put_field(fields: Seq<(Seq<u8>, Json)>, name: Seq<u8>, v: Json) -> Seq<
    (Seq<u8>, Json),
> {
    let at = field_slot(fields, name, 0);
    if has_field(fields, name) {
        fields.update(at, (name, v))
    } else {
        fields.insert(at, (name, v))
    }
}

/// `items` with `v` at index `i`: in place of the item there, or behind the
/// last one where `i` is the length.
pub open spec fn put_item(items: Seq<Json>, i: int, v: Json) -> Seq<Json> {
    if i == items.len() {
        items.push(v)
    } else {
        items.update(i, v)
    }
}

/// What is made where a path runs on through a member that is not there yet:
/// an array if the segment after it is an index, else an object.
pub open spec fn fresh_container(parts: Seq<Seq<u8>>) -> Json {
    if parts.len() > 1 && index_of(parts[1]) is Some {
        Json::Array(Seq::empty())
    } else {
        Json::Object(Seq::empty())
    }
}

/// `target` with `v` assigned where the segments lead, or `None` where they
/// cannot be followed: there is no segment, a scalar stands in the way, an
/// array is asked for something that is not an index of it or the index just
/// behind its last item, or an object is asked for a field that it lacks and
/// whose name is an index. Members on the way that are missing are made.
pub open spec fn json_assign(target: Json, parts: Seq<Seq<u8>>, v: Json) -> Option<Json>
    decreases parts.len(),
{
    if parts.len() == 0 {
        None
    } else {
        match target {
            Json::Object(fields) => {
                if !has_field(fields, parts[0]) && index_of(parts[0]) is Some {
                    None
                } else if parts.len() == 1 {
                    Some(Json::Object(put_field(fields, parts[0], v)))
                } else {
                    let child = if has_field(fields, parts[0]) {
                        fields[field_slot(fields, parts[0], 0)].1
                    } else {
                        fresh_container(parts)
                    };
                    match json_assign(child, parts.skip(1), v) {
                        Some(c) => Some(Json::Object(put_field(fields, parts[0], c))),
                        None => None,
                    }
                }
            },
            Json::Array(items) => match index_of(parts[0]) {
                Some(i) => {
                    if i > items.len() {
                        None
                    } else if parts.len() == 1 {
                        Some(Json::Array(put_item(items, i as int, v)))
                    } else {
                        let child = if i < items.len() {
                            items[i as int]
                        } else {
                            fresh_container(parts)
                        };
                        match json_assign(child, parts.skip(1), v) {
                            Some(c) => Some(Json::Array(put_item(items, i as int, c))),
                            None => None,
                        }
                    }
                },
                None => None,
            },
            _ => None,
        }
    }
}

/// Where a field named `name` stands or would stand.
pub fn find_slot(fields: &Vec<Field>, name: &[u8]) -> (r: (usize, bool))
    ensures
        r.0 == field_slot(field_views(fields@), name@, 0),
        r.0 <= fields@.len(),
        r.1 == has_field(field_views(fields@), name@),
{
    let mut i: usize = 0;
    while i < fields.len()
        invariant
            i <= fields.len(),
            field_slot(field_views(fields@), name@, 0) == field_slot(
                field_views(fields@),
                name@,
                i as int,
            ),
        decreases fields.len() - i,
    {
        match compare_bytes(fields[i].name.as_slice(), name) {
            Relation::Less => {},
            Relation::Equal => {
                proof {
                    crate::bytes::lemma_relation_equal(fields@[i as int].name@, name@);
                }
                return (i, true);
            },
            Relation::Greater => {
                proof {
                    crate::bytes::lemma_relation_equal(fields@[i as int].name@, name@);
                }
                return (i, false);
            },
        }
        i += 1;
    }
    (i, false)
}

/// A fresh empty container for the member before the segment at `from + 1`.
fn make_container(parts: &Vec<Vec<u8>>, from: usize) -> (r: Value)
    requires
        from < parts@.len(),
    ensures
        r@ == fresh_container(byte_strings(parts@).skip(from as int)),
{
    let r = if from < parts.len() - 1 && parse_index(parts[from + 1].as_slice()).is_some() {
        Value::Array(Vec::new())
    } else {
        Value::Object(Vec::new())
    };
    proof {
        if r is Array {
            lemma_array_view(r);
            assert(views(r->Array_0@) =~= Seq::empty());
        } else {
            lemma_object_view(r);
            assert(field_views(r->Object_0@) =~= Seq::empty());
        }
    }
    r
}

/// Setting a field changes the views of the fields as `put_field` says.
proof fn lemma_field_views_put(
    before: Seq<Field>,
    after: Seq<Field>,
    at: int,
    present: bool,
    field: Field,
)
    requires
        0 <= at <= before.len(),
        present ==> at < before.len(),
        after == (if present {
            before.remove(at).insert(at, field)
        } else {
            before.insert(at, field)
        }),
    ensures
        field_views(after) == (if present {
            field_views(before).update(at, (field.name@, field.value@))
        } else {
            field_views(before).insert(at, (field.name@, field.value@))
        }),
{
    if present {
        assert(field_views(after) =~= field_views(before).update(
            at,
            (field.name@, field.value@),
        ));
    } else {
        assert(field_views(after) =~= field_views(before).insert(
            at,
            (field.name@, field.value@),
        ));
    }
}

/// Setting an item changes the views of the items as `put_item` says.
proof fn lemma_views_put(before: Seq<Value>, after: Seq<Value>, at: int, item: Value)
    requires
        0 <= at <= before.len(),
        after == (if at < before.len() {
            before.remove(at).insert(at, item)
        } else {
            before.push(item)
        }),
    ensures
        views(after) == put_item(views(before), at, item@),
{
    assert(views(after) =~= put_item(views(before), at, item@));
}

/// Assigns `v` in `target` where the segments from `from` on lead. The flag
/// says whether they could be followed; where they could not, what comes back
/// is `target` as it was.
pub fn assign(target: Value, parts: &Vec<Vec<u8>>, from: usize, v: Value) -> (r: (Value, bool))
    requires
        from <= parts@.len(),
    ensures
        match json_assign(target@, byte_strings(parts@).skip(from as int), v@) {
            Some(j) => r.1 && r.0@ == j,
            None => !r.1 && r.0@ == target@,
        },
    decreases parts@.len() - from,
{
    let ghost all = byte_strings(parts@).skip(from as int);
    if from >= parts.len() {
        return (target, false);
    }
    proof {
        assert(all[0] == parts@[from as int]@);
        assert(all.skip(1) =~= byte_strings(parts@).skip(from + 1));
    }
    let last = from + 1 == parts.len();
    match target {
        Value::Object(mut fields) => {
            let ghost before = fields@;
            proof {
                lemma_object_view(target);
            }
            let (at, present) = find_slot(&fields, parts[from].as_slice());
            if !present && parse_index(parts[from].as_slice()).is_some() {
                return (Value::Object(fields), false);
            }
            let name = copy_bytes(parts[from].as_slice());
            if last {
                if present {
                    let _ = fields.remove(at);
                }
                let field = Field { name, value: v };
                fields.insert(at, field);
                let r = Value::Object(fields);
                proof {
                    lemma_object_view(r);
                    lemma_field_views_put(before, fields@, at as int, present, field);
                }
                (r, true)
            } else if present {
                let old = fields.remove(at);
                let ghost old_field = old;
                let (child, ok) = assign(old.value, parts, from + 1, v);
                let field = Field { name, value: child };
                fields.insert(at, field);
                let r = Value::Object(fields);
                proof {
                    lemma_object_view(r);
                    lemma_field_views_put(before, fields@, at as int, true, field);
                    if !ok {
                        assert(field_views(before).update(at as int, (field.name@, field.value@))
                            =~= field_views(before));
                    }
                }
                (r, ok)
            } else {
                let fresh = make_container(parts, from);
                let (child, ok) = assign(fresh, parts, from + 1, v);
                if ok {
                    let field = Field { name, value: child };
                    fields.insert(at, field);
                    let r = Value::Object(fields);
                    proof {
                        lemma_object_view(r);
                        lemma_field_views_put(before, fields@, at as int, false, field);
                    }
                    (r, true)
                } else {
                    (Value::Object(fields), false)
                }
            }
        },
        Value::Array(mut items) => {
            let ghost before = items@;
            proof {
                lemma_array_view(target);
            }
            match parse_index(parts[from].as_slice()) {
                Some(i) => {
                    if i > items.len() {
                        (Value::Array(items), false)
                    } else if last {
                        if i < items.len() {
                            let _ = items.remove(i);
                            items.insert(i, v);
                        } else {
                            items.push(v);
                        }
                        let r = Value::Array(items);
                        proof {
                            lemma_array_view(r);
                            lemma_views_put(before, items@, i as int, v);
                        }
                        (r, true)
                    } else if i < items.len() {
                        let old = items.remove(i);
                        let (child, ok) = assign(old, parts, from + 1, v);
                        items.insert(i, child);
                        let r = Value::Array(items);
                        proof {
                            lemma_array_view(r);
                            lemma_views_put(before, items@, i as int, child);
                            if !ok {
                                assert(views(before).update(i as int, child@) =~= views(before));
                            }
                        }
                        (r, ok)
                    } else {
                        let fresh = make_container(parts, from);
                        let (child, ok) = assign(fresh, parts, from + 1, v);
                        if ok {
                            items.push(child);
                            let r = Value::Array(items);
                            proof {
                                lemma_array_view(r);
                                lemma_views_put(before, items@, i as int, child);
                            }
                            (r, true)
                        } else {
                            (Value::Array(items), false)
                        }
                    }
                },
                None => (Value::Array(items), false),
            }
        },
        other => (other, false),
    }
}

/// Assigns `value` in `target` where the segments lead, making the members on
/// the way that are missing. Where the segments cannot be followed, `target`
/// stays as it was and the error is `InvalidPath`.
pub fn insert_value_by_path(target: &mut Value, path_parts: &Vec<Vec<u8>>, value: Value) -> (r:
    Result<(), DbError>)
    ensures
        match json_assign(old(target)@, byte_strings(path_parts@), value@) {
            Some(j) => r is Ok && final(target)@ == j,
            None => r matches Err(DbError::InvalidPath(_)) && final(target)@ == old(target)@,
        },
        crate::canon::is_canonical(old(target)@) && crate::canon::is_canonical(value@)
            ==> crate::canon::is_canonical(final(target)@),
{
    proof {
        if crate::canon::is_canonical(target@) && crate::canon::is_canonical(value@) && json_assign(
            target@,
            byte_strings(path_parts@),
            value@,
        ) is Some {
            crate::canon::law_assignment_keeps_canonical_form(
                target@,
                byte_strings(path_parts@),
                value@,
            );
        }
    }
    let mut taken = Value::Null;
    core::mem::swap(target, &mut taken);
    proof {
        assert(byte_strings(path_parts@).skip(0) =~= byte_strings(path_parts@));
    }
    let (mut result, ok) = assign(taken, path_parts, 0, value);
    core::mem::swap(target, &mut result);
    if ok {
        Ok(())
    } else {
        Err(DbError::InvalidPath("the path cannot be followed".to_owned()))
    }
}

/// The fields of an object made of the first `n` of `fields`, put in one
/// after the other: each at the slot of its name, a later one in place of an
/// earlier one of the same name.
pub open spec fn gathered_first(fields: Seq<(Seq<u8>, Json)>, n: nat) -> Seq<(Seq<u8>, Json)>
    decreases n,
{
    if n == 0 || n > fields.len() {
        Seq::empty()
    } else {
        put_field(gathered_first(fields, (n - 1) as nat), fields[n - 1].0, fields[n - 1].1)
    }
}

impl Value {
    /// The object of these fields, in the order of their names, a later field
    /// in place of an earlier one of the same name.
    pub fn object(fields: Vec<Field>) -> (r: Value)
        ensures
            r@ == Json::Object(gathered_first(field_views(fields@), fields@.len())),
            (forall|i: int|
                0 <= i < fields@.len() ==> crate::canon::is_canonical(
                    (#[trigger] field_views(fields@)[i]).1,
                )) ==> crate::canon::is_canonical(r@),
    {
        let ghost all = field_views(fields@);
        proof {
            if forall|i: int|
                0 <= i < fields@.len() ==> crate::canon::is_canonical((#[trigger] all[i]).1) {
                crate::canon::law_gathered_fields_are_canonical(all, all.len());
            }
        }
        let mut out: Vec<Field> = Vec::new();
        let mut rest = fields;
        let mut done: usize = 0;
        let total = rest.len();
        proof {
            assert(field_views(out@) =~= Seq::empty());
        }
        while rest.len() > 0
            invariant
                done + rest@.len() == total,
                total == all.len(),
                forall|j: int|
                    0 <= j < rest@.len() ==> (#[trigger] rest@[j]).name@ == all[done + j].0
                        && rest@[j].value@ == all[done + j].1,
                field_views(out@) == gathered_first(all, done as nat),
            decreases rest@.len(),
        {
            let field = rest.remove(0);
            let (at, present) = find_slot(&out, field.name.as_slice());
            let ghost before = out@;
            if present {
                let _ = out.remove(at);
            }
            out.insert(at, field);
            proof {
                lemma_field_views_put(before, out@, at as int, present, field);
            }
            done += 1;
        }
        let r = Value::Object(out);
        proof {
            lemma_object_view(r);
        }
        r
    }

    /// The string of this text.
    pub fn text(s: &str) -> (r: Value)
        ensures
            r@ == Json::String(s.spec_bytes()),
    {
        Value::String(s.as_bytes_vec())
    }

    /// The number of this integer.
    pub fn integer(n: i64) -> (r: Value)
        ensures
            r@ == Json::Number(crate::number::NumberView::Int(n as int)),
    {
        Value::Number(crate::number::Number::Int(n))
    }
}

impl Field {
    /// A field of this name.
    pub fn named(name: &str, value: Value) -> (r: Field)
        ensures
            r.name@ == name.spec_bytes(),
            r.value == value,
    {
        Field { name: name.as_bytes_vec(), value }
    }
}

} // verus!
