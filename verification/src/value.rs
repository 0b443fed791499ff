//! Documents: tree-shaped values, and reading and assigning by path.
use crate::bytes::{bytes_equal, copy_bytes};
use crate::number::{Double, Number, NumberView};
use vstd::prelude::*;

verus! {

/// A named member of an object.
#[derive(Debug, PartialEq)]
pub struct Field {
    pub name: Vec<u8>,
    pub value: Value,
}

/// A document or a part of one. Strings and names are UTF-8 bytes. The fields
/// of an object are kept in the order of their names, each name once, so that
/// two objects with the same members are the same value.
#[derive(Debug, PartialEq)]
pub enum Value {
    Null,
    Bool(bool),
    Number(Number),
    String(Vec<u8>),
    Array(Vec<Value>),
    Object(Vec<Field>),
}

/// What a `Value` stands for.
pub enum Json {
    Null,
    Bool(bool),
    Number(NumberView),
    String(Seq<u8>),
    Array(Seq<Json>),
    Object(Seq<(Seq<u8>, Json)>),
}

impl View for Value {
    type V = Json;

    open spec fn view(&self) -> Json
        decreases self, 0nat,
    {
        match self {
            Value::Null => Json::Null,
            Value::Bool(b) => Json::Bool(*b),
            Value::Number(n) => Json::Number(n@),
            Value::String(s) => Json::String(s@),
            Value::Array(items) => Json::Array(first_views(items@, items@.len())),
            Value::Object(fields) => Json::Object(first_field_views(fields@, fields@.len())),
        }
    }
}

/// The views of the first `n` of `items`.
pub open spec fn first_views(items: Seq<Value>, n: nat) -> Seq<Json>
    decreases items, n,
{
    if n == 0 || n > items.len() {
        Seq::empty()
    } else {
        first_views(items, (n - 1) as nat).push(items[n - 1].view())
    }
}

/// The names and the views of the first `n` of `fields`.
pub open spec fn first_field_views(fields: Seq<Field>, n: nat) -> Seq<(Seq<u8>, Json)>
    decreases fields, n,
{
    if n == 0 || n > fields.len() {
        Seq::empty()
    } else {
        first_field_views(fields, (n - 1) as nat).push(
            (fields[n - 1].name@, fields[n - 1].value.view()),
        )
    }
}

/// The views of a sequence of values, one for one.
pub open spec fn views(values: Seq<Value>) -> Seq<Json> {
    Seq::new(values.len(), |i: int| values[i]@)
}

/// The views of a sequence of fields, one for one.
pub open spec fn field_views(fields: Seq<Field>) -> Seq<(Seq<u8>, Json)> {
    Seq::new(fields.len(), |i: int| (fields[i].name@, fields[i].value@))
}

/// The contents of a sequence of byte strings, one for one.
pub open spec fn byte_strings(strings: Seq<Vec<u8>>) -> Seq<Seq<u8>> {
    Seq::new(strings.len(), |i: int| strings[i]@)
}

/// The first `n` views are the views of the first `n` items.
pub proof fn lemma_first_views(items: Seq<Value>, n: nat)
    requires
        n <= items.len(),
    ensures
        first_views(items, n) == views(items).take(n as int),
    decreases n,
{
    let a = first_views(items, n);
    let b = views(items).take(n as int);
    if n > 0 {
        lemma_first_views(items, (n - 1) as nat);
        let c = views(items).take(n - 1);
        assert(a == c.push(items[n - 1]@));
        assert forall|i: int| 0 <= i < n implies a[i] == b[i] by {
            if i < n - 1 {
                assert(c[i] == b[i]);
            }
        }
    }
    assert(a =~= b);
}

/// The first `n` field views are the views of the first `n` fields.
pub proof fn lemma_first_field_views(fields: Seq<Field>, n: nat)
    requires
        n <= fields.len(),
    ensures
        first_field_views(fields, n) == field_views(fields).take(n as int),
    decreases n,
{
    let a = first_field_views(fields, n);
    let b = field_views(fields).take(n as int);
    if n > 0 {
        lemma_first_field_views(fields, (n - 1) as nat);
        let c = field_views(fields).take(n - 1);
        assert(a == c.push((fields[n - 1].name@, fields[n - 1].value@)));
        assert forall|i: int| 0 <= i < n implies a[i] == b[i] by {
            if i < n - 1 {
                assert(c[i] == b[i]);
            }
        }
    }
    assert(a =~= b);
}

/// An array's view holds the views of its items.
pub proof fn lemma_array_view(v: Value)
    requires
        v is Array,
    ensures
        v@ == Json::Array(views(v->Array_0@)),
{
    let items = v->Array_0@;
    lemma_first_views(items, items.len());
    assert(views(items).take(items.len() as int) =~= views(items));
}

/// An object's view holds the names and the views of its fields.
pub proof fn lemma_object_view(v: Value)
    requires
        v is Object,
    ensures
        v@ == Json::Object(field_views(v->Object_0@)),
{
    let fields = v->Object_0@;
    lemma_first_field_views(fields, fields.len());
    assert(field_views(fields).take(fields.len() as int) =~= field_views(fields));
}

impl Number {
    /// A copy of the number.
    pub fn duplicate(&self) -> (r: Number)
        ensures
            r@ == self@,
    {
        match self {
            Number::Int(i) => Number::Int(*i),
            Number::UInt(u) => Number::UInt(*u),
            Number::Float(d) => Number::Float(
                Double { bits: d.bits, text: copy_bytes(d.text.as_slice()) },
            ),
        }
    }

    /// Whether two numbers are the same: the same integer, or doubles of the
    /// same bits and text.
    pub fn same(&self, other: &Number) -> (r: bool)
        ensures
            r == (self@ == other@),
    {
        match (self, other) {
            (Number::Int(a), Number::Int(b)) => *a == *b,
            (Number::UInt(a), Number::UInt(b)) => *a == *b,
            (Number::Int(a), Number::UInt(b)) => *a >= 0 && *a as u64 == *b,
            (Number::UInt(a), Number::Int(b)) => *b >= 0 && *b as u64 == *a,
            (Number::Float(a), Number::Float(b)) => a.bits == b.bits && bytes_equal(
                a.text.as_slice(),
                b.text.as_slice(),
            ),
            _ => false,
        }
    }
}

impl Value {
    /// A copy of the value.
    pub fn duplicate(&self) -> (r: Value)
        ensures
            r@ == self@,
        decreases self,
    {
        match self {
            Value::Null => Value::Null,
            Value::Bool(b) => Value::Bool(*b),
            Value::Number(n) => Value::Number(n.duplicate()),
            Value::String(s) => Value::String(copy_bytes(s.as_slice())),
            Value::Array(items) => {
                let mut out: Vec<Value> = Vec::new();
                let mut i: usize = 0;
                while i < items.len()
                    invariant
                        i <= items.len(),
                        self is Array,
                        self->Array_0 == *items,
                        out@.len() == i,
                        forall|j: int| 0 <= j < i ==> out@[j]@ == items@[j]@,
                    decreases items.len() - i,
                {
                    out.push(items[i].duplicate());
                    i += 1;
                }
                let r = Value::Array(out);
                proof {
                    lemma_array_view(r);
                    lemma_array_view(*self);
                    assert(views(out@) =~= views(items@));
                }
                r
            },
            Value::Object(fields) => {
                let mut out: Vec<Field> = Vec::new();
                let mut i: usize = 0;
                while i < fields.len()
                    invariant
                        i <= fields.len(),
                        self is Object,
                        self->Object_0 == *fields,
                        out@.len() == i,
                        forall|j: int|
                            0 <= j < i ==> out@[j].value@ == fields@[j].value@ && out@[j].name@
                                == fields@[j].name@,
                    decreases fields.len() - i,
                {
                    out.push(
                        Field {
                            name: copy_bytes(fields[i].name.as_slice()),
                            value: fields[i].value.duplicate(),
                        },
                    );
                    i += 1;
                }
                let r = Value::Object(out);
                proof {
                    lemma_object_view(r);
                    lemma_object_view(*self);
                    assert(field_views(out@) =~= field_views(fields@));
                }
                r
            },
        }
    }

    /// Whether two values are the same.
    pub fn same(&self, other: &Value) -> (r: bool)
        ensures
            r == (self@ == other@),
        decreases self,
    {
        match (self, other) {
            (Value::Null, Value::Null) => true,
            (Value::Bool(a), Value::Bool(b)) => *a == *b,
            (Value::Number(a), Value::Number(b)) => a.same(b),
            (Value::String(a), Value::String(b)) => bytes_equal(a.as_slice(), b.as_slice()),
            (Value::Array(a), Value::Array(b)) => {
                proof {
                    lemma_array_view(*self);
                    lemma_array_view(*other);
                }
                if a.len() != b.len() {
                    proof {
                        assert(views(a@).len() != views(b@).len());
                    }
                    return false;
                }
                let mut i: usize = 0;
                while i < a.len()
                    invariant
                        i <= a.len(),
                        a.len() == b.len(),
                        self is Array,
                        self->Array_0 == *a,
                        self@ == Json::Array(views(a@)),
                        other@ == Json::Array(views(b@)),
                        forall|j: int| 0 <= j < i ==> a@[j]@ == b@[j]@,
                    decreases a.len() - i,
                {
                    if !a[i].same(&b[i]) {
                        proof {
                            assert(views(a@)[i as int] != views(b@)[i as int]);
                        }
                        return false;
                    }
                    i += 1;
                }
                proof {
                    assert(views(a@) =~= views(b@));
                }
                true
            },
            (Value::Object(a), Value::Object(b)) => {
                proof {
                    lemma_object_view(*self);
                    lemma_object_view(*other);
                }
                if a.len() != b.len() {
                    proof {
                        assert(field_views(a@).len() != field_views(b@).len());
                    }
                    return false;
                }
                let mut i: usize = 0;
                while i < a.len()
                    invariant
                        i <= a.len(),
                        a.len() == b.len(),
                        self is Object,
                        self->Object_0 == *a,
                        self@ == Json::Object(field_views(a@)),
                        other@ == Json::Object(field_views(b@)),
                        forall|j: int|
                            0 <= j < i ==> a@[j].value@ == b@[j].value@ && a@[j].name@
                                == b@[j].name@,
                    decreases a.len() - i,
                {
                    if !bytes_equal(a[i].name.as_slice(), b[i].name.as_slice()) || !a[i].value.same(
                        &b[i].value,
                    ) {
                        proof {
                            assert(field_views(a@)[i as int] != field_views(b@)[i as int]);
                        }
                        return false;
                    }
                    i += 1;
                }
                proof {
                    assert(field_views(a@) =~= field_views(b@));
                }
                true
            },
            _ => false,
        }
    }
}

} // verus!
