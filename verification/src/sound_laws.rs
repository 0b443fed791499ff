//! Laws of the soundness of range queries: in a store that is as the write
//! path leaves it, what the sorted index lists for a document is a scalar
//! that the walk of the index maintainer meets in the document, so a range
//! query gives only documents whose value lies in the range.
use crate::bulk_laws::{
    derives, entry_is_consistent, is_consistent, lemma_entry_of_stored, lemma_stored_at,
};
use crate::bytes::{find_byte, lemma_find_byte};
use crate::codec::sort_encoding;
use crate::config::ConfigView;
use crate::consistency_laws::{lemma_keys_are_of, plain_keys};
use crate::executor::answer;
use crate::index::{
    child_path, derived_keys, field_keys, index_keys, item_keys, item_path, point_keys,
    scalar_keys, GeoCell,
};
use crate::keys::{
    equality_prefix, geo_prefix, hex_text, index_key, is_reserved, key_parts, sorted_prefix,
};
use crate::query::{sorted_hit, Operator, QueryNode};
use crate::range_laws::{
    integer, integer_key, is_listed, law_listed_integer_is_in_range, law_range_answer_is_listed,
    lemma_answer_of_range, lemma_hex_has_no_colon,
};
use crate::store::{document, stored};
use crate::text::value_text;
use crate::value::Json;
use crate::write_laws::{
    is_index_key_of, lemma_index_key_reserved, lemma_keys_of_different_primaries,
};
use vstd::prelude::*;

verus! {

/// Whether the walk of the index maintainer, come to `j` at `path`, meets
/// the value `s` at the path `target`: as `j` itself where `j` is a scalar,
/// as an item of `j` where `j` is an array at `target`, or further down.
pub open spec fn walk_meets(path: Seq<u8>, j: Json, target: Seq<u8>, s: Json) -> bool
    decreases j, 0nat,
{
    match j {
        Json::Object(fields) => fields_meet(path, fields, fields.len(), target, s),
        Json::Array(items) => items_meet(path, items, items.len(), target, s),
        _ => path == target && j == s,
    }
}

/// The same for the first `n` fields of an object at `path`.
pub open spec fn fields_meet(
    path: Seq<u8>,
    fields: Seq<(Seq<u8>, Json)>,
    n: nat,
    target: Seq<u8>,
    s: Json,
) -> bool
    decreases fields, n,
{
    0 < n <= fields.len() && (fields_meet(path, fields, (n - 1) as nat, target, s) || walk_meets(
        child_path(path, fields[n - 1].0),
        fields[n - 1].1,
        target,
        s,
    ))
}

/// The same for the first `n` items of an array at `path`.
pub open spec fn items_meet(
    path: Seq<u8>,
    items: Seq<Json>,
    n: nat,
    target: Seq<u8>,
    s: Json,
) -> bool
    decreases items, n,
{
    0 < n <= items.len() && (items_meet(path, items, (n - 1) as nat, target, s) || walk_meets(
        item_path(path, (n - 1) as nat),
        items[n - 1],
        target,
        s,
    ) || (path == target && items[n - 1] == s))
}

/// Two keys of one family for one primary key, whose middle parts hold no
/// colon, are the same key only where their paths and their middle parts are
/// the same.
pub proof fn lemma_split_unique(
    family: Seq<u8>,
    u: Seq<u8>,
    v: Seq<u8>,
    u2: Seq<u8>,
    v2: Seq<u8>,
    p: Seq<u8>,
)
    requires
        index_key(family, u, v, p) == index_key(family, u2, v2, p),
        !v.contains(58u8),
        !v2.contains(58u8),
    ensures
        u == u2,
        v == v2,
{
    let k = index_key(family, u, v, p);
    let k2 = index_key(family, u2, v2, p);
    let f = family.len() as int;
    assert(k.len() == f + u.len() + 1 + v.len() + 1 + p.len());
    assert(k2.len() == f + u2.len() + 1 + v2.len() + 1 + p.len());
    assert(k[f + u.len()] == 58u8);
    assert(k2[f + u2.len()] == 58u8);
    if u.len() > u2.len() {
        let at = u.len() - u2.len() - 1;
        assert(k2[f + u.len()] == v2[at]);
        assert(v2.contains(v2[at]));
    }
    if u.len() < u2.len() {
        let at = u2.len() - u.len() - 1;
        assert(k[f + u2.len()] == v[at]);
        assert(v.contains(v[at]));
    }
    assert forall|i: int| 0 <= i < u.len() implies u[i] == u2[i] by {
        assert(k[f + i] == u[i]);
        assert(k2[f + i] == u2[i]);
    }
    assert(u =~= u2);
    assert forall|i: int| 0 <= i < v.len() implies v[i] == v2[i] by {
        assert(k[f + u.len() + 1 + i] == v[i]);
        assert(k2[f + u2.len() + 1 + i] == v2[i]);
    }
    assert(v =~= v2);
}

/// A key of the sorted index among the keys of a scalar is the key for the
/// sort encoding of the scalar under its path.
pub proof fn lemma_scalar_source(
    primary: Seq<u8>,
    path: Seq<u8>,
    j: Json,
    config: ConfigView,
    target: Seq<u8>,
    m: Seq<u8>,
)
    requires
        scalar_keys(primary, path, j, config).contains(
            index_key(sorted_prefix(), target, m, primary),
        ),
        !m.contains(58u8),
    ensures
        path == target,
        sort_encoding(j) is Some,
        m == hex_text(sort_encoding(j)->0),
{
    let x = index_key(sorted_prefix(), target, m, primary);
    let keys = scalar_keys(primary, path, j, config);
    let i = choose|i: int| 0 <= i < keys.len() && keys[i] == x;
    let e = index_key(equality_prefix(), path, value_text(j), primary);
    assert(x[8] == sorted_prefix()[8]);
    assert(e[8] == equality_prefix()[8]);
    assert(keys[i] != e);
    let o = index_key(sorted_prefix(), path, hex_text(sort_encoding(j)->0), primary);
    assert(keys[i] == o);
    lemma_hex_has_no_colon(sort_encoding(j)->0);
    lemma_split_unique(sorted_prefix(), path, hex_text(sort_encoding(j)->0), target, m, primary);
}

/// A key of the sorted index among the keys derived from a document is the
/// key for a scalar that the walk meets at the path of the key.
pub proof fn lemma_sorted_source(
    primary: Seq<u8>,
    path: Seq<u8>,
    j: Json,
    config: ConfigView,
    cells: Seq<GeoCell>,
    target: Seq<u8>,
    m: Seq<u8>,
) -> (s: Json)
    requires
        derived_keys(primary, path, j, config, cells) is Some,
        derived_keys(primary, path, j, config, cells)->0.contains(
            index_key(sorted_prefix(), target, m, primary),
        ),
        !m.contains(58u8),
    ensures
        walk_meets(path, j, target, s),
        sort_encoding(s) is Some,
        m == hex_text(sort_encoding(s)->0),
    decreases j, 0nat,
{
    let x = index_key(sorted_prefix(), target, m, primary);
    match j {
        Json::Object(fields) => {
            let own = point_keys(primary, path, j, config, cells)->0;
            let below = field_keys(primary, path, fields, fields.len(), config, cells)->0;
            let i = choose|i: int| 0 <= i < (own + below).len() && (own + below)[i] == x;
            if i < own.len() {
                assert(x[2] == sorted_prefix()[2]);
                assert(own[i][2] == geo_prefix()[2]);
                j
            } else {
                assert(below[i - own.len()] == x);
                lemma_sorted_source_fields(
                    primary,
                    path,
                    fields,
                    fields.len(),
                    config,
                    cells,
                    target,
                    m,
                )
            }
        },
        Json::Array(items) => lemma_sorted_source_items(
            primary,
            path,
            items,
            items.len(),
            config,
            cells,
            target,
            m,
        ),
        _ => {
            lemma_scalar_source(primary, path, j, config, target, m);
            j
        },
    }
}

/// The same for the first `n` fields of an object.
pub proof fn lemma_sorted_source_fields(
    primary: Seq<u8>,
    path: Seq<u8>,
    fields: Seq<(Seq<u8>, Json)>,
    n: nat,
    config: ConfigView,
    cells: Seq<GeoCell>,
    target: Seq<u8>,
    m: Seq<u8>,
) -> (s: Json)
    requires
        n <= fields.len(),
        field_keys(primary, path, fields, n, config, cells) is Some,
        field_keys(primary, path, fields, n, config, cells)->0.contains(
            index_key(sorted_prefix(), target, m, primary),
        ),
        !m.contains(58u8),
    ensures
        fields_meet(path, fields, n, target, s),
        sort_encoding(s) is Some,
        m == hex_text(sort_encoding(s)->0),
    decreases fields, n,
{
    let x = index_key(sorted_prefix(), target, m, primary);
    assert(n > 0) by {
        if n == 0 {
            let all = field_keys(primary, path, fields, n, config, cells)->0;
            let i = choose|i: int| 0 <= i < all.len() && all[i] == x;
        }
    }
    let before = field_keys(primary, path, fields, (n - 1) as nat, config, cells)->0;
    let at = child_path(path, fields[n - 1].0);
    let inner = derived_keys(primary, at, fields[n - 1].1, config, cells)->0;
    let i = choose|i: int| 0 <= i < (before + inner).len() && (before + inner)[i] == x;
    if i < before.len() {
        assert(before[i] == x);
        lemma_sorted_source_fields(
            primary,
            path,
            fields,
            (n - 1) as nat,
            config,
            cells,
            target,
            m,
        )
    } else {
        assert(inner[i - before.len()] == x);
        lemma_sorted_source(primary, at, fields[n - 1].1, config, cells, target, m)
    }
}

/// The same for the first `n` items of an array.
pub proof fn lemma_sorted_source_items(
    primary: Seq<u8>,
    path: Seq<u8>,
    items: Seq<Json>,
    n: nat,
    config: ConfigView,
    cells: Seq<GeoCell>,
    target: Seq<u8>,
    m: Seq<u8>,
) -> (s: Json)
    requires
        n <= items.len(),
        item_keys(primary, path, items, n, config, cells) is Some,
        item_keys(primary, path, items, n, config, cells)->0.contains(
            index_key(sorted_prefix(), target, m, primary),
        ),
        !m.contains(58u8),
    ensures
        items_meet(path, items, n, target, s),
        sort_encoding(s) is Some,
        m == hex_text(sort_encoding(s)->0),
    decreases items, n,
{
    let x = index_key(sorted_prefix(), target, m, primary);
    assert(n > 0) by {
        if n == 0 {
            let all = item_keys(primary, path, items, n, config, cells)->0;
            let i = choose|i: int| 0 <= i < all.len() && all[i] == x;
        }
    }
    let before = item_keys(primary, path, items, (n - 1) as nat, config, cells)->0;
    let at = item_path(path, (n - 1) as nat);
    let inner = derived_keys(primary, at, items[n - 1], config, cells)->0;
    let own = scalar_keys(primary, path, items[n - 1], config);
    let all = before + inner + own;
    let i = choose|i: int| 0 <= i < all.len() && all[i] == x;
    if i < before.len() {
        assert(before[i] == x);
        lemma_sorted_source_items(primary, path, items, (n - 1) as nat, config, cells, target, m)
    } else if i < before.len() + inner.len() {
        assert(inner[i - before.len()] == x);
        lemma_sorted_source(primary, at, items[n - 1], config, cells, target, m)
    } else {
        assert(own[i - before.len() - inner.len()] == x);
        lemma_scalar_source(primary, path, items[n - 1], config, target, m);
        items[n - 1]
    }
}

/// A key that is taken apart is the key of the index that is made of its
/// parts, and neither its path nor its middle part holds a colon.
pub proof fn lemma_parts_make_the_key(family: Seq<u8>, x: Seq<u8>)
    requires
        key_parts(family, x) is Some,
    ensures
        ({
            let parts = key_parts(family, x)->0;
            &&& x == index_key(family, parts.0, parts.1, parts.2)
            &&& !parts.0.contains(58u8)
            &&& !parts.1.contains(58u8)
        }),
{
    let rest = x.skip(family.len() as int);
    lemma_find_byte(rest, 58, 0);
    let first = find_byte(rest, 58, 0);
    lemma_find_byte(rest, 58, first + 1);
    let second = find_byte(rest, 58, first + 1);
    let path = rest.subrange(0, first);
    let middle = rest.subrange(first + 1, second);
    let primary = rest.skip(second + 1);
    assert(!path.contains(58u8)) by {
        if path.contains(58u8) {
            let i = choose|i: int| 0 <= i < path.len() && path[i] == 58u8;
            assert(rest[i] == 58u8);
        }
    }
    assert(!middle.contains(58u8)) by {
        if middle.contains(58u8) {
            let i = choose|i: int| 0 <= i < middle.len() && middle[i] == 58u8;
            assert(rest[first + 1 + i] == 58u8);
        }
    }
    assert(rest =~= path + seq![58u8] + middle + seq![58u8] + primary);
    assert(x.subrange(0, family.len() as int) =~= family);
    assert(x =~= family + rest);
    assert(x =~= index_key(family, path, middle, primary));
}

/// A key that is a hit of a comparison is a key of the sorted index for the
/// path of the comparison and the primary key that the hit gives, with a
/// middle part that holds no colon.
pub proof fn lemma_hit_shape(x: Seq<u8>, path: Seq<u8>, op: Operator, value: Json)
    requires
        sorted_hit(x, path, op, value) is Some,
    ensures
        ({
            let parts = key_parts(sorted_prefix(), x)->0;
            &&& x == index_key(sorted_prefix(), path, parts.1, sorted_hit(x, path, op, value)->0)
            &&& !parts.1.contains(58u8)
            &&& !path.contains(58u8)
        }),
{
    assert(key_parts(sorted_prefix(), x) is Some);
    let parts = key_parts(sorted_prefix(), x)->0;
    assert(parts.0 == path);
    assert(sorted_hit(x, path, op, value)->0 == parts.2);
    lemma_parts_make_the_key(sorted_prefix(), x);
}

/// In a consistent store whose primary keys hold no colon, an entry of the
/// sorted index that names the key of a stored document is an index entry
/// of that document.
pub proof fn lemma_hit_is_of_document(
    entries: Seq<(Seq<u8>, Option<Json>)>,
    i: int,
    path: Seq<u8>,
    m: Seq<u8>,
    primary: Seq<u8>,
    doc: Json,
    config: ConfigView,
    cells: Seq<GeoCell>,
)
    requires
        is_consistent(entries, config, cells),
        plain_keys(entries),
        0 <= i < entries.len(),
        entries[i].0 == index_key(sorted_prefix(), path, m, primary),
        document(entries, primary) == Some(doc),
    ensures
        index_keys(primary, doc, config, cells) is Some,
        index_keys(primary, doc, config, cells)->0.contains(entries[i].0),
{
    let x = entries[i].0;
    lemma_index_key_reserved(sorted_prefix(), path, m, primary);
    assert(entry_is_consistent(entries, i, config, cells));
    let d = choose|d: int|
        0 <= d < entries.len() && d < entries.len() && #[trigger] derives(
            entries[d],
            config,
            cells,
            x,
        );
    let owner = entries[d].0;
    lemma_stored_at(entries, d);
    let home = lemma_entry_of_stored(entries, primary);
    assert(entry_is_consistent(entries, home, config, cells));
    assert(!is_reserved(primary));
    assert(!primary.contains(58u8));
    assert(!owner.contains(58u8));
    lemma_keys_are_of(owner, entries[d].1->0, config, cells);
    let theirs = index_keys(owner, entries[d].1->0, config, cells)->0;
    let at = choose|at: int| 0 <= at < theirs.len() && theirs[at] == x;
    assert(is_index_key_of(theirs[at], owner));
    assert(is_index_key_of(x, primary));
    lemma_keys_of_different_primaries(x, owner, primary);
}

/// What the sorted index lists for a document is in the document. In a
/// store that is as the write path leaves it, with no colon in a primary
/// key, where an entry is a hit of a comparison at `path` for the key of a
/// stored document, the walk of the index maintainer meets in the document,
/// at `path`, a scalar whose sort encoding the entry holds.
pub proof fn law_listed_is_in_document(
    entries: Seq<(Seq<u8>, Option<Json>)>,
    i: int,
    path: Seq<u8>,
    op: Operator,
    value: Json,
    doc: Json,
    config: ConfigView,
    cells: Seq<GeoCell>,
) -> (s: Json)
    requires
        is_consistent(entries, config, cells),
        plain_keys(entries),
        0 <= i < entries.len(),
        sorted_hit(entries[i].0, path, op, value) is Some,
        document(entries, sorted_hit(entries[i].0, path, op, value)->0) == Some(doc),
    ensures
        walk_meets(Seq::empty(), doc, path, s),
        sort_encoding(s) is Some,
        entries[i].0 == index_key(
            sorted_prefix(),
            path,
            hex_text(sort_encoding(s)->0),
            sorted_hit(entries[i].0, path, op, value)->0,
        ),
{
    let x = entries[i].0;
    let primary = sorted_hit(x, path, op, value)->0;
    let parts = key_parts(sorted_prefix(), x)->0;
    let m = parts.1;
    lemma_hit_shape(x, path, op, value);
    lemma_hit_is_of_document(entries, i, path, m, primary, doc, config, cells);
    lemma_sorted_source(primary, Seq::empty(), doc, config, cells, path, m)
}

/// A range query gives only documents in the range. In a store that is as
/// the write path leaves it, with no colon in a primary key, every document
/// in the answer of the conjunction of "at least `a`" and "less than `b`" at
/// a path, in which the integer `v` is the one scalar with a sort encoding
/// that the walk of the index maintainer meets at the path, has `a <= v < b`:
/// for integers of at most 2^53 in magnitude.
pub proof fn law_range_answer_is_in_range(
    entries: Seq<(Seq<u8>, Option<Json>)>,
    path: Seq<u8>,
    a: int,
    b: int,
    doc: Json,
    v: int,
    node: QueryNode,
    config: ConfigView,
    cells: Seq<GeoCell>,
    geo: Seq<Seq<Json>>,
    cursor: nat,
)
    requires
        is_consistent(entries, config, cells),
        plain_keys(entries),
        -0x20_0000_0000_0000 <= a <= 0x20_0000_0000_0000,
        -0x20_0000_0000_0000 <= b <= 0x20_0000_0000_0000,
        -0x20_0000_0000_0000 <= v <= 0x20_0000_0000_0000,
        node matches QueryNode::And(left, right) && (*left matches QueryNode::Gte(lp, lv, _)
            && lp@ == path && lv@ == integer(a)) && (*right matches QueryNode::Lt(rp, rv, _)
            && rp@ == path && rv@ == integer(b)),
        answer(entries, node, config, geo, cursor) is Ok,
        answer(entries, node, config, geo, cursor)->Ok_0.0.contains(doc),
        forall|s: Json| #[trigger]
            walk_meets(Seq::empty(), doc, path, s) && sort_encoding(s) is Some ==> s == integer(v),
    ensures
        a <= v < b,
{
    lemma_answer_of_range(entries, path, a, b, node, config, geo, cursor);
    law_range_answer_is_listed(entries, path, integer(a), integer(b), doc);
    let low = choose|primary: Seq<u8>|
        document(entries, primary) == Some(doc) && #[trigger] is_listed(
            entries,
            path,
            Operator::Gte,
            integer(a),
            primary,
        );
    let i = choose|i: int|
        0 <= i < entries.len() && sorted_hit(
            (#[trigger] entries[i]).0,
            path,
            Operator::Gte,
            integer(a),
        ) == Some(low);
    let s = law_listed_is_in_document(entries, i, path, Operator::Gte, integer(a), doc, config, cells);
    assert(entries[i].0 == integer_key(path, v, low));
    lemma_hit_shape(entries[i].0, path, Operator::Gte, integer(a));
    law_listed_integer_is_in_range(path, v, low, a, b);
    let high = choose|primary: Seq<u8>|
        document(entries, primary) == Some(doc) && #[trigger] is_listed(
            entries,
            path,
            Operator::Lt,
            integer(b),
            primary,
        );
    let k = choose|k: int|
        0 <= k < entries.len() && sorted_hit(
            (#[trigger] entries[k]).0,
            path,
            Operator::Lt,
            integer(b),
        ) == Some(high);
    let t = law_listed_is_in_document(entries, k, path, Operator::Lt, integer(b), doc, config, cells);
    assert(entries[k].0 == integer_key(path, v, high));
    law_listed_integer_is_in_range(path, v, high, a, b);
}

} // verus!
