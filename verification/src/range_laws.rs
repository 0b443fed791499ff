//! Laws of range queries: a written document whose integer lies in a range
//! is found by the query for that range, and the query gives only what the
//! sorted index lists, each document once.
use crate::access::read_path;
use crate::bytes::{bytes_relation, find_byte, Relation};
use crate::codec::{be8, json_relation, sort_encoding};
use crate::codec_laws::law_decoding_inverts_encoding;
use crate::config::ConfigView;
use crate::executor::{answer, common, common_first};
use crate::index::{scalar_keys, write_changes, GeoCell};
use crate::keys::{
    hex_text, index_key, key_parts, lemma_hex_round_trip, path_prefix, sorted_prefix,
};
use crate::number::NumberView;
use crate::number_laws::law_integer_projection_keeps_order;
use crate::order_laws::{
    lemma_be8_of_integers, lemma_hex_keeps_order, lemma_relation_common_prefix,
    lemma_relation_heads, lemma_relation_prefix,
};
use crate::path::path_parts;
use crate::query::{
    hydrated, hydrated_first, operator_holds, sorted_hit, sorted_hits, sorted_hits_first,
    sorted_range, sorted_scan, Operator, QueryNode,
};
use crate::query_laws::lemma_hydrated_contains;
use crate::store::{
    applied, document, entry_index, in_range, lemma_entry_index, ranged_first, stored,
    unique_keys, Edge,
};
use crate::value::Json;
use crate::walk_laws::{lemma_walk_lists_subtree, lemma_walked_parts, through_members};
use crate::write_laws::law_write_rederives_index;
use vstd::prelude::*;

verus! {

/// A position is where `find_byte` lands if the byte stands there and
/// nowhere between `from` and it.
pub proof fn lemma_find_byte_is(s: Seq<u8>, b: u8, from: int, at: int)
    requires
        0 <= from <= at < s.len(),
        s[at] == b,
        forall|j: int| from <= j < at ==> s[j] != b,
    ensures
        find_byte(s, b, from) == at,
    decreases at - from,
{
    if from < at {
        lemma_find_byte_is(s, b, from + 1, at);
    }
}

/// Hexadecimal text holds no colon.
pub proof fn lemma_hex_has_no_colon(data: Seq<u8>)
    ensures
        !hex_text(data).contains(58u8),
{
    if hex_text(data).contains(58u8) {
        let i = choose|i: int| 0 <= i < hex_text(data).len() && hex_text(data)[i] == 58u8;
        let b = data[i / 2];
        assert(hex_text(data)[i] != 58u8);
    }
}

/// A key of an index is taken apart into what it was made of, where neither
/// its path nor its middle part holds a colon.
pub proof fn lemma_key_parts_of_index_key(
    family: Seq<u8>,
    path: Seq<u8>,
    middle: Seq<u8>,
    primary: Seq<u8>,
)
    requires
        !path.contains(58u8),
        !middle.contains(58u8),
    ensures
        key_parts(family, index_key(family, path, middle, primary)) == Some(
            (path, middle, primary),
        ),
{
    let key = index_key(family, path, middle, primary);
    let rest = key.skip(family.len() as int);
    assert(key.subrange(0, family.len() as int) =~= family);
    assert(rest =~= path + seq![58u8] + middle + seq![58u8] + primary);
    let first = path.len() as int;
    let second = (path.len() + 1 + middle.len()) as int;
    assert forall|j: int| 0 <= j < first implies rest[j] != 58u8 by {
        assert(rest[j] == path[j]);
    }
    assert(rest[first] == 58u8);
    lemma_find_byte_is(rest, 58, 0, first);
    assert forall|j: int| first + 1 <= j < second implies rest[j] != 58u8 by {
        assert(rest[j] == middle[j - first - 1]);
    }
    assert(rest[second] == 58u8);
    lemma_find_byte_is(rest, 58, first + 1, second);
    assert(rest.subrange(0, first) =~= path);
    assert(rest.subrange(first + 1, second) =~= middle);
    assert(rest.skip(second + 1) =~= primary);
}

/// A key that has an entry and lies in the range is among the keys that a
/// scan of the range gives.
pub proof fn lemma_ranged_contains(
    entries: Seq<(Seq<u8>, Option<Json>)>,
    lo: Edge,
    hi: Edge,
    n: nat,
    i: int,
)
    requires
        0 <= i < n <= entries.len(),
        in_range(entries[i].0, lo, hi),
    ensures
        ranged_first(entries, lo, hi, n).contains(entries[i].0),
    decreases n,
{
    let rest = ranged_first(entries, lo, hi, (n - 1) as nat);
    if i == n - 1 {
        assert(rest.push(entries[i].0)[rest.len() as int] == entries[i].0);
    } else {
        lemma_ranged_contains(entries, lo, hi, (n - 1) as nat, i);
        let at = choose|at: int| 0 <= at < rest.len() && rest[at] == entries[i].0;
        if in_range(entries[n - 1].0, lo, hi) {
            assert(rest.push(entries[n - 1].0)[at] == entries[i].0);
        }
    }
}

/// The primary key of a scanned key that is a hit is among the primary keys
/// that the scan gives.
pub proof fn lemma_sorted_hits_contain(
    keys: Seq<Seq<u8>>,
    n: nat,
    i: int,
    path: Seq<u8>,
    op: Operator,
    value: Json,
)
    requires
        0 <= i < n <= keys.len(),
        sorted_hit(keys[i], path, op, value) is Some,
    ensures
        sorted_hits_first(keys, n, path, op, value).contains(
            sorted_hit(keys[i], path, op, value)->0,
        ),
    decreases n,
{
    let rest = sorted_hits_first(keys, (n - 1) as nat, path, op, value);
    let wanted = sorted_hit(keys[i], path, op, value)->0;
    if i == n - 1 {
        if !rest.contains(wanted) {
            assert(rest.push(wanted)[rest.len() as int] == wanted);
        }
    } else {
        lemma_sorted_hits_contain(keys, (n - 1) as nat, i, path, op, value);
        let at = choose|at: int| 0 <= at < rest.len() && rest[at] == wanted;
        match sorted_hit(keys[n - 1], path, op, value) {
            Some(other) => {
                if !rest.contains(other) {
                    assert(rest.push(other)[at] == wanted);
                }
            },
            None => {},
        }
    }
}

/// What is among both is among what they have in common.
pub proof fn lemma_common_contains(left: Seq<Json>, right: Seq<Json>, n: nat, i: int)
    requires
        0 <= i < n <= left.len(),
        right.contains(left[i]),
    ensures
        common_first(left, right, n).contains(left[i]),
    decreases n,
{
    let rest = common_first(left, right, (n - 1) as nat);
    if i == n - 1 {
        if !rest.contains(left[i]) {
            assert(rest.push(left[i])[rest.len() as int] == left[i]);
        }
    } else {
        lemma_common_contains(left, right, (n - 1) as nat, i);
        let at = choose|at: int| 0 <= at < rest.len() && rest[at] == left[i];
        if right.contains(left[n - 1]) && !rest.contains(left[n - 1]) {
            assert(rest.push(left[n - 1])[at] == left[i]);
        }
    }
}

/// The number that an integer of a document is.
pub open spec fn integer(v: int) -> Json {
    Json::Number(NumberView::Int(v))
}

/// The key of the sorted index for the integer `v` at `path` in the document
/// of `primary`.
pub open spec fn integer_key(path: Seq<u8>, v: int, primary: Seq<u8>) -> Seq<u8> {
    index_key(sorted_prefix(), path, hex_text(sort_encoding(integer(v))->0), primary)
}

/// The keys of the sorted index for integers of one sign stand as the
/// integers do, whatever their primary keys, and a key with an empty primary
/// key comes before every key for the same integer.
pub proof fn lemma_integer_keys_in_order(
    path: Seq<u8>,
    a: int,
    b: int,
    p: Seq<u8>,
    q: Seq<u8>,
)
    requires
        -0x8000_0000_0000_0000 <= a <= 0x7fff_ffff_ffff_ffff,
        -0x8000_0000_0000_0000 <= b <= 0x7fff_ffff_ffff_ffff,
        (a >= 0) == (b >= 0),
    ensures
        a < b ==> bytes_relation(integer_key(path, a, p), integer_key(path, b, q))
            == Relation::Less,
        a == b ==> bytes_relation(integer_key(path, a, Seq::empty()), integer_key(path, b, q))
            != Relation::Greater,
{
    let head = sorted_prefix() + path + seq![58u8];
    let ea = sort_encoding(integer(a))->0;
    let eb = sort_encoding(integer(b))->0;
    let ha = hex_text(ea);
    let hb = hex_text(eb);
    let pa = crate::codec::pattern_of(a);
    let pb = crate::codec::pattern_of(b);
    assert(ea =~= seq![1u8] + be8(pa));
    assert(eb =~= seq![1u8] + be8(pb));
    lemma_relation_common_prefix(seq![1u8], be8(pa), be8(pb));
    lemma_be8_of_integers(pa, pb);
    lemma_hex_keeps_order(ea, eb);
    crate::bytes::lemma_relation_equal(ha, hb);
    let ta = seq![58u8] + p;
    let tb = seq![58u8] + q;
    let t0 = seq![58u8] + Seq::<u8>::empty();
    assert(integer_key(path, a, p) =~= head + (ha + ta));
    assert(integer_key(path, b, q) =~= head + (hb + tb));
    assert(integer_key(path, a, Seq::empty()) =~= head + (ha + t0));
    lemma_relation_common_prefix(head, ha + ta, hb + tb);
    lemma_relation_common_prefix(head, ha + t0, hb + tb);
    lemma_relation_heads(ha, hb, ta, tb);
    lemma_relation_heads(ha, hb, t0, tb);
    if a == b {
        lemma_relation_common_prefix(seq![58u8], Seq::empty(), q);
    }
}

/// The key of the sorted index for an integer is a hit of a comparison that
/// holds between the integer and the value of the query, where the path
/// holds no colon.
pub proof fn lemma_integer_key_is_hit(
    path: Seq<u8>,
    v: int,
    primary: Seq<u8>,
    op: Operator,
    q: int,
)
    requires
        !path.contains(58u8),
        -0x8000_0000_0000_0000 <= v <= 0x7fff_ffff_ffff_ffff,
        -0x8000_0000_0000_0000 <= q <= 0x7fff_ffff_ffff_ffff,
        operator_holds(op, json_relation(integer(v), integer(q))),
    ensures
        sorted_hit(integer_key(path, v, primary), path, op, integer(q)) == Some(primary),
{
    let encoded = sort_encoding(integer(v))->0;
    lemma_hex_has_no_colon(encoded);
    lemma_key_parts_of_index_key(sorted_prefix(), path, hex_text(encoded), primary);
    lemma_hex_round_trip(encoded);
    law_decoding_inverts_encoding(integer(v));
    assert(encoded[0] == 1u8);
    assert(sort_encoding(integer(q))->0[0] == 1u8);
}

/// After a write, the key of the sorted index for the integer that a path
/// leads to has an entry, and the document is stored under its key.
pub proof fn lemma_written_integer_is_listed(
    entries: Seq<(Seq<u8>, Option<Json>)>,
    key: Seq<u8>,
    doc: Json,
    path: Seq<u8>,
    v: int,
    config: ConfigView,
    cells: Seq<GeoCell>,
)
    requires
        unique_keys(entries),
        path.len() > 0,
        path[0] != 46u8,
        config.sorted.contains(path),
        read_path(doc, path) == Some(integer(v)),
        through_members(doc, path_parts(path), true),
        -0x8000_0000_0000_0000 <= v < 0x1_0000_0000_0000_0000,
        write_changes(stored(entries, key), key, doc, config, cells) is Some,
    ensures
        ({
            let after = applied(
                entries,
                write_changes(stored(entries, key), key, doc, config, cells)->0,
            );
            &&& stored(after, integer_key(path, v, key)) is Some
            &&& document(after, key) == Some(doc)
        }),
{
    let listed = integer_key(path, v, key);
    lemma_walked_parts(path);
    let keys_of_value = scalar_keys(key, path, integer(v), config);
    assert(keys_of_value[keys_of_value.len() - 1] == listed);
    lemma_walk_lists_subtree(
        key,
        Seq::empty(),
        doc,
        path_parts(path),
        integer(v),
        config,
        cells,
        listed,
        true,
    );
    law_write_rederives_index(entries, key, doc, config, cells, listed);
    law_write_rederives_index(entries, key, doc, config, cells, key);
}

/// An ordered leaf finds the document of a key of the sorted index that has
/// an entry, lies in the range that the leaf scans and is a hit of its
/// comparison.
pub proof fn lemma_leaf_finds(
    after: Seq<(Seq<u8>, Option<Json>)>,
    listed: Seq<u8>,
    key: Seq<u8>,
    doc: Json,
    path: Seq<u8>,
    op: Operator,
    q: int,
)
    requires
        op == Operator::Gte || op == Operator::Lt,
        -0x8000_0000_0000_0000 <= q <= 0x7fff_ffff_ffff_ffff,
        stored(after, listed) is Some,
        document(after, key) == Some(doc),
        in_range(
            listed,
            sorted_range(path, op, sort_encoding(integer(q))->0).0,
            sorted_range(path, op, sort_encoding(integer(q))->0).1,
        ),
        sorted_hit(listed, path, op, integer(q)) == Some(key),
    ensures
        hydrated(after, sorted_hits(after, path, op, integer(q))).contains(doc),
{
    lemma_entry_index(after, listed, 0);
    let at = entry_index(after, listed, 0);
    let encoded = sort_encoding(integer(q))->0;
    let scan = sorted_scan(after, path, op, encoded);
    lemma_ranged_contains(
        after,
        sorted_range(path, op, encoded).0,
        sorted_range(path, op, encoded).1,
        after.len(),
        at,
    );
    let i = choose|i: int| 0 <= i < scan.len() && scan[i] == listed;
    lemma_sorted_hits_contain(scan, scan.len(), i, path, op, integer(q));
    let hits = sorted_hits(after, path, op, integer(q));
    let h = choose|h: int| 0 <= h < hits.len() && hits[h] == key;
    lemma_hydrated_contains(after, hits, hits.len(), h);
}

/// The key of the sorted index for `v` lies in the range that "at least `a`"
/// scans where `a <= v`, and in the range that "less than `b`" scans where
/// `v < b`, for integers of one sign.
pub proof fn lemma_integer_key_in_ranges(path: Seq<u8>, v: int, key: Seq<u8>, a: int, b: int)
    requires
        -0x8000_0000_0000_0000 <= a <= v < b <= 0x7fff_ffff_ffff_ffff,
        a >= 0 || b < 0,
    ensures
        in_range(
            integer_key(path, v, key),
            sorted_range(path, Operator::Gte, sort_encoding(integer(a))->0).0,
            sorted_range(path, Operator::Gte, sort_encoding(integer(a))->0).1,
        ),
        in_range(
            integer_key(path, v, key),
            sorted_range(path, Operator::Lt, sort_encoding(integer(b))->0).0,
            sorted_range(path, Operator::Lt, sort_encoding(integer(b))->0).1,
        ),
{
    let listed = integer_key(path, v, key);
    lemma_integer_keys_in_order(path, a, v, Seq::empty(), key);
    lemma_integer_keys_in_order(path, v, b, key, Seq::empty());
    let from = path_prefix(sorted_prefix(), path);
    let tail = hex_text(sort_encoding(integer(v))->0) + seq![58u8] + key;
    assert(listed =~= from + tail);
    lemma_relation_prefix(from, tail);
}

/// The key of the sorted index for `v` is a hit of "at least `a`" where
/// `a <= v`, and of "less than `b`" where `v < b`, for integers of at most 2^53
/// in magnitude.
pub proof fn lemma_integer_key_is_hit_of_range(
    path: Seq<u8>,
    v: int,
    key: Seq<u8>,
    a: int,
    b: int,
)
    requires
        !path.contains(58u8),
        -0x20_0000_0000_0000 <= a <= v < b <= 0x20_0000_0000_0000,
    ensures
        sorted_hit(integer_key(path, v, key), path, Operator::Gte, integer(a)) == Some(key),
        sorted_hit(integer_key(path, v, key), path, Operator::Lt, integer(b)) == Some(key),
{
    law_integer_projection_keeps_order(a, v);
    law_integer_projection_keeps_order(v, b);
    lemma_integer_key_is_hit(path, v, key, Operator::Gte, a);
    lemma_integer_key_is_hit(path, v, key, Operator::Lt, b);
}

/// The answer of the conjunction of "at least `a`" and "less than `b`" at a
/// path: what the documents that the sorted index lists for the one and for
/// the other have in common.
pub proof fn lemma_answer_of_range(
    entries: Seq<(Seq<u8>, Option<Json>)>,
    path: Seq<u8>,
    a: int,
    b: int,
    node: QueryNode,
    config: ConfigView,
    geo: Seq<Seq<Json>>,
    cursor: nat,
)
    requires
        -0x8000_0000_0000_0000 <= a < 0x1_0000_0000_0000_0000,
        -0x8000_0000_0000_0000 <= b < 0x1_0000_0000_0000_0000,
        node matches QueryNode::And(left, right) && (*left matches QueryNode::Gte(lp, lv, _)
            && lp@ == path && lv@ == integer(a)) && (*right matches QueryNode::Lt(rp, rv, _)
            && rp@ == path && rv@ == integer(b)),
    ensures
        answer(entries, node, config, geo, cursor) == Ok::<(Seq<Json>, nat), crate::executor::Fault>(
            (
                common(
                    hydrated(entries, sorted_hits(entries, path, Operator::Gte, integer(a))),
                    hydrated(entries, sorted_hits(entries, path, Operator::Lt, integer(b))),
                ),
                cursor,
            ),
        ),
{
    let left = *node->And_0;
    let right = *node->And_1;
    assert(answer(entries, left, config, geo, cursor) == crate::executor::ordered_answer(
        entries,
        path,
        Operator::Gte,
        integer(a),
        cursor,
    ));
    assert(answer(entries, right, config, geo, cursor) == crate::executor::ordered_answer(
        entries,
        path,
        Operator::Lt,
        integer(b),
        cursor,
    ));
}

/// A range query finds the document of a listed integer: where the key of
/// the sorted index for `v` under `key` has an entry and `doc` is stored
/// under `key`, the conjunction of "at least `a`" and "less than `b`" gives
/// `doc`, for `a <= v < b` of one sign and of at most 2^53 in magnitude.
pub proof fn lemma_range_query_finds_listed(
    after: Seq<(Seq<u8>, Option<Json>)>,
    key: Seq<u8>,
    doc: Json,
    path: Seq<u8>,
    v: int,
    a: int,
    b: int,
)
    requires
        !path.contains(58u8),
        -0x20_0000_0000_0000 <= a <= v < b <= 0x20_0000_0000_0000,
        a >= 0 || b < 0,
        stored(after, integer_key(path, v, key)) is Some,
        document(after, key) == Some(doc),
    ensures
        common(
            hydrated(after, sorted_hits(after, path, Operator::Gte, integer(a))),
            hydrated(after, sorted_hits(after, path, Operator::Lt, integer(b))),
        ).contains(doc),
{
    let listed = integer_key(path, v, key);
    lemma_integer_key_in_ranges(path, v, key, a, b);
    lemma_integer_key_is_hit_of_range(path, v, key, a, b);
    lemma_leaf_finds(after, listed, key, doc, path, Operator::Gte, a);
    lemma_leaf_finds(after, listed, key, doc, path, Operator::Lt, b);
    let first = hydrated(after, sorted_hits(after, path, Operator::Gte, integer(a)));
    let second = hydrated(after, sorted_hits(after, path, Operator::Lt, integer(b)));
    let f = choose|f: int| 0 <= f < first.len() && first[f] == doc;
    lemma_common_contains(first, second, first.len(), f);
}

/// A range query finds the written document. After a document is written,
/// where a path without a colon, sorted-indexed and not beginning with a dot,
/// leads in the document to the integer `v` as the walk of the index
/// maintainer goes, and `a <= v < b` for integers of at most 2^53 in magnitude
/// that are all negative or all not, the conjunction of "at least `a`" and
/// "less than `b`" at that path gives the document. Where `a` is negative and
/// `b` is not, the ranges that are scanned leave integers out.
pub proof fn law_range_query_finds_written(
    entries: Seq<(Seq<u8>, Option<Json>)>,
    key: Seq<u8>,
    doc: Json,
    path: Seq<u8>,
    v: int,
    a: int,
    b: int,
    node: QueryNode,
    config: ConfigView,
    cells: Seq<GeoCell>,
    geo: Seq<Seq<Json>>,
    cursor: nat,
)
    requires
        unique_keys(entries),
        path.len() > 0,
        path[0] != 46u8,
        !path.contains(58u8),
        config.sorted.contains(path),
        read_path(doc, path) == Some(integer(v)),
        through_members(doc, path_parts(path), true),
        -0x20_0000_0000_0000 <= a <= v < b <= 0x20_0000_0000_0000,
        a >= 0 || b < 0,
        write_changes(stored(entries, key), key, doc, config, cells) is Some,
        node matches QueryNode::And(left, right) && (*left matches QueryNode::Gte(lp, lv, _)
            && lp@ == path && lv@ == integer(a)) && (*right matches QueryNode::Lt(rp, rv, _)
            && rp@ == path && rv@ == integer(b)),
    ensures
        answer(
            applied(entries, write_changes(stored(entries, key), key, doc, config, cells)->0),
            node,
            config,
            geo,
            cursor,
        ) is Ok,
        answer(
            applied(entries, write_changes(stored(entries, key), key, doc, config, cells)->0),
            node,
            config,
            geo,
            cursor,
        )->Ok_0.0.contains(doc),
{
    let after = applied(entries, write_changes(stored(entries, key), key, doc, config, cells)->0);
    lemma_written_integer_is_listed(entries, key, doc, path, v, config, cells);
    lemma_range_query_finds_listed(after, key, doc, path, v, a, b);
    lemma_answer_of_range(after, path, a, b, node, config, geo, cursor);
}

/// Whether an entry of the store is a hit of a comparison for the primary
/// key `primary`.
pub open spec fn is_listed(
    entries: Seq<(Seq<u8>, Option<Json>)>,
    path: Seq<u8>,
    op: Operator,
    value: Json,
    primary: Seq<u8>,
) -> bool {
    exists|i: int|
        0 <= i < entries.len() && sorted_hit((#[trigger] entries[i]).0, path, op, value) == Some(
            primary,
        )
}

/// Every key that a scan of a range gives is the key of an entry.
pub proof fn lemma_ranged_are_entries(
    entries: Seq<(Seq<u8>, Option<Json>)>,
    lo: Edge,
    hi: Edge,
    n: nat,
    x: Seq<u8>,
)
    requires
        n <= entries.len(),
        ranged_first(entries, lo, hi, n).contains(x),
    ensures
        exists|i: int| 0 <= i < n && (#[trigger] entries[i]).0 == x,
    decreases n,
{
    if n > 0 {
        let rest = ranged_first(entries, lo, hi, (n - 1) as nat);
        if rest.contains(x) {
            lemma_ranged_are_entries(entries, lo, hi, (n - 1) as nat, x);
            let i = choose|i: int| 0 <= i < n - 1 && (#[trigger] entries[i]).0 == x;
            assert(0 <= i < n && entries[i].0 == x);
        } else {
            let at = choose|at: int|
                0 <= at < ranged_first(entries, lo, hi, n).len() && ranged_first(
                    entries,
                    lo,
                    hi,
                    n,
                )[at] == x;
            if at < rest.len() {
                assert(rest[at] == x);
            }
            assert(entries[n - 1].0 == x);
        }
    }
}

/// Every key that a scan of a prefix gives is the key of an entry.
pub proof fn lemma_prefixed_are_entries(
    entries: Seq<(Seq<u8>, Option<Json>)>,
    prefix: Seq<u8>,
    n: nat,
    x: Seq<u8>,
)
    requires
        n <= entries.len(),
        crate::store::prefixed_first(entries, prefix, n).contains(x),
    ensures
        exists|i: int| 0 <= i < n && (#[trigger] entries[i]).0 == x,
    decreases n,
{
    if n > 0 {
        let rest = crate::store::prefixed_first(entries, prefix, (n - 1) as nat);
        let all = crate::store::prefixed_first(entries, prefix, n);
        if rest.contains(x) {
            lemma_prefixed_are_entries(entries, prefix, (n - 1) as nat, x);
            let i = choose|i: int| 0 <= i < n - 1 && (#[trigger] entries[i]).0 == x;
            assert(0 <= i < n && entries[i].0 == x);
        } else {
            let at = choose|at: int| 0 <= at < all.len() && all[at] == x;
            if at < rest.len() {
                assert(rest[at] == x);
            }
            assert(entries[n - 1].0 == x);
        }
    }
}

/// Every primary key that a scan gives comes of a scanned key that is a hit.
pub proof fn lemma_sorted_hits_come_of_keys(
    keys: Seq<Seq<u8>>,
    n: nat,
    path: Seq<u8>,
    op: Operator,
    value: Json,
    primary: Seq<u8>,
)
    requires
        n <= keys.len(),
        sorted_hits_first(keys, n, path, op, value).contains(primary),
    ensures
        exists|i: int|
            0 <= i < n && sorted_hit(#[trigger] keys[i], path, op, value) == Some(primary),
    decreases n,
{
    if n > 0 {
        let rest = sorted_hits_first(keys, (n - 1) as nat, path, op, value);
        let all = sorted_hits_first(keys, n, path, op, value);
        if rest.contains(primary) {
            lemma_sorted_hits_come_of_keys(keys, (n - 1) as nat, path, op, value, primary);
            let i = choose|i: int|
                0 <= i < n - 1 && sorted_hit(#[trigger] keys[i], path, op, value) == Some(primary);
            assert(0 <= i < n && sorted_hit(keys[i], path, op, value) == Some(primary));
        } else {
            let at = choose|at: int| 0 <= at < all.len() && all[at] == primary;
            if at < rest.len() {
                assert(rest[at] == primary);
            }
            assert(sorted_hit(keys[n - 1], path, op, value) == Some(primary));
        }
    }
}

/// The sorted index gives only what it lists. Every primary key that the
/// sorted index gives for a comparison is that of an entry of the store whose
/// key is one of the sorted index for the path and whose scalar has the tag
/// of the query's value and satisfies the comparison.
pub proof fn law_sorted_hits_are_listed(
    entries: Seq<(Seq<u8>, Option<Json>)>,
    path: Seq<u8>,
    op: Operator,
    value: Json,
    primary: Seq<u8>,
)
    requires
        sorted_hits(entries, path, op, value).contains(primary),
    ensures
        is_listed(entries, path, op, value, primary),
{
    let encoded = sort_encoding(value)->0;
    let keys = sorted_scan(entries, path, op, encoded);
    lemma_sorted_hits_come_of_keys(keys, keys.len(), path, op, value, primary);
    let i = choose|i: int|
        0 <= i < keys.len() && sorted_hit(#[trigger] keys[i], path, op, value) == Some(primary);
    assert(keys.contains(keys[i]));
    if op == Operator::Ne {
        lemma_prefixed_are_entries(
            entries,
            path_prefix(sorted_prefix(), path),
            entries.len(),
            keys[i],
        );
    } else {
        lemma_ranged_are_entries(
            entries,
            sorted_range(path, op, encoded).0,
            sorted_range(path, op, encoded).1,
            entries.len(),
            keys[i],
        );
    }
    let e = choose|e: int| 0 <= e < entries.len() && (#[trigger] entries[e]).0 == keys[i];
    assert(sorted_hit(entries[e].0, path, op, value) == Some(primary));
}

/// Every document that keys give is stored under one of the keys.
pub proof fn law_hydrated_are_stored(
    entries: Seq<(Seq<u8>, Option<Json>)>,
    keys: Seq<Seq<u8>>,
    n: nat,
    doc: Json,
)
    requires
        n <= keys.len(),
        hydrated_first(entries, keys, n).contains(doc),
    ensures
        exists|i: int| 0 <= i < n && document(entries, #[trigger] keys[i]) == Some(doc),
    decreases n,
{
    if n > 0 {
        let rest = hydrated_first(entries, keys, (n - 1) as nat);
        let all = hydrated_first(entries, keys, n);
        if rest.contains(doc) {
            law_hydrated_are_stored(entries, keys, (n - 1) as nat, doc);
            let i = choose|i: int|
                0 <= i < n - 1 && document(entries, #[trigger] keys[i]) == Some(doc);
            assert(0 <= i < n && document(entries, keys[i]) == Some(doc));
        } else {
            let at = choose|at: int| 0 <= at < all.len() && all[at] == doc;
            if at < rest.len() {
                assert(rest[at] == doc);
            }
            assert(document(entries, keys[n - 1]) == Some(doc));
        }
    }
}

/// What the documents of two answers have in common is among both, and no
/// document stands in it twice.
pub proof fn law_common_is_in_both_once(left: Seq<Json>, right: Seq<Json>, n: nat)
    requires
        n <= left.len(),
    ensures
        forall|i: int|
            0 <= i < common_first(left, right, n).len() ==> left.take(n as int).contains(
                #[trigger] common_first(left, right, n)[i],
            ) && right.contains(common_first(left, right, n)[i]),
        forall|i: int, j: int|
            0 <= i < j < common_first(left, right, n).len() ==> common_first(left, right, n)[i]
                != common_first(left, right, n)[j],
    decreases n,
{
    if n > 0 {
        law_common_is_in_both_once(left, right, (n - 1) as nat);
        let rest = common_first(left, right, (n - 1) as nat);
        let all = common_first(left, right, n);
        assert(left.take(n as int)[n - 1] == left[n - 1]);
        assert forall|i: int| 0 <= i < all.len() implies left.take(n as int).contains(
            #[trigger] all[i],
        ) && right.contains(all[i]) by {
            if i < rest.len() {
                assert(all[i] == rest[i]);
                let before = left.take(n - 1);
                assert(before.contains(rest[i]));
                let at = choose|at: int| 0 <= at < before.len() && before[at] == rest[i];
                assert(left.take(n as int)[at] == rest[i]);
            }
        }
        assert forall|i: int, j: int| 0 <= i < j < all.len() implies all[i] != all[j] by {
            if j < rest.len() {
                assert(all[i] == rest[i] && all[j] == rest[j]);
            } else {
                assert(all[i] == rest[i]);
                assert(rest.contains(rest[i]));
            }
        }
    }
}

/// A range query gives only what the sorted index lists, each document once.
/// Every document in the answer of the conjunction of "at least `a`" and
/// "less than `b`" at a path is stored under a primary key for which an entry
/// of the sorted index satisfies the one comparison, and under a primary key
/// for which an entry satisfies the other; and no document stands in the
/// answer twice.
pub proof fn law_range_answer_is_listed(
    entries: Seq<(Seq<u8>, Option<Json>)>,
    path: Seq<u8>,
    a: Json,
    b: Json,
    doc: Json,
)
    requires
        common(
            hydrated(entries, sorted_hits(entries, path, Operator::Gte, a)),
            hydrated(entries, sorted_hits(entries, path, Operator::Lt, b)),
        ).contains(doc),
    ensures
        exists|primary: Seq<u8>|
            document(entries, primary) == Some(doc) && #[trigger] is_listed(
                entries,
                path,
                Operator::Gte,
                a,
                primary,
            ),
        exists|primary: Seq<u8>|
            document(entries, primary) == Some(doc) && #[trigger] is_listed(
                entries,
                path,
                Operator::Lt,
                b,
                primary,
            ),
{
    let low = sorted_hits(entries, path, Operator::Gte, a);
    let high = sorted_hits(entries, path, Operator::Lt, b);
    let left = hydrated(entries, low);
    let right = hydrated(entries, high);
    law_common_is_in_both_once(left, right, left.len());
    let both = common(left, right);
    let c = choose|c: int| 0 <= c < both.len() && both[c] == doc;
    assert(left.take(left.len() as int) =~= left);
    assert(left.contains(both[c]) && right.contains(both[c]));
    law_hydrated_are_stored(entries, low, low.len(), doc);
    let i = choose|i: int| 0 <= i < low.len() && document(entries, #[trigger] low[i]) == Some(doc);
    assert(low.contains(low[i]));
    law_sorted_hits_are_listed(entries, path, Operator::Gte, a, low[i]);
    law_hydrated_are_stored(entries, high, high.len(), doc);
    let k = choose|k: int|
        0 <= k < high.len() && document(entries, #[trigger] high[k]) == Some(doc);
    assert(high.contains(high[k]));
    law_sorted_hits_are_listed(entries, path, Operator::Lt, b, high[k]);
}

/// An entry for an integer satisfies a comparison only where the integer
/// does. Where the key of the sorted index for the integer `w` is a hit of
/// "at least `a`", `w` is at least `a`; where it is a hit of "less than `b`",
/// `w` is less than `b`: for integers of at most 2^53 in magnitude and a path
/// without a colon.
pub proof fn law_listed_integer_is_in_range(
    path: Seq<u8>,
    w: int,
    primary: Seq<u8>,
    a: int,
    b: int,
)
    requires
        !path.contains(58u8),
        -0x20_0000_0000_0000 <= w <= 0x20_0000_0000_0000,
        -0x20_0000_0000_0000 <= a <= 0x20_0000_0000_0000,
        -0x20_0000_0000_0000 <= b <= 0x20_0000_0000_0000,
    ensures
        sorted_hit(integer_key(path, w, primary), path, Operator::Gte, integer(a)) is Some ==> a
            <= w,
        sorted_hit(integer_key(path, w, primary), path, Operator::Lt, integer(b)) is Some ==> w
            < b,
{
    let encoded = sort_encoding(integer(w))->0;
    lemma_hex_has_no_colon(encoded);
    lemma_key_parts_of_index_key(sorted_prefix(), path, hex_text(encoded), primary);
    lemma_hex_round_trip(encoded);
    law_decoding_inverts_encoding(integer(w));
    if w < a {
        law_integer_projection_keeps_order(w, a);
    }
    if b <= w {
        law_integer_projection_keeps_order(b, w);
    }
}

} // verus!
