//! Laws of queries: what the index lists, a query finds.
use crate::access::read_path;
use crate::config::ConfigView;
use crate::executor::{equality_answer, matching_first};
use crate::index::{index_keys, write_changes, GeoCell};
use crate::keys::{after_last, equality_prefix, index_key, index_key_prefix, last_fragment};
use crate::ops::user_keys;
use crate::query::{
    condition_holds, equality_hits, holds_value, hydrated, hydrated_first, primaries_first,
    value_matches, Operator,
};
use crate::range_laws::law_hydrated_are_stored;
use crate::store::{
    applied, document, entry_index, lemma_entry_index, prefixed_first, prefixed_keys, stored,
    unique_keys,
};
use crate::text::value_text;
use crate::value::Json;
use crate::write_laws::{
    is_index_key_of, law_write_keeps_other_documents, law_write_rederives_index,
};
use vstd::prelude::*;

verus! {

/// A key that has an entry and begins with the prefix is among the keys that
/// a scan of the prefix gives.
pub proof fn lemma_prefixed_contains(
    entries: Seq<(Seq<u8>, Option<Json>)>,
    prefix: Seq<u8>,
    n: nat,
    i: int,
)
    requires
        0 <= i < n <= entries.len(),
        prefix.is_prefix_of(entries[i].0),
    ensures
        prefixed_first(entries, prefix, n).contains(entries[i].0),
    decreases n,
{
    let rest = prefixed_first(entries, prefix, (n - 1) as nat);
    if i == n - 1 {
        assert(rest.push(entries[i].0)[rest.len() as int] == entries[i].0);
    } else {
        lemma_prefixed_contains(entries, prefix, (n - 1) as nat, i);
        let at = choose|at: int| 0 <= at < rest.len() && rest[at] == entries[i].0;
        if prefix.is_prefix_of(entries[n - 1].0) {
            assert(rest.push(entries[n - 1].0)[at] == entries[i].0);
        }
    }
}

/// The primary key of a scanned key is among the primary keys that the scan
/// gives.
pub proof fn lemma_primaries_contains(keys: Seq<Seq<u8>>, n: nat, i: int)
    requires
        0 <= i < n <= keys.len(),
    ensures
        primaries_first(keys, n).contains(last_fragment(keys[i])),
    decreases n,
{
    let rest = primaries_first(keys, (n - 1) as nat);
    let last = last_fragment(keys[n - 1]);
    if i == n - 1 {
        if !rest.contains(last) {
            assert(rest.push(last)[rest.len() as int] == last);
        }
    } else {
        lemma_primaries_contains(keys, (n - 1) as nat, i);
        let at = choose|at: int| 0 <= at < rest.len() && rest[at] == last_fragment(keys[i]);
        if !rest.contains(last) {
            assert(rest.push(last)[at] == last_fragment(keys[i]));
        }
    }
}

/// The document under a key is among the documents that the keys give.
pub proof fn lemma_hydrated_contains(
    entries: Seq<(Seq<u8>, Option<Json>)>,
    keys: Seq<Seq<u8>>,
    n: nat,
    i: int,
)
    requires
        0 <= i < n <= keys.len(),
        document(entries, keys[i]) is Some,
    ensures
        hydrated_first(entries, keys, n).contains(document(entries, keys[i])->0),
    decreases n,
{
    let rest = hydrated_first(entries, keys, (n - 1) as nat);
    let doc = document(entries, keys[i])->0;
    if i == n - 1 {
        assert(rest.push(doc)[rest.len() as int] == doc);
    } else {
        lemma_hydrated_contains(entries, keys, (n - 1) as nat, i);
        let at = choose|at: int| 0 <= at < rest.len() && rest[at] == doc;
        match document(entries, keys[n - 1]) {
            Some(other) => {
                assert(rest.push(other)[at] == doc);
            },
            None => {},
        }
    }
}

/// A document that satisfies the comparison is among those that the filter
/// lets through.
pub proof fn lemma_matching_contains(
    docs: Seq<Json>,
    n: nat,
    i: int,
    path: Seq<u8>,
    op: Operator,
    query: Json,
)
    requires
        0 <= i < n <= docs.len(),
        condition_holds(docs[i], path, op, query),
    ensures
        matching_first(docs, n, path, op, query).contains(docs[i]),
    decreases n,
{
    let rest = matching_first(docs, (n - 1) as nat, path, op, query);
    if i == n - 1 {
        assert(rest.push(docs[i])[rest.len() as int] == docs[i]);
    } else {
        lemma_matching_contains(docs, (n - 1) as nat, i, path, op, query);
        let at = choose|at: int| 0 <= at < rest.len() && rest[at] == docs[i];
        if condition_holds(docs[n - 1], path, op, query) {
            assert(rest.push(docs[n - 1])[at] == docs[i]);
        }
    }
}

/// Behind the last colon of a string that ends with a colon and a primary
/// key without colons stands the primary key.
pub proof fn lemma_after_last(head: Seq<u8>, primary: Seq<u8>, n: int)
    requires
        !primary.contains(58u8),
        0 <= n <= primary.len(),
    ensures
        after_last(head + seq![58u8] + primary, 58, head.len() + 1 + n) == head.len() + 1,
    decreases n,
{
    let s = head + seq![58u8] + primary;
    if n > 0 {
        assert(s[head.len() + n] == primary[n - 1]);
        lemma_after_last(head, primary, n - 1);
    } else {
        assert(s[head.len() as int] == 58u8);
    }
}

/// The primary key of a key of an index is read back from the key where it
/// holds no colon.
pub proof fn lemma_last_fragment_of_index_key(
    family: Seq<u8>,
    path: Seq<u8>,
    middle: Seq<u8>,
    primary: Seq<u8>,
)
    requires
        !primary.contains(58u8),
    ensures
        last_fragment(index_key(family, path, middle, primary)) == primary,
{
    let head = family + path + seq![58u8] + middle;
    let key = index_key(family, path, middle, primary);
    assert(key =~= head + seq![58u8] + primary);
    lemma_after_last(head, primary, primary.len() as int);
    assert(key.skip((head.len() + 1) as int) =~= primary);
}

/// An equality query finds what the index lists. Where the store holds the
/// entry of the equality index for the scalar `query` at `path` under a key
/// without a colon, and under that key a document that holds `query` at
/// `path`, or an array there that holds it, an equality query for `query` at
/// `path` gives the document.
pub proof fn law_listed_value_is_found(
    entries: Seq<(Seq<u8>, Option<Json>)>,
    key: Seq<u8>,
    doc: Json,
    path: Seq<u8>,
    query: Json,
    config: ConfigView,
)
    requires
        !key.contains(58u8),
        stored(entries, index_key(equality_prefix(), path, value_text(query), key)) is Some,
        document(entries, key) == Some(doc),
        read_path(doc, path) is Some,
        holds_value(read_path(doc, path)->0, query),
    ensures
        equality_answer(entries, path, query, config).contains(doc),
{
    let listed = index_key(equality_prefix(), path, value_text(query), key);
    let prefix = index_key_prefix(equality_prefix(), path, value_text(query));
    lemma_entry_index(entries, listed, 0);
    let at = entry_index(entries, listed, 0);
    assert(prefix.is_prefix_of(listed)) by {
        assert(listed.subrange(0, prefix.len() as int) =~= prefix);
    }
    lemma_prefixed_contains(entries, prefix, entries.len(), at);
    let keys = prefixed_keys(entries, prefix);
    let i = choose|i: int| 0 <= i < keys.len() && keys[i] == listed;
    lemma_primaries_contains(keys, keys.len(), i);
    lemma_last_fragment_of_index_key(equality_prefix(), path, value_text(query), key);
    let hits = equality_hits(entries, path, query);
    let h = choose|h: int| 0 <= h < hits.len() && hits[h] == key;
    assert(document(entries, hits[h]) == Some(doc));
    lemma_hydrated_contains(entries, hits, hits.len(), h);
    let candidates = hydrated(entries, hits);
    let c = choose|c: int| 0 <= c < candidates.len() && candidates[c] == doc;
    assert(value_matches(read_path(doc, path)->0, Operator::Eq, query));
    assert(condition_holds(doc, path, Operator::Eq, query));
    lemma_matching_contains(candidates, candidates.len(), c, path, Operator::Eq, query);
}

/// An equality query finds the written document where the index lists its
/// value. After a document is written under a key that holds no colon, where
/// the document holds `query` at `path`, or an array there that holds it, and
/// the index entry for `query` at `path` is among those derived from the
/// document, an equality query for `query` at `path` gives the document.
pub proof fn law_equality_query_finds_written(
    entries: Seq<(Seq<u8>, Option<Json>)>,
    key: Seq<u8>,
    doc: Json,
    path: Seq<u8>,
    query: Json,
    config: ConfigView,
    cells: Seq<GeoCell>,
)
    requires
        unique_keys(entries),
        !key.contains(58u8),
        read_path(doc, path) is Some,
        holds_value(read_path(doc, path)->0, query),
        write_changes(stored(entries, key), key, doc, config, cells) is Some,
        index_keys(key, doc, config, cells)->0.contains(
            index_key(equality_prefix(), path, value_text(query), key),
        ),
    ensures
        equality_answer(
            applied(entries, write_changes(stored(entries, key), key, doc, config, cells)->0),
            path,
            query,
            config,
        ).contains(doc),
{
    let after = applied(entries, write_changes(stored(entries, key), key, doc, config, cells)->0);
    let listed = index_key(equality_prefix(), path, value_text(query), key);
    law_write_rederives_index(entries, key, doc, config, cells, listed);
    law_write_rederives_index(entries, key, doc, config, cells, key);
    law_listed_value_is_found(after, key, doc, path, query, config);
}

/// A later write under another key keeps an equality query's answer. Where
/// the store holds the entry of the equality index for `query` at `path`
/// under a key and the document under that key, as after the write of the
/// document, and a document is written under another key, both keys without
/// a colon, an equality query for `query` at `path` still gives the first
/// document.
pub proof fn law_equality_query_finds_after_other_write(
    entries: Seq<(Seq<u8>, Option<Json>)>,
    key: Seq<u8>,
    doc: Json,
    path: Seq<u8>,
    query: Json,
    config: ConfigView,
    cells: Seq<GeoCell>,
    other: Seq<u8>,
    written: Json,
)
    requires
        unique_keys(entries),
        !key.contains(58u8),
        !other.contains(58u8),
        other != key,
        stored(entries, index_key(equality_prefix(), path, value_text(query), key)) is Some,
        document(entries, key) == Some(doc),
        read_path(doc, path) is Some,
        holds_value(read_path(doc, path)->0, query),
        write_changes(stored(entries, other), other, written, config, cells) is Some,
    ensures
        equality_answer(
            applied(
                entries,
                write_changes(stored(entries, other), other, written, config, cells)->0,
            ),
            path,
            query,
            config,
        ).contains(doc),
{
    let after = applied(
        entries,
        write_changes(stored(entries, other), other, written, config, cells)->0,
    );
    let listed = index_key(equality_prefix(), path, value_text(query), key);
    assert(is_index_key_of(listed, key));
    law_write_keeps_other_documents(
        entries,
        other,
        written,
        config,
        cells,
        key,
        listed,
    );
    law_write_keeps_other_documents(
        entries,
        other,
        written,
        config,
        cells,
        key,
        key,
    );
    law_listed_value_is_found(after, key, doc, path, query, config);
}

/// What the filter lets through satisfies the comparison and is among the
/// documents that were filtered.
pub proof fn lemma_matching_holds(
    docs: Seq<Json>,
    n: nat,
    path: Seq<u8>,
    op: Operator,
    query: Json,
    doc: Json,
)
    requires
        n <= docs.len(),
        matching_first(docs, n, path, op, query).contains(doc),
    ensures
        condition_holds(doc, path, op, query),
        docs.contains(doc),
    decreases n,
{
    if n > 0 {
        let rest = matching_first(docs, (n - 1) as nat, path, op, query);
        let all = matching_first(docs, n, path, op, query);
        let at = choose|at: int| 0 <= at < all.len() && all[at] == doc;
        if at < rest.len() {
            assert(rest[at] == doc);
            lemma_matching_holds(docs, (n - 1) as nat, path, op, query, doc);
        } else {
            assert(docs[n - 1] == doc);
        }
    }
}

/// An equality query gives only documents that hold the value. Every
/// document in the answer of an equality query for `value` at `path` is
/// stored under a key and holds `value` at `path`, or an array there that
/// holds it, as the comparison of a document with a condition says.
pub proof fn law_equality_answer_holds_the_value(
    entries: Seq<(Seq<u8>, Option<Json>)>,
    path: Seq<u8>,
    value: Json,
    config: ConfigView,
    doc: Json,
)
    requires
        equality_answer(entries, path, value, config).contains(doc),
    ensures
        condition_holds(doc, path, Operator::Eq, value),
        exists|key: Seq<u8>| #[trigger] document(entries, key) == Some(doc),
{
    let hits = equality_hits(entries, path, value);
    let keys = if hits.len() == 0 && config.hash.contains(path) {
        user_keys(prefixed_keys(entries, Seq::empty()))
    } else {
        hits
    };
    let candidates = hydrated(entries, keys);
    lemma_matching_holds(candidates, candidates.len(), path, Operator::Eq, value, doc);
    law_hydrated_are_stored(entries, keys, keys.len(), doc);
    let i = choose|i: int| 0 <= i < keys.len() && document(entries, #[trigger] keys[i]) == Some(doc);
    assert(document(entries, keys[i]) == Some(doc));
}

} // verus!
