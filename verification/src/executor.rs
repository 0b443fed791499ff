//! The executor: the answer of a query tree over the store, then the page
//! that was asked for, then its projection.
use crate::bytes::copy_bytes;
use crate::codec::sort_encoding;
use crate::config::{ConfigView, DbConfig};
use crate::error::DbError;
use crate::ops::{get_all_keys, user_keys};
use crate::projection::{apply_projection, projection};
use crate::query::{
    condition_holds, contains_value, distinct, distinct_first, equality_hits, evaluate_condition_on_doc,
    fetch_documents, fetch_keys_hash_index, fetch_keys_sorted_index, hydrated, lemma_views_push,
    sorted_hits, DataType, Operator, QueryNode,
};
use crate::store::{prefixed_keys, Store};
use crate::value::{byte_strings, views, Json, Value};
use vstd::prelude::*;

verus! {

/// Why a query has no answer.
pub enum Fault {
    /// A leaf compares with a value that is no scalar.
    NotScalar,
    /// A geospatial leaf has no result among those handed in.
    NoGeoResult,
}

/// The documents among the first `n` of `docs` that satisfy the comparison at
/// `path`, in their order.
pub open spec fn matching_first(
    docs: Seq<Json>,
    n: nat,
    path: Seq<u8>,
    op: Operator,
    query: Json,
) -> Seq<Json>
    decreases n,
{
    if n == 0 || n > docs.len() {
        Seq::empty()
    } else {
        let rest = matching_first(docs, (n - 1) as nat, path, op, query);
        if condition_holds(docs[n - 1], path, op, query) {
            rest.push(docs[n - 1])
        } else {
            rest
        }
    }
}

/// The documents among `docs` that satisfy the comparison at `path`.
pub open spec fn matching(docs: Seq<Json>, path: Seq<u8>, op: Operator, query: Json) -> Seq<Json> {
    matching_first(docs, docs.len(), path, op, query)
}

/// The documents among the first `n` of `left` that are among `right`, each
/// once, in the order of `left`.
pub open spec fn common_first(left: Seq<Json>, right: Seq<Json>, n: nat) -> Seq<Json>
    decreases n,
{
    if n == 0 || n > left.len() {
        Seq::empty()
    } else {
        let rest = common_first(left, right, (n - 1) as nat);
        if right.contains(left[n - 1]) && !rest.contains(left[n - 1]) {
            rest.push(left[n - 1])
        } else {
            rest
        }
    }
}

/// The documents that are among both, each once.
pub open spec fn common(left: Seq<Json>, right: Seq<Json>) -> Seq<Json> {
    common_first(left, right, left.len())
}

/// The documents that are among either, each once: those of `left` first.
pub open spec fn merged(left: Seq<Json>, right: Seq<Json>) -> Seq<Json> {
    distinct(left + right)
}

/// The documents among the first `n` of `all` that are not among `gone`.
pub open spec fn remaining_first(all: Seq<Json>, gone: Seq<Json>, n: nat) -> Seq<Json>
    decreases n,
{
    if n == 0 || n > all.len() {
        Seq::empty()
    } else {
        let rest = remaining_first(all, gone, (n - 1) as nat);
        if gone.contains(all[n - 1]) {
            rest
        } else {
            rest.push(all[n - 1])
        }
    }
}

/// The documents among `all` that are not among `gone`.
pub open spec fn remaining(all: Seq<Json>, gone: Seq<Json>) -> Seq<Json> {
    remaining_first(all, gone, all.len())
}

/// All users' documents of the store, in the order of their entries.
pub open spec fn all_documents(entries: Seq<(Seq<u8>, Option<Json>)>) -> Seq<Json> {
    hydrated(entries, user_keys(prefixed_keys(entries, Seq::empty())))
}

/// The answer of an equality leaf: the documents that the equality index
/// lists for the value at the path, or all documents where it lists none and
/// the path is hash-indexed; of these, the ones that hold the value at the
/// path, or hold an array there that holds the value.
pub open spec fn equality_answer(
    entries: Seq<(Seq<u8>, Option<Json>)>,
    path: Seq<u8>,
    value: Json,
    config: ConfigView,
) -> Seq<Json> {
    let hits = equality_hits(entries, path, value);
    let candidates = if hits.len() == 0 && config.hash.contains(path) {
        all_documents(entries)
    } else {
        hydrated(entries, hits)
    };
    matching(candidates, path, Operator::Eq, value)
}

/// The answer of a membership leaf: the documents that the equality index
/// lists for the value at the path and that hold the value there, or hold an
/// array there that holds it.
pub open spec fn includes_answer(
    entries: Seq<(Seq<u8>, Option<Json>)>,
    path: Seq<u8>,
    value: Json,
) -> Seq<Json> {
    matching(hydrated(entries, equality_hits(entries, path, value)), path, Operator::Includes, value)
}

/// The answer of an ordered leaf: the documents that the sorted index lists
/// for the comparison, or a fault where the value is no scalar.
pub open spec fn ordered_answer(
    entries: Seq<(Seq<u8>, Option<Json>)>,
    path: Seq<u8>,
    op: Operator,
    value: Json,
    cursor: nat,
) -> Result<(Seq<Json>, nat), Fault> {
    if sort_encoding(value) is None {
        Err(Fault::NotScalar)
    } else {
        Ok((hydrated(entries, sorted_hits(entries, path, op, value)), cursor))
    }
}

/// The views of the results handed in for the geospatial leaves.
pub open spec fn geo_views(geo: Seq<Vec<Value>>) -> Seq<Seq<Json>> {
    Seq::new(geo.len(), |i: int| views(geo[i]@))
}

/// The answer of a geospatial leaf: the result at `cursor` among those handed
/// in, or a fault where there is none.
pub open spec fn geo_answer(geo: Seq<Seq<Json>>, cursor: nat) -> Result<(Seq<Json>, nat), Fault> {
    if cursor < geo.len() {
        Ok((geo[cursor as int], cursor + 1))
    } else {
        Err(Fault::NoGeoResult)
    }
}

/// What follows a left answer in a combination of two.
pub open spec fn then_both(
    left: Result<(Seq<Json>, nat), Fault>,
    right: Result<(Seq<Json>, nat), Fault>,
    union: bool,
) -> Result<(Seq<Json>, nat), Fault> {
    match (left, right) {
        (Ok((a, _)), Ok((b, cursor))) => Ok(
            (
                if union {
                    merged(a, b)
                } else {
                    common(a, b)
                },
                cursor,
            ),
        ),
        (Err(f), _) => Err(f),
        (_, Err(f)) => Err(f),
    }
}

/// The cursor behind an answer, or `cursor` where there is no answer.
pub open spec fn cursor_after(answer: Result<(Seq<Json>, nat), Fault>, cursor: nat) -> nat {
    match answer {
        Ok((_, next)) => next,
        Err(_) => cursor,
    }
}

/// The answer of a query tree over the store, and the cursor behind it. The
/// geospatial leaves take their results from `geo`, in the order in which
/// they stand in the tree, from `cursor` on. A conjunction gives the
/// documents that both sides give, a disjunction those that either gives,
/// each once; a negation gives all documents but those that its side gives.
pub open spec fn answer(
    entries: Seq<(Seq<u8>, Option<Json>)>,
    node: QueryNode,
    config: ConfigView,
    geo: Seq<Seq<Json>>,
    cursor: nat,
) -> Result<(Seq<Json>, nat), Fault>
    decreases node,
{
    match node {
        QueryNode::Eq(path, value, _) => Ok((equality_answer(entries, path@, value@, config), cursor)),
        QueryNode::Includes(path, value, _) => Ok(
            (includes_answer(entries, path@, value@), cursor),
        ),
        QueryNode::Gt(path, value, _) => ordered_answer(
            entries,
            path@,
            Operator::Gt,
            value@,
            cursor,
        ),
        QueryNode::Lt(path, value, _) => ordered_answer(
            entries,
            path@,
            Operator::Lt,
            value@,
            cursor,
        ),
        QueryNode::Gte(path, value, _) => ordered_answer(
            entries,
            path@,
            Operator::Gte,
            value@,
            cursor,
        ),
        QueryNode::Lte(path, value, _) => ordered_answer(
            entries,
            path@,
            Operator::Lte,
            value@,
            cursor,
        ),
        QueryNode::Ne(path, value, _) => ordered_answer(
            entries,
            path@,
            Operator::Ne,
            value@,
            cursor,
        ),
        QueryNode::And(left, right) => {
            let first = answer(entries, *left, config, geo, cursor);
            then_both(
                first,
                answer(entries, *right, config, geo, cursor_after(first, cursor)),
                false,
            )
        },
        QueryNode::Or(left, right) => {
            let first = answer(entries, *left, config, geo, cursor);
            then_both(
                first,
                answer(entries, *right, config, geo, cursor_after(first, cursor)),
                true,
            )
        },
        QueryNode::Not(child) => match answer(entries, *child, config, geo, cursor) {
            Ok((gone, next)) => Ok((remaining(all_documents(entries), gone), next)),
            Err(f) => Err(f),
        },
        QueryNode::GeoWithinRadius { .. } => geo_answer(geo, cursor),
        QueryNode::GeoInBox { .. } => geo_answer(geo, cursor),
    }
}

/// The page of `docs` that begins at `offset` and holds at most `limit`
/// documents: without an offset it begins at the first, without a limit it
/// runs to the last.
pub open spec fn page(docs: Seq<Json>, offset: Option<usize>, limit: Option<usize>) -> Seq<Json> {
    let start = match offset {
        Some(o) => o as int,
        None => 0,
    };
    if start < docs.len() {
        let count = match limit {
            Some(l) => l as int,
            None => docs.len() - start,
        };
        let end = if start + count < docs.len() {
            start + count
        } else {
            docs.len() as int
        };
        docs.subrange(start, end)
    } else {
        Seq::empty()
    }
}

/// The documents among `docs` that satisfy the comparison at `path`.
fn filter_matching(docs: Vec<Value>, path: &[u8], op: Operator, query: &Value) -> (r: Vec<Value>)
    ensures
        views(r@) == matching(views(docs@), path@, op, query@),
{
    let mut out: Vec<Value> = Vec::new();
    let ghost all = views(docs@);
    proof {
        assert(views(out@) =~= Seq::<Json>::empty());
    }
    let mut i: usize = 0;
    while i < docs.len()
        invariant
            i <= docs.len(),
            all == views(docs@),
            views(out@) == matching_first(all, i as nat, path@, op, query@),
        decreases docs.len() - i,
    {
        proof {
            assert(all[i as int] == docs@[i as int]@);
        }
        if evaluate_condition_on_doc(&docs[i], path, op, query) {
            let copy = docs[i].duplicate();
            proof {
                lemma_views_push(out@, copy);
            }
            out.push(copy);
        }
        i += 1;
    }
    out
}

/// The documents that are among both, each once.
fn intersect(left: &Vec<Value>, right: &Vec<Value>) -> (r: Vec<Value>)
    ensures
        views(r@) == common(views(left@), views(right@)),
{
    let mut out: Vec<Value> = Vec::new();
    let ghost a = views(left@);
    proof {
        assert(views(out@) =~= Seq::<Json>::empty());
    }
    let mut i: usize = 0;
    while i < left.len()
        invariant
            i <= left.len(),
            a == views(left@),
            views(out@) == common_first(a, views(right@), i as nat),
        decreases left.len() - i,
    {
        proof {
            assert(a[i as int] == left@[i as int]@);
        }
        if contains_value(right, &left[i]) && !contains_value(&out, &left[i]) {
            let copy = left[i].duplicate();
            proof {
                lemma_views_push(out@, copy);
            }
            out.push(copy);
        }
        i += 1;
    }
    out
}

/// Appends to `out` the documents of `more` that it does not hold yet.
fn add_distinct(out: &mut Vec<Value>, more: &Vec<Value>, Ghost(whole): Ghost<Seq<Json>>, from: usize)
    requires
        from + more@.len() == whole.len(),
        forall|j: int| 0 <= j < more@.len() ==> whole[from + j] == #[trigger] more@[j]@,
        views(old(out)@) == distinct_first(whole, from as nat),
    ensures
        views(final(out)@) == distinct_first(whole, whole.len()),
{
    let mut i: usize = 0;
    while i < more.len()
        invariant
            i <= more.len(),
            from + more@.len() == whole.len(),
            forall|j: int| 0 <= j < more@.len() ==> whole[from + j] == #[trigger] more@[j]@,
            views(out@) == distinct_first(whole, (from + i) as nat),
        decreases more.len() - i,
    {
        proof {
            assert(whole[from + i] == more@[i as int]@);
        }
        if !contains_value(out, &more[i]) {
            let copy = more[i].duplicate();
            proof {
                lemma_views_push(out@, copy);
            }
            out.push(copy);
        }
        i += 1;
    }
}

/// The documents that are among either, each once: those of `left` first.
fn unite(left: &Vec<Value>, right: &Vec<Value>) -> (r: Vec<Value>)
    ensures
        views(r@) == merged(views(left@), views(right@)),
{
    let mut out: Vec<Value> = Vec::new();
    let ghost whole = views(left@) + views(right@);
    proof {
        assert(views(out@) =~= Seq::<Json>::empty());
    }
    add_distinct(&mut out, left, Ghost(whole.take(left@.len() as int)), 0);
    proof {
        lemma_distinct_take(whole, left@.len() as nat, left@.len() as nat);
    }
    add_distinct(&mut out, right, Ghost(whole), left.len());
    out
}

/// The first items without repetitions are the same for a sequence and for a
/// beginning of it that holds them.
pub proof fn lemma_distinct_take<T>(s: Seq<T>, m: nat, n: nat)
    requires
        n <= m <= s.len(),
    ensures
        distinct_first(s.take(m as int), n) == distinct_first(s, n),
    decreases n,
{
    if n > 0 {
        lemma_distinct_take(s, m, (n - 1) as nat);
    }
}

/// The documents among `all` that are not among `gone`.
fn subtract(all: &Vec<Value>, gone: &Vec<Value>) -> (r: Vec<Value>)
    ensures
        views(r@) == remaining(views(all@), views(gone@)),
{
    let mut out: Vec<Value> = Vec::new();
    let ghost a = views(all@);
    proof {
        assert(views(out@) =~= Seq::<Json>::empty());
    }
    let mut i: usize = 0;
    while i < all.len()
        invariant
            i <= all.len(),
            a == views(all@),
            views(out@) == remaining_first(a, views(gone@), i as nat),
        decreases all.len() - i,
    {
        proof {
            assert(a[i as int] == all@[i as int]@);
        }
        if !contains_value(gone, &all[i]) {
            let copy = all[i].duplicate();
            proof {
                lemma_views_push(out@, copy);
            }
            out.push(copy);
        }
        i += 1;
    }
    out
}

/// All users' documents of the store.
fn fetch_all(db: &Store) -> (r: Vec<Value>)
    ensures
        views(r@) == all_documents(db@),
{
    let keys = get_all_keys(db);
    fetch_documents(db, &keys)
}

/// A copy of a list of documents.
fn copy_values(values: &Vec<Value>) -> (r: Vec<Value>)
    ensures
        views(r@) == views(values@),
{
    let mut out: Vec<Value> = Vec::new();
    let mut i: usize = 0;
    while i < values.len()
        invariant
            i <= values.len(),
            out@.len() == i,
            forall|j: int| 0 <= j < i ==> out@[j]@ == values@[j]@,
        decreases values.len() - i,
    {
        out.push(values[i].duplicate());
        i += 1;
    }
    proof {
        assert(views(out@) =~= views(values@));
    }
    out
}

/// The error that stands for a fault.
pub open spec fn is_fault(e: DbError, fault: Fault) -> bool {
    match fault {
        Fault::NotScalar => e is Serde,
        Fault::NoGeoResult => e is AstQueryError,
    }
}

/// The answer of an ordered leaf.
fn run_ordered(
    db: &Store,
    path: &[u8],
    op: Operator,
    value: &Value,
    kind: &DataType,
    cursor: usize,
) -> (r: Result<(Vec<Value>, usize), DbError>)
    requires
        crate::query::is_ordered(op),
    ensures
        match ordered_answer(db@, path@, op, value@, cursor as nat) {
            Ok((docs, next)) => r is Ok && views(r->Ok_0.0@) == docs && r->Ok_0.1 == next,
            Err(fault) => r is Err && is_fault(r->Err_0, fault),
        },
{
    match fetch_keys_sorted_index(db, path, op, value, kind) {
        Ok(keys) => Ok((fetch_documents(db, &keys), cursor)),
        Err(e) => Err(e),
    }
}

/// The answer of a query tree over the store, and the cursor behind it.
pub fn execute_node(
    db: &Store,
    node: &QueryNode,
    config: &DbConfig,
    geo: &Vec<Vec<Value>>,
    cursor: usize,
) -> (r: Result<(Vec<Value>, usize), DbError>)
    ensures
        match answer(db@, *node, config@, geo_views(geo@), cursor as nat) {
            Ok((docs, next)) => r is Ok && views(r->Ok_0.0@) == docs && r->Ok_0.1 == next,
            Err(fault) => r is Err && is_fault(r->Err_0, fault),
        },
    decreases node,
{
    match node {
        QueryNode::Eq(field, value, _) => {
            let keys = fetch_keys_hash_index(db, field.as_slice(), value);
            let candidates = if keys.len() == 0 && config.is_hash_indexed(field.as_slice()) {
                fetch_all(db)
            } else {
                fetch_documents(db, &keys)
            };
            Ok(
                (
                    filter_matching(candidates, field.as_slice(), Operator::Eq, value),
                    cursor,
                ),
            )
        },
        QueryNode::Includes(field, value, _) => {
            let keys = fetch_keys_hash_index(db, field.as_slice(), value);
            let docs = fetch_documents(db, &keys);
            Ok((filter_matching(docs, field.as_slice(), Operator::Includes, value), cursor))
        },
        QueryNode::Gt(field, value, kind) => run_ordered(
            db,
            field.as_slice(),
            Operator::Gt,
            value,
            kind,
            cursor,
        ),
        QueryNode::Lt(field, value, kind) => run_ordered(
            db,
            field.as_slice(),
            Operator::Lt,
            value,
            kind,
            cursor,
        ),
        QueryNode::Gte(field, value, kind) => run_ordered(
            db,
            field.as_slice(),
            Operator::Gte,
            value,
            kind,
            cursor,
        ),
        QueryNode::Lte(field, value, kind) => run_ordered(
            db,
            field.as_slice(),
            Operator::Lte,
            value,
            kind,
            cursor,
        ),
        QueryNode::Ne(field, value, kind) => run_ordered(
            db,
            field.as_slice(),
            Operator::Ne,
            value,
            kind,
            cursor,
        ),
        QueryNode::And(left, right) => {
            let (a, middle) = match execute_node(db, left, config, geo, cursor) {
                Ok(found) => found,
                Err(e) => {
                    return Err(e);
                },
            };
            let (b, next) = match execute_node(db, right, config, geo, middle) {
                Ok(found) => found,
                Err(e) => {
                    return Err(e);
                },
            };
            Ok((intersect(&a, &b), next))
        },
        QueryNode::Or(left, right) => {
            let (a, middle) = match execute_node(db, left, config, geo, cursor) {
                Ok(found) => found,
                Err(e) => {
                    return Err(e);
                },
            };
            let (b, next) = match execute_node(db, right, config, geo, middle) {
                Ok(found) => found,
                Err(e) => {
                    return Err(e);
                },
            };
            Ok((unite(&a, &b), next))
        },
        QueryNode::Not(child) => {
            let (gone, next) = match execute_node(db, child, config, geo, cursor) {
                Ok(found) => found,
                Err(e) => {
                    return Err(e);
                },
            };
            let all = fetch_all(db);
            Ok((subtract(&all, &gone), next))
        },
        QueryNode::GeoWithinRadius { .. } => {
            if cursor < geo.len() {
                Ok((copy_values(&geo[cursor]), cursor + 1))
            } else {
                Err(DbError::AstQueryError("a geospatial leaf has no result".to_owned()))
            }
        },
        QueryNode::GeoInBox { .. } => {
            if cursor < geo.len() {
                Ok((copy_values(&geo[cursor]), cursor + 1))
            } else {
                Err(DbError::AstQueryError("a geospatial leaf has no result".to_owned()))
            }
        },
    }
}

/// The page of `results` that begins at `offset` and holds at most `limit`
/// documents.
pub fn paginate(results: &Vec<Value>, offset: Option<usize>, limit: Option<usize>) -> (r: Vec<
    Value,
>)
    ensures
        views(r@) == page(views(results@), offset, limit),
{
    let start = match offset {
        Some(o) => o,
        None => 0,
    };
    let mut out: Vec<Value> = Vec::new();
    if start >= results.len() {
        proof {
            assert(views(out@) =~= Seq::<Json>::empty());
        }
        return out;
    }
    let count = match limit {
        Some(l) => l,
        None => results.len() - start,
    };
    let end = if count < results.len() - start {
        start + count
    } else {
        results.len()
    };
    let mut i: usize = start;
    while i < end
        invariant
            start <= i <= end <= results.len(),
            out@.len() == i - start,
            forall|j: int| 0 <= j < i - start ==> out@[j]@ == results@[start + j]@,
        decreases end - i,
    {
        out.push(results[i].duplicate());
        i += 1;
    }
    proof {
        assert(views(out@) =~= views(results@).subrange(start as int, end as int));
    }
    out
}

/// What a query gives: the answer of its tree, then the page, then the
/// projection where one is asked for.
pub open spec fn query_result(
    entries: Seq<(Seq<u8>, Option<Json>)>,
    node: QueryNode,
    paths: Option<Seq<Seq<u8>>>,
    limit: Option<usize>,
    offset: Option<usize>,
    config: ConfigView,
    geo: Seq<Seq<Json>>,
) -> Result<Option<Seq<Json>>, Fault> {
    match answer(entries, node, config, geo, 0) {
        Err(fault) => Err(fault),
        Ok((docs, _)) => match paths {
            None => Ok(Some(page(docs, offset, limit))),
            Some(p) => Ok(projection(page(docs, offset, limit), p)),
        },
    }
}

/// The paths of a projection, if one is asked for.
pub open spec fn projection_paths(projection: Option<Vec<Vec<u8>>>) -> Option<Seq<Seq<u8>>> {
    match projection {
        Some(p) => Some(byte_strings(p@)),
        None => None,
    }
}

/// Runs a query: filter, then offset, then limit, then projection. The
/// documents come in the order in which the store holds their entries; no
/// other order is imposed. `geo_results` holds the result of each geospatial
/// leaf of the tree, in the order of the leaves. A leaf that compares with a
/// value that is no scalar is refused with `Serde`, a geospatial leaf without
/// a result with `AstQueryError`, a projection that cannot be made with
/// `InvalidPath`.
pub fn execute_ast_query(
    db: &Store,
    query_node: QueryNode,
    projection: Option<Vec<Vec<u8>>>,
    limit: Option<usize>,
    offset: Option<usize>,
    config: &DbConfig,
    geo_results: &Vec<Vec<Value>>,
) -> (r: Result<Vec<Value>, DbError>)
    ensures
        match query_result(
            db@,
            query_node,
            projection_paths(projection),
            limit,
            offset,
            config@,
            geo_views(geo_results@),
        ) {
            Ok(Some(docs)) => r is Ok && views(r->Ok_0@) == docs,
            Ok(None) => r matches Err(DbError::InvalidPath(_)),
            Err(fault) => r is Err && is_fault(r->Err_0, fault),
        },
{
    let (results, _) = match execute_node(db, &query_node, config, geo_results, 0) {
        Ok(found) => found,
        Err(e) => {
            return Err(e);
        },
    };
    let paged = paginate(&results, offset, limit);
    match projection {
        Some(paths) => apply_projection(paged, &paths),
        None => Ok(paged),
    }
}

/// The path of the first equality leaf of a tree, going through
/// conjunctions, disjunctions and negations from left to right.
pub open spec fn eq_field(node: QueryNode) -> Option<Seq<u8>>
    decreases node,
{
    match node {
        QueryNode::Eq(field, _, _) => Some(field@),
        QueryNode::And(left, right) => match eq_field(*left) {
            Some(f) => Some(f),
            None => eq_field(*right),
        },
        QueryNode::Or(left, right) => match eq_field(*left) {
            Some(f) => Some(f),
            None => eq_field(*right),
        },
        QueryNode::Not(child) => eq_field(*child),
        _ => None,
    }
}

/// The path of the first equality leaf of a tree: the path that a query
/// would have the equality index for.
pub fn extract_eq_field(query_node: &QueryNode) -> (r: Option<Vec<u8>>)
    ensures
        match r {
            Some(field) => eq_field(*query_node) == Some(field@),
            None => eq_field(*query_node) is None,
        },
    decreases query_node,
{
    match query_node {
        QueryNode::Eq(field, _, _) => Some(copy_bytes(field.as_slice())),
        QueryNode::And(left, right) => match extract_eq_field(left) {
            Some(f) => Some(f),
            None => extract_eq_field(right),
        },
        QueryNode::Or(left, right) => match extract_eq_field(left) {
            Some(f) => Some(f),
            None => extract_eq_field(right),
        },
        QueryNode::Not(child) => extract_eq_field(child),
        _ => None,
    }
}

/// What a geospatial leaf asks: for the points within a radius of a center,
/// or for the points in a box. Coordinates are in degrees and the radius in
/// meters, each as the bits of a double.
#[derive(Clone, Copy, Debug, PartialEq, Eq)]
pub enum GeoShape {
    Radius { lat: u64, lon: u64, radius: u64 },
    InBox { min_lat: u64, min_lon: u64, max_lat: u64, max_lon: u64 },
}

/// A geospatial leaf of a query: the path of the points, and what is asked of
/// them.
#[derive(Clone, Debug, PartialEq, Eq)]
pub struct GeoLeaf {
    pub field: Vec<u8>,
    pub shape: GeoShape,
}

/// The views of a sequence of geospatial leaves, one for one.
pub open spec fn leaf_views(leaves: Seq<GeoLeaf>) -> Seq<(Seq<u8>, GeoShape)> {
    Seq::new(leaves.len(), |i: int| (leaves[i].field@, leaves[i].shape))
}

/// The geospatial leaves of a tree, in the order in which the answer of the
/// tree takes their results: from left to right.
pub open spec fn leaves_of(node: QueryNode) -> Seq<(Seq<u8>, GeoShape)>
    decreases node,
{
    match node {
        QueryNode::And(left, right) => leaves_of(*left) + leaves_of(*right),
        QueryNode::Or(left, right) => leaves_of(*left) + leaves_of(*right),
        QueryNode::Not(child) => leaves_of(*child),
        QueryNode::GeoWithinRadius { field, lat, lon, radius } => seq![
            (field@, GeoShape::Radius { lat, lon, radius }),
        ],
        QueryNode::GeoInBox { field, min_lat, min_lon, max_lat, max_lon } => seq![
            (field@, GeoShape::InBox { min_lat, min_lon, max_lat, max_lon }),
        ],
        _ => Seq::empty(),
    }
}

/// Appends the geospatial leaves of a tree.
fn collect_leaves(node: &QueryNode, out: &mut Vec<GeoLeaf>)
    ensures
        leaf_views(final(out)@) == leaf_views(old(out)@) + leaves_of(*node),
    decreases node,
{
    let ghost before = leaf_views(out@);
    match node {
        QueryNode::And(left, right) => {
            collect_leaves(left, out);
            collect_leaves(right, out);
            proof {
                assert(leaf_views(out@) =~= before + (leaves_of(**left) + leaves_of(**right)));
            }
        },
        QueryNode::Or(left, right) => {
            collect_leaves(left, out);
            collect_leaves(right, out);
            proof {
                assert(leaf_views(out@) =~= before + (leaves_of(**left) + leaves_of(**right)));
            }
        },
        QueryNode::Not(child) => {
            collect_leaves(child, out);
        },
        QueryNode::GeoWithinRadius { field, lat, lon, radius } => {
            out.push(
                GeoLeaf {
                    field: copy_bytes(field.as_slice()),
                    shape: GeoShape::Radius { lat: *lat, lon: *lon, radius: *radius },
                },
            );
            proof {
                assert(leaf_views(out@) =~= before + leaves_of(*node));
            }
        },
        QueryNode::GeoInBox { field, min_lat, min_lon, max_lat, max_lon } => {
            out.push(
                GeoLeaf {
                    field: copy_bytes(field.as_slice()),
                    shape: GeoShape::InBox {
                        min_lat: *min_lat,
                        min_lon: *min_lon,
                        max_lat: *max_lat,
                        max_lon: *max_lon,
                    },
                },
            );
            proof {
                assert(leaf_views(out@) =~= before + leaves_of(*node));
            }
        },
        _ => {
            proof {
                assert(leaf_views(out@) =~= before + leaves_of(*node));
            }
        },
    }
}

/// The geospatial leaves of a tree, in the order in which `execute_ast_query`
/// takes their results.
pub fn geo_leaves(node: &QueryNode) -> (r: Vec<GeoLeaf>)
    ensures
        leaf_views(r@) == leaves_of(*node),
{
    let mut out: Vec<GeoLeaf> = Vec::new();
    collect_leaves(node, &mut out);
    proof {
        assert(leaf_views(out@) =~= leaves_of(*node));
    }
    out
}

/// A query takes one result for each of its geospatial leaves. Where the
/// results handed in are as many as the leaves that are left, the tree has an
/// answer unless a leaf compares with what is no scalar, and the cursor
/// behind the answer is behind the last of them.
pub proof fn law_answer_takes_a_result_for_each_leaf(
    entries: Seq<(Seq<u8>, Option<Json>)>,
    node: QueryNode,
    config: ConfigView,
    geo: Seq<Seq<Json>>,
    cursor: nat,
)
    requires
        cursor + leaves_of(node).len() <= geo.len(),
    ensures
        match answer(entries, node, config, geo, cursor) {
            Ok((_, next)) => next == cursor + leaves_of(node).len(),
            Err(fault) => fault is NotScalar,
        },
    decreases node,
{
    match node {
        QueryNode::And(left, right) => {
            law_answer_takes_a_result_for_each_leaf(entries, *left, config, geo, cursor);
            let first = answer(entries, *left, config, geo, cursor);
            if first is Ok {
                law_answer_takes_a_result_for_each_leaf(
                    entries,
                    *right,
                    config,
                    geo,
                    cursor_after(first, cursor),
                );
            }
        },
        QueryNode::Or(left, right) => {
            law_answer_takes_a_result_for_each_leaf(entries, *left, config, geo, cursor);
            let first = answer(entries, *left, config, geo, cursor);
            if first is Ok {
                law_answer_takes_a_result_for_each_leaf(
                    entries,
                    *right,
                    config,
                    geo,
                    cursor_after(first, cursor),
                );
            }
        },
        QueryNode::Not(child) => {
            law_answer_takes_a_result_for_each_leaf(entries, *child, config, geo, cursor);
        },
        _ => {},
    }
}

} // verus!
