//! Conjunctive queries over conditions given as text: a path, an operator
//! and the text of a value.
use crate::bytes::{bytes_equal, copy_bytes};
use crate::codec::{parse_value, parsed_value, sort_encoding};
use crate::error::DbError;
use crate::number::Double;
use crate::query::{
    contains_key, equality_hits, fetch_documents, fetch_keys_hash_index,
    fetch_keys_sorted_index, hydrated, is_ordered, sorted_hits, DataType, Operator,
};
use crate::store::Store;
use crate::value::{byte_strings, views, Json, Value};
use vstd::prelude::*;

verus! {

/// One condition of a conjunctive query. `double` is the double that the text
/// of the value writes, for a text that writes one.
#[derive(Clone, Debug, PartialEq)]
pub struct Condition {
    pub field: Vec<u8>,
    pub operator: Vec<u8>,
    pub value: Vec<u8>,
    pub double: Option<Double>,
}

/// Why a conjunctive query has no answer.
pub enum Refusal {
    /// The operator of a condition is none of those offered.
    Unsupported,
    /// The text of a value stands for no value.
    BadValue,
}

/// The comparison that the text of an operator names: `===`, `includes`,
/// `>`, `<`, `>=`, `<=` or `!=`.
pub open spec fn operator_of(text: Seq<u8>) -> Option<Operator> {
    if text == seq![61u8, 61, 61] {
        Some(Operator::Eq)
    } else if text == seq![105u8, 110, 99, 108, 117, 100, 101, 115] {
        Some(Operator::Includes)
    } else if text == seq![62u8] {
        Some(Operator::Gt)
    } else if text == seq![60u8] {
        Some(Operator::Lt)
    } else if text == seq![62u8, 61] {
        Some(Operator::Gte)
    } else if text == seq![60u8, 61] {
        Some(Operator::Lte)
    } else if text == seq![33u8, 61] {
        Some(Operator::Ne)
    } else {
        None
    }
}

/// The primary keys that a condition gives: those of the equality index for
/// `===` and `includes`, those of the sorted index for the other operators.
pub open spec fn condition_keys(entries: Seq<(Seq<u8>, Option<Json>)>, c: Condition) -> Result<
    Seq<Seq<u8>>,
    Refusal,
> {
    match operator_of(c.operator@) {
        None => Err(Refusal::Unsupported),
        Some(op) => match parsed_value(c.value@, c.double) {
            None => Err(Refusal::BadValue),
            Some(value) => if is_ordered(op) {
                Ok(sorted_hits(entries, c.field@, op, value))
            } else {
                Ok(equality_hits(entries, c.field@, value))
            },
        },
    }
}

/// The keys among the first `n` of `keys` that are among `others`.
pub open spec fn kept_first(keys: Seq<Seq<u8>>, others: Seq<Seq<u8>>, n: nat) -> Seq<Seq<u8>>
    decreases n,
{
    if n == 0 || n > keys.len() {
        Seq::empty()
    } else {
        let rest = kept_first(keys, others, (n - 1) as nat);
        if others.contains(keys[n - 1]) {
            rest.push(keys[n - 1])
        } else {
            rest
        }
    }
}

/// The keys that the first `n` conditions have in common: none yet where `n`
/// is 0, a refusal where a condition has no keys to give.
pub open spec fn common_keys_first(
    entries: Seq<(Seq<u8>, Option<Json>)>,
    conditions: Seq<Condition>,
    n: nat,
) -> Result<Option<Seq<Seq<u8>>>, Refusal>
    decreases n,
{
    if n == 0 || n > conditions.len() {
        Ok(None)
    } else {
        match common_keys_first(entries, conditions, (n - 1) as nat) {
            Err(refusal) => Err(refusal),
            Ok(so_far) => match condition_keys(entries, conditions[n - 1]) {
                Err(refusal) => Err(refusal),
                Ok(keys) => Ok(
                    Some(
                        match so_far {
                            None => keys,
                            Some(kept) => kept_first(kept, keys, kept.len()),
                        },
                    ),
                ),
            },
        }
    }
}

/// What a conjunctive query gives: the documents under the keys that all
/// conditions have in common, and none where there is no condition.
pub open spec fn conjunction(entries: Seq<(Seq<u8>, Option<Json>)>, conditions: Seq<Condition>) -> Result<
    Seq<Json>,
    Refusal,
> {
    match common_keys_first(entries, conditions, conditions.len()) {
        Err(refusal) => Err(refusal),
        Ok(None) => Ok(Seq::empty()),
        Ok(Some(keys)) => Ok(hydrated(entries, keys)),
    }
}

/// Once a condition was refused, the query is.
pub proof fn lemma_common_keys_refused(
    entries: Seq<(Seq<u8>, Option<Json>)>,
    conditions: Seq<Condition>,
    m: nat,
    n: nat,
)
    requires
        m <= n <= conditions.len(),
        common_keys_first(entries, conditions, m) is Err,
    ensures
        common_keys_first(entries, conditions, n) == common_keys_first(entries, conditions, m),
    decreases n,
{
    if m < n {
        lemma_common_keys_refused(entries, conditions, m, (n - 1) as nat);
    }
}

/// The comparison that the text of an operator names.
pub fn parse_operator(text: &[u8]) -> (r: Option<Operator>)
    ensures
        r == operator_of(text@),
{
    let eq: Vec<u8> = vec![61u8, 61, 61];
    let includes: Vec<u8> = vec![105u8, 110, 99, 108, 117, 100, 101, 115];
    let gt: Vec<u8> = vec![62u8];
    let lt: Vec<u8> = vec![60u8];
    let gte: Vec<u8> = vec![62u8, 61];
    let lte: Vec<u8> = vec![60u8, 61];
    let ne: Vec<u8> = vec![33u8, 61];
    proof {
        assert(eq@ =~= seq![61u8, 61, 61]);
        assert(includes@ =~= seq![105u8, 110, 99, 108, 117, 100, 101, 115]);
        assert(gt@ =~= seq![62u8]);
        assert(lt@ =~= seq![60u8]);
        assert(gte@ =~= seq![62u8, 61]);
        assert(lte@ =~= seq![60u8, 61]);
        assert(ne@ =~= seq![33u8, 61]);
    }
    if bytes_equal(text, eq.as_slice()) {
        Some(Operator::Eq)
    } else if bytes_equal(text, includes.as_slice()) {
        Some(Operator::Includes)
    } else if bytes_equal(text, gt.as_slice()) {
        Some(Operator::Gt)
    } else if bytes_equal(text, lt.as_slice()) {
        Some(Operator::Lt)
    } else if bytes_equal(text, gte.as_slice()) {
        Some(Operator::Gte)
    } else if bytes_equal(text, lte.as_slice()) {
        Some(Operator::Lte)
    } else if bytes_equal(text, ne.as_slice()) {
        Some(Operator::Ne)
    } else {
        None
    }
}

/// The error that stands for a refusal.
pub open spec fn is_refusal(e: DbError, refusal: Refusal) -> bool {
    match refusal {
        Refusal::Unsupported => e is MissingData,
        Refusal::BadValue => e is InvalidComparisonValue,
    }
}

/// The primary keys that a condition gives.
fn fetch_condition_keys(db: &Store, c: &Condition) -> (r: Result<Vec<Vec<u8>>, DbError>)
    ensures
        match condition_keys(db@, *c) {
            Ok(keys) => r is Ok && byte_strings(r->Ok_0@) == keys,
            Err(refusal) => r is Err && is_refusal(r->Err_0, refusal),
        },
{
    let op = match parse_operator(c.operator.as_slice()) {
        Some(op) => op,
        None => {
            return Err(DbError::MissingData("Unsupported operator".to_owned()));
        },
    };
    let double = match &c.double {
        Some(d) => Some(Double { bits: d.bits, text: copy_bytes(d.text.as_slice()) }),
        None => None,
    };
    proof {
        assert(parsed_value(c.value@, double) == parsed_value(c.value@, c.double));
    }
    let value = match parse_value(c.value.as_slice(), double) {
        Ok(v) => v,
        Err(e) => {
            return Err(e);
        },
    };
    match op {
        Operator::Eq => Ok(fetch_keys_hash_index(db, c.field.as_slice(), &value)),
        Operator::Includes => Ok(fetch_keys_hash_index(db, c.field.as_slice(), &value)),
        _ => {
            match fetch_keys_sorted_index(db, c.field.as_slice(), op, &value, &DataType::Number) {
                Ok(keys) => Ok(keys),
                Err(e) => {
                    proof {
                        assert(sort_encoding(value@) is Some);
                    }
                    Err(e)
                },
            }
        },
    }
}

/// The keys among `keys` that are among `others`.
fn keep_common(keys: &Vec<Vec<u8>>, others: &Vec<Vec<u8>>) -> (r: Vec<Vec<u8>>)
    ensures
        byte_strings(r@) == kept_first(byte_strings(keys@), byte_strings(others@), keys@.len()),
{
    let mut out: Vec<Vec<u8>> = Vec::new();
    let ghost all = byte_strings(keys@);
    proof {
        assert(byte_strings(out@) =~= Seq::<Seq<u8>>::empty());
    }
    let mut i: usize = 0;
    while i < keys.len()
        invariant
            i <= keys.len(),
            all == byte_strings(keys@),
            byte_strings(out@) == kept_first(all, byte_strings(others@), i as nat),
        decreases keys.len() - i,
    {
        if contains_key(others, keys[i].as_slice()) {
            let k = copy_bytes(keys[i].as_slice());
            proof {
                crate::index::lemma_byte_strings_push(out@, k);
            }
            out.push(k);
        }
        i += 1;
    }
    out
}

/// What an optional list of keys stands for.
pub open spec fn optional_keys(keys: Option<Vec<Vec<u8>>>) -> Option<Seq<Seq<u8>>> {
    match keys {
        Some(k) => Some(byte_strings(k@)),
        None => None,
    }
}

/// The documents that satisfy all conditions, as the indices list them: each
/// condition gives the primary keys of the equality index (`===`,
/// `includes`) or of the sorted index (`>`, `<`, `>=`, `<=`, `!=`) for its
/// path and value, and the documents under the keys that all conditions give
/// are the result. Without a condition the result is empty. An operator that
/// is none of these is refused with `MissingData`, a text that stands for no
/// value with `InvalidComparisonValue`.
pub fn query_and(db: &Store, conditions: &Vec<Condition>) -> (r: Result<Vec<Value>, DbError>)
    ensures
        match conjunction(db@, conditions@) {
            Ok(docs) => r is Ok && views(r->Ok_0@) == docs,
            Err(refusal) => r is Err && is_refusal(r->Err_0, refusal),
        },
{
    let mut common: Option<Vec<Vec<u8>>> = None;
    let mut i: usize = 0;
    while i < conditions.len()
        invariant
            i <= conditions.len(),
            common_keys_first(db@, conditions@, i as nat) == Ok::<
                Option<Seq<Seq<u8>>>,
                Refusal,
            >(optional_keys(common)),
        decreases conditions.len() - i,
    {
        let keys = match fetch_condition_keys(db, &conditions[i]) {
            Ok(keys) => keys,
            Err(e) => {
                proof {
                    lemma_common_keys_refused(
                        db@,
                        conditions@,
                        (i + 1) as nat,
                        conditions@.len(),
                    );
                }
                return Err(e);
            },
        };
        common = match common {
            None => Some(keys),
            Some(kept) => Some(keep_common(&kept, &keys)),
        };
        i += 1;
    }
    match common {
        None => {
            let r: Vec<Value> = Vec::new();
            proof {
                assert(views(r@) =~= Seq::<Json>::empty());
            }
            Ok(r)
        },
        Some(keys) => Ok(fetch_documents(db, &keys)),
    }
}

} // verus!
