//! The write path and the reads by key: every write takes out the index
//! entries of the document it replaces and puts those of the document it
//! stores, and a transaction makes all of its writes or none.
use crate::bytes::copy_bytes;
use crate::codec::is_utf8;
use crate::config::{ConfigView, DbConfig};
use crate::error::{DbError, Step};
use crate::index::{
    changes, delete_changes, delete_fault, delete_key_internal, is_write_fault, set_key_internal,
    write_changes, write_fault, Change, GeoCell, Mutation, Payload,
};
use crate::keys::{is_reserved, key_is_reserved};
use crate::store::{applied, applied_first, stored, Store};
use crate::value::{byte_strings, Json, Value};
use vstd::prelude::*;
use vstd::utf8::valid_utf8;

verus! {

/// A document to write and the key to write it under.
#[derive(Debug, PartialEq)]
pub struct BatchSetItem {
    pub key: Vec<u8>,
    pub value: Value,
}

/// One step of a transaction.
#[derive(Debug, PartialEq)]
pub enum TransactionOperation {
    Write { key: Vec<u8>, value: Value },
    Delete { key: Vec<u8> },
}

/// What a `TransactionOperation` stands for.
pub enum Operation {
    Write { key: Seq<u8>, value: Json },
    Delete { key: Seq<u8> },
}

impl View for TransactionOperation {
    type V = Operation;

    open spec fn view(&self) -> Operation {
        match self {
            TransactionOperation::Write { key, value } => Operation::Write {
                key: key@,
                value: value@,
            },
            TransactionOperation::Delete { key } => Operation::Delete { key: key@ },
        }
    }
}

/// The views of a sequence of operations, one for one.
pub open spec fn operations(ops: Seq<TransactionOperation>) -> Seq<Operation> {
    Seq::new(ops.len(), |i: int| ops[i]@)
}

/// One write for each item.
pub open spec fn set_operations(items: Seq<BatchSetItem>) -> Seq<Operation> {
    Seq::new(items.len(), |i: int| Operation::Write { key: items[i].key@, value: items[i].value@ })
}

/// One removal for each key.
pub open spec fn delete_operations(keys: Seq<Seq<u8>>) -> Seq<Operation> {
    Seq::new(keys.len(), |i: int| Operation::Delete { key: keys[i] })
}

/// The key that an operation is about.
pub open spec fn operation_key(op: Operation) -> Seq<u8> {
    match op {
        Operation::Write { key, .. } => key,
        Operation::Delete { key } => key,
    }
}

/// The changes that an operation makes to `entries`, or `None` where a point
/// that it touches has no cell among `cells`.
pub open spec fn operation_changes(
    entries: Seq<(Seq<u8>, Option<Json>)>,
    op: Operation,
    config: ConfigView,
    cells: Seq<GeoCell>,
) -> Option<Seq<Change>> {
    match op {
        Operation::Write { key, value } => write_changes(
            stored(entries, key),
            key,
            value,
            config,
            cells,
        ),
        Operation::Delete { key } => delete_changes(stored(entries, key), key, config, cells),
    }
}

/// How a transaction ends: with the entries after all of its operations, or at
/// the first operation that fails, named by its key and by whether it is a
/// write.
pub enum Outcome {
    Done(Seq<(Seq<u8>, Option<Json>)>),
    Failed(Seq<u8>, bool),
}

/// The kind of a failed step: the kind that all steps of the run have, or,
/// in a transaction of writes and removals, the kind of the operation.
pub open spec fn step_of(label: Option<Step>, write: bool) -> Step {
    match label {
        Some(step) => step,
        None => if write {
            Step::Write
        } else {
            Step::Delete
        },
    }
}

/// How the first `n` operations end, each working on what the ones before
/// have left.
pub open spec fn transacted_first(
    entries: Seq<(Seq<u8>, Option<Json>)>,
    ops: Seq<Operation>,
    n: nat,
    config: ConfigView,
    cells: Seq<GeoCell>,
) -> Outcome
    decreases n,
{
    if n == 0 || n > ops.len() {
        Outcome::Done(entries)
    } else {
        match transacted_first(entries, ops, (n - 1) as nat, config, cells) {
            Outcome::Failed(key, write) => Outcome::Failed(key, write),
            Outcome::Done(so_far) => match operation_changes(so_far, ops[n - 1], config, cells) {
                Some(cs) => Outcome::Done(applied(so_far, cs)),
                None => Outcome::Failed(operation_key(ops[n - 1]), ops[n - 1] is Write),
            },
        }
    }
}

/// How a transaction of `ops` ends.
pub open spec fn transacted(
    entries: Seq<(Seq<u8>, Option<Json>)>,
    ops: Seq<Operation>,
    config: ConfigView,
    cells: Seq<GeoCell>,
) -> Outcome {
    transacted_first(entries, ops, ops.len(), config, cells)
}

/// Once an operation has failed, the transaction has.
pub proof fn lemma_transacted_failed(
    entries: Seq<(Seq<u8>, Option<Json>)>,
    ops: Seq<Operation>,
    m: nat,
    n: nat,
    config: ConfigView,
    cells: Seq<GeoCell>,
)
    requires
        m <= n <= ops.len(),
        transacted_first(entries, ops, m, config, cells) is Failed,
    ensures
        transacted_first(entries, ops, n, config, cells) == transacted_first(
            entries,
            ops,
            m,
            config,
            cells,
        ),
    decreases n,
{
    if m < n {
        lemma_transacted_failed(entries, ops, m, (n - 1) as nat, config, cells);
    }
}

/// Writes `value` under `key`: the index entries of the document stored there
/// so far go, the document is stored, its index entries come. A write that
/// is refused changes nothing: a key under a reserved prefix is no primary
/// key (`MissingData`); what is stored must be a document, and every scalar
/// under a sorted-indexed path of either document must have a sort encoding
/// (`Serde`); every point of either document must have a cell among `cells`
/// (`Geohash`).
pub fn set_key(
    db: &mut Store,
    key: &[u8],
    value: Value,
    config: &DbConfig,
    cells: &Vec<GeoCell>,
) -> (r: Result<(), DbError>)
    requires
        old(db).wf(),
    ensures
        final(db).wf(),
        match write_changes(stored(old(db)@, key@), key@, value@, config@, cells@) {
            Some(cs) => r is Ok && final(db)@ == applied(old(db)@, cs),
            None => r is Err && is_write_fault(
                r->Err_0,
                write_fault(stored(old(db)@, key@), key@, value@, config@, cells@)->0,
            ) && final(db)@ == old(db)@,
        },
{
    let planned = set_key_internal(db.get(key), key, &value, config, cells);
    match planned {
        Ok(mutations) => {
            db.apply(mutations);
            Ok(())
        },
        Err(e) => Err(e),
    }
}

/// Removes `key`: the index entries of the document stored there go, and the
/// entry itself. Where nothing is stored there, nothing changes. A removal
/// that is refused changes nothing: a key under a reserved prefix is no
/// primary key (`MissingData`); what is stored must be a document whose
/// scalars under sorted-indexed paths have sort encodings (`Serde`) and whose
/// points have cells among `cells` (`Geohash`).
pub fn delete_key(db: &mut Store, key: &[u8], config: &DbConfig, cells: &Vec<GeoCell>) -> (r:
    Result<(), DbError>)
    requires
        old(db).wf(),
    ensures
        final(db).wf(),
        match delete_changes(stored(old(db)@, key@), key@, config@, cells@) {
            Some(cs) => r is Ok && final(db)@ == applied(old(db)@, cs),
            None => r is Err && is_write_fault(
                r->Err_0,
                delete_fault(stored(old(db)@, key@), key@, config@, cells@)->0,
            ) && final(db)@ == old(db)@,
        },
{
    let planned = delete_key_internal(db.get(key), key, config, cells);
    match planned {
        Ok(mutations) => {
            db.apply(mutations);
            Ok(())
        },
        Err(e) => Err(e),
    }
}

/// Makes the operations in order, each seeing what the ones before have
/// written, and all of them or none: where one fails, the error is
/// `TransactionOperationFailed` with the kind and the key of that operation,
/// and nothing changes.
pub fn execute_transaction(
    db: &mut Store,
    operations: &Vec<TransactionOperation>,
    config: &DbConfig,
    cells: &Vec<GeoCell>,
) -> (r: Result<(), DbError>)
    requires
        old(db).wf(),
    ensures
        final(db).wf(),
        match transacted(old(db)@, self::operations(operations@), config@, cells@) {
            Outcome::Done(entries) => r is Ok && final(db)@ == entries,
            Outcome::Failed(key, write) => r matches Err(
                DbError::TransactionOperationFailed(step, k, _),
            ) && step == step_of(None, write) && k@ == key && final(db)@ == old(db)@,
        },
{
    run_steps(db, operations, config, cells, None)
}

/// Makes the operations in order, all of them or none, and names a failed
/// one by `label`, or by its own kind where there is no label.
fn run_steps(
    db: &mut Store,
    operations: &Vec<TransactionOperation>,
    config: &DbConfig,
    cells: &Vec<GeoCell>,
    label: Option<Step>,
) -> (r: Result<(), DbError>)
    requires
        old(db).wf(),
    ensures
        final(db).wf(),
        match transacted(old(db)@, self::operations(operations@), config@, cells@) {
            Outcome::Done(entries) => r is Ok && final(db)@ == entries,
            Outcome::Failed(key, write) => r matches Err(
                DbError::TransactionOperationFailed(step, k, _),
            ) && step == step_of(label, write) && k@ == key && final(db)@ == old(db)@,
        },
{
    match plan_steps(db, operations, config, cells, label) {
        Ok(_) => Ok(()),
        Err(e) => Err(e),
    }
}

/// The entries after changes made one after the other are those after the
/// first of them and then the rest.
pub proof fn lemma_applied_in_turn(
    entries: Seq<(Seq<u8>, Option<Json>)>,
    first: Seq<Change>,
    rest: Seq<Change>,
    n: nat,
)
    requires
        n <= rest.len(),
    ensures
        applied_first(entries, first + rest, first.len() + n) == applied_first(
            applied(entries, first),
            rest,
            n,
        ),
    decreases n,
{
    if n == 0 {
        lemma_applied_prefix(entries, first, rest, first.len());
    } else {
        lemma_applied_in_turn(entries, first, rest, (n - 1) as nat);
        assert((first + rest)[first.len() + n - 1] == rest[n - 1]);
    }
}

/// The entries after the first changes do not depend on what follows them.
pub proof fn lemma_applied_prefix(
    entries: Seq<(Seq<u8>, Option<Json>)>,
    first: Seq<Change>,
    rest: Seq<Change>,
    n: nat,
)
    requires
        n <= first.len(),
    ensures
        applied_first(entries, first + rest, n) == applied_first(entries, first, n),
    decreases n,
{
    if n > 0 {
        lemma_applied_prefix(entries, first, rest, (n - 1) as nat);
        assert((first + rest)[n - 1] == first[n - 1]);
    }
}

/// A copy of the mutations.
fn copy_mutations(mutations: &Vec<Mutation>) -> (r: Vec<Mutation>)
    ensures
        changes(r@) == changes(mutations@),
{
    let mut out: Vec<Mutation> = Vec::new();
    let mut i: usize = 0;
    while i < mutations.len()
        invariant
            i <= mutations.len(),
            out@.len() == i,
            forall|j: int| 0 <= j < i ==> out@[j]@ == mutations@[j]@,
        decreases mutations.len() - i,
    {
        let copy = match &mutations[i] {
            Mutation::Put { key, payload } => Mutation::Put {
                key: copy_bytes(key.as_slice()),
                payload: match payload {
                    Payload::Document(v) => Payload::Document(v.duplicate()),
                    Payload::Empty => Payload::Empty,
                },
            },
            Mutation::Remove { key } => Mutation::Remove { key: copy_bytes(key.as_slice()) },
        };
        out.push(copy);
        i += 1;
    }
    proof {
        assert(changes(out@) =~= changes(mutations@));
    }
    out
}

/// Plans and makes the operations in order, each seeing what the ones before
/// have written, and all of them or none, and gives the changes that were
/// made, in their order: made one after the other in the store as it was,
/// they give the store as it is. Where an operation fails, the error is
/// `TransactionOperationFailed` with the key of the operation and its kind,
/// which is `label` or, where there is no label, the operation's own, and
/// nothing changes.
pub fn plan_steps(
    db: &mut Store,
    operations: &Vec<TransactionOperation>,
    config: &DbConfig,
    cells: &Vec<GeoCell>,
    label: Option<Step>,
) -> (r: Result<Vec<Mutation>, DbError>)
    requires
        old(db).wf(),
    ensures
        final(db).wf(),
        match transacted(old(db)@, self::operations(operations@), config@, cells@) {
            Outcome::Done(entries) => r is Ok && final(db)@ == entries && applied(
                old(db)@,
                changes(r->Ok_0@),
            ) == entries,
            Outcome::Failed(key, write) => r matches Err(
                DbError::TransactionOperationFailed(step, k, _),
            ) && step == step_of(label, write) && k@ == key && final(db)@ == old(db)@,
        },
{
    let mut working = db.duplicate();
    let mut made: Vec<Mutation> = Vec::new();
    let ghost ops = self::operations(operations@);
    proof {
        assert(changes(made@) =~= Seq::<Change>::empty());
    }
    let mut i: usize = 0;
    while i < operations.len()
        invariant
            i <= operations.len(),
            working.wf(),
            db.wf(),
            db@ == old(db)@,
            ops == self::operations(operations@),
            transacted_first(old(db)@, ops, i as nat, config@, cells@) == Outcome::Done(working@),
            applied(old(db)@, changes(made@)) == working@,
        decreases operations.len() - i,
    {
        let planned = match &operations[i] {
            TransactionOperation::Write { key, value } => set_key_internal(
                working.get(key.as_slice()),
                key.as_slice(),
                value,
                config,
                cells,
            ),
            TransactionOperation::Delete { key } => delete_key_internal(
                working.get(key.as_slice()),
                key.as_slice(),
                config,
                cells,
            ),
        };
        match planned {
            Ok(mutations) => {
                let mut kept = mutations;
                let copy = copy_mutations(&kept);
                proof {
                    lemma_applied_in_turn(
                        old(db)@,
                        changes(made@),
                        changes(kept@),
                        changes(kept@).len(),
                    );
                    assert(changes(made@ + kept@) =~= changes(made@) + changes(kept@));
                }
                working.apply(copy);
                made.append(&mut kept);
            },
            Err(e) => {
                let key = match &operations[i] {
                    TransactionOperation::Write { key, .. } => copy_bytes(key.as_slice()),
                    TransactionOperation::Delete { key } => copy_bytes(key.as_slice()),
                };
                let step = match label {
                    Some(step) => step,
                    None => match &operations[i] {
                        TransactionOperation::Write { .. } => Step::Write,
                        TransactionOperation::Delete { .. } => Step::Delete,
                    },
                };
                proof {
                    lemma_transacted_failed(
                        old(db)@,
                        ops,
                        (i + 1) as nat,
                        ops.len(),
                        config@,
                        cells@,
                    );
                }
                return Err(DbError::TransactionOperationFailed(step, key, Box::new(e)));
            },
        }
        i += 1;
    }
    *db = working;
    Ok(made)
}

/// Writes all items, in order, or none: where one fails, the error is
/// `TransactionOperationFailed` for a write of a batch, with its key, and
/// nothing changes.
pub fn batch_set(
    db: &mut Store,
    items: &Vec<BatchSetItem>,
    config: &DbConfig,
    cells: &Vec<GeoCell>,
) -> (r: Result<(), DbError>)
    requires
        old(db).wf(),
    ensures
        final(db).wf(),
        match transacted(old(db)@, set_operations(items@), config@, cells@) {
            Outcome::Done(entries) => r is Ok && final(db)@ == entries,
            Outcome::Failed(key, _) => r matches Err(
                DbError::TransactionOperationFailed(step, k, _),
            ) && step == Step::BatchWrite && k@ == key && final(db)@ == old(db)@,
        },
{
    let mut ops: Vec<TransactionOperation> = Vec::new();
    let mut i: usize = 0;
    while i < items.len()
        invariant
            i <= items.len(),
            ops@.len() == i,
            forall|j: int|
                0 <= j < i ==> ops@[j]@ == (Operation::Write {
                    key: items@[j].key@,
                    value: items@[j].value@,
                }),
        decreases items.len() - i,
    {
        ops.push(
            TransactionOperation::Write {
                key: copy_bytes(items[i].key.as_slice()),
                value: items[i].value.duplicate(),
            },
        );
        i += 1;
    }
    proof {
        assert(self::operations(ops@) =~= set_operations(items@));
    }
    run_steps(db, &ops, config, cells, Some(Step::BatchWrite))
}

/// Removes all of `keys`, in order, or none, as steps of the kind `step`.
fn delete_all(
    db: &mut Store,
    keys: &Vec<Vec<u8>>,
    config: &DbConfig,
    cells: &Vec<GeoCell>,
    step: Step,
) -> (r: Result<(), DbError>)
    requires
        old(db).wf(),
    ensures
        final(db).wf(),
        match transacted(old(db)@, delete_operations(byte_strings(keys@)), config@, cells@) {
            Outcome::Done(entries) => r is Ok && final(db)@ == entries,
            Outcome::Failed(key, _) => r matches Err(
                DbError::TransactionOperationFailed(s, k, _),
            ) && s == step && k@ == key && final(db)@ == old(db)@,
        },
{
    let mut ops: Vec<TransactionOperation> = Vec::new();
    let mut i: usize = 0;
    while i < keys.len()
        invariant
            i <= keys.len(),
            ops@.len() == i,
            forall|j: int| 0 <= j < i ==> ops@[j]@ == (Operation::Delete { key: keys@[j]@ }),
        decreases keys.len() - i,
    {
        ops.push(TransactionOperation::Delete { key: copy_bytes(keys[i].as_slice()) });
        i += 1;
    }
    proof {
        assert(self::operations(ops@) =~= delete_operations(byte_strings(keys@)));
    }
    run_steps(db, &ops, config, cells, Some(step))
}

/// The document stored under `key`. The error is `NotFound` where nothing is
/// stored there, and `Serde` where what is stored there is no document.
pub fn get_key(db: &Store, key: &[u8]) -> (r: Result<Value, DbError>)
    ensures
        match stored(db@, key@) {
            Some(Some(j)) => r is Ok && r->Ok_0@ == j,
            Some(None) => r matches Err(DbError::Serde(_)),
            None => r matches Err(DbError::NotFound),
        },
{
    match db.get(key) {
        Some(Payload::Document(v)) => Ok(v.duplicate()),
        Some(Payload::Empty) => Err(DbError::Serde("the payload is no document".to_owned())),
        None => Err(DbError::NotFound),
    }
}

/// Whether a key is the key of a user's document: under no reserved prefix,
/// and UTF-8.
pub open spec fn is_user_key(key: Seq<u8>) -> bool {
    !is_reserved(key) && valid_utf8(key)
}

/// The user keys among the first `n` of `keys`, in their order.
pub open spec fn user_keys_first(keys: Seq<Seq<u8>>, n: nat) -> Seq<Seq<u8>>
    decreases n,
{
    if n == 0 || n > keys.len() {
        Seq::empty()
    } else if is_user_key(keys[n - 1]) {
        user_keys_first(keys, (n - 1) as nat).push(keys[n - 1])
    } else {
        user_keys_first(keys, (n - 1) as nat)
    }
}

/// The user keys among `keys`, in their order.
pub open spec fn user_keys(keys: Seq<Seq<u8>>) -> Seq<Seq<u8>> {
    user_keys_first(keys, keys.len())
}

/// Whether a key is the key of a user's document.
pub fn key_is_user_key(key: &[u8]) -> (r: bool)
    ensures
        r == is_user_key(key@),
{
    !key_is_reserved(key) && is_utf8(key)
}

/// The user keys of the store that begin with `prefix`.
pub fn user_keys_with_prefix(db: &Store, prefix: &[u8]) -> (r: Vec<Vec<u8>>)
    ensures
        byte_strings(r@) == user_keys(crate::store::prefixed_keys(db@, prefix@)),
{
    let found = db.keys_with_prefix(prefix);
    let mut out: Vec<Vec<u8>> = Vec::new();
    let ghost all = byte_strings(found@);
    proof {
        assert(byte_strings(out@) =~= Seq::<Seq<u8>>::empty());
    }
    let mut i: usize = 0;
    while i < found.len()
        invariant
            i <= found.len(),
            all == byte_strings(found@),
            byte_strings(out@) == user_keys_first(all, i as nat),
        decreases found.len() - i,
    {
        if key_is_user_key(found[i].as_slice()) {
            let k = copy_bytes(found[i].as_slice());
            proof {
                crate::index::lemma_byte_strings_push(out@, k);
            }
            out.push(k);
        }
        i += 1;
    }
    out
}

/// The keys of all users' documents.
pub fn get_all_keys(db: &Store) -> (r: Vec<Vec<u8>>)
    ensures
        byte_strings(r@) == user_keys(crate::store::prefixed_keys(db@, Seq::empty())),
{
    let empty: Vec<u8> = Vec::new();
    user_keys_with_prefix(db, empty.as_slice())
}

/// Removes every user's document whose key begins with `prefix`, with its
/// index entries, all of them or none, and says how many there were.
pub fn clear_prefix(db: &mut Store, prefix: &[u8], config: &DbConfig, cells: &Vec<GeoCell>) -> (r:
    Result<usize, DbError>)
    requires
        old(db).wf(),
    ensures
        final(db).wf(),
        ({
            let keys = user_keys(crate::store::prefixed_keys(old(db)@, prefix@));
            match transacted(old(db)@, delete_operations(keys), config@, cells@) {
                Outcome::Done(entries) => r == Ok::<usize, DbError>(keys.len() as usize)
                    && final(db)@ == entries,
                Outcome::Failed(key, _) => r matches Err(
                    DbError::TransactionOperationFailed(step, k, _),
                ) && step == Step::ClearPrefix && k@ == key && final(db)@ == old(db)@,
            }
        }),
{
    clear_as(db, prefix, config, cells, Step::ClearPrefix)
}

/// Removes every user's document whose key begins with `prefix`, as steps of
/// the kind `step`.
fn clear_as(
    db: &mut Store,
    prefix: &[u8],
    config: &DbConfig,
    cells: &Vec<GeoCell>,
    step: Step,
) -> (r: Result<usize, DbError>)
    requires
        old(db).wf(),
    ensures
        final(db).wf(),
        ({
            let keys = user_keys(crate::store::prefixed_keys(old(db)@, prefix@));
            match transacted(old(db)@, delete_operations(keys), config@, cells@) {
                Outcome::Done(entries) => r == Ok::<usize, DbError>(keys.len() as usize)
                    && final(db)@ == entries,
                Outcome::Failed(key, _) => r matches Err(
                    DbError::TransactionOperationFailed(s, k, _),
                ) && s == step && k@ == key && final(db)@ == old(db)@,
            }
        }),
{
    let keys = user_keys_with_prefix(db, prefix);
    let count = keys.len();
    match delete_all(db, &keys, config, cells, step) {
        Ok(()) => Ok(count),
        Err(e) => Err(e),
    }
}

/// Removes every user's document, with its index entries, all of them or
/// none, and says how many there were.
pub fn drop_database(db: &mut Store, config: &DbConfig, cells: &Vec<GeoCell>) -> (r: Result<
    usize,
    DbError,
>)
    requires
        old(db).wf(),
    ensures
        final(db).wf(),
        ({
            let keys = user_keys(crate::store::prefixed_keys(old(db)@, Seq::empty()));
            match transacted(old(db)@, delete_operations(keys), config@, cells@) {
                Outcome::Done(entries) => r == Ok::<usize, DbError>(keys.len() as usize)
                    && final(db)@ == entries,
                Outcome::Failed(key, _) => r matches Err(
                    DbError::TransactionOperationFailed(step, k, _),
                ) && step == Step::DropDatabase && k@ == key && final(db)@ == old(db)@,
            }
        }),
{
    let empty: Vec<u8> = Vec::new();
    clear_as(db, empty.as_slice(), config, cells, Step::DropDatabase)
}

/// Whether a transaction that has met `retries` conflicts so far is tried
/// again: a transaction is retried on a conflict up to `CAS_RETRY_LIMIT`
/// times, and fails with `CasRetryLimit` on the conflict after that.
pub fn admit_attempt(retries: u32) -> (r: Result<(), DbError>)
    ensures
        retries <= crate::keys::CAS_RETRY_LIMIT ==> r is Ok,
        retries > crate::keys::CAS_RETRY_LIMIT ==> r matches Err(DbError::CasRetryLimit(_)),
{
    if retries <= crate::keys::CAS_RETRY_LIMIT {
        Ok(())
    } else {
        Err(DbError::CasRetryLimit("the transaction met too many conflicts".to_owned()))
    }
}

} // verus!
