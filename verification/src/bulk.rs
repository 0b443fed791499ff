//! Whole-database dump and load. A dump is an array of objects, each with the
//! key of a document as the string `key` and the document as `value`.
use crate::access::{json_member, member};
use crate::bytes::copy_bytes;
use crate::codec::is_utf8;
use crate::config::{ConfigView, DbConfig};
use crate::error::DbError;
use crate::index::{is_write_fault, write_changes, write_fault, GeoCell, Payload, WriteFault};
use crate::keys::{is_reserved, key_is_reserved};
use crate::ops::set_key;
use crate::query::lemma_views_push;
use crate::store::{applied, stored, Store};
use crate::value::{
    field_views, lemma_array_view, lemma_object_view, views, Field, Json, Value,
};
use vstd::prelude::*;
use vstd::utf8::valid_utf8;

verus! {

/// The bytes of `key`.
pub open spec fn key_name() -> Seq<u8> {
    seq![107u8, 101, 121]
}

/// The bytes of `value`.
pub open spec fn value_name() -> Seq<u8> {
    seq![118u8, 97, 108, 117, 101]
}

/// The item of a dump for a document and its key.
pub open spec fn export_item(key: Seq<u8>, doc: Json) -> Json {
    Json::Object(seq![(key_name(), Json::String(key)), (value_name(), doc)])
}

/// Why a dump cannot be made.
pub enum ExportFault {
    /// A key of a user's entry is not UTF-8.
    Key,
    /// The payload of a user's entry is no document.
    Payload,
}

/// The dump of the first `n` entries: an item for each entry that lies under
/// no reserved prefix, or the fault of the first such entry that has one.
pub open spec fn exported_first(entries: Seq<(Seq<u8>, Option<Json>)>, n: nat) -> Result<
    Seq<Json>,
    ExportFault,
>
    decreases n,
{
    if n == 0 || n > entries.len() {
        Ok(Seq::empty())
    } else {
        match exported_first(entries, (n - 1) as nat) {
            Err(fault) => Err(fault),
            Ok(rest) => if is_reserved(entries[n - 1].0) {
                Ok(rest)
            } else if !valid_utf8(entries[n - 1].0) {
                Err(ExportFault::Key)
            } else {
                match entries[n - 1].1 {
                    Some(doc) => Ok(rest.push(export_item(entries[n - 1].0, doc))),
                    None => Err(ExportFault::Payload),
                }
            },
        }
    }
}

/// The dump of a store.
pub open spec fn exported(entries: Seq<(Seq<u8>, Option<Json>)>) -> Result<Json, ExportFault> {
    match exported_first(entries, entries.len()) {
        Ok(items) => Ok(Json::Array(items)),
        Err(fault) => Err(fault),
    }
}

/// Once an entry had a fault, the dump has it.
pub proof fn lemma_exported_fault(entries: Seq<(Seq<u8>, Option<Json>)>, m: nat, n: nat)
    requires
        m <= n <= entries.len(),
        exported_first(entries, m) is Err,
    ensures
        exported_first(entries, n) == exported_first(entries, m),
    decreases n,
{
    if m < n {
        lemma_exported_fault(entries, m, (n - 1) as nat);
    }
}

/// Dumps all users' documents, in the order of their entries. Entries under a
/// reserved prefix are passed over. A key that is not UTF-8 is refused with
/// `Utf8Error`, a payload that is no document with `Serde`.
pub fn export_data(db: &Store) -> (r: Result<Value, DbError>)
    ensures
        match exported(db@) {
            Ok(dump) => r is Ok && r->Ok_0@ == dump,
            Err(ExportFault::Key) => r matches Err(DbError::Utf8Error(_)),
            Err(ExportFault::Payload) => r matches Err(DbError::Serde(_)),
        },
{
    let mut items: Vec<Value> = Vec::new();
    proof {
        assert(views(items@) =~= Seq::<Json>::empty());
    }
    let mut i: usize = 0;
    while i < db.len()
        invariant
            i <= db@.len(),
            exported_first(db@, i as nat) == Ok::<Seq<Json>, ExportFault>(views(items@)),
        decreases db@.len() - i,
    {
        let key = db.key_at(i);
        if !key_is_reserved(key.as_slice()) {
            if !is_utf8(key.as_slice()) {
                proof {
                    lemma_exported_fault(db@, (i + 1) as nat, db@.len());
                }
                return Err(DbError::Utf8Error("a key is not UTF-8".to_owned()));
            }
            match db.payload_at(i) {
                Payload::Document(doc) => {
                    let key_field: Vec<u8> = vec![107u8, 101, 121];
                    let value_field: Vec<u8> = vec![118u8, 97, 108, 117, 101];
                    let mut fields: Vec<Field> = Vec::new();
                    fields.push(Field { name: key_field, value: Value::String(copy_bytes(key.as_slice())) });
                    fields.push(Field { name: value_field, value: doc.duplicate() });
                    let item = Value::Object(fields);
                    proof {
                        lemma_object_view(item);
                        assert(key_field@ =~= key_name());
                        assert(value_field@ =~= value_name());
                        assert(field_views(fields@) =~= seq![
                            (key_name(), Json::String(key@)),
                            (value_name(), doc@),
                        ]);
                        lemma_views_push(items@, item);
                    }
                    items.push(item);
                },
                Payload::Empty => {
                    proof {
                        lemma_exported_fault(db@, (i + 1) as nat, db@.len());
                    }
                    return Err(DbError::Serde("a payload is no document".to_owned()));
                },
            }
        }
        i += 1;
    }
    let dump = Value::Array(items);
    proof {
        lemma_array_view(dump);
    }
    Ok(dump)
}

/// Why a dump cannot be loaded.
pub enum ImportFault {
    /// The dump is no array.
    NotArray,
    /// An item has no string `key`.
    BadKey,
    /// An item has no `value`.
    NoValue,
    /// The write of an item is refused.
    Write(WriteFault),
}

/// The key and the document of an item of a dump.
pub open spec fn import_item(item: Json) -> Result<(Seq<u8>, Json), ImportFault> {
    match json_member(item, key_name()) {
        Some(Json::String(key)) => match json_member(item, value_name()) {
            Some(doc) => Ok((key, doc)),
            None => Err(ImportFault::NoValue),
        },
        _ => Err(ImportFault::BadKey),
    }
}

/// The entries after one item of a dump was written, and the fault for which
/// it was not, if so.
#[verifier::opaque]
pub open spec fn import_step(
    entries: Seq<(Seq<u8>, Option<Json>)>,
    item: Json,
    config: ConfigView,
    cells: Seq<GeoCell>,
) -> (Seq<(Seq<u8>, Option<Json>)>, Option<ImportFault>) {
    match import_item(item) {
        Err(fault) => (entries, Some(fault)),
        Ok((key, doc)) => match write_changes(stored(entries, key), key, doc, config, cells) {
            Some(cs) => (applied(entries, cs), None),
            None => (
                entries,
                Some(
                    ImportFault::Write(
                        write_fault(stored(entries, key), key, doc, config, cells)->0,
                    ),
                ),
            ),
        },
    }
}

/// The entries after the first `n` items of a dump were written, one after
/// the other, and the fault at which the load stopped, if it did: what was
/// written before stays written.
pub open spec fn imported_first(
    entries: Seq<(Seq<u8>, Option<Json>)>,
    items: Seq<Json>,
    n: nat,
    config: ConfigView,
    cells: Seq<GeoCell>,
) -> (Seq<(Seq<u8>, Option<Json>)>, Option<ImportFault>)
    decreases n,
{
    if n == 0 || n > items.len() {
        (entries, None)
    } else {
        let before = imported_first(entries, items, (n - 1) as nat, config, cells);
        if before.1 is Some {
            before
        } else {
            import_step(before.0, items[n - 1], config, cells)
        }
    }
}

/// The entries after a dump was loaded, and the fault at which the load
/// stopped, if it did.
pub open spec fn imported(
    entries: Seq<(Seq<u8>, Option<Json>)>,
    data: Json,
    config: ConfigView,
    cells: Seq<GeoCell>,
) -> (Seq<(Seq<u8>, Option<Json>)>, Option<ImportFault>) {
    match data {
        Json::Array(items) => imported_first(entries, items, items.len(), config, cells),
        _ => (entries, Some(ImportFault::NotArray)),
    }
}

/// Once the load has stopped, it stays where it stopped.
pub proof fn lemma_imported_fault(
    entries: Seq<(Seq<u8>, Option<Json>)>,
    items: Seq<Json>,
    m: nat,
    n: nat,
    config: ConfigView,
    cells: Seq<GeoCell>,
)
    requires
        m <= n <= items.len(),
        imported_first(entries, items, m, config, cells).1 is Some,
    ensures
        imported_first(entries, items, n, config, cells) == imported_first(
            entries,
            items,
            m,
            config,
            cells,
        ),
    decreases n,
{
    if m < n {
        lemma_imported_fault(entries, items, m, (n - 1) as nat, config, cells);
    }
}

/// The error that stands for a fault of a load.
pub open spec fn is_import_fault(e: DbError, fault: ImportFault) -> bool {
    match fault {
        ImportFault::NotArray => e is Serde,
        ImportFault::BadKey => e is ImportError,
        ImportFault::NoValue => e is ImportError,
        ImportFault::Write(fault) => is_write_fault(e, fault),
    }
}

/// The key and the document of an item of a dump. An item without a string
/// `key` or without a `value` is refused with `ImportError`.
pub fn read_item<'a>(item: &'a Value) -> (r: Result<(&'a Vec<u8>, &'a Value), DbError>)
    ensures
        match import_item(item@) {
            Ok((key, doc)) => r is Ok && r->Ok_0.0@ == key && r->Ok_0.1@ == doc,
            Err(fault) => r is Err && is_import_fault(r->Err_0, fault) && !(fault is Write),
        },
{
    let key_field: Vec<u8> = vec![107u8, 101, 121];
    let value_field: Vec<u8> = vec![118u8, 97, 108, 117, 101];
    proof {
        assert(key_field@ =~= key_name());
        assert(value_field@ =~= value_name());
    }
    let key = match member(item, key_field.as_slice()) {
        Some(Value::String(key)) => key,
        _ => {
            return Err(DbError::ImportError("Invalid key format".to_owned()));
        },
    };
    match member(item, value_field.as_slice()) {
        Some(doc) => Ok((key, doc)),
        None => Err(DbError::ImportError("Missing value".to_owned())),
    }
}

/// Writes one item of a dump.
fn import_one(db: &mut Store, item: &Value, config: &DbConfig, cells: &Vec<GeoCell>) -> (r:
    Result<(), DbError>)
    requires
        old(db).wf(),
    ensures
        final(db).wf(),
        final(db)@ == import_step(old(db)@, item@, config@, cells@).0,
        match import_step(old(db)@, item@, config@, cells@).1 {
            None => r is Ok,
            Some(fault) => r is Err && is_import_fault(r->Err_0, fault),
        },
{
    reveal(import_step);
    match read_item(item) {
        Ok((key, doc)) => set_key(db, key.as_slice(), doc.duplicate(), config, cells),
        Err(e) => Err(e),
    }
}

/// Loads a dump: each item is written as `set_key` writes, in order. A dump
/// that is no array is refused with `Serde`. The load stops at the first item
/// that has no string `key` or no `value` (`ImportError`) or whose write is
/// refused, with the error of the write; what was written before stays
/// written.
pub fn import_data(db: &mut Store, data: &Value, config: &DbConfig, cells: &Vec<GeoCell>) -> (r:
    Result<(), DbError>)
    requires
        old(db).wf(),
    ensures
        final(db).wf(),
        final(db)@ == imported(old(db)@, data@, config@, cells@).0,
        match imported(old(db)@, data@, config@, cells@).1 {
            None => r is Ok,
            Some(fault) => r is Err && is_import_fault(r->Err_0, fault),
        },
{
    let items = match data {
        Value::Array(items) => items,
        _ => {
            return Err(DbError::Serde("the dump is no array".to_owned()));
        },
    };
    proof {
        lemma_array_view(*data);
    }
    let ghost all = views(items@);
    let mut i: usize = 0;
    while i < items.len()
        invariant
            i <= items.len(),
            db.wf(),
            all == views(items@),
            data@ == Json::Array(all),
            imported_first(old(db)@, all, i as nat, config@, cells@) == (db@, None::<ImportFault>),
        decreases items.len() - i,
    {
        proof {
            assert(all[i as int] == items@[i as int]@);
        }
        match import_one(db, &items[i], config, cells) {
            Ok(()) => {},
            Err(e) => {
                proof {
                    lemma_imported_fault(old(db)@, all, (i + 1) as nat, all.len(), config@, cells@);
                }
                return Err(e);
            },
        }
        i += 1;
    }
    Ok(())
}

} // verus!
