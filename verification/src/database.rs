//! A database in one value: the store, the indexing configuration and the
//! cells of the points that were registered, behind the operations of the
//! whole library.
use crate::bulk::{export_data, exported, import_data, imported, ImportFault};

use crate::config::{insert_path, ConfigView, DbConfig};
use crate::error::DbError;
use crate::executor::{
    eq_field, execute_ast_query, extract_eq_field, geo_views, projection_paths, query_result,
};
use crate::index::{
    delete_changes, delete_fault, write_changes, write_fault, GeoCell, WriteFault,
};
use crate::ops::{
    batch_set, clear_prefix, delete_key, delete_operations, drop_database, execute_transaction,
    get_key, operations, set_operations, transacted, user_keys, BatchSetItem, Outcome,
    TransactionOperation,
};
use crate::projection::{get_partial_key, projection};
use crate::query::QueryNode;
use crate::report::{map_logic_error, message_of, status_of, WasmDbError};
use crate::store::{applied, prefixed_keys, stored, Store};
use crate::value::{byte_strings, views, Json, Value};
use vstd::prelude::*;

verus! {

/// A database.
pub struct Database {
    db: Store,
    db_config: DbConfig,
    cells: Vec<GeoCell>,
}

/// What a failed call reports: the error of the database, as a front end
/// hands it out.
pub open spec fn reports<T>(r: Result<T, WasmDbError>, e: DbError) -> bool {
    r is Err && r->Err_0.message_text() == message_of(e) && r->Err_0.status() == Some(
        status_of(e),
    )
}

/// The status of a refused write: 500 where a point has no cell, 400 where
/// the request is at fault.
pub open spec fn fault_status(fault: WriteFault) -> u16 {
    match fault {
        WriteFault::NoCell => 500,
        _ => 400,
    }
}

/// Whether a failed call reports an error of the given status.
pub open spec fn fails_with<T>(r: Result<T, WasmDbError>, status: u16) -> bool {
    r is Err && r->Err_0.status() == Some(status)
}

/// The result as a front end hands it out.
fn hand_out<T>(r: Result<T, DbError>) -> (out: Result<T, WasmDbError>)
    ensures
        match r {
            Ok(v) => out == Ok::<T, WasmDbError>(v),
            Err(e) => reports(out, e),
        },
{
    match r {
        Ok(v) => Ok(v),
        Err(e) => Err(map_logic_error(e)),
    }
}

impl Database {
    /// Whether the database is well formed.
    pub closed spec fn wf(&self) -> bool {
        self.db.wf()
    }

    /// The entries of the store.
    pub closed spec fn entries(&self) -> Seq<(Seq<u8>, Option<Json>)> {
        self.db@
    }

    /// The indexing configuration.
    pub closed spec fn config(&self) -> ConfigView {
        self.db_config@
    }

    /// The cells that were registered.
    pub closed spec fn known_cells(&self) -> Seq<GeoCell> {
        self.cells@
    }

    /// An empty database that indexes nothing.
    pub fn new() -> (r: Database)
        ensures
            r.wf(),
            r.entries() == Seq::<(Seq<u8>, Option<Json>)>::empty(),
            r.config().hash == Set::<Seq<u8>>::empty(),
            r.config().sorted == Set::<Seq<u8>>::empty(),
            r.config().geo == Set::<Seq<u8>>::empty(),
            r.known_cells() == Seq::<GeoCell>::empty(),
    {
        Database { db: Store::new(), db_config: DbConfig::new(), cells: Vec::new() }
    }

    /// Has writes from now on keep entries of the equality index for `path`.
    pub fn index_hash(&mut self, path: &[u8])
        requires
            old(self).wf(),
        ensures
            final(self).wf(),
            final(self).entries() == old(self).entries(),
            final(self).known_cells() == old(self).known_cells(),
            final(self).config().hash == old(self).config().hash.insert(path@),
            final(self).config().sorted == old(self).config().sorted,
            final(self).config().geo == old(self).config().geo,
    {
        let _ = insert_path(&mut self.db_config.hash_indexed_fields, path);
    }

    /// Has writes from now on keep entries of the sorted index for `path`.
    pub fn index_sorted(&mut self, path: &[u8])
        requires
            old(self).wf(),
        ensures
            final(self).wf(),
            final(self).entries() == old(self).entries(),
            final(self).known_cells() == old(self).known_cells(),
            final(self).config().hash == old(self).config().hash,
            final(self).config().sorted == old(self).config().sorted.insert(path@),
            final(self).config().geo == old(self).config().geo,
    {
        let _ = insert_path(&mut self.db_config.sorted_indexed_fields, path);
    }

    /// Has writes from now on keep entries of the geospatial index for `path`.
    pub fn index_geo(&mut self, path: &[u8])
        requires
            old(self).wf(),
        ensures
            final(self).wf(),
            final(self).entries() == old(self).entries(),
            final(self).known_cells() == old(self).known_cells(),
            final(self).config().hash == old(self).config().hash,
            final(self).config().sorted == old(self).config().sorted,
            final(self).config().geo == old(self).config().geo.insert(path@),
    {
        let _ = insert_path(&mut self.db_config.geo_indexed_fields, path);
    }

    /// Registers the cell of a point, behind those registered before.
    pub fn add_cell(&mut self, cell: GeoCell)
        requires
            old(self).wf(),
        ensures
            final(self).wf(),
            final(self).entries() == old(self).entries(),
            final(self).config() == old(self).config(),
            final(self).known_cells() == old(self).known_cells().push(cell),
    {
        self.cells.push(cell);
    }

    /// Writes a document, as `set_key` does.
    pub fn set(&mut self, key: &[u8], value: Value) -> (r: Result<(), WasmDbError>)
        requires
            old(self).wf(),
        ensures
            final(self).wf(),
            final(self).config() == old(self).config(),
            final(self).known_cells() == old(self).known_cells(),
            match write_changes(
                stored(old(self).entries(), key@),
                key@,
                value@,
                old(self).config(),
                old(self).known_cells(),
            ) {
                Some(cs) => r is Ok && final(self).entries() == applied(old(self).entries(), cs),
                None => fails_with(
                    r,
                    fault_status(
                        write_fault(
                            stored(old(self).entries(), key@),
                            key@,
                            value@,
                            old(self).config(),
                            old(self).known_cells(),
                        )->0,
                    ),
                ) && final(self).entries() == old(self).entries(),
            },
    {
        hand_out(crate::ops::set_key(&mut self.db, key, value, &self.db_config, &self.cells))
    }

    /// The document under a key, as `get_key` gives it.
    pub fn get(&self, key: &[u8]) -> (r: Result<Value, WasmDbError>)
        ensures
            match stored(self.entries(), key@) {
                Some(Some(j)) => r is Ok && r->Ok_0@ == j,
                Some(None) => fails_with(r, 400),
                None => fails_with(r, 404),
            },
    {
        hand_out(get_key(&self.db, key))
    }

    /// Parts of the document under a key, as `get_partial_key` gives them.
    pub fn get_partial(&self, key: &[u8], fields: &Vec<Vec<u8>>) -> (r: Result<Value, WasmDbError>)
        ensures
            match stored(self.entries(), key@) {
                None => fails_with(r, 404),
                Some(None) => fails_with(r, 400),
                Some(Some(doc)) => match projection(seq![doc], byte_strings(fields@)) {
                    None => fails_with(r, 400),
                    Some(js) => if js.len() > 0 {
                        r is Ok && r->Ok_0@ == js[0]
                    } else {
                        fails_with(r, 404)
                    },
                },
            },
    {
        hand_out(get_partial_key(&self.db, key, fields))
    }

    /// Removes a document, as `delete_key` does.
    pub fn delete(&mut self, key: &[u8]) -> (r: Result<(), WasmDbError>)
        requires
            old(self).wf(),
        ensures
            final(self).wf(),
            final(self).config() == old(self).config(),
            final(self).known_cells() == old(self).known_cells(),
            match delete_changes(
                stored(old(self).entries(), key@),
                key@,
                old(self).config(),
                old(self).known_cells(),
            ) {
                Some(cs) => r is Ok && final(self).entries() == applied(old(self).entries(), cs),
                None => fails_with(
                    r,
                    fault_status(
                        delete_fault(
                            stored(old(self).entries(), key@),
                            key@,
                            old(self).config(),
                            old(self).known_cells(),
                        )->0,
                    ),
                ) && final(self).entries() == old(self).entries(),
            },
    {
        hand_out(delete_key(&mut self.db, key, &self.db_config, &self.cells))
    }

    /// Writes all items or none, as `batch_set` does.
    pub fn batch_set(&mut self, items: &Vec<BatchSetItem>) -> (r: Result<(), WasmDbError>)
        requires
            old(self).wf(),
        ensures
            final(self).wf(),
            final(self).config() == old(self).config(),
            final(self).known_cells() == old(self).known_cells(),
            match transacted(
                old(self).entries(),
                set_operations(items@),
                old(self).config(),
                old(self).known_cells(),
            ) {
                Outcome::Done(entries) => r is Ok && final(self).entries() == entries,
                Outcome::Failed(_, _) => fails_with(r, 409) && final(self).entries() == old(
                    self,
                ).entries(),
            },
    {
        hand_out(batch_set(&mut self.db, items, &self.db_config, &self.cells))
    }

    /// Makes all operations or none, as `execute_transaction` does.
    pub fn transaction(&mut self, ops: &Vec<TransactionOperation>) -> (r: Result<(), WasmDbError>)
        requires
            old(self).wf(),
        ensures
            final(self).wf(),
            final(self).config() == old(self).config(),
            final(self).known_cells() == old(self).known_cells(),
            match transacted(
                old(self).entries(),
                operations(ops@),
                old(self).config(),
                old(self).known_cells(),
            ) {
                Outcome::Done(entries) => r is Ok && final(self).entries() == entries,
                Outcome::Failed(_, _) => fails_with(r, 409) && final(self).entries() == old(
                    self,
                ).entries(),
            },
    {
        hand_out(execute_transaction(&mut self.db, ops, &self.db_config, &self.cells))
    }

    /// Removes the users' documents under a prefix, as `clear_prefix` does.
    pub fn clear_prefix(&mut self, prefix: &[u8]) -> (r: Result<usize, WasmDbError>)
        requires
            old(self).wf(),
        ensures
            final(self).wf(),
            final(self).config() == old(self).config(),
            final(self).known_cells() == old(self).known_cells(),
            ({
                let keys = user_keys(prefixed_keys(old(self).entries(), prefix@));
                match transacted(
                    old(self).entries(),
                    delete_operations(keys),
                    old(self).config(),
                    old(self).known_cells(),
                ) {
                    Outcome::Done(entries) => r == Ok::<usize, WasmDbError>(keys.len() as usize)
                        && final(self).entries() == entries,
                    Outcome::Failed(_, _) => fails_with(r, 409) && final(self).entries() == old(
                        self,
                    ).entries(),
                }
            }),
    {
        hand_out(clear_prefix(&mut self.db, prefix, &self.db_config, &self.cells))
    }

    /// Removes all users' documents, as `drop_database` does.
    pub fn drop_database(&mut self) -> (r: Result<usize, WasmDbError>)
        requires
            old(self).wf(),
        ensures
            final(self).wf(),
            final(self).config() == old(self).config(),
            final(self).known_cells() == old(self).known_cells(),
            ({
                let keys = user_keys(prefixed_keys(old(self).entries(), Seq::empty()));
                match transacted(
                    old(self).entries(),
                    delete_operations(keys),
                    old(self).config(),
                    old(self).known_cells(),
                ) {
                    Outcome::Done(entries) => r == Ok::<usize, WasmDbError>(keys.len() as usize)
                        && final(self).entries() == entries,
                    Outcome::Failed(_, _) => fails_with(r, 409) && final(self).entries() == old(
                        self,
                    ).entries(),
                }
            }),
    {
        hand_out(drop_database(&mut self.db, &self.db_config, &self.cells))
    }

    /// Runs a query, as `execute_ast_query` does, on the configuration with
    /// the path of the query's first equality leaf put into the equality
    /// index: the path is recorded for writes to come, and no document is
    /// indexed by the read.
    pub fn query_ast(
        &mut self,
        query: QueryNode,
        projection: Option<Vec<Vec<u8>>>,
        limit: Option<usize>,
        offset: Option<usize>,
        geo_results: &Vec<Vec<Value>>,
    ) -> (r: Result<Vec<Value>, WasmDbError>)
        requires
            old(self).wf(),
        ensures
            final(self).wf(),
            final(self).entries() == old(self).entries(),
            final(self).known_cells() == old(self).known_cells(),
            final(self).config().sorted == old(self).config().sorted,
            final(self).config().geo == old(self).config().geo,
            final(self).config().hash == (match eq_field(query) {
                Some(field) => old(self).config().hash.insert(field),
                None => old(self).config().hash,
            }),
            match query_result(
                old(self).entries(),
                query,
                projection_paths(projection),
                limit,
                offset,
                final(self).config(),
                geo_views(geo_results@),
            ) {
                Ok(Some(docs)) => r is Ok && views(r->Ok_0@) == docs,
                Ok(None) => fails_with(r, 400),
                Err(_) => fails_with(r, 400),
            },
    {
        match extract_eq_field(&query) {
            Some(field) => {
                let _ = insert_path(&mut self.db_config.hash_indexed_fields, field.as_slice());
            },
            None => {},
        }
        let snapshot = self.db_config.snapshot();
        hand_out(execute_ast_query(&self.db, query, projection, limit, offset, &snapshot, geo_results))
    }

    /// Dumps all users' documents, as `export_data` does.
    pub fn export_data(&self) -> (r: Result<Value, WasmDbError>)
        ensures
            match exported(self.entries()) {
                Ok(dump) => r is Ok && r->Ok_0@ == dump,
                Err(_) => fails_with(r, 400),
            },
    {
        hand_out(export_data(&self.db))
    }

    /// Loads a dump, as `import_data` does.
    pub fn import_data(&mut self, data: &Value) -> (r: Result<(), WasmDbError>)
        requires
            old(self).wf(),
        ensures
            final(self).wf(),
            final(self).config() == old(self).config(),
            final(self).known_cells() == old(self).known_cells(),
            final(self).entries() == imported(
                old(self).entries(),
                data@,
                old(self).config(),
                old(self).known_cells(),
            ).0,
            match imported(
                old(self).entries(),
                data@,
                old(self).config(),
                old(self).known_cells(),
            ).1 {
                None => r is Ok,
                Some(ImportFault::Write(fault)) => fails_with(r, fault_status(fault)),
                Some(_) => fails_with(r, 400),
            },
    {
        hand_out(import_data(&mut self.db, data, &self.db_config, &self.cells))
    }
}

} // verus!
