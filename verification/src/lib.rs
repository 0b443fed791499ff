//! An embedded document database: tree-shaped documents under byte keys, three
//! families of secondary indices kept in step with every write, and a query
//! executor over them.
//!
//! Documents and the values in them are in `value`, with their numbers in
//! `number`; `access` reads and assigns by path and `canon` states their
//! canonical form. `codec` holds the sort encoding of scalars, `text` their
//! text in keys, `keys` the schema of the index keys. `index` derives the
//! index entries of a document and plans the mutations of a write, `store`
//! holds the entries, and `ops` and `bulk` are the write path and the reads by
//! key. `query`, `conditions`, `executor`, `projection` and `geo` answer
//! queries. `database` puts all of it behind one value, and `report` says how
//! errors are handed out. The modules whose names end in `laws` hold what is
//! proved of all this.
pub mod access;
pub mod access_laws;
pub mod answer_laws;
pub mod bulk;
pub mod bulk_laws;
pub mod bytes;
pub mod canon;
pub mod codec;
pub mod codec_laws;
pub mod conditions;
pub mod config;
pub mod consistency_laws;
pub mod database;
pub mod error;
pub mod executor;
pub mod geo;
pub mod geo_laws;
pub mod index;
pub mod keys;
pub mod number;
pub mod number_laws;
pub mod ops;
pub mod order_laws;
pub mod path;
pub mod points;
pub mod projection;
pub mod projection_laws;
pub mod query;
pub mod query_laws;
pub mod range_laws;
pub mod report;
pub mod sound_laws;
pub mod store;
pub mod store_laws;
pub mod text;
pub mod value;
pub mod walk_laws;
pub mod write_laws;

pub use crate::bulk::{export_data, import_data};
pub use crate::conditions::{query_and, Condition};
pub use crate::config::{add_field_to_index, DbConfig};
pub use crate::database::Database;
pub use crate::error::{DbError, Step};
pub use crate::executor::{execute_ast_query, extract_eq_field, geo_leaves};
pub use crate::geo::{cells_around, query_in_box, query_within_radius_simplified, GeoCandidate};
pub use crate::index::{GeoCell, GeoPoint, Mutation, Payload};
pub use crate::keys::{
    CAS_RETRY_LIMIT, DEFAULT_DB_PATH, DEFAULT_LISTEN_ADDR, FIELD_INDEX_PREFIX,
    FIELD_SORTED_INDEX_PREFIX, GEOHASH_PRECISION, GEO_SORTED_INDEX_PREFIX,
};
pub use crate::number::{Double, Number};
pub use crate::ops::{
    batch_set, clear_prefix, delete_key, drop_database, execute_transaction, get_key,
    plan_steps, set_key, BatchSetItem, TransactionOperation,
};
pub use crate::points::geo_points;
pub use crate::projection::get_partial_key;
pub use crate::query::{DataType, Operator, QueryNode};
pub use crate::report::{map_logic_error, WasmDbError};
pub use crate::store::Store;
pub use crate::value::{Field, Value};
