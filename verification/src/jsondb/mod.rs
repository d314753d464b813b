//! A JSON document database on top of the engine.
//!
//! Object stores hold documents under a primary key; secondary indexes find
//! documents by the values of their fields.

pub mod value;
pub mod encoding;
pub mod schema;
pub mod encoding_laws;
pub mod key_laws;
pub mod keyrange;
pub mod helpers;
pub mod db;
pub mod documents;
pub mod document_laws;
pub mod apply;
pub mod query;
pub mod cursor;
pub mod transaction;
pub mod transaction_laws;
pub mod index_laws;
pub mod consistency_laws;
pub mod definition_laws;
pub mod index_definition_laws;
pub mod apply_laws;
pub mod sound_laws;
pub mod lookup_laws;
pub mod entry_laws;
pub mod cursor_laws;
pub mod query_laws;
pub mod listing_laws;
pub mod transaction_read_laws;
pub mod match_laws;
pub mod definition_effect_laws;
pub mod path_laws;
pub mod change_laws;
pub mod outcome_laws;
pub mod plan_laws;
pub mod refusal_laws;
pub mod order_laws;
pub mod plain_read_laws;
pub mod schema_laws;

pub use apply::ObjectStore;
pub use cursor::{Cursor, CursorDirection, IndexCursor};
pub use db::JsonDB;
pub use documents::KeyArg;
pub use keyrange::KeyRange;
pub use query::{QueryBuilder, SortDir};
pub use schema::{IndexDef as IndexSchema, StoreDef as StoreSchema};
pub use transaction::{Transaction, TransactionMode};
pub use value::JsonValue;
