//! An embeddable, in-process key-value store organized as named tables of
//! named fields, where each field holds an opaque serialized value.
//!
//! The store itself is a verified data structure: table and field lookup,
//! insertion and removal carry contracts over a mathematical map model, and
//! the snapshot encoding comes with a proved parse round trip. Converting
//! typed values to bytes and back is delegated to a self-describing binary
//! format behind a small trusted boundary. The reader/writer lock that
//! coordinates concurrent access belongs to the async embedding around the
//! library, which holds the whole namespace behind one acquisition per
//! operation.

mod assoc;
mod codec;
mod error;
mod laws;
mod snapshot;
mod store;

pub use codec::{convert_into_data_type, rebuild_from_data_type};
pub use laws::{
    lemma_create_table_idempotent, lemma_delete_absent_no_change, lemma_drop_table_cascades,
    lemma_independent_writes_commute, lemma_write_then_read,
};
pub use error::{Error, ErrorKind};
pub use snapshot::{lemma_snapshot_restore, parse_snapshot};
pub use store::{
    spec_create, spec_delete, spec_drop, spec_read, spec_write, Store, StoreModel, Table,
    TableModel,
};
