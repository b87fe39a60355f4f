//! Local-first dirty-tracking and cloud-reconciliation core for an
//! API-request workspace: collections, folders and saved requests are
//! authored offline against a local store and selectively synchronized
//! with a remote store.  The rules verified here govern when a local
//! record counts as out of sync, how remote records merge back without
//! creating duplicates, and how pending push operations are queued.

use vstd::prelude::*;

mod error;
mod ids;
mod kind;
mod strutil;
pub mod collections;
pub mod environments;
pub mod folders;
pub mod history;
pub mod http;
pub mod laws;
pub mod orchestrator;
pub mod requests;
pub mod settings;
pub mod store;
pub mod sync;

verus! {

pub use error::SyncError;
pub use kind::EntityKind;
pub use kind::SyncOperation;
pub use kind::parse_table_name;
pub use kind::table_name;
pub use kind::parse_operation;
pub use kind::operation_name;
pub use store::SyncStore;

} // verus!
