//! Verified core of the Cloudstate JavaScript database runtime: the stored
//! data model, the table operations behind the JavaScript ops, the
//! mark-and-sweep garbage collector, blob storage and the transaction
//! lifecycle.

pub mod blob_storage;
pub mod cli;
pub mod cloudstate;
pub mod execution;
pub mod table;
pub mod gc;
pub mod js_spans;
pub mod js_value;
pub mod key_order;
pub mod module_loader;
pub mod ops;
pub mod permissions;
pub mod request;
pub mod runner;
pub mod transaction;

