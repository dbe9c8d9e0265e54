//! A store of JSON documents, verified with Verus.
//!
//! A record is a JSON document; a collection is a directory with one file per
//! record, named by the record's identifier. The library holds the rules of
//! the store and leaves the file system to its caller: every operation takes
//! the image of a directory, a [`Directory`], and reads or changes that.
//!
//! - [`json`]: JSON values, their model and what makes them well formed.
//! - [`text`]: the order of keys, dotted keys, names of record files.
//! - [`object`]: the members of an object, kept in the order of their keys.
//! - [`path`]: reading and writing at a path, merging a patch, matching a
//!   condition.
//! - [`merge`]: why merging a patch a second time changes nothing.
//! - [`array`]: changes to the array at a path of a document.
//! - [`codec`]: JSON text, read and written by `serde_json`.
//! - [`directory`]: the image of a directory.
//! - [`store`]: the operations of the store.
//! - [`store_laws`]: what holds of them.

pub mod array;
pub mod codec;
pub mod directory;
pub mod json;
pub mod merge;
pub mod object;
pub mod path;
pub mod store;
pub mod store_laws;
pub mod text;

pub use directory::{Directory, StoredFile};
pub use json::{Json, Member, Number};
pub use store::{Identifiable, JsonDatabase};
