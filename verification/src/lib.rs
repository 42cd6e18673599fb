//! Delta records: for each field of a document, the value that leaves the
//! index, the value that enters it, or both, packed into one ordered
//! key-value record.

pub mod annotate;
pub mod error;
pub mod kv;
pub mod merge;
pub mod record;
pub mod tag;
pub mod writer;

pub use annotate::{into_del_add_obkv, annotate_entries};
pub use error::Error;
pub use merge::{del_add_from_two_obkvs, merge_entries};
pub use record::{FieldId, TaggedEntry};
pub use tag::DelAdd;
pub use writer::write_tagged_entry;
