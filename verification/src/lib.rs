//! Parsing of NIBArchive files into the NSKeyedArchiver object graph, and the
//! handle tables that back the SQLite3 bindings.

pub mod bytes;
pub mod text;
pub mod nib_format;
pub mod plist_model;
pub mod keyed_archive;
pub mod nib_archive;
pub mod sqlite_state;
pub mod archive_laws;
pub mod object_laws;
