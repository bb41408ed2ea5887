//! Object identifiers and a read-only database that maps them to names.
pub mod db;
pub mod oid;

pub use db::{Database, NamedOid};
pub use oid::{Error, ObjectIdentifier};
