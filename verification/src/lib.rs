//! An in-memory record store for a spreadsheet-hosting service: a primary
//! table keyed by identifier and a name index kept coherent with it, with
//! create/read/update/delete and best-effort cell-patch operations, plus the
//! grid engine that serializes, parses, and edits the spreadsheet content.

pub mod grid;
pub mod handlers;
pub mod models;
pub mod storage;
