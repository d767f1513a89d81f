//! Error kinds of the search core.

use vstd::prelude::*;

verus! {

/// Everything that can go wrong in the table-management, ingestion and
/// retrieval pipelines.
#[derive(Clone, Copy, PartialEq, Eq, Structural, Debug)]
pub enum DbError {
    /// The shared storage handle was never initialized.
    ConnectionUnavailable,
    /// `open` on a document whose table was never created.
    TableNotFound,
    /// `create` on a document whose table already exists.
    TableAlreadyExists,
    /// The embedding service failed (network, non-2xx status, or parse).
    EmbeddingRequestFailed,
    /// A nearest-neighbor search returned no rows (empty table).
    EmptyResultSet,
    /// A row was built with a vector of the wrong length.
    SchemaMismatch,
}

impl DbError {
    /// A short description, surfaced verbatim to callers.
    pub fn message(&self) -> (r: &'static str)
        ensures
            self is ConnectionUnavailable ==> r@ == "database not connected"@,
            self is TableNotFound ==> r@ == "table not found"@,
            self is TableAlreadyExists ==> r@ == "table already exists"@,
            self is EmbeddingRequestFailed ==> r@ == "embedding request failed"@,
            self is EmptyResultSet ==> r@ == "empty result set"@,
            self is SchemaMismatch ==> r@ == "schema mismatch"@,
    {
        proof {
            reveal_strlit("database not connected");
            reveal_strlit("table not found");
            reveal_strlit("table already exists");
            reveal_strlit("embedding request failed");
            reveal_strlit("empty result set");
            reveal_strlit("schema mismatch");
        }
        match self {
            DbError::ConnectionUnavailable => "database not connected",
            DbError::TableNotFound => "table not found",
            DbError::TableAlreadyExists => "table already exists",
            DbError::EmbeddingRequestFailed => "embedding request failed",
            DbError::EmptyResultSet => "empty result set",
            DbError::SchemaMismatch => "schema mismatch",
        }
    }
}

} // verus!
