use vstd::prelude::*;

verus! {

/// Failures of the persistence path, kept apart from the in-memory failures:
/// building a snapshot, reading one back, moving it to or from disk, or
/// asking for durability where none was configured.
#[derive(Debug, Clone, PartialEq, Eq)]
pub enum PersistenceError {
    Serialization,
    Deserialization,
    FileOperation,
    NotConfigured,
}

/// Every error this store returns to a caller. All are recoverable by the
/// caller; none is retried internally.
#[derive(Debug, Clone, PartialEq, Eq)]
pub enum VectorDbError {
    DimensionMismatch { expected: usize, actual: usize },
    CollectionNotFound { name: String },
    PersistenceError(PersistenceError),
}

} // verus!
