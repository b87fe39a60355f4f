use vstd::prelude::*;

verus! {

/// Failures surfaced by the sync core.  Every fallible operation
/// reports one of these; none is swallowed silently.
#[derive(Clone, Copy, Debug, PartialEq, Eq, Structural)]
pub enum SyncError {
    /// A lookup named a local id that no row carries.
    NotFound,
    /// An attempt to bind an already-mapped identity to a different
    /// counterpart: a local id to a second remote id, or a remote id
    /// to a second local row.
    ConflictingIdentity,
    /// A child record arrived before the parent it references.
    DanglingParentReference,
    /// A persisted discriminator outside its fixed set: a table name
    /// that is no entity kind, or an unknown operation name.
    InvalidTableName,
    /// The store could not complete the operation (for the in-memory
    /// model: a freshly drawn local id collided with an existing row,
    /// or a counter was exhausted).
    StoreUnavailable,
}

impl SyncError {
    /// A human-readable description of the failure.
    pub fn message(&self) -> (r: &'static str)
        ensures
            r@ =~= self.spec_message(),
    {
        match self {
            SyncError::NotFound => "record not found",
            SyncError::ConflictingIdentity => "identity is already bound to a different counterpart",
            SyncError::DanglingParentReference => "parent record has not been reconciled yet",
            SyncError::InvalidTableName => "table name is not a recognized entity kind",
            SyncError::StoreUnavailable => "store could not complete the operation",
        }
    }

    pub open spec fn spec_message(self) -> Seq<char> {
        match self {
            SyncError::NotFound => "record not found"@,
            SyncError::ConflictingIdentity => "identity is already bound to a different counterpart"@,
            SyncError::DanglingParentReference => "parent record has not been reconciled yet"@,
            SyncError::InvalidTableName => "table name is not a recognized entity kind"@,
            SyncError::StoreUnavailable => "store could not complete the operation"@,
        }
    }
}

} // verus!
