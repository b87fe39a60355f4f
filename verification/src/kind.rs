use vstd::prelude::*;
use crate::error::SyncError;
use crate::strutil::str_eq;

verus! {

/// The closed set of syncable entity kinds.  The original store keyed
/// its dispatch on table-name strings; the tagged variant removes the
/// possibility of an unknown discriminator everywhere past the system
/// boundary, where `parse_table_name` still validates raw input.
#[derive(Clone, Copy, Debug, PartialEq, Eq, Structural)]
pub enum EntityKind {
    Collection,
    Folder,
    Request,
}

/// A pending push operation recorded in the sync queue.
#[derive(Clone, Copy, Debug, PartialEq, Eq, Structural)]
pub enum SyncOperation {
    Create,
    Update,
    Delete,
}

pub open spec fn spec_table_name(k: EntityKind) -> Seq<char> {
    match k {
        EntityKind::Collection => "collections"@,
        EntityKind::Folder => "folders"@,
        EntityKind::Request => "requests"@,
    }
}

/// The table-name discriminator under which a kind is persisted.
pub fn table_name(k: EntityKind) -> (r: &'static str)
    ensures
        r@ == spec_table_name(k),
{
    match k {
        EntityKind::Collection => "collections",
        EntityKind::Folder => "folders",
        EntityKind::Request => "requests",
    }
}

pub open spec fn spec_parse_table_name(s: Seq<char>) -> Result<EntityKind, SyncError> {
    if s == spec_table_name(EntityKind::Collection) {
        Ok(EntityKind::Collection)
    } else if s == spec_table_name(EntityKind::Folder) {
        Ok(EntityKind::Folder)
    } else if s == spec_table_name(EntityKind::Request) {
        Ok(EntityKind::Request)
    } else {
        Err(SyncError::InvalidTableName)
    }
}

/// Validates a raw table-name discriminator against the fixed set.
/// Anything outside it is rejected, never used as an identifier.
pub fn parse_table_name(name: &str) -> (r: Result<EntityKind, SyncError>)
    ensures
        r == spec_parse_table_name(name@),
{
    if str_eq(name, "collections") {
        Ok(EntityKind::Collection)
    } else if str_eq(name, "folders") {
        Ok(EntityKind::Folder)
    } else if str_eq(name, "requests") {
        Ok(EntityKind::Request)
    } else {
        Err(SyncError::InvalidTableName)
    }
}

pub open spec fn spec_operation_name(op: SyncOperation) -> Seq<char> {
    match op {
        SyncOperation::Create => "create"@,
        SyncOperation::Update => "update"@,
        SyncOperation::Delete => "delete"@,
    }
}

/// The string under which a queue operation is persisted.
pub fn operation_name(op: SyncOperation) -> (r: &'static str)
    ensures
        r@ == spec_operation_name(op),
{
    match op {
        SyncOperation::Create => "create",
        SyncOperation::Update => "update",
        SyncOperation::Delete => "delete",
    }
}

pub open spec fn spec_parse_operation(s: Seq<char>) -> Result<SyncOperation, SyncError> {
    if s == spec_operation_name(SyncOperation::Create) {
        Ok(SyncOperation::Create)
    } else if s == spec_operation_name(SyncOperation::Update) {
        Ok(SyncOperation::Update)
    } else if s == spec_operation_name(SyncOperation::Delete) {
        Ok(SyncOperation::Delete)
    } else {
        Err(SyncError::InvalidTableName)
    }
}

/// Validates a raw operation discriminator against the fixed set; an
/// unknown name is rejected like an unknown table name.
pub fn parse_operation(name: &str) -> (r: Result<SyncOperation, SyncError>)
    ensures
        r == spec_parse_operation(name@),
{
    if str_eq(name, "create") {
        Ok(SyncOperation::Create)
    } else if str_eq(name, "update") {
        Ok(SyncOperation::Update)
    } else if str_eq(name, "delete") {
        Ok(SyncOperation::Delete)
    } else {
        Err(SyncError::InvalidTableName)
    }
}

} // verus!
