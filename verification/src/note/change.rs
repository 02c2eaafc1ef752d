//! The feed of note changes: what happened to which note at which revision.
use vstd::prelude::*;

use crate::error::{NtError, Result};
use crate::note::id::NoteId;
use crate::text::{decimal, owned, str_eq, u64_to_string};

verus! {

/// What a change did to a note.
#[derive(Clone, Copy, Debug, PartialEq, Eq, Structural)]
pub enum ChangeOperation {
    Add,
    Edit,
    Metadata,
    Remove,
}

/// The name a change operation is stored under.
pub open spec fn operation_name(op: ChangeOperation) -> Seq<char> {
    match op {
        ChangeOperation::Add => "add"@,
        ChangeOperation::Edit => "edit"@,
        ChangeOperation::Metadata => "metadata"@,
        ChangeOperation::Remove => "remove"@,
    }
}

impl ChangeOperation {
    /// The stored name of the operation.
    pub fn as_str(self) -> (r: &'static str)
        ensures
            r@ == operation_name(self),
    {
        match self {
            ChangeOperation::Add => "add",
            ChangeOperation::Edit => "edit",
            ChangeOperation::Metadata => "metadata",
            ChangeOperation::Remove => "remove",
        }
    }

    /// The operation a stored name names; any other name is refused.
    pub fn decode(value: &str) -> (r: Result<ChangeOperation>)
        ensures
            match r {
                Ok(op) => operation_name(op) == value@,
                Err(e) => (forall|op: ChangeOperation| operation_name(op) != value@) && e is InvalidValue
                    && e->field@ == "change operation"@ && e->value@ == value@,
            },
    {
        if str_eq(value, "add") {
            Ok(ChangeOperation::Add)
        } else if str_eq(value, "edit") {
            Ok(ChangeOperation::Edit)
        } else if str_eq(value, "metadata") {
            Ok(ChangeOperation::Metadata)
        } else if str_eq(value, "remove") {
            Ok(ChangeOperation::Remove)
        } else {
            proof {
                assert forall|op: ChangeOperation| operation_name(op) != value@ by {
                    match op {
                        ChangeOperation::Add => {},
                        ChangeOperation::Edit => {},
                        ChangeOperation::Metadata => {},
                        ChangeOperation::Remove => {},
                    }
                }
            }
            Err(NtError::InvalidValue { field: "change operation", value: owned(value) })
        }
    }
}

/// A change: the revision it made, what it did, and to which note.
#[derive(Clone, Debug, PartialEq, Eq)]
pub struct Change {
    revision: u64,
    operation: ChangeOperation,
    note_id: NoteId,
}

impl Change {
    pub closed spec fn spec_revision(&self) -> u64 {
        self.revision
    }

    pub closed spec fn spec_operation(&self) -> ChangeOperation {
        self.operation
    }

    pub closed spec fn spec_note_id(&self) -> NoteId {
        self.note_id
    }

    /// A change of a positive revision.
    pub fn new(revision: u64, operation: ChangeOperation, note_id: NoteId) -> (r: Change)
        ensures
            r.spec_revision() == revision,
            r.spec_operation() == operation,
            r.spec_note_id() == note_id,
    {
        Change { revision, operation, note_id }
    }

    pub fn revision(&self) -> (r: u64)
        ensures
            r == self.spec_revision(),
    {
        self.revision
    }

    pub fn operation(&self) -> (r: ChangeOperation)
        ensures
            r == self.spec_operation(),
    {
        self.operation
    }

    pub fn note_id(&self) -> (r: &NoteId)
        ensures
            *r == self.spec_note_id(),
    {
        &self.note_id
    }
}

/// A value to add to a set, or to remove from it.
#[derive(Clone, Debug, PartialEq, Eq)]
pub enum AddOrRemove<T> {
    Add(T),
    Remove(T),
}

/// The revision after which the change feed is read, as the store keeps
/// revisions: one beyond `i64::MAX` is refused.
pub fn changes_since_bound(revision: u64) -> (r: Result<i64>)
    ensures
        revision <= i64::MAX ==> r == Ok::<i64, NtError>(revision as i64),
        revision > i64::MAX ==> (r matches Err(e) && e is InvalidValue && e->field@ == "revision"@
            && e->value@ == decimal(revision as nat)),
{
    if revision > 0x7fff_ffff_ffff_ffff {
        return Err(NtError::InvalidValue { field: "revision", value: u64_to_string(revision) });
    }
    Ok(revision as i64)
}

} // verus!
