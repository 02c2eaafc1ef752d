//! The library's error values.
use vstd::prelude::*;

use crate::text::{append_str, decimal, owned, padded_signed, push_padded_signed, u64_to_string};

verus! {

#[derive(Debug, Clone, PartialEq, Eq)]
pub enum NtError {
    EmptyBody,
    InvalidTitle,
    InvalidValue { field: &'static str, value: String },
    InvalidNoteId(String),
    InvalidBodyVersion(u64),
    SelfLink,
    Message(String),
    ConflictingBodyInput,
    EditorNotSet,
    InvalidEditor,
    MissingVault,
    DuplicateNoteId(String),
    Io(String),
    InvalidStoredMemory { identity: String, column: &'static str, reason: String },
    NoteNotFound(String),
    InvalidStoredNote { id: Option<String>, row: i64, stored_field: &'static str, detail: Option<String> },
    ConcurrentEdit(String),
    RevisionConflict { note: String, expected: u64, actual: u64 },
}

pub type Result<T> = core::result::Result<T, NtError>;

impl NtError {
    /// A stored memory that does not read: which one, which column, and why.
    pub fn invalid_stored_memory_with_source(identity: &str, column: &'static str, source: &NtError) -> (e: NtError)
        ensures
            e is InvalidStoredMemory && e->identity@ == identity@ && e->column == column,
    {
        NtError::InvalidStoredMemory { identity: owned(identity), column, reason: source.to_string() }
    }

    /// The human-readable message of an error.
    pub open spec fn message_of(e: NtError) -> Seq<char> {
        match e {
            NtError::Message(message) => message@,
            NtError::EmptyBody => "note body is empty"@,
            NtError::InvalidTitle => "note body must begin with a `# ` title line"@,
            NtError::InvalidValue { field, value } => "invalid "@ + field@ + " `"@ + value@ + "`"@,
            NtError::InvalidNoteId(id) => "invalid note id `"@ + id@ + "`"@,
            NtError::InvalidBodyVersion(version) => "invalid body version "@ + decimal(version as nat),
            NtError::SelfLink => "a note cannot link to itself"@,
            NtError::ConflictingBodyInput => "note body was given both as arguments and on stdin"@,
            NtError::EditorNotSet => "set $VISUAL or $EDITOR"@,
            NtError::InvalidEditor => "invalid editor command"@,
            NtError::MissingVault => "no vault exists; run `nt init` first"@,
            NtError::DuplicateNoteId(id) => "duplicate note id `"@ + id@ + "`"@,
            NtError::Io(message) => message@,
            NtError::InvalidStoredMemory { identity, column, reason } => "invalid stored memory "@
                + identity@ + ": "@ + column@ + ": "@ + reason@,
            NtError::NoteNotFound(id) => "note `"@ + id@ + "` not found"@,
            NtError::ConcurrentEdit(id) => "note `"@ + id@ + "` changed since it was read"@,
            NtError::RevisionConflict { note, expected, actual } => "note `"@ + note@
                + "` is at revision "@ + decimal(actual as nat) + ", not "@ + decimal(expected as nat),
            NtError::InvalidStoredNote { id, row, stored_field, detail } => stored_note_message(
                id,
                row,
                stored_field@,
                detail,
            ),
        }
    }

    /// The human-readable message of this error.
    pub fn to_string(&self) -> (out: String)
        ensures
            out@ == Self::message_of(*self),
    {
        match self {
            NtError::Message(message) => message.clone(),
            NtError::EmptyBody => owned("note body is empty"),
            NtError::InvalidTitle => owned("note body must begin with a `# ` title line"),
            NtError::InvalidValue { field, value } => {
                let mut out = owned("invalid ");
                append_str(&mut out, field);
                append_str(&mut out, " `");
                append_str(&mut out, value.as_str());
                append_str(&mut out, "`");
                out
            },
            NtError::InvalidNoteId(id) => {
                let mut out = owned("invalid note id `");
                append_str(&mut out, id.as_str());
                append_str(&mut out, "`");
                out
            },
            NtError::InvalidBodyVersion(version) => {
                let mut out = owned("invalid body version ");
                let number = u64_to_string(*version);
                append_str(&mut out, number.as_str());
                out
            },
            NtError::SelfLink => owned("a note cannot link to itself"),
            NtError::ConflictingBodyInput => owned(
                "note body was given both as arguments and on stdin",
            ),
            NtError::EditorNotSet => owned("set $VISUAL or $EDITOR"),
            NtError::InvalidEditor => owned("invalid editor command"),
            NtError::MissingVault => owned("no vault exists; run `nt init` first"),
            NtError::DuplicateNoteId(id) => {
                let mut out = owned("duplicate note id `");
                append_str(&mut out, id.as_str());
                append_str(&mut out, "`");
                out
            },
            NtError::Io(message) => message.clone(),
            NtError::InvalidStoredMemory { identity, column, reason } => {
                let mut out = owned("invalid stored memory ");
                append_str(&mut out, identity.as_str());
                append_str(&mut out, ": ");
                append_str(&mut out, column);
                append_str(&mut out, ": ");
                append_str(&mut out, reason.as_str());
                out
            },
            NtError::NoteNotFound(id) => {
                let mut out = owned("note `");
                append_str(&mut out, id.as_str());
                append_str(&mut out, "` not found");
                out
            },
            NtError::ConcurrentEdit(id) => {
                let mut out = owned("note `");
                append_str(&mut out, id.as_str());
                append_str(&mut out, "` changed since it was read");
                out
            },
            NtError::RevisionConflict { note, expected, actual } => {
                let mut out = owned("note `");
                append_str(&mut out, note.as_str());
                append_str(&mut out, "` is at revision ");
                let a = u64_to_string(*actual);
                append_str(&mut out, a.as_str());
                append_str(&mut out, ", not ");
                let e = u64_to_string(*expected);
                append_str(&mut out, e.as_str());
                out
            },
            NtError::InvalidStoredNote { id, row, stored_field, detail } => {
                let mut out = owned("stored note is invalid (");
                match id {
                    Some(id) => {
                        append_str(&mut out, "id: ");
                        append_str(&mut out, id.as_str());
                        append_str(&mut out, ", ");
                    },
                    None => {},
                }
                append_str(&mut out, "row: ");
                push_padded_signed(&mut out, *row, 0);
                append_str(&mut out, ", field: ");
                append_str(&mut out, stored_field);
                append_str(&mut out, ")");
                match detail {
                    Some(detail) => {
                        append_str(&mut out, ": ");
                        append_str(&mut out, detail.as_str());
                    },
                    None => {},
                }
                out
            },
        }
    }
}

/// The message of a stored note that does not read: which note (when its id
/// read), which row, which field, and the reason where one is known.
pub open spec fn stored_note_message(
    id: Option<String>,
    row: i64,
    field: Seq<char>,
    reason: Option<String>,
) -> Seq<char> {
    "stored note is invalid ("@ + match id {
        Some(id) => "id: "@ + id@ + ", "@,
        None => Seq::empty(),
    } + "row: "@ + padded_signed(row as int, 0) + ", field: "@ + field + ")"@ + match reason {
        Some(reason) => ": "@ + reason@,
        None => Seq::empty(),
    }
}

} // verus!
