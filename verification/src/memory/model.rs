//! Memories and summaries: short, nonempty, single-line texts.
use vstd::prelude::*;

use crate::error::{NtError, Result};
use crate::memory::tree::{valid_range, MemoryRange};
use crate::note::date::{is_iso_timestamp, Timestamp};
use crate::text::{append_str, chars_of, contains_char, owned, push_char, push_padded_signed, slice_chars, string_of, u64_to_string};

verus! {

/// The most characters a memory or summary may have.
pub const MEMORY_BODY_MAX_CHARS: usize = 512;

/// Why a stored body is refused, if it is: empty, more than one line, a NUL
/// character, or more than the characters allowed.
pub open spec fn body_fault(body: Seq<char>) -> Option<Seq<char>> {
    if body.len() == 0 {
        Some(Seq::empty())
    } else if body.contains('\r') || body.contains('\n') {
        Some("must be one line"@)
    } else if body.contains('\0') {
        Some("contains NUL"@)
    } else if body.len() > 512 {
        Some("exceeds 512 characters"@)
    } else {
        None
    }
}

/// The error a body with a fault is refused with.
pub open spec fn body_error(field: &'static str, body: Seq<char>, e: NtError) -> bool {
    if body.len() == 0 {
        e == NtError::EmptyBody
    } else {
        e is InvalidValue && e->field == field && e->value@ == body_fault(body)->0
    }
}

/// A body without one trailing line ending (`\r\n` or `\n`).
pub open spec fn without_line_ending(body: Seq<char>) -> Seq<char> {
    if body.len() >= 2 && body[body.len() - 2] == '\r' && body.last() == '\n' {
        body.subrange(0, body.len() - 2)
    } else if body.len() >= 1 && body.last() == '\n' {
        body.drop_last()
    } else {
        body
    }
}

fn validate_stored(body: &str, field: &'static str) -> (r: Result<()>)
    ensures
        r is Ok <==> body_fault(body@) is None,
        r matches Err(e) ==> body_error(field, body@, e),
{
    proof {
        reveal_strlit("must be one line");
        reveal_strlit("contains NUL");
        reveal_strlit("exceeds 512 characters");
    }
    let chars = chars_of(body);
    if chars.len() == 0 {
        return Err(NtError::EmptyBody);
    }
    if contains_char(chars.as_slice(), '\r') || contains_char(chars.as_slice(), '\n') {
        return Err(NtError::InvalidValue { field, value: owned("must be one line") });
    }
    if contains_char(chars.as_slice(), '\0') {
        return Err(NtError::InvalidValue { field, value: owned("contains NUL") });
    }
    if chars.len() > MEMORY_BODY_MAX_CHARS {
        return Err(NtError::InvalidValue { field, value: owned("exceeds 512 characters") });
    }
    Ok(())
}

fn validate_input(body: &str, field: &'static str) -> (r: Result<String>)
    ensures
        r is Ok <==> body_fault(without_line_ending(body@)) is None,
        r matches Ok(b) ==> b@ == without_line_ending(body@),
        r matches Err(e) ==> body_error(field, without_line_ending(body@), e),
{
    let chars = chars_of(body);
    let n = chars.len();
    let end = if n >= 2 && chars[n - 2] == '\r' && chars[n - 1] == '\n' {
        n - 2
    } else if n >= 1 && chars[n - 1] == '\n' {
        n - 1
    } else {
        n
    };
    let trimmed = string_of(slice_chars(chars.as_slice(), 0, end).as_slice());
    proof {
        if end == n {
            assert(chars@.subrange(0, n as int) =~= chars@);
        }
        assert(trimmed@ =~= without_line_ending(body@));
    }
    validate_stored(trimmed.as_str(), field)?;
    Ok(trimmed)
}

/// The text of a new memory.
#[derive(Clone, Debug, PartialEq, Eq)]
pub struct NewMemory(String);

impl NewMemory {
    pub closed spec fn view(&self) -> Seq<char> {
        self.0@
    }

    /// A memory of `body` without one trailing line ending; it must be a
    /// nonempty single line of at most 512 characters without NUL.
    pub fn new(body: &str) -> (r: Result<Self>)
        ensures
            r is Ok <==> body_fault(without_line_ending(body@)) is None,
            r matches Ok(m) ==> m@ == without_line_ending(body@),
            r matches Err(e) ==> body_error("memory body", without_line_ending(body@), e),
    {
        let b = validate_input(body, "memory body")?;
        Ok(NewMemory(b))
    }

    pub fn body(&self) -> (r: &str)
        ensures
            r@ == self@,
    {
        self.0.as_str()
    }
}

/// The text of a new summary.
#[derive(Clone, Debug, PartialEq, Eq)]
pub struct NewSummary(String);

impl NewSummary {
    pub closed spec fn view(&self) -> Seq<char> {
        self.0@
    }

    /// A summary of `body`, under the rules of a memory body.
    pub fn new(body: &str) -> (r: Result<Self>)
        ensures
            r is Ok <==> body_fault(without_line_ending(body@)) is None,
            r matches Ok(m) ==> m@ == without_line_ending(body@),
            r matches Err(e) ==> body_error("memory summary", without_line_ending(body@), e),
    {
        let b = validate_input(body, "memory summary")?;
        Ok(NewSummary(b))
    }

    pub fn body(&self) -> (r: &str)
        ensures
            r@ == self@,
    {
        self.0.as_str()
    }
}

/// What `u64::try_from` a negative `i64` reports.
fn conversion_error() -> (e: NtError)
    ensures
        e is Message,
{
    NtError::Message(owned("out of range integral type conversion attempted"))
}

/// A stored memory: its sequence number and body.
#[derive(Clone, Debug, PartialEq, Eq)]
pub struct Memory {
    seq: u64,
    body: String,
}

impl Memory {
    pub closed spec fn spec_seq(&self) -> u64 {
        self.seq
    }

    pub closed spec fn spec_body(&self) -> Seq<char> {
        self.body@
    }

    /// A stored memory is kept only with a nonnegative sequence number, an ISO
    /// creation time and a valid body; otherwise the error names the memory and
    /// the column.
    pub fn from_stored(seq: i64, created: String, body: String) -> (r: Result<Self>)
        ensures
            seq < 0 ==> (r matches Err(e) && e is InvalidStoredMemory && e->identity@ == "identity: unknown"@
                && e->column == "sequence"),
            seq >= 0 && !is_iso_timestamp(created@) ==> (r matches Err(e) && e is InvalidStoredMemory
                && e->identity@ == seq!['#'] + crate::text::decimal(seq as nat) && e->column == "created_at"),
            seq >= 0 && is_iso_timestamp(created@) && body_fault(body@) is Some ==> (r matches Err(e)
                && e is InvalidStoredMemory && e->identity@ == seq!['#'] + crate::text::decimal(seq as nat)
                && e->column == "body"),
            r is Ok <==> seq >= 0 && is_iso_timestamp(created@) && body_fault(body@) is None,
            r matches Ok(m) ==> m.spec_seq() == seq && m.spec_body() == body@,
    {
        if seq < 0 {
            let source = conversion_error();
            return Err(NtError::invalid_stored_memory_with_source("identity: unknown", "sequence", &source));
        }
        let seq = seq as u64;
        let mut identity = owned("#");
        let number = u64_to_string(seq);
        append_str(&mut identity, number.as_str());
        proof {
            reveal_strlit("#");
        }
        if let Err(error) = Timestamp::parse(created.as_str()) {
            return Err(NtError::invalid_stored_memory_with_source(identity.as_str(), "created_at", &error));
        }
        if let Err(error) = validate_stored(body.as_str(), "memory body") {
            return Err(NtError::invalid_stored_memory_with_source(identity.as_str(), "body", &error));
        }
        Ok(Memory { seq, body })
    }

    pub fn seq(&self) -> (r: u64)
        ensures
            r == self.spec_seq(),
    {
        self.seq
    }

    pub fn body(&self) -> (r: &str)
        ensures
            r@ == self.spec_body(),
    {
        self.body.as_str()
    }
}

/// A stored summary: the range of memories it covers and its body.
#[derive(Clone, Debug, PartialEq, Eq)]
pub struct Summary {
    range: MemoryRange,
    body: String,
}

impl Summary {
    pub closed spec fn spec_range(&self) -> MemoryRange {
        self.range
    }

    pub closed spec fn spec_body(&self) -> Seq<char> {
        self.body@
    }

    /// A stored summary is kept only with nonnegative bounds that make a valid
    /// range and a valid body; otherwise the error names the summary
    /// (`summary <lo>-<hi>`) and the column.
    pub fn from_stored(lo: i64, hi: i64, body: String) -> (r: Result<Self>)
        ensures
            r is Ok <==> lo >= 0 && hi >= 0 && valid_range(lo as nat, hi as nat) && body_fault(body@) is None,
            r matches Err(e) ==> e is InvalidStoredMemory && e->identity@ == "summary "@
                + crate::text::padded_signed(lo as int, 1) + seq!['-'] + crate::text::padded_signed(hi as int, 1)
                && e->column == (if lo < 0 {
                    "lo"
                } else if hi < 0 {
                    "hi"
                } else if !valid_range(lo as nat, hi as nat) {
                    "range"
                } else {
                    "body"
                }),
            r matches Ok(s) ==> s.spec_range().spec_lo() == lo && s.spec_range().spec_hi() == hi
                && s.spec_body() == body@,
    {
        let mut identity = owned("summary ");
        push_padded_signed(&mut identity, lo, 1);
        push_char(&mut identity, '-');
        push_padded_signed(&mut identity, hi, 1);
        if lo < 0 {
            let source = conversion_error();
            return Err(NtError::invalid_stored_memory_with_source(identity.as_str(), "lo", &source));
        }
        if hi < 0 {
            let source = conversion_error();
            return Err(NtError::invalid_stored_memory_with_source(identity.as_str(), "hi", &source));
        }
        let range = match MemoryRange::new(lo as u64, hi as u64) {
            Ok(range) => range,
            Err(error) => {
                return Err(NtError::invalid_stored_memory_with_source(identity.as_str(), "range", &error));
            },
        };
        if let Err(error) = validate_stored(body.as_str(), "memory summary") {
            return Err(NtError::invalid_stored_memory_with_source(identity.as_str(), "body", &error));
        }
        Ok(Summary { range, body })
    }

    pub fn range(&self) -> (r: MemoryRange)
        ensures
            r == self.spec_range(),
    {
        self.range
    }

    pub fn body(&self) -> (r: &str)
        ensures
            r@ == self.spec_body(),
    {
        self.body.as_str()
    }
}

} // verus!
