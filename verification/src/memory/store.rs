//! The decisions of the memory store: whether the raw history is consistent,
//! which summaries can be built and stored, and the errors the store reports.
//! The store itself reads and writes SQLite and lives with the program.
use vstd::prelude::*;

use crate::error::{NtError, Result};
use crate::memory::tree::{range_text, split_of, MemoryRange, WakeNode, I64_MAX};
use crate::text::{append_str, owned, push_char, str_eq};

verus! {

/// The number of raw memories, given the row count and the largest sequence
/// number the store holds: the sequences must be exactly `0 .. count`.
pub open spec fn history_consistent(count: int, maximum: Option<i64>) -> bool {
    maximum == (if count > 0 {
        Some((count - 1) as i64)
    } else {
        None::<i64>
    })
}

/// Checks the raw history's row count against its largest sequence number.
pub fn history_count(count: i64, maximum: Option<i64>) -> (r: Result<u64>)
    ensures
        count < 0 ==> (r matches Err(e) && e is InvalidStoredMemory && e->identity@ == "history"@
            && e->column == "count"),
        count >= 0 && !history_consistent(count as int, maximum) ==> (r matches Err(e)
            && e is InvalidStoredMemory && e->identity@ == "history"@ && e->column == "sequence"),
        r is Ok <==> count >= 0 && history_consistent(count as int, maximum),
        r matches Ok(n) ==> n == count,
{
    if count < 0 {
        let source = NtError::Message(owned("out of range integral type conversion attempted"));
        return Err(NtError::invalid_stored_memory_with_source("history", "count", &source));
    }
    let expected: Option<i64> = if count > 0 {
        Some(count - 1)
    } else {
        None
    };
    let consistent = match (maximum, expected) {
        (Some(a), Some(b)) => a == b,
        (None, None) => true,
        _ => false,
    };
    if !consistent {
        return Err(
            NtError::InvalidStoredMemory {
                identity: owned("history"),
                column: "sequence",
                reason: owned("sequences are not numbered from 0 without gaps"),
            },
        );
    }
    Ok(count as u64)
}

/// A value as an SQLite integer, which must fit an `i64`.
pub fn sqlite_integer(value: u64, field: &'static str) -> (r: Result<i64>)
    ensures
        value <= I64_MAX ==> r == Ok::<i64, NtError>(value as i64),
        value > I64_MAX ==> (r matches Err(e) && e is InvalidValue && e->field == field
            && e->value@ == crate::text::decimal(value as nat)),
{
    if value > I64_MAX {
        return Err(NtError::InvalidValue { field, value: crate::text::u64_to_string(value) });
    }
    Ok(value as i64)
}

/// The bounds of a range as SQLite integers.
pub fn sqlite_range(range: MemoryRange) -> (r: Result<(i64, i64)>)
    requires
        range.valid(),
    ensures
        r == Ok::<(i64, i64), NtError>((range.spec_lo() as i64, range.spec_hi() as i64)),
{
    let lo = sqlite_integer(range.lo(), "memory range")?;
    let hi = sqlite_integer(range.hi(), "memory range")?;
    Ok((lo, hi))
}

/// The error about a range: the range in its text form and what is wrong.
pub fn invalid_range(range: MemoryRange, detail: &str) -> (e: NtError)
    requires
        range.valid(),
    ensures
        e is InvalidValue && e->field == "memory range" && e->value@ == range_text(range) + seq![' ']
            + detail@,
{
    let mut value = range.to_string();
    push_char(&mut value, ' ');
    append_str(&mut value, detail);
    NtError::InvalidValue { field: "memory range", value }
}

/// Whether `ranges` holds a range with these bounds.
pub open spec fn holds_range(ranges: Seq<MemoryRange>, lo: nat, hi: nat) -> bool {
    exists|i: int| 0 <= i < ranges.len() && ranges[i].spec_lo() == lo && ranges[i].spec_hi() == hi
}

fn find_range(ranges: &[MemoryRange], lo: u64, hi: u64) -> (r: bool)
    ensures
        r == holds_range(ranges@, lo as nat, hi as nat),
{
    let mut i: usize = 0;
    while i < ranges.len()
        invariant
            i <= ranges@.len(),
            forall|j: int| 0 <= j < i ==> !(ranges@[j].spec_lo() == lo && ranges@[j].spec_hi() == hi),
        decreases ranges@.len() - i,
    {
        if ranges[i].lo() == lo && ranges[i].hi() == hi {
            return true;
        }
        i += 1;
    }
    false
}

/// Whether the inputs of a summary exist: raw memories always do; two
/// summaries must be among the stored ones.
pub fn children_exist(range: MemoryRange, summaries: &[MemoryRange]) -> (r: bool)
    requires
        range.valid(),
    ensures
        r == (range.spec_size() == 2 || (holds_range(
            summaries@,
            range.spec_lo(),
            range.spec_lo() + range.spec_size() / 2,
        ) && holds_range(summaries@, range.spec_lo() + range.spec_size() / 2, range.spec_hi()))),
{
    let (left, right) = range.children();
    match (left, right) {
        (WakeNode::Summary(l), WakeNode::Summary(h)) => {
            let found_left = find_range(summaries, l.lo(), l.hi());
            let found_right = find_range(summaries, h.lo(), h.hi());
            found_left && found_right
        },
        _ => true,
    }
}

/// The inputs of a summary over `range`, given the number of raw memories:
/// the two halves of the range, which must lie within the history.
pub fn summary_input_nodes(count: u64, range: MemoryRange) -> (r: Result<(WakeNode, WakeNode)>)
    requires
        range.valid(),
    ensures
        range.spec_hi() > count ==> (r matches Err(e) && e is InvalidValue && e->value@ == range_text(range)
            + seq![' '] + "extends past raw history"@),
        range.spec_hi() <= count ==> (r matches Ok(halves) && split_of(range, halves.0, halves.1)),
{
    if range.hi() > count {
        return Err(invalid_range(range, "extends past raw history"));
    }
    Ok(range.children())
}

/// What storing a summary does.
#[derive(Clone, Copy, Debug, PartialEq, Eq, Structural)]
pub enum SummaryWrite {
    /// The summary is new: insert it.
    Insert,
    /// The same summary is already stored: nothing to do.
    Unchanged,
}

/// Whether a summary over `range` may be stored, given the number of raw
/// memories, whether its inputs exist, and the body already stored for the
/// range: a range past the history or without its inputs is refused, a
/// different stored body conflicts, the same body is left as it is.
pub fn summary_write(
    count: u64,
    range: MemoryRange,
    inputs_exist: bool,
    existing: Option<&str>,
    body: &str,
) -> (r: Result<SummaryWrite>)
    requires
        range.valid(),
    ensures
        range.spec_hi() > count || !inputs_exist ==> (r matches Err(e) && e is InvalidValue
            && e->value@ == range_text(range) + seq![' '] + "is not buildable"@),
        range.spec_hi() <= count && inputs_exist ==> match existing {
            None => r == Ok::<SummaryWrite, NtError>(SummaryWrite::Insert),
            Some(stored) => if stored@ == body@ {
                r == Ok::<SummaryWrite, NtError>(SummaryWrite::Unchanged)
            } else {
                r matches Err(e) && e is InvalidValue && e->value@ == range_text(range) + seq![' ']
                    + "conflicts with existing summary"@
            },
        },
{
    if range.hi() > count || !inputs_exist {
        return Err(invalid_range(range, "is not buildable"));
    }
    match existing {
        None => Ok(SummaryWrite::Insert),
        Some(stored) => if str_eq(stored, body) {
            Ok(SummaryWrite::Unchanged)
        } else {
            Err(invalid_range(range, "conflicts with existing summary"))
        },
    }
}

/// The outcome of forgetting the summaries that cover `range`: how many were
/// removed, or an error when none was.
pub fn forget_outcome(range: MemoryRange, removed: usize) -> (r: Result<usize>)
    requires
        range.valid(),
    ensures
        removed == 0 ==> (r matches Err(e) && e is InvalidValue && e->value@ == range_text(range)
            + seq![' '] + "summary not found"@),
        removed > 0 ==> r == Ok::<usize, NtError>(removed),
{
    if removed == 0 {
        return Err(invalid_range(range, "summary not found"));
    }
    Ok(removed)
}

/// The error for a summary that a cover needs but the store lacks.
pub fn missing_summary(range: MemoryRange) -> (e: NtError)
    requires
        range.valid(),
    ensures
        e is InvalidValue && e->value@ == range_text(range) + seq![' '] + "summary missing; run nt memory nap"@,
{
    invalid_range(range, "summary missing; run nt memory nap")
}

} // verus!
