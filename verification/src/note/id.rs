//! Note identifiers: version 7 UUIDs in their canonical lowercase hyphenated form.
use vstd::prelude::*;

use crate::error::{NtError, Result};
use crate::note::date::{
    duration_nanos, duration_seconds, epoch_offset, fraction_nanos, since_epoch, system_now,
    whole_seconds,
};
use crate::text::owned;

verus! {

#[verifier::external_type_specification]
#[verifier::external_body]
pub struct ExUuid(uuid::Uuid);

/// What `Uuid::parse_str` reads from a text, as a 128-bit number.
pub uninterp spec fn uuid_parsed(text: Seq<char>) -> Option<u128>;

/// The lowercase hexadecimal digit of `n`.
pub open spec fn hex_digit(n: int) -> char {
    if n < 10 {
        (48 + n) as char
    } else {
        (87 + n) as char
    }
}

/// Which of the 32 hexadecimal digits stands at a position of the hyphenated form.
pub open spec fn nibble_index(i: int) -> int {
    if i < 8 {
        i
    } else if i < 13 {
        i - 1
    } else if i < 18 {
        i - 2
    } else if i < 23 {
        i - 3
    } else {
        i - 4
    }
}

/// The `j`-th hexadecimal digit of `v`, the most significant first.
pub open spec fn nibble(v: u128, j: int) -> int {
    (v as int / vstd::arithmetic::power2::pow2((4 * (31 - j)) as nat) as int) % 16
}

/// The canonical text of a UUID: `xxxxxxxx-xxxx-xxxx-xxxx-xxxxxxxxxxxx` in
/// lowercase hexadecimal.
pub open spec fn uuid_text(v: u128) -> Seq<char> {
    Seq::new(
        36,
        |i: int|
            if i == 8 || i == 13 || i == 18 || i == 23 {
                '-'
            } else {
                hex_digit(nibble(v, nibble_index(i)))
            },
    )
}

/// The version field of a UUID.
pub open spec fn uuid_version(v: u128) -> int {
    (v as int / 0x10000000000000000000) % 16
}

/// A note id text: the canonical text of a version 7 UUID.
pub open spec fn is_note_uuid(s: Seq<char>) -> bool {
    exists|v: u128| uuid_text(v) == s && uuid_version(v) == 7
}

/// `Uuid::parse_str`, as a 128-bit number. It reads back the canonical text of
/// any UUID; of other texts only the name says what comes back.
#[verifier::external_body]
fn parse_uuid(text: &str) -> (r: Option<u128>)
    ensures
        r == uuid_parsed(text@),
        forall|v: u128| uuid_text(v) == text@ ==> r == Some(v),
{
    match uuid::Uuid::parse_str(text) {
        Ok(uuid) => Some(uuid.as_u128()),
        Err(_) => None,
    }
}

/// `Uuid::to_string` of `Uuid::from_u128`: the canonical text.
#[verifier::external_body]
fn uuid_string(v: u128) -> (r: String)
    ensures
        r@ == uuid_text(v),
{
    uuid::Uuid::from_u128(v).to_string()
}

/// The Unix time in milliseconds that `Uuid::new_v7` stamps for `seconds`
/// and `nanos`: `seconds * 1000 + nanos / 1_000_000`, saturating at `u64::MAX`.
pub open spec fn v7_millis(seconds: u64, nanos: u32) -> int {
    let whole = if seconds as int * 1000 > u64::MAX as int {
        u64::MAX as int
    } else {
        seconds as int * 1000
    };
    if whole + nanos as int / 1_000_000 > u64::MAX as int {
        u64::MAX as int
    } else {
        whole + nanos as int / 1_000_000
    }
}

/// The 48-bit timestamp field of a UUID: its most significant bits.
pub open spec fn uuid_millis(v: u128) -> int {
    v as int / 0x100000000000000000000
}

/// `Uuid::new_v7` of `Timestamp::from_unix_time(seconds, nanos, 0, 0)`, as a
/// 128-bit number: a version 7 UUID whose timestamp field holds the
/// milliseconds `v7_millis` (modulo 2^48); the remaining bits come from the
/// operating system's random source and are not stated. The call does not
/// return only when that random source fails, which no precondition can
/// rule out.
#[verifier::external_body]
fn new_v7(seconds: u64, nanos: u32) -> (r: u128)
    ensures
        uuid_version(r) == 7,
        uuid_millis(r) == v7_millis(seconds, nanos) % 0x1000000000000,
{
    uuid::Uuid::new_v7(uuid::Timestamp::from_unix_time(seconds, nanos, 0, 0)).as_u128()
}

/// The whole seconds and nanoseconds from the epoch to a time; both 0 for a
/// time before the epoch.
pub open spec fn epoch_parts(time: std::time::SystemTime) -> (u64, u32) {
    match epoch_offset(time) {
        Some(d) => (duration_seconds(d), duration_nanos(d)),
        None => (0, 0),
    }
}

/// `Uuid::from_u128`. Nothing is stated of the value, which Verus cannot look into.
#[verifier::external_body]
fn uuid_of(v: u128) -> uuid::Uuid {
    uuid::Uuid::from_u128(v)
}

fn version_of(v: u128) -> (r: u128)
    ensures
        r == uuid_version(v),
{
    let r = (v >> 76u32) & 0xf;
    assert(((v >> 76u32) & 0xf) == (v / 0x10000000000000000000) % 16) by (bit_vector);
    r
}

/// A note identifier.
#[derive(Clone, Copy, Debug, PartialEq, Eq, Hash, PartialOrd, Ord, Structural)]
pub struct NoteId(u128);

impl NoteId {
    /// The UUID as a 128-bit number.
    pub closed spec fn view(&self) -> u128 {
        self.0
    }

    /// A new identifier: a version 7 UUID stamped with the milliseconds of
    /// `time` since the epoch, or with the epoch itself for an earlier time.
    pub fn generate_at(time: std::time::SystemTime) -> (r: Self)
        ensures
            uuid_version(r@) == 7,
            uuid_millis(r@) == v7_millis(epoch_parts(time).0, epoch_parts(time).1)
                % 0x1000000000000,
    {
        let (seconds, nanos) = match since_epoch(time) {
            Some(duration) => (whole_seconds(duration), fraction_nanos(duration)),
            None => (0, 0),
        };
        NoteId(new_v7(seconds, nanos))
    }

    /// A new identifier: a version 7 UUID of the current time (of the epoch
    /// when the clock reads an earlier time).
    pub fn generate() -> (r: Self)
        ensures
            uuid_version(r@) == 7,
    {
        Self::generate_at(system_now())
    }

    /// The identifier as a `uuid::Uuid`.
    pub fn as_uuid(&self) -> uuid::Uuid {
        uuid_of(self.0)
    }

    /// The identifier as a 128-bit number.
    pub fn as_u128(&self) -> (r: u128)
        ensures
            r == self@,
    {
        self.0
    }

    /// The canonical text of the identifier.
    pub fn to_string(&self) -> (r: String)
        ensures
            r@ == uuid_text(self@),
    {
        uuid_string(self.0)
    }

    /// Reads a note id: only the canonical text of a version 7 UUID is one.
    pub fn parse(value: &str) -> (r: Result<NoteId>)
        ensures
            r is Ok <==> is_note_uuid(value@),
            r matches Ok(id) ==> uuid_text(id@) == value@ && uuid_version(id@) == 7,
            r matches Err(e) ==> e is InvalidNoteId && e->InvalidNoteId_0@ == value@,
            forall|v: u128|
                #![trigger uuid_text(v)]
                uuid_text(v) == value@ && uuid_version(v) == 7 ==> (r matches Ok(id) && id@ == v),
    {
        let parsed = match parse_uuid(value) {
            Some(v) => v,
            None => {
                return Err(NtError::InvalidNoteId(owned(value)));
            },
        };
        let text = uuid_string(parsed);
        if version_of(parsed) != 7 || !crate::text::str_eq(text.as_str(), value) {
            proof {
                if is_note_uuid(value@) {
                    let v = choose|v: u128| uuid_text(v) == value@ && uuid_version(v) == 7;
                    assert(parsed == v);
                }
            }
            return Err(NtError::InvalidNoteId(owned(value)));
        }
        Ok(NoteId(parsed))
    }
}

impl core::str::FromStr for NoteId {
    type Err = NtError;

    fn from_str(value: &str) -> (r: Result<NoteId>)
        ensures
            r is Ok <==> is_note_uuid(value@),
            r matches Ok(id) ==> uuid_text(id@) == value@ && uuid_version(id@) == 7,
            r matches Err(e) ==> e is InvalidNoteId && e->InvalidNoteId_0@ == value@,
            forall|v: u128|
                #![trigger uuid_text(v)]
                uuid_text(v) == value@ && uuid_version(v) == 7 ==> (r matches Ok(id) && id@ == v),
    {
        NoteId::parse(value)
    }
}

} // verus!
