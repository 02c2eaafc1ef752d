//! Timestamp note identifiers of the shape `NTyyyymmddThhmmss`.
use vstd::prelude::*;

use crate::error::{NtError, Result};
use crate::note::date::{
    epoch_seconds, timestamp_of, Timestamp, date_text, id_text, is_valid_date_text, iso_text, lemma_civil_of_exists, lemma_date_text_fields,
    time_fields,
};
use crate::text::{chars_of, decimal, is_ascii_digit, is_ascii_digit_char, owned, pad_count, padded_decimal, push_char};

verus! {

/// Whether every character of `s[lo..hi]` is an ASCII digit.
pub open spec fn digits_between(s: Seq<char>, lo: int, hi: int) -> bool {
    forall|k: int| lo <= k < hi ==> is_ascii_digit_char(#[trigger] s[k])
}

/// Whether `s` is a note id: `NT`, eight digits, `T`, six digits.
pub open spec fn is_note_id(s: Seq<char>) -> bool {
    &&& s.len() == 17
    &&& s[0] == 'N'
    &&& s[1] == 'T'
    &&& s[10] == 'T'
    &&& digits_between(s, 2, 10)
    &&& digits_between(s, 11, 17)
}

/// The ISO-8601 UTC time that a note id spells.
pub open spec fn iso_of_id(s: Seq<char>) -> Seq<char> {
    s.subrange(2, 6) + seq!['-'] + s.subrange(6, 8) + seq!['-'] + s.subrange(8, 10) + seq!['T']
        + s.subrange(11, 13) + seq![':'] + s.subrange(13, 15) + seq![':'] + s.subrange(15, 17)
        + seq!['Z']
}

fn digits_in(chars: &Vec<char>, lo: usize, hi: usize) -> (r: bool)
    requires
        lo <= hi <= chars@.len(),
    ensures
        r == digits_between(chars@, lo as int, hi as int),
{
    let mut i = lo;
    while i < hi
        invariant
            lo <= i <= hi <= chars@.len(),
            digits_between(chars@, lo as int, i as int),
        decreases hi - i,
    {
        if !is_ascii_digit(chars[i]) {
            return false;
        }
        i += 1;
    }
    true
}

fn id_shape(chars: &Vec<char>) -> (r: bool)
    ensures
        r == is_note_id(chars@),
{
    chars.len() == 17 && chars[0] == 'N' && chars[1] == 'T' && chars[10] == 'T' && digits_in(
        chars,
        2,
        10,
    ) && digits_in(chars, 11, 17)
}

/// Accepts exactly the note ids; anything else is `InvalidNoteId` with the value.
pub fn validate_id(id: &str) -> (r: Result<()>)
    ensures
        r is Ok <==> is_note_id(id@),
        r is Err ==> r == Err::<(), NtError>(NtError::InvalidNoteId(r->Err_0->InvalidNoteId_0))
            && r->Err_0->InvalidNoteId_0@ == id@,
{
    let chars = chars_of(id);
    if id_shape(&chars) {
        Ok(())
    } else {
        Err(NtError::InvalidNoteId(owned(id)))
    }
}

fn push_range(out: &mut String, chars: &Vec<char>, lo: usize, hi: usize)
    requires
        lo <= hi <= chars@.len(),
    ensures
        final(out)@ == old(out)@ + chars@.subrange(lo as int, hi as int),
{
    let mut i = lo;
    while i < hi
        invariant
            lo <= i <= hi <= chars@.len(),
            out@ == old(out)@ + chars@.subrange(lo as int, i as int),
        decreases hi - i,
    {
        push_char(out, chars[i]);
        proof {
            assert(chars@.subrange(lo as int, i + 1) =~= chars@.subrange(lo as int, i as int).push(
                chars@[i as int],
            ));
        }
        i += 1;
    }
}

/// The ISO-8601 time of a note id, as `yyyy-mm-ddThh:mm:ssZ`.
pub fn iso_from_id(id: &str) -> (r: Result<String>)
    ensures
        r is Ok <==> is_note_id(id@),
        r matches Ok(iso) ==> iso@ == iso_of_id(id@),
        r is Err ==> r == Err::<String, NtError>(NtError::InvalidNoteId(
            r->Err_0->InvalidNoteId_0,
        )) && r->Err_0->InvalidNoteId_0@ == id@,
{
    validate_id(id)?;
    let chars = chars_of(id);
    let mut out = String::new();
    push_range(&mut out, &chars, 2, 6);
    push_char(&mut out, '-');
    push_range(&mut out, &chars, 6, 8);
    push_char(&mut out, '-');
    push_range(&mut out, &chars, 8, 10);
    push_char(&mut out, 'T');
    push_range(&mut out, &chars, 11, 13);
    push_char(&mut out, ':');
    push_range(&mut out, &chars, 13, 15);
    push_char(&mut out, ':');
    push_range(&mut out, &chars, 15, 17);
    push_char(&mut out, 'Z');
    proof {
        assert(out@ =~= iso_of_id(id@));
    }
    Ok(out)
}

} // verus!

verus! {

#[verifier::external_type_specification]
#[verifier::external_body]
pub struct ExPathBuf(std::path::PathBuf);

#[verifier::external_type_specification]
#[verifier::external_body]
pub struct ExPath(std::path::Path);

/// What `Path::join` gives for a directory and a relative file name.
pub uninterp spec fn path_join(dir: &std::path::Path, name: Seq<char>) -> std::path::PathBuf;

/// `Path::join`: the directory with one more component. Its result is named
/// by `path_join` of the directory and the name's characters; what the path
/// holds is not stated, as Verus cannot look into a `PathBuf`.
#[verifier::external_body]
fn join_path(dir: &std::path::Path, file_name: &str) -> (r: std::path::PathBuf)
    ensures
        r == path_join(dir, file_name@),
{
    dir.join(file_name)
}

/// The name of a note's file: its id with the `.md` extension.
pub open spec fn note_file_name(id: Seq<char>) -> Seq<char> {
    id + seq!['.', 'm', 'd']
}

/// The file of a note in a notes directory: `<dir>/<id>.md`, for a valid id only.
pub fn note_path(notes_dir: &std::path::Path, id: &str) -> (r: Result<std::path::PathBuf>)
    ensures
        r is Ok <==> is_note_id(id@),
        r matches Ok(p) ==> p == path_join(notes_dir, note_file_name(id@)),
        r is Err ==> r->Err_0 == NtError::InvalidNoteId(r->Err_0->InvalidNoteId_0)
            && r->Err_0->InvalidNoteId_0@ == id@,
{
    validate_id(id)?;
    let mut file_name = owned(id);
    crate::text::push_char(&mut file_name, '.');
    crate::text::push_char(&mut file_name, 'm');
    crate::text::push_char(&mut file_name, 'd');
    proof {
        assert(file_name@ =~= note_file_name(id@));
    }
    Ok(join_path(notes_dir, file_name.as_str()))
}

proof fn lemma_decimal_short(n: nat)
    ensures
        n < 10 ==> decimal(n).len() == 1,
        n < 100 ==> decimal(n).len() <= 2,
        n < 1000 ==> decimal(n).len() <= 3,
        n < 10000 ==> decimal(n).len() <= 4,
    decreases n,
{
    if n >= 10 {
        lemma_decimal_short(n / 10);
        assert(decimal(n).len() == decimal(n / 10).len() + 1);
    }
}

/// A number below `10^width` (for the widths 2 and 4) pads to exactly
/// `width` ASCII digits.
proof fn lemma_padded_digits(n: nat, width: nat)
    requires
        width == 2 && n < 100 || width == 4 && n < 10000,
    ensures
        padded_decimal(n, width).len() == width,
        forall|i: int| 0 <= i < width ==> is_ascii_digit_char(#[trigger] padded_decimal(n, width)[i]),
{
    lemma_decimal_short(n);
    crate::text::lemma_decimal_digits(n);
    let d = decimal(n);
    let z = Seq::new(pad_count(d.len(), width), |i: int| '0');
    assert forall|i: int| 0 <= i < width implies is_ascii_digit_char(#[trigger] padded_decimal(n, width)[i]) by {
        if i < z.len() {
            assert(padded_decimal(n, width)[i] == '0');
        } else {
            assert(padded_decimal(n, width)[i] == d[i - z.len()]);
        }
    }
}

/// The id of a time in the years 0 to 9999 is a note id, and the ISO form it
/// spells is the time's ISO form.
pub proof fn law_iso_of_timestamp_id(f: (int, int, int, int, int, int))
    requires
        0 <= f.0 < 10000,
        0 <= f.1 < 100,
        0 <= f.2 < 100,
        0 <= f.3 < 100,
        0 <= f.4 < 100,
        0 <= f.5 < 100,
    ensures
        is_note_id(id_text(f)),
        iso_of_id(id_text(f)) == iso_text(f),
{
    let y = padded_decimal(f.0 as nat, 4);
    let mo = padded_decimal(f.1 as nat, 2);
    let d = padded_decimal(f.2 as nat, 2);
    let h = padded_decimal(f.3 as nat, 2);
    let mi = padded_decimal(f.4 as nat, 2);
    let se = padded_decimal(f.5 as nat, 2);
    lemma_padded_digits(f.0 as nat, 4);
    lemma_padded_digits(f.1 as nat, 2);
    lemma_padded_digits(f.2 as nat, 2);
    lemma_padded_digits(f.3 as nat, 2);
    lemma_padded_digits(f.4 as nat, 2);
    lemma_padded_digits(f.5 as nat, 2);
    let id = id_text(f);
    assert(id =~= seq!['N', 'T'] + y + mo + d + seq!['T'] + h + mi + se);
    assert(id.subrange(2, 6) =~= y);
    assert(id.subrange(6, 8) =~= mo);
    assert(id.subrange(8, 10) =~= d);
    assert(id.subrange(11, 13) =~= h);
    assert(id.subrange(13, 15) =~= mi);
    assert(id.subrange(15, 17) =~= se);
    assert forall|k: int| 2 <= k < 10 implies is_ascii_digit_char(#[trigger] id[k]) by {
        if k < 6 {
            assert(id[k] == y[k - 2]);
        } else if k < 8 {
            assert(id[k] == mo[k - 6]);
        } else {
            assert(id[k] == d[k - 8]);
        }
    }
    assert forall|k: int| 11 <= k < 17 implies is_ascii_digit_char(#[trigger] id[k]) by {
        if k < 13 {
            assert(id[k] == h[k - 11]);
        } else if k < 15 {
            assert(id[k] == mi[k - 13]);
        } else {
            assert(id[k] == se[k - 15]);
        }
    }
    assert(iso_of_id(id) =~= iso_text(f));
}

/// The timestamp of a second in the years 0 to 9999 reads back: its id is a
/// note id that spells its ISO form, and its day is the date part of that
/// ISO form, a valid `YYYY-MM-DD` date.
pub proof fn law_timestamp_reads_back(seconds: int)
    requires
        0 <= time_fields(seconds).0 < 10000,
    ensures
        is_note_id(id_text(time_fields(seconds))),
        iso_of_id(id_text(time_fields(seconds))) == iso_text(time_fields(seconds)),
        iso_text(time_fields(seconds)).subrange(0, 10) == date_text(
            time_fields(seconds).0,
            time_fields(seconds).1,
            time_fields(seconds).2,
        ),
        is_valid_date_text(
            date_text(time_fields(seconds).0, time_fields(seconds).1, time_fields(seconds).2),
        ),
{
    let f = time_fields(seconds);
    lemma_civil_of_exists(seconds / 86400);
    assert(1 <= f.1 <= 12 && 1 <= f.2 <= 31);
    assert(0 <= seconds % 86400 < 86400);
    assert(0 <= f.3 < 24 && 0 <= f.4 < 60 && 0 <= f.5 < 60);
    law_iso_of_timestamp_id(f);
    let y = padded_decimal(f.0 as nat, 4);
    let mo = padded_decimal(f.1 as nat, 2);
    let d = padded_decimal(f.2 as nat, 2);
    lemma_padded_digits(f.0 as nat, 4);
    lemma_padded_digits(f.1 as nat, 2);
    lemma_padded_digits(f.2 as nat, 2);
    let s = date_text(f.0, f.1, f.2);
    assert(s =~= y + seq!['-'] + mo + seq!['-'] + d);
    assert forall|i: int| 0 <= i < 10 && i != 4 && i != 7 implies is_ascii_digit_char(#[trigger] s[i]) by {
        if i < 4 {
            assert(s[i] == y[i]);
        } else if i < 7 {
            assert(s[i] == mo[i - 5]);
        } else {
            assert(s[i] == d[i - 8]);
        }
    }
    lemma_date_text_fields((f.0, f.1, f.2));
    assert(iso_text(f).subrange(0, 10) =~= s);
}

/// The timestamp of a system time in the years 0 to 9999 reads back: its id
/// is a note id whose ISO form is the timestamp's, and its day is the date
/// part of that form, a valid date.
pub proof fn law_system_timestamp_reads_back(time: std::time::SystemTime, t: Timestamp)
    requires
        timestamp_of(t, time_fields(epoch_seconds(time) as int)),
        0 <= time_fields(epoch_seconds(time) as int).0 < 10000,
    ensures
        is_note_id(t.id@),
        iso_of_id(t.id@) == t.iso@,
        t.day@ == t.iso@.subrange(0, 10),
        is_valid_date_text(t.day@),
{
    law_timestamp_reads_back(epoch_seconds(time) as int);
}

} // verus!
