//! Note bodies: CommonMark text that begins with a `# ` title line.
use vstd::prelude::*;

use crate::error::{NtError, Result};
use crate::text::{
    chars_of, find_char, first_index_from, has_prefix, lemma_first_index_from, slice_chars,
    starts_with, string_of, trim, trim_chars,
};

verus! {

/// The text with every `\r\n` and every lone `\r` turned into `\n`.
pub open spec fn normalize_newlines(s: Seq<char>) -> Seq<char>
    decreases s.len(),
{
    if s.len() == 0 {
        Seq::empty()
    } else if s[0] == '\r' && s.len() >= 2 && s[1] == '\n' {
        seq!['\n'] + normalize_newlines(s.subrange(2, s.len() as int))
    } else if s[0] == '\r' {
        seq!['\n'] + normalize_newlines(s.drop_first())
    } else {
        seq![s[0]] + normalize_newlines(s.drop_first())
    }
}

proof fn lemma_normalized_has_no_return(s: Seq<char>)
    ensures
        !normalize_newlines(s).contains('\r'),
    decreases s.len(),
{
    if s.len() > 0 {
        if s[0] == '\r' && s.len() >= 2 && s[1] == '\n' {
            lemma_normalized_has_no_return(s.subrange(2, s.len() as int));
            let t = normalize_newlines(s.subrange(2, s.len() as int));
            assert forall|i: int| 0 <= i < normalize_newlines(s).len() implies normalize_newlines(s)[i] != '\r' by {
                if i > 0 {
                    assert(normalize_newlines(s)[i] == t[i - 1]);
                }
            }
        } else {
            lemma_normalized_has_no_return(s.drop_first());
            let t = normalize_newlines(s.drop_first());
            assert forall|i: int| 0 <= i < normalize_newlines(s).len() implies normalize_newlines(s)[i] != '\r' by {
                if i > 0 {
                    assert(normalize_newlines(s)[i] == t[i - 1]);
                }
            }
        }
    }
}

proof fn lemma_normalize_without_return(s: Seq<char>)
    requires
        !s.contains('\r'),
    ensures
        normalize_newlines(s) == s,
    decreases s.len(),
{
    if s.len() > 0 {
        assert(s[0] != '\r');
        assert(!s.drop_first().contains('\r')) by {
            if s.drop_first().contains('\r') {
                let i = choose|i: int| 0 <= i < s.drop_first().len() && s.drop_first()[i] == '\r';
                assert(s[i + 1] == '\r');
            }
        }
        lemma_normalize_without_return(s.drop_first());
        assert(seq![s[0]] + s.drop_first() =~= s);
    }
}

/// Normalizing line endings twice gives what normalizing once gives.
pub proof fn law_normalize_newlines_idempotent(s: Seq<char>)
    ensures
        normalize_newlines(normalize_newlines(s)) == normalize_newlines(s),
{
    lemma_normalized_has_no_return(s);
    lemma_normalize_without_return(normalize_newlines(s));
}

/// The text up to its first `\n`.
pub open spec fn first_line(s: Seq<char>) -> Seq<char> {
    match first_index_from(s, '\n', 0) {
        Some(i) => s.subrange(0, i),
        None => s,
    }
}

/// The title of an ATX heading line `# title`, if it has a nonblank one.
pub open spec fn heading_title(line: Seq<char>) -> Option<Seq<char>> {
    if has_prefix(line, seq!['#', ' ']) && trim(line.subrange(2, line.len() as int)).len() > 0 {
        Some(trim(line.subrange(2, line.len() as int)))
    } else {
        None
    }
}

pub proof fn lemma_normalize_newlines_empty(s: Seq<char>)
    ensures
        normalize_newlines(s).len() == 0 <==> s.len() == 0,
{
}

fn normalized_chars(s: &Vec<char>) -> (out: Vec<char>)
    ensures
        out@ == normalize_newlines(s@),
{
    let mut out: Vec<char> = Vec::new();
    let mut i: usize = 0;
    proof {
        assert(s@.subrange(0, s@.len() as int) =~= s@);
    }
    while i < s.len()
        invariant
            i <= s@.len(),
            out@ + normalize_newlines(s@.subrange(i as int, s@.len() as int)) == normalize_newlines(
                s@,
            ),
        decreases s@.len() - i,
    {
        let rest = Ghost(s@.subrange(i as int, s@.len() as int));
        if s[i] == '\r' && i + 1 < s.len() && s[i + 1] == '\n' {
            proof {
                assert(rest@.subrange(2, rest@.len() as int) =~= s@.subrange(i + 2, s@.len() as int));
            }
            out.push('\n');
            i += 2;
        } else {
            proof {
                assert(rest@.drop_first() =~= s@.subrange(i + 1, s@.len() as int));
            }
            if s[i] == '\r' {
                out.push('\n');
            } else {
                out.push(s[i]);
            }
            i += 1;
        }
        proof {
            assert(out@ + normalize_newlines(s@.subrange(i as int, s@.len() as int)) =~= normalize_newlines(s@));
        }
    }
    proof {
        assert(s@.subrange(i as int, s@.len() as int) =~= Seq::<char>::empty());
        assert(out@ =~= out@ + Seq::<char>::empty());
    }
    out
}

/// The title of a heading line, if it has a nonblank one.
pub fn title_of_heading(line: &[char]) -> (r: Option<Vec<char>>)
    ensures
        match r {
            Some(t) => heading_title(line@) == Some(t@),
            None => heading_title(line@) is None,
        },
{
    proof {
        reveal_strlit("# ");
        assert("# "@ =~= seq!['#', ' ']);
    }
    if !starts_with(line, "# ") {
        return None;
    }
    let rest = slice_chars(line, 2, line.len());
    let title = trim_chars(rest.as_slice());
    if title.len() == 0 {
        None
    } else {
        Some(title)
    }
}

/// A body with normalized line endings, and the title of its first line.
pub fn normalize_body(body: &str) -> (r: Result<(String, String)>)
    ensures
        body@.len() == 0 ==> r == Err::<(String, String), NtError>(NtError::EmptyBody),
        body@.len() > 0 && heading_title(first_line(normalize_newlines(body@))) is None ==> r
            == Err::<(String, String), NtError>(NtError::InvalidTitle),
        r matches Ok((b, t)) ==> b@ == normalize_newlines(body@) && heading_title(
            first_line(normalize_newlines(body@)),
        ) == Some(t@),
        body@.len() > 0 && heading_title(first_line(normalize_newlines(body@))) is Some ==> r is Ok,
{
    let chars = chars_of(body);
    if chars.len() == 0 {
        return Err(NtError::EmptyBody);
    }
    let normalized = normalized_chars(&chars);
    proof {
        lemma_normalize_newlines_empty(body@);
        lemma_first_index_from(normalized@, '\n', 0);
    }
    let end = match find_char(normalized.as_slice(), '\n') {
        Some(end) => end,
        None => normalized.len(),
    };
    let line = slice_chars(normalized.as_slice(), 0, end);
    proof {
        assert(line@ == first_line(normalized@)) by {
            if first_index_from(normalized@, '\n', 0) is None {
                assert(normalized@.subrange(0, normalized@.len() as int) =~= normalized@);
            }
        }
    }
    match title_of_heading(line.as_slice()) {
        Some(title) => Ok((string_of(normalized.as_slice()), string_of(title.as_slice()))),
        None => Err(NtError::InvalidTitle),
    }
}

} // verus!
