//! Note bodies given as input: from arguments or standard input, and the
//! editor command that edits one.
use vstd::prelude::*;

use crate::error::{NtError, Result};
use crate::lexical::string_views;
use crate::query::joined;
use crate::text::{append_str, chars_of, push_char, trim, trim_chars};

verus! {

/// The body given as arguments: the arguments joined with spaces.
fn joined_arguments(arguments: &[String]) -> (r: String)
    ensures
        r@ == joined(string_views(arguments@)),
{
    let mut out = String::new();
    let mut k: usize = 0;
    proof {
        assert(string_views(arguments@).subrange(0, 0) =~= Seq::<Seq<char>>::empty());
    }
    while k < arguments.len()
        invariant
            k <= arguments@.len(),
            out@ == joined(string_views(arguments@).subrange(0, k as int)),
        decreases arguments@.len() - k,
    {
        let ghost sv = string_views(arguments@);
        if k > 0 {
            push_char(&mut out, ' ');
        }
        append_str(&mut out, arguments[k].as_str());
        proof {
            assert(sv.subrange(0, k + 1).drop_last() =~= sv.subrange(0, k as int));
            if k == 0 {
                assert(out@ =~= sv[0]);
            }
        }
        k += 1;
    }
    proof {
        assert(string_views(arguments@).subrange(0, arguments@.len() as int) =~= string_views(arguments@));
    }
    out
}

/// The body of a note, given its arguments and what standard input held
/// (`None` when standard input is a terminal and was not read): the arguments
/// joined with spaces, unless standard input also held text; else standard
/// input, which must not be empty; `None` when the editor is to be asked.
pub fn body_from(arguments: &[String], stdin: Option<Result<String>>) -> (r: Option<Result<String>>)
    ensures
        arguments@.len() > 0 ==> match stdin {
            Some(Err(e)) => r == Some(Err::<String, NtError>(e)),
            Some(Ok(text)) => if text@.len() > 0 {
                r == Some(Err::<String, NtError>(NtError::ConflictingBodyInput))
            } else {
                r matches Some(Ok(body)) && body@ == joined(string_views(arguments@))
            },
            None => r matches Some(Ok(body)) && body@ == joined(string_views(arguments@)),
        },
        arguments@.len() == 0 ==> match stdin {
            Some(Err(e)) => r == Some(Err::<String, NtError>(e)),
            Some(Ok(text)) => if text@.len() == 0 {
                r == Some(Err::<String, NtError>(NtError::EmptyBody))
            } else {
                r == Some(Ok::<String, NtError>(text))
            },
            None => r is None,
        },
{
    if arguments.len() > 0 {
        match stdin {
            Some(Err(e)) => {
                return Some(Err(e));
            },
            Some(Ok(text)) => {
                if !text.as_str().is_empty() {
                    return Some(Err(NtError::ConflictingBodyInput));
                }
            },
            None => {},
        }
        return Some(Ok(joined_arguments(arguments)));
    }
    match stdin {
        Some(Err(e)) => Some(Err(e)),
        Some(Ok(text)) => if text.as_str().is_empty() {
            Some(Err(NtError::EmptyBody))
        } else {
            Some(Ok(text))
        },
        None => None,
    }
}

// ---------------------------------------------------------------------------
// Editor commands
// ---------------------------------------------------------------------------
/// The words `shlex::split` reads from a text, or `None` where the text does
/// not read (an unterminated quote or escape).
pub uninterp spec fn shell_words(text: Seq<char>) -> Option<Seq<Seq<char>>>;

/// `shlex::split`: the words of a command line, as a POSIX shell splits them.
#[verifier::external_body]
fn split_words(text: &str) -> (r: Option<Vec<String>>)
    ensures
        match r {
            Some(words) => shell_words(text@) == Some(string_views(words@)),
            None => shell_words(text@) is None,
        },
{
    shlex::split(text)
}

/// A program and its arguments.
#[derive(Debug, PartialEq, Eq)]
pub struct EditorCommand {
    pub program: String,
    pub arguments: Vec<String>,
}

/// The editor setting in force: `$VISUAL` unless it is unset or blank, else
/// `$EDITOR` unless it is unset or blank.
pub open spec fn editor_setting(visual: Option<Seq<char>>, editor: Option<Seq<char>>) -> Option<Seq<char>> {
    match visual {
        Some(v) if trim(v).len() > 0 => Some(v),
        _ => match editor {
            Some(e) if trim(e).len() > 0 => Some(e),
            _ => None,
        },
    }
}

pub open spec fn opt_str(v: Option<&str>) -> Option<Seq<char>> {
    match v {
        Some(s) => Some(s@),
        None => None,
    }
}

fn is_blank(value: &str) -> (r: bool)
    ensures
        r == (trim(value@).len() == 0),
{
    let chars = chars_of(value);
    trim_chars(chars.as_slice()).len() == 0
}

/// The editor command of `$VISUAL` or `$EDITOR`, split into words as a shell
/// would; the first word is the program and must not be empty.
pub fn parse_editor(visual: Option<&str>, editor: Option<&str>) -> (r: Result<EditorCommand>)
    ensures
        match editor_setting(opt_str(visual), opt_str(editor)) {
            None => r == Err::<EditorCommand, NtError>(NtError::EditorNotSet),
            Some(value) => match shell_words(value) {
                Some(words) if words.len() > 0 && words[0].len() > 0 => r matches Ok(c) && c.program@
                    == words[0] && string_views(c.arguments@) == words.drop_first(),
                _ => r == Err::<EditorCommand, NtError>(NtError::InvalidEditor),
            },
        },
{
    let value = match visual {
        Some(v) if !is_blank(v) => v,
        _ => match editor {
            Some(e) if !is_blank(e) => e,
            _ => {
                return Err(NtError::EditorNotSet);
            },
        },
    };
    let mut arguments = match split_words(value) {
        Some(words) => words,
        None => {
            return Err(NtError::InvalidEditor);
        },
    };
    if arguments.len() == 0 || arguments[0].as_str().is_empty() {
        return Err(NtError::InvalidEditor);
    }
    let ghost before = arguments@;
    let program = arguments.remove(0);
    proof {
        assert(string_views(arguments@) =~= string_views(before).drop_first());
    }
    Ok(EditorCommand { program, arguments })
}

} // verus!
