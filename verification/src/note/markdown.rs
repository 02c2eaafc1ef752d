//! What a note's Markdown body says of its title and its sources.
use vstd::prelude::*;

use crate::error::{NtError, Result};
use crate::lexical::{insert_sorted, strictly_sorted, views};
use crate::note::body::{heading_title, title_of_heading};
use crate::text::{
    chars_of, find_char, first_index_from, is_whitespace, lemma_first_index_from, slice_chars,
    string_of, trim, trim_chars, unicode_whitespace,
};

verus! {

/// Where the first line of `s` ends: the index of its first `\n`, or its length.
pub open spec fn line_end(s: Seq<char>) -> int {
    match first_index_from(s, '\n', 0) {
        Some(i) => i,
        None => s.len() as int,
    }
}

proof fn lemma_line_end(s: Seq<char>)
    ensures
        0 <= line_end(s) <= s.len(),
        line_end(s) < s.len() ==> s[line_end(s)] == '\n',
{
    lemma_first_index_from(s, '\n', 0);
}

/// The first line of `s`, trimmed, that is not blank.
pub open spec fn first_nonblank_line(s: Seq<char>) -> Option<Seq<char>>
    decreases s.len(),
{
    let end = line_end(s);
    if 0 <= end <= s.len() && trim(s.subrange(0, end)).len() > 0 {
        Some(trim(s.subrange(0, end)))
    } else if 0 <= end < s.len() {
        first_nonblank_line(s.subrange(end + 1, s.len() as int))
    } else {
        None
    }
}

/// The title of a body: its first nonblank line, which must be an ATX `# ` heading.
pub open spec fn body_title(s: Seq<char>) -> Option<Seq<char>> {
    match first_nonblank_line(s) {
        Some(line) => heading_title(line),
        None => None,
    }
}

/// The title of the first nonblank line, which must be a `# ` heading with text.
pub fn title_from_body(body: &str) -> (r: Result<String>)
    ensures
        match r {
            Ok(title) => body_title(body@) == Some(title@),
            Err(e) => body_title(body@) is None && e == NtError::InvalidTitle,
        },
{
    let mut rest = chars_of(body);
    while rest.len() > 0
        invariant
            first_nonblank_line(body@) == first_nonblank_line(rest@),
        decreases rest@.len(),
    {
        proof {
            lemma_line_end(rest@);
            lemma_first_index_from(rest@, '\n', 0);
        }
        let end = match find_char(rest.as_slice(), '\n') {
            Some(i) => i,
            None => rest.len(),
        };
        let line = slice_chars(rest.as_slice(), 0, end);
        let trimmed = trim_chars(line.as_slice());
        if trimmed.len() > 0 {
            return match title_of_heading(trimmed.as_slice()) {
                Some(title) => Ok(string_of(title.as_slice())),
                None => Err(NtError::InvalidTitle),
            };
        }
        if end == rest.len() {
            return Err(NtError::InvalidTitle);
        }
        rest = slice_chars(rest.as_slice(), end + 1, rest.len());
    }
    proof {
        assert(trim(rest@.subrange(0, 0)).len() == 0) by {
            assert(rest@.subrange(0, 0) =~= Seq::<char>::empty());
        }
    }
    Err(NtError::InvalidTitle)
}

// ---------------------------------------------------------------------------
// Sources
// ---------------------------------------------------------------------------
/// Whether `p` occurs in `s` at index `i`.
pub open spec fn occurs_at(s: Seq<char>, p: Seq<char>, i: int) -> bool {
    0 <= i && i + p.len() <= s.len() && s.subrange(i, i + p.len()) == p
}

/// The first index at or after `from` where `p` occurs in `s`.
pub open spec fn first_occurrence_from(s: Seq<char>, p: Seq<char>, from: int) -> Option<int>
    decreases s.len() + 1 - from,
{
    if from < 0 || from + p.len() > s.len() {
        None
    } else if occurs_at(s, p, from) {
        Some(from)
    } else {
        first_occurrence_from(s, p, from + 1)
    }
}

pub open spec fn http_prefix() -> Seq<char> {
    seq!['h', 't', 't', 'p', ':', '/', '/']
}

pub open spec fn https_prefix() -> Seq<char> {
    seq!['h', 't', 't', 'p', 's', ':', '/', '/']
}

/// Where the first `http://` or `https://` of `s` begins.
pub open spec fn url_start(s: Seq<char>) -> Option<int> {
    match (first_occurrence_from(s, http_prefix(), 0), first_occurrence_from(s, https_prefix(), 0)) {
        (Some(a), Some(b)) => Some(if a <= b { a } else { b }),
        (Some(a), None) => Some(a),
        (None, Some(b)) => Some(b),
        (None, None) => None,
    }
}

/// The characters that end a URL in running text.
pub open spec fn is_url_terminator(c: char) -> bool {
    unicode_whitespace(c) || c == ')' || c == ']' || c == '>' || c == '"' || c == '\''
}

/// The punctuation dropped from the end of a URL.
pub open spec fn is_trailing_punctuation(c: char) -> bool {
    c == '.' || c == ',' || c == ':' || c == ';' || c == '!' || c == '?'
}

/// The first index at or after `from` that ends a URL, or the length of `s`.
pub open spec fn url_end(s: Seq<char>, from: int) -> int
    decreases s.len() - from,
{
    if from < 0 || from >= s.len() {
        s.len() as int
    } else if is_url_terminator(s[from]) {
        from
    } else {
        url_end(s, from + 1)
    }
}

/// The text without its trailing punctuation.
pub open spec fn trim_punctuation(t: Seq<char>) -> Seq<char>
    decreases t.len(),
{
    if t.len() > 0 && is_trailing_punctuation(t.last()) {
        trim_punctuation(t.drop_last())
    } else {
        t
    }
}

proof fn lemma_url_end(s: Seq<char>, from: int)
    requires
        0 <= from <= s.len(),
    ensures
        from <= url_end(s, from) <= s.len(),
        forall|k: int| from <= k < url_end(s, from) ==> !is_url_terminator(#[trigger] s[k]),
        url_end(s, from) < s.len() ==> is_url_terminator(s[url_end(s, from)]),
    decreases s.len() - from,
{
    if from < s.len() && !is_url_terminator(s[from]) {
        lemma_url_end(s, from + 1);
    }
}

proof fn lemma_first_occurrence(s: Seq<char>, p: Seq<char>, from: int)
    requires
        0 <= from,
    ensures
        first_occurrence_from(s, p, from) matches Some(i) ==> from <= i && occurs_at(s, p, i),
    decreases s.len() + 1 - from,
{
    if from + p.len() <= s.len() && !occurs_at(s, p, from) {
        lemma_first_occurrence(s, p, from + 1);
    }
}

proof fn lemma_url_start(s: Seq<char>)
    ensures
        url_start(s) matches Some(st) ==> 0 <= st && st + 7 <= s.len() && s[st] == 'h',
{
    lemma_first_occurrence(s, http_prefix(), 0);
    lemma_first_occurrence(s, https_prefix(), 0);
    if let Some(a) = first_occurrence_from(s, http_prefix(), 0) {
        assert(s.subrange(a, a + 7)[0] == 'h');
    }
    if let Some(b) = first_occurrence_from(s, https_prefix(), 0) {
        assert(s.subrange(b, b + 8)[0] == 'h');
    }
}

/// Every URL candidate of a text, in order of appearance.
pub open spec fn url_candidates(s: Seq<char>) -> Seq<Seq<char>>
    decreases s.len(),
{
    match url_start(s) {
        Some(st) => {
            let end = url_end(s, st);
            let next = if end > st + 1 {
                end
            } else {
                st + 1
            };
            if 0 <= st && st < next <= s.len() {
                seq![trim_punctuation(s.subrange(st, end))] + url_candidates(
                    s.subrange(next, s.len() as int),
                )
            } else {
                Seq::empty()
            }
        },
        None => Seq::empty(),
    }
}

/// The distinct nonempty URL candidates of a text.
pub open spec fn source_set(s: Seq<char>) -> Set<Seq<char>> {
    url_candidates(s).filter(|t: Seq<char>| t.len() > 0).to_set()
}

fn occurs_at_exec(s: &[char], p: &[char], i: usize) -> (r: bool)
    requires
        i + p@.len() <= s@.len(),
    ensures
        r == occurs_at(s@, p@, i as int),
{
    let n = s.len();
    let mut k: usize = 0;
    while k < p.len()
        invariant
            n == s@.len(),
            i + p@.len() <= s@.len(),
            k <= p@.len(),
            forall|j: int| 0 <= j < k ==> s@[i + j] == p@[j],
        decreases p@.len() - k,
    {
        if s[i + k] != p[k] {
            assert(s@.subrange(i as int, i + p@.len())[k as int] != p@[k as int]);
            return false;
        }
        k += 1;
    }
    assert(s@.subrange(i as int, i + p@.len()) =~= p@);
    true
}

fn find_seq(s: &[char], p: &[char]) -> (r: Option<usize>)
    ensures
        match r {
            Some(i) => first_occurrence_from(s@, p@, 0) == Some(i as int),
            None => first_occurrence_from(s@, p@, 0) is None,
        },
{
    let n = s.len();
    let m = p.len();
    if m == 0 {
        assert(s@.subrange(0, 0) =~= p@);
        return Some(0);
    }
    let mut i: usize = 0;
    while i <= n && n - i >= m
        invariant
            n == s@.len(),
            m == p@.len(),
            m > 0,
            first_occurrence_from(s@, p@, 0) == first_occurrence_from(s@, p@, i as int),
        decreases s@.len() + 1 - i,
    {
        if occurs_at_exec(s, p, i) {
            return Some(i);
        }
        i += 1;
    }
    None
}

fn next_url_offset(text: &[char]) -> (r: Option<usize>)
    ensures
        match r {
            Some(i) => url_start(text@) == Some(i as int),
            None => url_start(text@) is None,
        },
{
    let http = chars_of("http://");
    let https = chars_of("https://");
    proof {
        reveal_strlit("http://");
        reveal_strlit("https://");
        assert(http@ =~= http_prefix());
        assert(https@ =~= https_prefix());
    }
    match (find_seq(text, http.as_slice()), find_seq(text, https.as_slice())) {
        (Some(a), Some(b)) => Some(if a <= b {
            a
        } else {
            b
        }),
        (Some(a), None) => Some(a),
        (None, Some(b)) => Some(b),
        (None, None) => None,
    }
}

fn url_terminator(c: char) -> (r: bool)
    ensures
        r == is_url_terminator(c),
{
    is_whitespace(c) || c == ')' || c == ']' || c == '>' || c == '"' || c == '\''
}

fn url_end_from(s: &[char], from: usize) -> (r: usize)
    requires
        from <= s@.len(),
    ensures
        r == url_end(s@, from as int),
{
    let mut k = from;
    while k < s.len() && !url_terminator(s[k])
        invariant
            from <= k <= s@.len(),
            url_end(s@, from as int) == url_end(s@, k as int),
        decreases s@.len() - k,
    {
        k += 1;
    }
    k
}

fn trimmed_source(s: &[char]) -> (out: Vec<char>)
    ensures
        out@ == trim_punctuation(s@),
{
    let mut end = s.len();
    proof {
        assert(s@.subrange(0, s@.len() as int) =~= s@);
    }
    while end > 0 && (s[end - 1] == '.' || s[end - 1] == ',' || s[end - 1] == ':' || s[end - 1]
        == ';' || s[end - 1] == '!' || s[end - 1] == '?')
        invariant
            end <= s@.len(),
            trim_punctuation(s@) == trim_punctuation(s@.subrange(0, end as int)),
        decreases end,
    {
        proof {
            assert(s@.subrange(0, end as int).drop_last() =~= s@.subrange(0, end - 1));
        }
        end -= 1;
    }
    slice_chars(s, 0, end)
}

/// The distinct `http://` and `https://` URLs of a body, sorted.
pub fn sources_from_body(body: &str) -> (sources: Vec<String>)
    ensures
        strictly_sorted(views(sources@)),
        views(sources@).to_set() == source_set(body@),
{
    let mut sources: Vec<String> = Vec::new();
    let mut rest = chars_of(body);
    let ghost mut seen: Seq<Seq<char>> = Seq::empty();
    proof {
        assert(views(sources@) =~= Seq::<Seq<char>>::empty());
        assert(seen + url_candidates(rest@) =~= url_candidates(body@));
    }
    loop
        invariant
            strictly_sorted(views(sources@)),
            seen + url_candidates(rest@) == url_candidates(body@),
            views(sources@).to_set() == seen.filter(|t: Seq<char>| t.len() > 0).to_set(),
        ensures
            strictly_sorted(views(sources@)),
            views(sources@).to_set() == source_set(body@),
        decreases rest@.len(),
    {
        proof {
            lemma_url_start(rest@);
        }
        let start = match next_url_offset(rest.as_slice()) {
            Some(start) => start,
            None => {
                proof {
                    assert(seen + url_candidates(rest@) =~= seen);
                    assert(seen == url_candidates(body@));
                }
                break;
            },
        };
        proof {
            lemma_url_end(rest@, start as int);
        }
        let end = url_end_from(rest.as_slice(), start);
        let candidate = slice_chars(rest.as_slice(), start, end);
        let source = trimmed_source(candidate.as_slice());
        let next = if end > start + 1 {
            end
        } else {
            start + 1
        };
        let ghost old_views = views(sources@);
        if source.len() > 0 {
            insert_sorted(&mut sources, string_of(source.as_slice()));
        }
        proof {
            let tail = url_candidates(rest@.subrange(next as int, rest@.len() as int));
            assert(url_candidates(rest@) == seq![source@] + tail);
            assert(seen + url_candidates(rest@) =~= seen.push(source@) + tail);
            seen.lemma_filter_push(source@, |t: Seq<char>| t.len() > 0);
            if source@.len() > 0 {
                seen.filter(|t: Seq<char>| t.len() > 0).lemma_push_to_set_commute(source@);
            }
            seen = seen.push(source@);
        }
        rest = slice_chars(rest.as_slice(), next, rest.len());
    }
    sources
}

} // verus!
