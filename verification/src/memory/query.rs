//! Memory queries: bounds on sequence numbers, a limit, and literal terms.
use vstd::prelude::*;

use crate::error::{NtError, Result};
use crate::lexical::{
    and_expression, fts_and_expression, insert_all_sorted, lemma_sorted_of, literal_token_seq,
    literal_tokens, sorted_of, strictly_sorted, string_views, views,
};
use crate::query::{is_filter_expression_spec, valid_limit};
use crate::text::{chars_all_digits, chars_of, has_prefix, owned, parse_digits, slice_chars, starts_with, string_of};

verus! {

/// `since`, `until` and `limit`, as read so far.
pub type Bounds = (Option<int>, Option<int>, Option<int>);

pub open spec fn since_prefix() -> Seq<char> {
    seq!['s', 'i', 'n', 'c', 'e', ':']
}

pub open spec fn until_prefix() -> Seq<char> {
    seq!['u', 'n', 't', 'i', 'l', ':']
}

pub open spec fn limit_prefix() -> Seq<char> {
    seq!['l', 'i', 'm', 'i', 't', ':']
}

/// Which bound an expression sets: 0 for `since:`, 1 for `until:`, 2 for
/// `limit:`, none for anything else.
pub open spec fn bound_kind(e: Seq<char>) -> Option<int> {
    if has_prefix(e, since_prefix()) {
        Some(0)
    } else if has_prefix(e, until_prefix()) {
        Some(1)
    } else if has_prefix(e, limit_prefix()) {
        Some(2)
    } else {
        None
    }
}

pub open spec fn bound_field(kind: int) -> Seq<char> {
    if kind == 0 {
        "memory since"@
    } else if kind == 1 {
        "memory until"@
    } else {
        "memory limit"@
    }
}

pub open spec fn bound_of(st: Bounds, kind: int) -> Option<int> {
    if kind == 0 {
        st.0
    } else if kind == 1 {
        st.1
    } else {
        st.2
    }
}

/// The bounds after `e`, which sets bound `kind` to the value after its six
/// character prefix: a positive `i64` given once.
pub open spec fn bounds_step(st: Bounds, kind: int, e: Seq<char>) -> Option<Bounds> {
    let v = e.subrange(6, e.len() as int);
    if bound_of(st, kind) is Some || !valid_limit(v) {
        None
    } else if kind == 0 {
        Some((Some(crate::text::digits_value(v) as int), st.1, st.2))
    } else if kind == 1 {
        Some((st.0, Some(crate::text::digits_value(v) as int), st.2))
    } else {
        Some((st.0, st.1, Some(crate::text::digits_value(v) as int)))
    }
}

/// The error a bound that does not read fails with.
pub open spec fn bound_error(st: Bounds, kind: int, e: Seq<char>, err: NtError) -> bool {
    &&& err is InvalidValue
    &&& err->field@ == bound_field(kind)
    &&& if bound_of(st, kind) is Some {
        err->value@ == "duplicate"@
    } else {
        err->value@ == e.subrange(6, e.len() as int)
    }
}

/// `since` is not after `until`.
pub open spec fn range_ok(st: Bounds) -> bool {
    !(st.0 is Some && st.1 is Some && st.0->0 > st.1->0)
}

pub open spec fn is_range_error(err: NtError) -> bool {
    err is InvalidValue && err->field@ == "memory range"@ && err->value@ == "since exceeds until"@
}

pub open spec fn no_bounds() -> Bounds {
    (None, None, None)
}

// ---------------------------------------------------------------------------
// Listing
// ---------------------------------------------------------------------------
/// The bounds of listing expressions, if every one is a bound that reads.
pub open spec fn list_bounds(es: Seq<Seq<char>>) -> Option<Bounds>
    decreases es.len(),
{
    if es.len() == 0 {
        Some(no_bounds())
    } else {
        match list_bounds(es.drop_last()) {
            Some(st) => match bound_kind(es.last()) {
                Some(kind) => bounds_step(st, kind, es.last()),
                None => None,
            },
            None => None,
        }
    }
}

/// Listing expression `i` is the first that does not read, and fails with `err`.
pub open spec fn list_fails_at(es: Seq<Seq<char>>, i: int, err: NtError) -> bool {
    &&& 0 <= i < es.len()
    &&& match list_bounds(es.subrange(0, i)) {
        Some(st) => match bound_kind(es[i]) {
            Some(kind) => bounds_step(st, kind, es[i]) is None && bound_error(st, kind, es[i], err),
            None => err is InvalidValue && err->field@ == "memory filter"@ && err->value@ == es[i],
        },
        None => false,
    }
}

// ---------------------------------------------------------------------------
// Recall and context
// ---------------------------------------------------------------------------
/// The bounds and words of recall expressions, if they all read.
pub open spec fn recall_state(es: Seq<Seq<char>>) -> Option<(Bounds, Set<Seq<char>>)>
    decreases es.len(),
{
    if es.len() == 0 {
        Some((no_bounds(), Set::empty()))
    } else {
        match recall_state(es.drop_last()) {
            Some(st) => {
                let e = es.last();
                match bound_kind(e) {
                    Some(kind) => match bounds_step(st.0, kind, e) {
                        Some(b) => Some((b, st.1)),
                        None => None,
                    },
                    None => if is_filter_expression_spec(e) {
                        None
                    } else {
                        Some((st.0, st.1 + literal_token_seq(e).to_set()))
                    },
                }
            },
            None => None,
        }
    }
}

pub open spec fn recall_fails_at(es: Seq<Seq<char>>, i: int, err: NtError) -> bool {
    &&& 0 <= i < es.len()
    &&& match recall_state(es.subrange(0, i)) {
        Some(st) => match bound_kind(es[i]) {
            Some(kind) => bounds_step(st.0, kind, es[i]) is None && bound_error(st.0, kind, es[i], err),
            None => is_filter_expression_spec(es[i]) && err is InvalidValue && err->field@
                == "memory filter"@ && err->value@ == es[i],
        },
        None => false,
    }
}

/// The words of context expressions, if none is a filter.
pub open spec fn context_state(es: Seq<Seq<char>>) -> Option<Set<Seq<char>>>
    decreases es.len(),
{
    if es.len() == 0 {
        Some(Set::empty())
    } else {
        match context_state(es.drop_last()) {
            Some(terms) => if is_filter_expression_spec(es.last()) {
                None
            } else {
                Some(terms + literal_token_seq(es.last()).to_set())
            },
            None => None,
        }
    }
}

pub open spec fn context_fails_at(es: Seq<Seq<char>>, i: int, err: NtError) -> bool {
    &&& 0 <= i < es.len()
    &&& context_state(es.subrange(0, i)) is Some
    &&& is_filter_expression_spec(es[i])
    &&& err is InvalidValue && err->field@ == "memory context filter"@ && err->value@ == es[i]
}

// ---------------------------------------------------------------------------
// Parsing
// ---------------------------------------------------------------------------
pub open spec fn opt_int(v: Option<i64>) -> Option<int> {
    match v {
        Some(x) => Some(x as int),
        None => None,
    }
}

/// Bounds read so far by the parsers.
struct ParsedFilters {
    since: Option<i64>,
    until: Option<i64>,
    limit: Option<i64>,
}

impl ParsedFilters {
    spec fn view(&self) -> Bounds {
        (opt_int(self.since), opt_int(self.until), opt_int(self.limit))
    }

    fn new() -> (r: Self)
        ensures
            r.view() == no_bounds(),
    {
        ParsedFilters { since: None, until: None, limit: None }
    }

    /// Reads a bound, or gives `Ok(false)` for any other expression.
    fn parse_filter(&mut self, expression: &[char]) -> (r: Result<bool>)
        ensures
            match bound_kind(expression@) {
                None => r == Ok::<bool, NtError>(false) && final(self).view() == old(self).view(),
                Some(kind) => match bounds_step(old(self).view(), kind, expression@) {
                    Some(b) => r == Ok::<bool, NtError>(true) && final(self).view() == b,
                    None => r matches Err(e) && bound_error(old(self).view(), kind, expression@, e),
                },
            },
    {
        proof {
            reveal_strlit("since:");
            reveal_strlit("until:");
            reveal_strlit("limit:");
            assert("since:"@ =~= since_prefix());
            assert("until:"@ =~= until_prefix());
            assert("limit:"@ =~= limit_prefix());
            reveal_strlit("memory since");
            reveal_strlit("memory until");
            reveal_strlit("memory limit");
        }
        if starts_with(expression, "since:") {
            let value = slice_chars(expression, 6, expression.len());
            parse_unique_positive("memory since", value.as_slice(), &mut self.since)?;
            return Ok(true);
        }
        if starts_with(expression, "until:") {
            let value = slice_chars(expression, 6, expression.len());
            parse_unique_positive("memory until", value.as_slice(), &mut self.until)?;
            return Ok(true);
        }
        if starts_with(expression, "limit:") {
            let value = slice_chars(expression, 6, expression.len());
            parse_unique_positive("memory limit", value.as_slice(), &mut self.limit)?;
            return Ok(true);
        }
        Ok(false)
    }

    /// Refuses `since` after `until`.
    fn validate_range(&self) -> (r: Result<()>)
        ensures
            r is Ok <==> range_ok(self.view()),
            r matches Err(e) ==> is_range_error(e),
    {
        match (self.since, self.until) {
            (Some(since), Some(until)) => if since > until {
                Err(NtError::InvalidValue { field: "memory range", value: owned("since exceeds until") })
            } else {
                Ok(())
            },
            _ => Ok(()),
        }
    }
}

/// Reads a positive `i64` into a bound that is not set yet.
fn parse_unique_positive(field: &'static str, value: &[char], target: &mut Option<i64>) -> (r: Result<()>)
    ensures
        (*old(target)) is Some ==> (r matches Err(e) && e is InvalidValue && e->field == field
            && e->value@ == "duplicate"@ && *final(target) == *old(target)),
        (*old(target)) is None && !valid_limit(value@) ==> (r matches Err(e) && e is InvalidValue
            && e->field == field && e->value@ == value@ && *final(target) == *old(target)),
        (*old(target)) is None && valid_limit(value@) ==> r is Ok && opt_int(*final(target)) == Some(
            crate::text::digits_value(value@) as int,
        ),
{
    if target.is_some() {
        return Err(NtError::InvalidValue { field, value: owned("duplicate") });
    }
    if value.len() == 0 || !chars_all_digits(value) {
        return Err(NtError::InvalidValue { field, value: string_of(value) });
    }
    let parsed = match parse_digits(value, 9223372036854775807) {
        Some(v) => v,
        None => {
            return Err(NtError::InvalidValue { field, value: string_of(value) });
        },
    };
    if parsed == 0 {
        return Err(NtError::InvalidValue { field, value: string_of(value) });
    }
    *target = Some(parsed as i64);
    Ok(())
}

fn is_filter_expression(expression: &[char]) -> (r: bool)
    ensures
        r == is_filter_expression_spec(expression@),
{
    crate::query::filter_expression(expression)
}

proof fn lemma_prefix_none<T>(es: Seq<Seq<char>>, k: int, state: spec_fn(Seq<Seq<char>>) -> Option<T>)
    requires
        0 <= k <= es.len(),
        state(es.subrange(0, k)) is None,
        forall|s: Seq<Seq<char>>| s.len() > 0 && #[trigger] state(s.drop_last()) is None ==> state(s) is None,
    ensures
        state(es) is None,
    decreases es.len() - k,
{
    if k < es.len() {
        assert(es.subrange(0, k + 1).drop_last() =~= es.subrange(0, k));
        lemma_prefix_none(es, k + 1, state);
    } else {
        assert(es.subrange(0, k) =~= es);
    }
}

/// A query of the memories to list: bounds on their sequence numbers and a limit.
#[derive(Clone, Debug, PartialEq, Eq)]
pub struct MemoryListQuery {
    since: Option<i64>,
    until: Option<i64>,
    limit: Option<i64>,
}

impl MemoryListQuery {
    pub closed spec fn view(&self) -> Bounds {
        (opt_int(self.since), opt_int(self.until), opt_int(self.limit))
    }

    /// Reads listing expressions: each must be `since:`, `until:` or `limit:`
    /// with a positive number, each given at most once, with `since` not after
    /// `until`.
    pub fn parse(expressions: &[String]) -> (r: Result<Self>)
        ensures
            match list_bounds(string_views(expressions@)) {
                Some(st) => if range_ok(st) {
                    r matches Ok(q) && q.view() == st
                } else {
                    r matches Err(e) && is_range_error(e)
                },
                None => r matches Err(e) && exists|i: int| list_fails_at(string_views(expressions@), i, e),
            },
    {
        let ghost es = string_views(expressions@);
        let mut parsed = ParsedFilters::new();
        let mut k: usize = 0;
        proof {
            assert(es.subrange(0, 0) =~= Seq::<Seq<char>>::empty());
        }
        while k < expressions.len()
            invariant
                k <= expressions@.len(),
                es == string_views(expressions@),
                list_bounds(es.subrange(0, k as int)) == Some(parsed.view()),
            decreases expressions@.len() - k,
        {
            let chars = chars_of(expressions[k].as_str());
            proof {
                assert(es.subrange(0, k + 1).drop_last() =~= es.subrange(0, k as int));
                assert(es[k as int] == chars@);
            }
            let ghost before = parsed.view();
            match parsed.parse_filter(chars.as_slice()) {
                Ok(true) => {},
                Ok(false) => {
                    proof {
                        reveal_strlit("memory filter");
                        lemma_prefix_none(es, k + 1, |s: Seq<Seq<char>>| list_bounds(s));
                    }
                    let e = NtError::InvalidValue { field: "memory filter", value: string_of(chars.as_slice()) };
                    proof {
                        assert(list_fails_at(es, k as int, e));
                    }
                    return Err(e);
                },
                Err(e) => {
                    proof {
                        lemma_prefix_none(es, k + 1, |s: Seq<Seq<char>>| list_bounds(s));
                        assert(list_fails_at(es, k as int, e));
                    }
                    return Err(e);
                },
            }
            k += 1;
        }
        proof {
            assert(es.subrange(0, expressions@.len() as int) =~= es);
        }
        parsed.validate_range()?;
        Ok(MemoryListQuery { since: parsed.since, until: parsed.until, limit: parsed.limit })
    }

    pub fn since(&self) -> (r: Option<i64>)
        ensures
            opt_int(r) == self.view().0,
    {
        self.since
    }

    pub fn until(&self) -> (r: Option<i64>)
        ensures
            opt_int(r) == self.view().1,
    {
        self.until
    }

    pub fn limit(&self) -> (r: Option<i64>)
        ensures
            opt_int(r) == self.view().2,
    {
        self.limit
    }
}

/// A recall query: bounds, a limit, and the words to search for.
#[derive(Clone, Debug, PartialEq, Eq)]
pub struct MemoryRecallQuery {
    since: Option<i64>,
    until: Option<i64>,
    limit: Option<i64>,
    terms: Vec<String>,
}

impl MemoryRecallQuery {
    pub closed spec fn view(&self) -> Bounds {
        (opt_int(self.since), opt_int(self.until), opt_int(self.limit))
    }

    /// The words, sorted, each once.
    pub closed spec fn spec_terms(&self) -> Seq<Seq<char>> {
        views(self.terms@)
    }

    /// Reads recall expressions: bounds as for listing, and words from every
    /// other expression that is not a `field:value` filter; at least one word.
    pub fn parse(expressions: &[String]) -> (r: Result<Self>)
        ensures
            match recall_state(string_views(expressions@)) {
                Some(st) => if !range_ok(st.0) {
                    r matches Err(e) && is_range_error(e)
                } else if st.1.len() == 0 {
                    r matches Err(e) && e is InvalidValue && e->field@ == "memory recall term"@
                        && e->value@ == "none"@
                } else {
                    r matches Ok(q) && q.view() == st.0 && q.spec_terms() == sorted_of(st.1)
                },
                None => r matches Err(e) && exists|i: int| recall_fails_at(string_views(expressions@), i, e),
            },
    {
        let ghost es = string_views(expressions@);
        let mut parsed = ParsedFilters::new();
        let mut terms: Vec<String> = Vec::new();
        let mut k: usize = 0;
        proof {
            assert(es.subrange(0, 0) =~= Seq::<Seq<char>>::empty());
            assert(views(terms@).to_set() =~= Set::<Seq<char>>::empty());
        }
        while k < expressions.len()
            invariant
                k <= expressions@.len(),
                es == string_views(expressions@),
                strictly_sorted(views(terms@)),
                recall_state(es.subrange(0, k as int)) == Some((parsed.view(), views(terms@).to_set())),
            decreases expressions@.len() - k,
        {
            let chars = chars_of(expressions[k].as_str());
            proof {
                assert(es.subrange(0, k + 1).drop_last() =~= es.subrange(0, k as int));
                assert(es[k as int] == chars@);
            }
            match parsed.parse_filter(chars.as_slice()) {
                Ok(true) => {},
                Ok(false) => {
                    if is_filter_expression(chars.as_slice()) {
                        proof {
                            reveal_strlit("memory filter");
                            lemma_prefix_none(es, k + 1, |s: Seq<Seq<char>>| recall_state(s));
                        }
                        let e = NtError::InvalidValue { field: "memory filter", value: string_of(chars.as_slice()) };
                        proof {
                            assert(recall_fails_at(es, k as int, e));
                        }
                        return Err(e);
                    }
                    let tokens = literal_tokens(expressions[k].as_str());
                    proof {
                        assert(views(tokens@) =~= string_views(tokens@));
                    }
                    insert_all_sorted(&mut terms, &tokens);
                },
                Err(e) => {
                    proof {
                        lemma_prefix_none(es, k + 1, |s: Seq<Seq<char>>| recall_state(s));
                        assert(recall_fails_at(es, k as int, e));
                    }
                    return Err(e);
                },
            }
            k += 1;
        }
        proof {
            assert(es.subrange(0, expressions@.len() as int) =~= es);
        }
        parsed.validate_range()?;
        if terms.len() == 0 {
            proof {
                assert(views(terms@) =~= Seq::<Seq<char>>::empty());
                assert(views(terms@).to_set() =~= Set::<Seq<char>>::empty());
            }
            return Err(NtError::InvalidValue { field: "memory recall term", value: owned("none") });
        }
        proof {
            lemma_sorted_of(views(terms@));
            assert(views(terms@).to_set().contains(views(terms@)[0]));
            vstd::seq_lib::seq_to_set_is_finite(views(terms@));
            vstd::set_lib::lemma_set_empty_equivalency_len(views(terms@).to_set());
        }
        Ok(MemoryRecallQuery { since: parsed.since, until: parsed.until, limit: parsed.limit, terms })
    }

    pub fn since(&self) -> (r: Option<i64>)
        ensures
            opt_int(r) == self.view().0,
    {
        self.since
    }

    pub fn until(&self) -> (r: Option<i64>)
        ensures
            opt_int(r) == self.view().1,
    {
        self.until
    }

    pub fn limit(&self) -> (r: Option<i64>)
        ensures
            opt_int(r) == self.view().2,
    {
        self.limit
    }

    /// The words, sorted, each once.
    pub fn terms(&self) -> (r: &[String])
        ensures
            views(r@) == self.spec_terms(),
    {
        self.terms.as_slice()
    }

    /// The words as an SQLite FTS5 query that asks for all of them.
    pub fn fts_expression(&self) -> (r: String)
        ensures
            r@ == and_expression(self.spec_terms()),
    {
        fts_expression(self.terms.as_slice())
    }
}

/// A context query: the words to prefer, possibly none.
#[derive(Clone, Debug, PartialEq, Eq)]
pub struct MemoryContextQuery {
    terms: Vec<String>,
}

impl MemoryContextQuery {
    /// The words, sorted, each once.
    pub closed spec fn spec_terms(&self) -> Seq<Seq<char>> {
        views(self.terms@)
    }

    /// Reads context expressions: words only; a `field:value` filter is refused.
    pub fn parse(expressions: &[String]) -> (r: Result<Self>)
        ensures
            match context_state(string_views(expressions@)) {
                Some(terms) => r matches Ok(q) && q.spec_terms() == sorted_of(terms),
                None => r matches Err(e) && exists|i: int| context_fails_at(string_views(expressions@), i, e),
            },
    {
        let ghost es = string_views(expressions@);
        let mut terms: Vec<String> = Vec::new();
        let mut k: usize = 0;
        proof {
            assert(es.subrange(0, 0) =~= Seq::<Seq<char>>::empty());
            assert(views(terms@).to_set() =~= Set::<Seq<char>>::empty());
        }
        while k < expressions.len()
            invariant
                k <= expressions@.len(),
                es == string_views(expressions@),
                strictly_sorted(views(terms@)),
                context_state(es.subrange(0, k as int)) == Some(views(terms@).to_set()),
            decreases expressions@.len() - k,
        {
            let chars = chars_of(expressions[k].as_str());
            proof {
                assert(es.subrange(0, k + 1).drop_last() =~= es.subrange(0, k as int));
                assert(es[k as int] == chars@);
            }
            if is_filter_expression(chars.as_slice()) {
                proof {
                    reveal_strlit("memory context filter");
                    lemma_prefix_none(es, k + 1, |s: Seq<Seq<char>>| context_state(s));
                }
                let e = NtError::InvalidValue { field: "memory context filter", value: string_of(chars.as_slice()) };
                proof {
                    assert(context_fails_at(es, k as int, e));
                }
                return Err(e);
            }
            let tokens = literal_tokens(expressions[k].as_str());
            proof {
                assert(views(tokens@) =~= string_views(tokens@));
            }
            insert_all_sorted(&mut terms, &tokens);
            k += 1;
        }
        proof {
            assert(es.subrange(0, expressions@.len() as int) =~= es);
            lemma_sorted_of(views(terms@));
        }
        Ok(MemoryContextQuery { terms })
    }

    /// The words, sorted, each once.
    pub fn terms(&self) -> (r: &[String])
        ensures
            views(r@) == self.spec_terms(),
    {
        self.terms.as_slice()
    }

    /// The words as an SQLite FTS5 query that asks for all of them.
    pub fn fts_expression(&self) -> (r: String)
        ensures
            r@ == and_expression(self.spec_terms()),
    {
        fts_expression(self.terms.as_slice())
    }
}

/// Each term in double quotes, inner quotes doubled, joined with ` AND `.
pub fn fts_expression(terms: &[String]) -> (r: String)
    ensures
        r@ == and_expression(views(terms@)),
{
    let r = fts_and_expression(terms);
    proof {
        assert(views(terms@) =~= string_views(terms@));
    }
    r
}

} // verus!
