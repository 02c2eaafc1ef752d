//! Note queries: structured filters, a limit, and (for search) literal terms.
use vstd::prelude::*;

use crate::error::{NtError, Result};
use crate::lexical::{
    insert_all_sorted, literal_token_seq, literal_tokens, sorted_of, strictly_sorted, string_views,
    views, lemma_sorted_of,
};
use crate::note::collection::{is_collection_path, is_name, CollectionPath, Tag};
use crate::note::date::{id_of_iso, is_iso_timestamp, Timestamp};
use crate::note::id::{is_note_uuid, uuid_text, NoteId};
use crate::text::{
    all_digits, append_str, chars_all_digits, chars_of, digits_value, first_index_from, has_prefix,
    is_ascii_digit_char, lemma_first_index_from, owned, parse_digits, push_char, slice_chars,
    starts_with, string_of,
};

verus! {

/// What a filter selects, by the texts it was written with.
pub enum FilterSpec {
    IdPrefix(Seq<char>),
    Collection(Seq<char>),
    Tag(Seq<char>),
    LinksTo(Seq<char>),
    LinkedFrom(Seq<char>),
    /// Notes created at or after a time, by its ISO text, note id and day.
    CreatedSince(Seq<char>, Seq<char>, Seq<char>),
    /// Notes updated at or after a time, by its ISO text, note id and day.
    UpdatedSince(Seq<char>, Seq<char>, Seq<char>),
    Not(Box<FilterSpec>),
}

/// A filter of a note listing or search.
#[derive(Debug, PartialEq, Eq)]
pub enum Filter {
    IdPrefix(String),
    Collection(CollectionPath),
    Tag(Tag),
    LinksTo(NoteId),
    LinkedFrom(NoteId),
    CreatedSince(Timestamp),
    UpdatedSince(Timestamp),
    Not(Box<Filter>),
}

impl Filter {
    pub open spec fn view(&self) -> FilterSpec
        decreases self,
    {
        match self {
            Filter::IdPrefix(p) => FilterSpec::IdPrefix(p@),
            Filter::Collection(c) => FilterSpec::Collection(c.view()),
            Filter::Tag(t) => FilterSpec::Tag(t.view()),
            Filter::LinksTo(id) => FilterSpec::LinksTo(uuid_text(id@)),
            Filter::LinkedFrom(id) => FilterSpec::LinkedFrom(uuid_text(id@)),
            Filter::CreatedSince(t) => FilterSpec::CreatedSince(t.iso@, t.id@, t.day@),
            Filter::UpdatedSince(t) => FilterSpec::UpdatedSince(t.iso@, t.id@, t.day@),
            Filter::Not(inner) => FilterSpec::Not(Box::new(inner.view())),
        }
    }
}

pub open spec fn filter_views(filters: Seq<Filter>) -> Seq<FilterSpec> {
    filters.map_values(|f: Filter| f.view())
}

// ---------------------------------------------------------------------------
// Filters
// ---------------------------------------------------------------------------
pub open spec fn is_lower_hex(c: char) -> bool {
    is_ascii_digit_char(c) || ('a' <= c && c <= 'f')
}

/// A prefix of a canonical UUID text: at most 36 characters, hyphens where the
/// UUID has them and lowercase hexadecimal digits elsewhere.
pub open spec fn is_id_prefix(v: Seq<char>) -> bool {
    &&& v.len() <= 36
    &&& forall|i: int|
        0 <= i < v.len() ==> if i == 8 || i == 13 || i == 18 || i == 23 {
            #[trigger] v[i] == '-'
        } else {
            is_lower_hex(v[i])
        }
}

pub open spec fn not_prefix() -> Seq<char> {
    seq!['n', 'o', 't', ':']
}

pub open spec fn limit_prefix() -> Seq<char> {
    seq!['l', 'i', 'm', 'i', 't', ':']
}

/// The part of `e` before its first `:`.
pub open spec fn field_of(e: Seq<char>, colon: int) -> Seq<char> {
    e.subrange(0, colon)
}

/// The part of `e` after its first `:`.
pub open spec fn value_of(e: Seq<char>, colon: int) -> Seq<char> {
    e.subrange(colon + 1, e.len() as int)
}

/// The filter that a field and a nonempty value select, if the value is valid.
pub open spec fn field_filter(field: Seq<char>, value: Seq<char>) -> Option<FilterSpec> {
    if field == "id"@ {
        if is_id_prefix(value) {
            Some(FilterSpec::IdPrefix(value))
        } else {
            None
        }
    } else if field == "collection"@ {
        if is_collection_path(value) {
            Some(FilterSpec::Collection(value))
        } else {
            None
        }
    } else if field == "tag"@ {
        if is_name(value) {
            Some(FilterSpec::Tag(value))
        } else {
            None
        }
    } else if field == "links-to"@ {
        if is_note_uuid(value) {
            Some(FilterSpec::LinksTo(value))
        } else {
            None
        }
    } else if field == "linked-from"@ {
        if is_note_uuid(value) {
            Some(FilterSpec::LinkedFrom(value))
        } else {
            None
        }
    } else if field == "created-since"@ {
        if is_iso_timestamp(value) {
            Some(FilterSpec::CreatedSince(value, id_of_iso(value), value.subrange(0, 10)))
        } else {
            None
        }
    } else if field == "updated-since"@ {
        if is_iso_timestamp(value) {
            Some(FilterSpec::UpdatedSince(value, id_of_iso(value), value.subrange(0, 10)))
        } else {
            None
        }
    } else {
        None
    }
}

/// The filter an expression such as `tag:rust` or `not:collection:work` writes.
pub open spec fn filter_spec(e: Seq<char>) -> Option<FilterSpec>
    decreases e.len(),
{
    if has_prefix(e, not_prefix()) {
        let inner = e.subrange(4, e.len() as int);
        if inner.len() == 0 {
            None
        } else {
            match filter_spec(inner) {
                Some(f) => Some(FilterSpec::Not(Box::new(f))),
                None => None,
            }
        }
    } else {
        match first_index_from(e, ':', 0) {
            None => None,
            Some(colon) => {
                if value_of(e, colon).len() == 0 {
                    None
                } else {
                    field_filter(field_of(e, colon), value_of(e, colon))
                }
            },
        }
    }
}

/// Whether a filter can be written as SQL: each id prefix in it is nonempty
/// and ends in an ASCII character below DEL, so that raising its last
/// character gives an upper bound.
pub open spec fn sql_ready(f: FilterSpec) -> bool
    decreases f,
{
    match f {
        FilterSpec::IdPrefix(p) => p.len() > 0 && (p.last() as u32) < 127,
        FilterSpec::Not(inner) => sql_ready(*inner),
        _ => true,
    }
}

/// Every filter an expression writes can be written as SQL.
pub proof fn lemma_filter_spec_sql_ready(e: Seq<char>)
    ensures
        filter_spec(e) matches Some(f) ==> sql_ready(f),
    decreases e.len(),
{
    if has_prefix(e, not_prefix()) {
        let inner = e.subrange(4, e.len() as int);
        if inner.len() > 0 {
            lemma_filter_spec_sql_ready(inner);
        }
    } else {
        match first_index_from(e, ':', 0) {
            None => {},
            Some(colon) => {
                let value = value_of(e, colon);
                if value.len() > 0 && field_of(e, colon) == "id"@ && is_id_prefix(value) {
                    let last = value[value.len() - 1];
                    assert(last == '-' || is_lower_hex(last));
                }
            },
        }
    }
}

/// The error a field rejects an invalid value with.
pub open spec fn field_error(field: Seq<char>, value: Seq<char>, expression: Seq<char>, err: NtError) -> bool {
    if field == "id"@ {
        err is InvalidValue && err->field@ == "id prefix"@
            && err->value@ == value
    } else if field == "collection"@ {
        err is InvalidValue && err->field == "collection" && err->value@ == value
    } else if field == "tag"@ {
        err is InvalidValue && err->field == "tag" && err->value@ == value
    } else if field == "links-to"@ || field == "linked-from"@ {
        err is InvalidNoteId && err->InvalidNoteId_0@ == value
    } else if field == "created-since"@
        || field == "updated-since"@ {
        err is InvalidValue && err->field@ == "timestamp"@
            && err->value@ == value
    } else {
        is_filter_error(err, expression)
    }
}

/// `InvalidValue` for the field `filter` with the given text.
pub open spec fn is_filter_error(err: NtError, expression: Seq<char>) -> bool {
    err is InvalidValue && err->field@ == "filter"@ && err->value@
        == expression
}

/// The error an expression that writes no filter is refused with.
pub open spec fn filter_error(e: Seq<char>, err: NtError) -> bool
    decreases e.len(),
{
    if has_prefix(e, not_prefix()) {
        let inner = e.subrange(4, e.len() as int);
        if inner.len() == 0 {
            is_filter_error(err, e)
        } else {
            filter_error(inner, err)
        }
    } else {
        match first_index_from(e, ':', 0) {
            None => is_filter_error(err, e),
            Some(colon) => {
                if value_of(e, colon).len() == 0 {
                    is_filter_error(err, e)
                } else {
                    field_error(field_of(e, colon), value_of(e, colon), e, err)
                }
            },
        }
    }
}

fn invalid_filter(expression: &[char]) -> (e: NtError)
    ensures
        is_filter_error(e, expression@),
{
    proof {
        reveal_strlit("filter");
    }
    NtError::InvalidValue { field: "filter", value: string_of(expression) }
}

fn lower_hex(c: char) -> (r: bool)
    ensures
        r == is_lower_hex(c),
{
    ('0' <= c && c <= '9') || ('a' <= c && c <= 'f')
}

/// Accepts a prefix of a canonical UUID text.
fn parse_id_prefix(value: &[char]) -> (r: Result<String>)
    ensures
        r is Ok <==> is_id_prefix(value@),
        r matches Ok(p) ==> p@ == value@,
        r matches Err(e) ==> e is InvalidValue && e->field@ == "id prefix"@ && e->value@ == value@,
{
    proof {
        reveal_strlit("id prefix");
    }
    if value.len() > 36 {
        return Err(NtError::InvalidValue { field: "id prefix", value: string_of(value) });
    }
    let mut i: usize = 0;
    while i < value.len()
        invariant
            value@.len() <= 36,
            i <= value@.len(),
            forall|k: int|
                0 <= k < i ==> if k == 8 || k == 13 || k == 18 || k == 23 {
                    #[trigger] value@[k] == '-'
                } else {
                    is_lower_hex(value@[k])
                },
        decreases value@.len() - i,
    {
        let c = value[i];
        let ok = if i == 8 || i == 13 || i == 18 || i == 23 {
            c == '-'
        } else {
            lower_hex(c)
        };
        if !ok {
            return Err(NtError::InvalidValue { field: "id prefix", value: string_of(value) });
        }
        i += 1;
    }
    Ok(string_of(value))
}

fn chars_equal_lit(a: &[char], b: &str) -> (r: bool)
    ensures
        r == (a@ == b@),
{
    let bc = chars_of(b);
    crate::text::chars_eq(a, bc.as_slice())
}

/// Parses a filter expression.
fn parse_filter(expression: &[char]) -> (r: Result<Filter>)
    ensures
        match r {
            Ok(f) => filter_spec(expression@) == Some(f.view()),
            Err(e) => filter_spec(expression@) is None && filter_error(expression@, e),
        },
    decreases expression@.len(),
{
    proof {
        reveal_strlit("not:");
        assert("not:"@ =~= not_prefix());
        lemma_first_index_from(expression@, ':', 0);
    }
    let n = expression.len();
    if starts_with(expression, "not:") {
        let inner = slice_chars(expression, 4, expression.len());
        if inner.len() == 0 {
            return Err(invalid_filter(expression));
        }
        let parsed = parse_filter(inner.as_slice())?;
        return Ok(Filter::Not(Box::new(parsed)));
    }
    let colon = match crate::text::find_char(expression, ':') {
        Some(colon) => colon,
        None => {
            return Err(invalid_filter(expression));
        },
    };
    let field = slice_chars(expression, 0, colon);
    assert(colon < n);
    let value_chars = slice_chars(expression, colon + 1, expression.len());
    if value_chars.len() == 0 {
        return Err(invalid_filter(expression));
    }
    let value = string_of(value_chars.as_slice());
    proof {
        reveal_strlit("id");
        reveal_strlit("collection");
        reveal_strlit("tag");
        reveal_strlit("links-to");
        reveal_strlit("linked-from");
        reveal_strlit("created-since");
        reveal_strlit("updated-since");
        reveal_strlit("timestamp");
        assert("timestamp"@ =~= seq!['t', 'i', 'm', 'e', 's', 't', 'a', 'm', 'p']);
    }
    if chars_equal_lit(field.as_slice(), "id") {
        let prefix = parse_id_prefix(value_chars.as_slice())?;
        Ok(Filter::IdPrefix(prefix))
    } else if chars_equal_lit(field.as_slice(), "collection") {
        let path = CollectionPath::parse(value.as_str())?;
        Ok(Filter::Collection(path))
    } else if chars_equal_lit(field.as_slice(), "tag") {
        let tag = Tag::parse(value.as_str())?;
        Ok(Filter::Tag(tag))
    } else if chars_equal_lit(field.as_slice(), "links-to") {
        let id = NoteId::parse(value.as_str())?;
        Ok(Filter::LinksTo(id))
    } else if chars_equal_lit(field.as_slice(), "linked-from") {
        let id = NoteId::parse(value.as_str())?;
        Ok(Filter::LinkedFrom(id))
    } else if chars_equal_lit(field.as_slice(), "created-since") {
        let t = Timestamp::parse(value.as_str())?;
        Ok(Filter::CreatedSince(t))
    } else if chars_equal_lit(field.as_slice(), "updated-since") {
        let t = Timestamp::parse(value.as_str())?;
        Ok(Filter::UpdatedSince(t))
    } else {
        Err(invalid_filter(expression))
    }
}

/// Whether an expression reads as `field:value` with a field of lowercase
/// ASCII letters and `-`.
pub open spec fn is_filter_expression_spec(e: Seq<char>) -> bool {
    match first_index_from(e, ':', 0) {
        None => false,
        Some(colon) => colon > 0 && forall|i: int|
            0 <= i < colon ==> ('a' <= #[trigger] e[i] && e[i] <= 'z') || e[i] == '-',
    }
}

pub(crate) fn filter_expression(expression: &[char]) -> (r: bool)
    ensures
        r == is_filter_expression_spec(expression@),
{
    proof {
        lemma_first_index_from(expression@, ':', 0);
    }
    let colon = match crate::text::find_char(expression, ':') {
        Some(colon) => colon,
        None => {
            return false;
        },
    };
    if colon == 0 {
        return false;
    }
    let mut i: usize = 0;
    while i < colon
        invariant
            colon <= expression@.len(),
            first_index_from(expression@, ':', 0) == Some(colon as int),
            i <= colon,
            forall|k: int| 0 <= k < i ==> ('a' <= #[trigger] expression@[k] && expression@[k] <= 'z') || expression@[k] == '-',
        decreases colon - i,
    {
        let c = expression[i];
        if !(('a' <= c && c <= 'z') || c == '-') {
            return false;
        }
        i += 1;
    }
    true
}

// ---------------------------------------------------------------------------
// Limits
// ---------------------------------------------------------------------------
/// A limit: a positive decimal number that fits an `i64`.
pub open spec fn valid_limit(v: Seq<char>) -> bool {
    v.len() > 0 && all_digits(v) && 0 < digits_value(v) <= i64::MAX
}

/// The limit after reading `limit:v` with `current` already set or not.
pub open spec fn limit_step(current: Option<int>, v: Seq<char>) -> Option<int> {
    if current is Some || !valid_limit(v) {
        None
    } else {
        Some(digits_value(v) as int)
    }
}

/// The error reading `limit:v` fails with.
pub open spec fn limit_error(current: Option<int>, v: Seq<char>, err: NtError) -> bool {
    &&& err is InvalidValue
    &&& err->field@ == "limit"@
    &&& if current is Some {
        err->value@ == "duplicate"@
    } else {
        err->value@ == v
    }
}

pub open spec fn limit_view(l: Option<i64>) -> Option<int> {
    match l {
        Some(v) => Some(v as int),
        None => None,
    }
}

/// Reads `limit:<n>`: `Ok(false)` for any other expression.
fn parse_limit(expression: &[char], limit: &mut Option<i64>) -> (r: Result<bool>)
    ensures
        !has_prefix(expression@, limit_prefix()) ==> r == Ok::<bool, NtError>(false) && *final(limit) == *old(limit),
        has_prefix(expression@, limit_prefix()) ==> match limit_step(
            limit_view(*old(limit)),
            expression@.subrange(6, expression@.len() as int),
        ) {
            Some(l) => r == Ok::<bool, NtError>(true) && limit_view(*final(limit)) == Some(l),
            None => r is Err && limit_error(
                limit_view(*old(limit)),
                expression@.subrange(6, expression@.len() as int),
                r->Err_0,
            ) && *final(limit) == *old(limit),
        },
{
    proof {
        reveal_strlit("limit:");
        assert("limit:"@ =~= limit_prefix());
        reveal_strlit("limit");
        reveal_strlit("duplicate");
    }
    if !starts_with(expression, "limit:") {
        return Ok(false);
    }
    let value = slice_chars(expression, 6, expression.len());
    if limit.is_some() {
        return Err(NtError::InvalidValue { field: "limit", value: owned("duplicate") });
    }
    if value.len() == 0 || !chars_all_digits(value.as_slice()) {
        return Err(NtError::InvalidValue { field: "limit", value: string_of(value.as_slice()) });
    }
    let parsed = match parse_digits(value.as_slice(), 9223372036854775807) {
        Some(v) => v,
        None => {
            return Err(NtError::InvalidValue { field: "limit", value: string_of(value.as_slice()) });
        },
    };
    if parsed == 0 {
        return Err(NtError::InvalidValue { field: "limit", value: string_of(value.as_slice()) });
    }
    *limit = Some(parsed as i64);
    Ok(true)
}

// ---------------------------------------------------------------------------
// Queries
// ---------------------------------------------------------------------------
/// Filters and limit read so far.
pub type ListState = (Seq<FilterSpec>, Option<int>);

/// Filters, limit and search words read so far.
pub type FindState = (Seq<FilterSpec>, Option<int>, Set<Seq<char>>);

/// The state after reading one more listing expression.
pub open spec fn list_step(st: ListState, e: Seq<char>) -> Option<ListState> {
    if has_prefix(e, limit_prefix()) {
        match limit_step(st.1, e.subrange(6, e.len() as int)) {
            Some(l) => Some((st.0, Some(l))),
            None => None,
        }
    } else {
        match filter_spec(e) {
            Some(f) => Some((st.0.push(f), st.1)),
            None => None,
        }
    }
}

/// The error reading one more expression fails with.
pub open spec fn step_error(current_limit: Option<int>, e: Seq<char>, err: NtError) -> bool {
    if has_prefix(e, limit_prefix()) {
        limit_error(current_limit, e.subrange(6, e.len() as int), err)
    } else {
        filter_error(e, err)
    }
}

/// The filters and limit of listing expressions, if they all read.
pub open spec fn list_state(es: Seq<Seq<char>>) -> Option<ListState>
    decreases es.len(),
{
    if es.len() == 0 {
        Some((Seq::empty(), None))
    } else {
        match list_state(es.drop_last()) {
            Some(st) => list_step(st, es.last()),
            None => None,
        }
    }
}

/// Listing expression `i` is the first that does not read, and fails with `err`.
pub open spec fn list_fails_at(es: Seq<Seq<char>>, i: int, err: NtError) -> bool {
    &&& 0 <= i < es.len()
    &&& match list_state(es.subrange(0, i)) {
        Some(st) => list_step(st, es[i]) is None && step_error(st.1, es[i], err),
        None => false,
    }
}

/// The state after reading one more search expression: a limit, a filter, or
/// words to search for.
pub open spec fn find_step(st: FindState, e: Seq<char>) -> Option<FindState> {
    if has_prefix(e, limit_prefix()) {
        match limit_step(st.1, e.subrange(6, e.len() as int)) {
            Some(l) => Some((st.0, Some(l), st.2)),
            None => None,
        }
    } else if is_filter_expression_spec(e) {
        match filter_spec(e) {
            Some(f) => Some((st.0.push(f), st.1, st.2)),
            None => None,
        }
    } else {
        Some((st.0, st.1, st.2 + literal_token_seq(e).to_set()))
    }
}

pub open spec fn find_step_error(current_limit: Option<int>, e: Seq<char>, err: NtError) -> bool {
    if has_prefix(e, limit_prefix()) {
        limit_error(current_limit, e.subrange(6, e.len() as int), err)
    } else {
        filter_error(e, err)
    }
}

/// The filters, limit and words of search expressions, if they all read.
pub open spec fn find_state(es: Seq<Seq<char>>) -> Option<FindState>
    decreases es.len(),
{
    if es.len() == 0 {
        Some((Seq::empty(), None, Set::empty()))
    } else {
        match find_state(es.drop_last()) {
            Some(st) => find_step(st, es.last()),
            None => None,
        }
    }
}

pub open spec fn find_fails_at(es: Seq<Seq<char>>, i: int, err: NtError) -> bool {
    &&& 0 <= i < es.len()
    &&& match find_state(es.subrange(0, i)) {
        Some(st) => find_step(st, es[i]) is None && find_step_error(st.1, es[i], err),
        None => false,
    }
}

/// Reading expressions gives a limit only when one of them is `limit:<n>`:
/// queries have no implicit limit.
pub proof fn law_no_implicit_limit(es: Seq<Seq<char>>)
    requires
        forall|i: int| 0 <= i < es.len() ==> !has_prefix(#[trigger] es[i], limit_prefix()),
    ensures
        list_state(es) matches Some(st) ==> st.1 is None,
        find_state(es) matches Some(st) ==> st.1 is None,
    decreases es.len(),
{
    if es.len() > 0 {
        let prior = es.drop_last();
        assert forall|i: int| 0 <= i < prior.len() implies !has_prefix(#[trigger] prior[i], limit_prefix()) by {
            assert(prior[i] == es[i]);
        }
        law_no_implicit_limit(prior);
        assert(!has_prefix(es[es.len() - 1], limit_prefix()));
    }
}

proof fn lemma_list_state_prefix(es: Seq<Seq<char>>, k: int)
    requires
        0 <= k <= es.len(),
        list_state(es.subrange(0, k)) is None,
    ensures
        list_state(es) is None,
    decreases es.len() - k,
{
    if k < es.len() {
        assert(es.subrange(0, k + 1).drop_last() =~= es.subrange(0, k));
        lemma_list_state_prefix(es, k + 1);
    } else {
        assert(es.subrange(0, k) =~= es);
    }
}

proof fn lemma_find_state_prefix(es: Seq<Seq<char>>, k: int)
    requires
        0 <= k <= es.len(),
        find_state(es.subrange(0, k)) is None,
    ensures
        find_state(es) is None,
    decreases es.len() - k,
{
    if k < es.len() {
        assert(es.subrange(0, k + 1).drop_last() =~= es.subrange(0, k));
        lemma_find_state_prefix(es, k + 1);
    } else {
        assert(es.subrange(0, k) =~= es);
    }
}

/// The texts joined with single spaces.
pub open spec fn joined(es: Seq<Seq<char>>) -> Seq<char>
    decreases es.len(),
{
    if es.len() == 0 {
        Seq::empty()
    } else if es.len() == 1 {
        es[0]
    } else {
        joined(es.drop_last()) + seq![' '] + es.last()
    }
}

/// A note query: filters that all must hold, words to search for, and a limit.
#[derive(Debug, PartialEq, Eq)]
pub struct NoteQuery {
    filters: Vec<Filter>,
    lexical_terms: Vec<String>,
    limit: Option<i64>,
}

impl NoteQuery {
    pub closed spec fn spec_filters(&self) -> Seq<FilterSpec> {
        filter_views(self.filters@)
    }

    /// The search words, strictly increasing.
    pub closed spec fn spec_terms(&self) -> Seq<Seq<char>> {
        views(self.lexical_terms@)
    }

    pub closed spec fn spec_limit(&self) -> Option<int> {
        limit_view(self.limit)
    }

    /// Every filter of the query can be written as SQL.
    pub open spec fn sql_ready(&self) -> bool {
        forall|i: int| 0 <= i < self.spec_filters().len() ==> sql_ready(#[trigger] self.spec_filters()[i])
    }

    /// Reads the expressions of a listing: filters and at most one `limit:`.
    pub fn parse_list(expressions: &[String]) -> (r: Result<Self>)
        ensures
            match list_state(string_views(expressions@)) {
                Some(st) => r is Ok && r->Ok_0.spec_filters() == st.0 && r->Ok_0.spec_limit()
                    == st.1 && r->Ok_0.spec_terms().len() == 0,
                None => r matches Err(err) && exists|i: int|
                    list_fails_at(string_views(expressions@), i, err),
            },
            r matches Ok(q) ==> q.sql_ready(),
    {
        let ghost es = string_views(expressions@);
        let mut filters: Vec<Filter> = Vec::new();
        let mut limit: Option<i64> = None;
        let mut k: usize = 0;
        proof {
            assert(es.subrange(0, 0) =~= Seq::<Seq<char>>::empty());
            assert(filter_views(filters@) =~= Seq::<FilterSpec>::empty());
        }
        while k < expressions.len()
            invariant
                k <= expressions@.len(),
                es == string_views(expressions@),
                list_state(es.subrange(0, k as int)) == Some((filter_views(filters@), limit_view(limit))),
                forall|i: int| 0 <= i < filters@.len() ==> sql_ready(#[trigger] filters@[i].view()),
            decreases expressions@.len() - k,
        {
            let chars = chars_of(expressions[k].as_str());
            let ghost prefix = es.subrange(0, k as int);
            proof {
                assert(es.subrange(0, k + 1).drop_last() =~= prefix);
                assert(es.subrange(0, k + 1).last() == chars@);
                assert(es[k as int] == chars@);
            }
            let ghost old_limit = limit;
            let is_limit = match parse_limit(chars.as_slice(), &mut limit) {
                Ok(b) => b,
                Err(e) => {
                    proof {
                        assert(list_fails_at(es, k as int, e));
                        lemma_list_state_prefix(es, k + 1);
                    }
                    return Err(e);
                },
            };
            if !is_limit {
                let f = match parse_filter(chars.as_slice()) {
                    Ok(f) => f,
                    Err(e) => {
                        proof {
                            assert(list_fails_at(es, k as int, e));
                                lemma_list_state_prefix(es, k + 1);
                        }
                        return Err(e);
                    },
                };
                let ghost before = filters@;
                proof {
                    lemma_filter_spec_sql_ready(chars@);
                }
                filters.push(f);
                proof {
                    assert(filter_views(filters@) =~= filter_views(before).push(f.view()));
                }
            }
            k += 1;
        }
        proof {
            assert(es.subrange(0, expressions@.len() as int) =~= es);
        }
        Ok(NoteQuery { filters, lexical_terms: Vec::new(), limit })
    }

    /// Reads the expressions of a search: filters, at most one `limit:`, and
    /// words; the words are the literal tokens of the other expressions, sorted,
    /// each once, and there must be at least one.
    pub fn parse_find(expressions: &[String]) -> (r: Result<Self>)
        ensures
            match find_state(string_views(expressions@)) {
                Some(st) => if st.2.len() > 0 {
                    r is Ok && r->Ok_0.spec_filters() == st.0 && r->Ok_0.spec_limit() == st.1
                        && r->Ok_0.spec_terms() == sorted_of(st.2)
                } else {
                    r is Err && r->Err_0 is InvalidValue && r->Err_0->field@ == "search term"@
                        && r->Err_0->value@ == joined(string_views(expressions@))
                },
                None => r matches Err(err) && exists|i: int|
                    find_fails_at(string_views(expressions@), i, err),
            },
            r matches Ok(q) ==> q.sql_ready(),
    {
        let ghost es = string_views(expressions@);
        let mut filters: Vec<Filter> = Vec::new();
        let mut terms: Vec<String> = Vec::new();
        let mut limit: Option<i64> = None;
        let mut k: usize = 0;
        proof {
            assert(es.subrange(0, 0) =~= Seq::<Seq<char>>::empty());
            assert(filter_views(filters@) =~= Seq::<FilterSpec>::empty());
            assert(views(terms@).to_set() =~= Set::<Seq<char>>::empty());
        }
        while k < expressions.len()
            invariant
                k <= expressions@.len(),
                es == string_views(expressions@),
                strictly_sorted(views(terms@)),
                find_state(es.subrange(0, k as int)) == Some(
                    (filter_views(filters@), limit_view(limit), views(terms@).to_set()),
                ),
                forall|i: int| 0 <= i < filters@.len() ==> sql_ready(#[trigger] filters@[i].view()),
            decreases expressions@.len() - k,
        {
            let chars = chars_of(expressions[k].as_str());
            let ghost prefix = es.subrange(0, k as int);
            proof {
                assert(es.subrange(0, k + 1).drop_last() =~= prefix);
                assert(es.subrange(0, k + 1).last() == chars@);
                assert(es[k as int] == chars@);
            }
            let is_limit = match parse_limit(chars.as_slice(), &mut limit) {
                Ok(b) => b,
                Err(e) => {
                    proof {
                        assert(find_fails_at(es, k as int, e));
                        lemma_find_state_prefix(es, k + 1);
                    }
                    return Err(e);
                },
            };
            if !is_limit {
                if filter_expression(chars.as_slice()) {
                    let f = match parse_filter(chars.as_slice()) {
                        Ok(f) => f,
                        Err(e) => {
                            proof {
                                assert(find_fails_at(es, k as int, e));
                                lemma_find_state_prefix(es, k + 1);
                            }
                            return Err(e);
                        },
                    };
                    let ghost before = filters@;
                    proof {
                        lemma_filter_spec_sql_ready(chars@);
                    }
                    filters.push(f);
                    proof {
                        assert(filter_views(filters@) =~= filter_views(before).push(f.view()));
                    }
                } else {
                    let tokens = literal_tokens(expressions[k].as_str());
                    proof {
                        assert(views(tokens@) =~= string_views(tokens@));
                    }
                    insert_all_sorted(&mut terms, &tokens);
                }
            }
            k += 1;
        }
        proof {
            assert(es.subrange(0, expressions@.len() as int) =~= es);
        }
        if terms.len() == 0 {
            proof {
                reveal_strlit("search term");
                assert(views(terms@) =~= Seq::<Seq<char>>::empty());
                assert(views(terms@).to_set() =~= Set::<Seq<char>>::empty());
            }
            return Err(NtError::InvalidValue { field: "search term", value: join_spaces(expressions) });
        }
        proof {
            lemma_sorted_of(views(terms@));
            assert(views(terms@).to_set().contains(views(terms@)[0]));
            vstd::seq_lib::seq_to_set_is_finite(views(terms@));
            vstd::set_lib::lemma_set_empty_equivalency_len(views(terms@).to_set());
        }
        Ok(NoteQuery { filters, lexical_terms: terms, limit })
    }

    /// The filters, in the order given.
    pub fn filters(&self) -> (r: &[Filter])
        ensures
            filter_views(r@) == self.spec_filters(),
    {
        self.filters.as_slice()
    }

    /// The search words, sorted, each once.
    pub fn lexical_terms(&self) -> (r: &[String])
        ensures
            views(r@) == self.spec_terms(),
    {
        self.lexical_terms.as_slice()
    }

    /// The limit, if one was given.
    pub fn limit(&self) -> (r: Option<i64>)
        ensures
            limit_view(r) == self.spec_limit(),
    {
        self.limit
    }
}

impl Default for NoteQuery {
    fn default() -> (r: Self)
        ensures
            r.spec_filters().len() == 0,
            r.spec_terms().len() == 0,
            r.spec_limit() is None,
            r.sql_ready(),
    {
        NoteQuery { filters: Vec::new(), lexical_terms: Vec::new(), limit: None }
    }
}

/// The texts joined with single spaces.
fn join_spaces(values: &[String]) -> (out: String)
    ensures
        out@ == joined(string_views(values@)),
{
    let mut out = String::new();
    let mut k: usize = 0;
    proof {
        assert(string_views(values@).subrange(0, 0) =~= Seq::<Seq<char>>::empty());
    }
    while k < values.len()
        invariant
            k <= values@.len(),
            out@ == joined(string_views(values@).subrange(0, k as int)),
        decreases values@.len() - k,
    {
        let ghost sv = string_views(values@);
        if k > 0 {
            push_char(&mut out, ' ');
        }
        append_str(&mut out, values[k].as_str());
        proof {
            assert(sv.subrange(0, k + 1).drop_last() =~= sv.subrange(0, k as int));
            if k == 0 {
                assert(sv.subrange(0, 1)[0] == values@[0]@);
                assert(out@ =~= values@[0]@);
            }
        }
        k += 1;
    }
    proof {
        assert(string_views(values@).subrange(0, values@.len() as int) =~= string_views(values@));
    }
    out
}

} // verus!
