//! The SQL that selects the notes of a query: the conditions of its filters
//! and search words, the ordering, the limit, and the values they bind.
use vstd::prelude::*;

use crate::lexical::{and_expression, fts_and_expression, string_views, views};
use crate::query::{filter_views, sql_ready, Filter, FilterSpec, NoteQuery};
use crate::text::{append_str, char_from_ascii_code, chars_of, decimal, owned, push_char, string_of, u64_to_string};

verus! {

/// A value bound to a numbered SQL parameter.
#[derive(Debug, PartialEq, Eq)]
pub enum SqlValue {
    Integer(i64),
    Text(String),
}

/// A bound value as a plain value.
pub enum SqlParam {
    Integer(int),
    Text(Seq<char>),
}

impl SqlValue {
    pub open spec fn view(&self) -> SqlParam {
        match self {
            SqlValue::Integer(v) => SqlParam::Integer(*v as int),
            SqlValue::Text(t) => SqlParam::Text(t@),
        }
    }
}

pub open spec fn param_views(ps: Seq<SqlValue>) -> Seq<SqlParam> {
    ps.map_values(|p: SqlValue| p.view())
}

/// The placeholder of parameter `k`: `?k`.
pub open spec fn placeholder(k: nat) -> Seq<char> {
    seq!['?'] + decimal(k)
}

/// The smallest text above every text that starts with `p`, for a nonempty
/// ASCII `p`: its last character is raised by one.
pub open spec fn upper_bound_of(p: Seq<char>) -> Seq<char> {
    p.drop_last().push(((p.last() as u32) + 1) as char)
}

pub const TAG_CONDITION: &'static str = "EXISTS (SELECT 1 FROM note_tags filter_tags\n                 WHERE filter_tags.note_pk = n.pk AND filter_tags.tag = ";

pub const LINKS_TO_CONDITION: &'static str = "EXISTS (SELECT 1 FROM note_links filter_links\n                 JOIN notes filter_target ON filter_target.pk = filter_links.target_note_pk\n                 WHERE filter_links.note_pk = n.pk AND filter_target.id = ";

pub const LINKED_FROM_CONDITION: &'static str = "n.pk IN (SELECT filter_links.target_note_pk\n                 FROM notes filter_source\n                 JOIN note_links filter_links ON filter_links.note_pk = filter_source.pk\n                 WHERE filter_source.id = ";

pub const SEARCH_CONDITION: &'static str = "n.pk IN (SELECT rowid FROM note_fts WHERE note_fts MATCH ";

/// Newest first, ties broken by the larger id.
pub const ORDERING: &'static str = " ORDER BY n.updated DESC, n.id DESC ";

/// The condition of a filter whose parameters are numbered after `n`, and the
/// values those parameters bind.
pub open spec fn filter_sql(f: FilterSpec, n: nat) -> (Seq<char>, Seq<SqlParam>)
    decreases f,
{
    match f {
        FilterSpec::IdPrefix(p) => (
            "n.id >= "@ + placeholder(n + 1) + " AND n.id < "@ + placeholder(n + 2),
            seq![SqlParam::Text(p), SqlParam::Text(upper_bound_of(p))],
        ),
        FilterSpec::Collection(c) => ("n.collection = "@ + placeholder(n + 1), seq![SqlParam::Text(c)]),
        FilterSpec::Tag(t) => (TAG_CONDITION@ + placeholder(n + 1) + seq![')'], seq![SqlParam::Text(t)]),
        FilterSpec::LinksTo(id) => (LINKS_TO_CONDITION@ + placeholder(n + 1) + seq![')'], seq![SqlParam::Text(id)]),
        FilterSpec::LinkedFrom(id) => (
            LINKED_FROM_CONDITION@ + placeholder(n + 1) + seq![')'],
            seq![SqlParam::Text(id)],
        ),
        FilterSpec::CreatedSince(t, _, _) => ("n.created >= "@ + placeholder(n + 1), seq![SqlParam::Text(t)]),
        FilterSpec::UpdatedSince(t, _, _) => ("n.updated >= "@ + placeholder(n + 1), seq![SqlParam::Text(t)]),
        FilterSpec::Not(inner) => {
            let c = filter_sql(*inner, n);
            ("NOT ("@ + c.0 + seq![')'], c.1)
        },
    }
}

/// A created-since filter compares the notes' creation time, and an
/// updated-since filter their update time, with the bound ISO text: the two
/// conditions differ only in the column, and each binds exactly that text.
pub proof fn law_since_filters_compare_their_own_column(t: Seq<char>, id: Seq<char>, day: Seq<char>, n: nat)
    ensures
        filter_sql(FilterSpec::CreatedSince(t, id, day), n).0 == seq!['n', '.', 'c', 'r', 'e', 'a', 't', 'e', 'd']
            + seq![' ', '>', '=', ' '] + placeholder(n + 1),
        filter_sql(FilterSpec::UpdatedSince(t, id, day), n).0 == seq!['n', '.', 'u', 'p', 'd', 'a', 't', 'e', 'd']
            + seq![' ', '>', '=', ' '] + placeholder(n + 1),
        filter_sql(FilterSpec::CreatedSince(t, id, day), n).1 == seq![SqlParam::Text(t)],
        filter_sql(FilterSpec::UpdatedSince(t, id, day), n).1 == seq![SqlParam::Text(t)],
{
    reveal_strlit("n.created >= ");
    reveal_strlit("n.updated >= ");
    assert("n.created >= "@ =~= seq!['n', '.', 'c', 'r', 'e', 'a', 't', 'e', 'd'] + seq![' ', '>', '=', ' ']);
    assert("n.updated >= "@ =~= seq!['n', '.', 'u', 'p', 'd', 'a', 't', 'e', 'd'] + seq![' ', '>', '=', ' ']);
}

/// An id-prefix filter keeps the ids from the prefix up to the first text
/// above every text that starts with it, binding those two texts; a
/// collection filter keeps the notes of that collection; a negated filter
/// keeps what its filter does not, binding the same values.
pub proof fn law_other_filter_conditions(p: Seq<char>, c: Seq<char>, f: FilterSpec, n: nat)
    ensures
        filter_sql(FilterSpec::IdPrefix(p), n).0 == seq!['n', '.', 'i', 'd', ' ', '>', '=', ' '] + placeholder(n + 1)
            + seq![' ', 'A', 'N', 'D', ' ', 'n', '.', 'i', 'd', ' ', '<', ' '] + placeholder(n + 2),
        filter_sql(FilterSpec::IdPrefix(p), n).1 == seq![SqlParam::Text(p), SqlParam::Text(upper_bound_of(p))],
        filter_sql(FilterSpec::Collection(c), n).0 == seq![
            'n',
            '.',
            'c',
            'o',
            'l',
            'l',
            'e',
            'c',
            't',
            'i',
            'o',
            'n',
            ' ',
            '=',
            ' ',
        ] + placeholder(n + 1),
        filter_sql(FilterSpec::Collection(c), n).1 == seq![SqlParam::Text(c)],
        filter_sql(FilterSpec::Not(Box::new(f)), n).0 == seq!['N', 'O', 'T', ' ', '('] + filter_sql(f, n).0
            + seq![')'],
        filter_sql(FilterSpec::Not(Box::new(f)), n).1 == filter_sql(f, n).1,
{
    reveal_strlit("n.id >= ");
    reveal_strlit(" AND n.id < ");
    reveal_strlit("n.collection = ");
    reveal_strlit("NOT (");
    assert("n.id >= "@ =~= seq!['n', '.', 'i', 'd', ' ', '>', '=', ' ']);
    assert(" AND n.id < "@ =~= seq![' ', 'A', 'N', 'D', ' ', 'n', '.', 'i', 'd', ' ', '<', ' ']);
    assert("n.collection = "@ =~= seq!['n', '.', 'c', 'o', 'l', 'l', 'e', 'c', 't', 'i', 'o', 'n', ' ', '=', ' ']);
    assert("NOT ("@ =~= seq!['N', 'O', 'T', ' ', '(']);
}

/// Queries list the notes updated latest first, and of those updated at
/// the same time the greatest id first.
pub proof fn law_queries_list_latest_updates_first()
    ensures
        ORDERING@ == " ORDER BY n.updated DESC, n.id DESC "@,
{
    reveal_strlit(" ORDER BY n.updated DESC, n.id DESC ");
}

/// A query of one created-since filter, with no search words or limit,
/// selects the notes created at or after the bound time, latest updated
/// first: `WHERE n.created >= ?1` and the ordering, binding that time.
pub proof fn law_created_since_query(t: Seq<char>, id: Seq<char>, day: Seq<char>)
    ensures
        ordered_query_sql(seq![FilterSpec::CreatedSince(t, id, day)], Seq::empty(), None).0 == seq![
            'W',
            'H',
            'E',
            'R',
            'E',
            ' ',
        ] + seq!['n', '.', 'c', 'r', 'e', 'a', 't', 'e', 'd', ' ', '>', '=', ' ', '?', '1'] + ORDERING@,
        ordered_query_sql(seq![FilterSpec::CreatedSince(t, id, day)], Seq::empty(), None).1 == seq![
            SqlParam::Text(t),
        ],
{
    let fs = seq![FilterSpec::CreatedSince(t, id, day)];
    law_since_filters_compare_their_own_column(t, id, day, 0);
    assert(fs.drop_last() =~= Seq::<FilterSpec>::empty());
    assert(conditions(Seq::<FilterSpec>::empty()) == (Seq::<Seq<char>>::empty(), Seq::<SqlParam>::empty()));
    let c = conditions(fs);
    assert(c.1 =~= seq![SqlParam::Text(t)]);
    assert(c.0 =~= seq![filter_sql(fs[0], 0).0]);
    assert(joined_and(c.0) == c.0[0]) by {
        reveal_with_fuel(joined_and, 2);
    }
    reveal_strlit("WHERE ");
    assert(decimal(1) == seq!['1']);
    assert(placeholder(1) =~= seq!['?', '1']);
    assert("WHERE "@ =~= seq!['W', 'H', 'E', 'R', 'E', ' ']);
}

/// The conditions of filters taken in order, and all the values they bind.
pub open spec fn conditions(fs: Seq<FilterSpec>) -> (Seq<Seq<char>>, Seq<SqlParam>)
    decreases fs.len(),
{
    if fs.len() == 0 {
        (Seq::empty(), Seq::empty())
    } else {
        let prior = conditions(fs.drop_last());
        let last = filter_sql(fs.last(), prior.1.len());
        (prior.0.push(last.0), prior.1 + last.1)
    }
}

/// Conditions joined with ` AND `.
pub open spec fn joined_and(parts: Seq<Seq<char>>) -> Seq<char>
    decreases parts.len(),
{
    if parts.len() == 0 {
        Seq::empty()
    } else if parts.len() == 1 {
        parts[0]
    } else {
        joined_and(parts.drop_last()) + " AND "@ + parts.last()
    }
}

/// The `WHERE`, ordering and `LIMIT` clauses of a query, and the values they
/// bind: the filters' conditions in order, then the full-text match of the
/// search words, then the limit.
pub open spec fn ordered_query_sql(fs: Seq<FilterSpec>, terms: Seq<Seq<char>>, limit: Option<int>) -> (Seq<char>, Seq<SqlParam>) {
    let base = conditions(fs);
    let searched = if terms.len() > 0 {
        (
            base.0.push(SEARCH_CONDITION@ + placeholder(base.1.len() + 1) + seq![')']),
            base.1.push(SqlParam::Text(and_expression(terms))),
        )
    } else {
        base
    };
    let where_sql = if searched.0.len() == 0 {
        Seq::<char>::empty()
    } else {
        "WHERE "@ + joined_and(searched.0)
    };
    match limit {
        Some(l) => (
            where_sql + ORDERING@ + "LIMIT "@ + placeholder(searched.1.len() + 1),
            searched.1.push(SqlParam::Integer(l)),
        ),
        None => (where_sql + ORDERING@, searched.1),
    }
}

fn push_placeholder(out: &mut String, k: usize)
    ensures
        final(out)@ == old(out)@ + placeholder(k as nat),
{
    push_char(out, '?');
    let digits = u64_to_string(k as u64);
    append_str(out, digits.as_str());
    proof {
        assert(final(out)@ =~= old(out)@ + placeholder(k as nat));
    }
}

/// Appends a text value and returns its parameter number.
fn push_parameter(parameters: &mut Vec<SqlValue>, value: &str) -> (k: usize)
    ensures
        param_views(final(parameters)@) == param_views(old(parameters)@).push(SqlParam::Text(value@)),
        k == final(parameters)@.len(),
        k == old(parameters)@.len() + 1,
{
    let ghost before = parameters@;
    parameters.push(SqlValue::Text(owned(value)));
    proof {
        assert(param_views(parameters@) =~= param_views(before).push(SqlParam::Text(value@)));
    }
    parameters.len()
}

/// The text just above every text that starts with `prefix`.
pub fn prefix_upper_bound(prefix: &str) -> (r: String)
    requires
        prefix@.len() > 0,
        (prefix@.last() as u32) < 127,
    ensures
        r@ == upper_bound_of(prefix@),
{
    let mut chars = chars_of(prefix);
    let n = chars.len();
    let last = chars[n - 1];
    proof {
        assert(last == prefix@.last());
    }
    let code: u32 = last as u32;
    let next = char_from_ascii_code(code + 1);
    chars.set(n - 1, next);
    proof {
        assert(chars@ =~= upper_bound_of(prefix@));
    }
    string_of(chars.as_slice())
}

/// The condition of a filter; its values are appended to `parameters`.
pub fn compile_filter(filter: &Filter, parameters: &mut Vec<SqlValue>) -> (sql: String)
    requires
        sql_ready(filter.view()),
    ensures
        sql@ == filter_sql(filter.view(), old(parameters)@.len()).0,
        param_views(final(parameters)@) == param_views(old(parameters)@) + filter_sql(
            filter.view(),
            old(parameters)@.len(),
        ).1,
    decreases filter,
{
    let ghost n = parameters@.len();
    let ghost before = param_views(parameters@);
    match filter {
        Filter::IdPrefix(prefix) => {
            let lower = push_parameter(parameters, prefix.as_str());
            let upper_text = prefix_upper_bound(prefix.as_str());
            let upper = push_parameter(parameters, upper_text.as_str());
            let mut out = owned("n.id >= ");
            push_placeholder(&mut out, lower);
            append_str(&mut out, " AND n.id < ");
            push_placeholder(&mut out, upper);
            proof {
                assert(param_views(parameters@) =~= before + filter_sql(filter.view(), n).1);
            }
            out
        },
        Filter::Collection(collection) => {
            let k = push_parameter(parameters, collection.as_str());
            let mut out = owned("n.collection = ");
            push_placeholder(&mut out, k);
            proof {
                assert(param_views(parameters@) =~= before + filter_sql(filter.view(), n).1);
            }
            out
        },
        Filter::Tag(tag) => {
            let k = push_parameter(parameters, tag.as_str());
            let mut out = owned(TAG_CONDITION);
            push_placeholder(&mut out, k);
            push_char(&mut out, ')');
            proof {
                assert(filter.view() == FilterSpec::Tag(tag.view()));
                assert(filter_sql(filter.view(), n).0 == TAG_CONDITION@ + placeholder(n + 1) + seq![')']);
                assert(param_views(parameters@) =~= before + filter_sql(filter.view(), n).1);
                assert(out@ =~= filter_sql(filter.view(), n).0);
            }
            out
        },
        Filter::LinksTo(target) => {
            let text = target.to_string();
            let k = push_parameter(parameters, text.as_str());
            let mut out = owned(LINKS_TO_CONDITION);
            push_placeholder(&mut out, k);
            assert(out@ == LINKS_TO_CONDITION@ + placeholder(n + 1));
            push_char(&mut out, ')');
            proof {
                assert(filter.view() == FilterSpec::LinksTo(text@));
                assert(filter_sql(filter.view(), n).0 == LINKS_TO_CONDITION@ + placeholder(n + 1) + seq![')']);
                assert(param_views(parameters@) =~= before + filter_sql(filter.view(), n).1);
                assert(out@ =~= filter_sql(filter.view(), n).0);
            }
            out
        },
        Filter::LinkedFrom(source) => {
            let text = source.to_string();
            let k = push_parameter(parameters, text.as_str());
            let mut out = owned(LINKED_FROM_CONDITION);
            push_placeholder(&mut out, k);
            push_char(&mut out, ')');
            proof {
                assert(filter.view() == FilterSpec::LinkedFrom(text@));
                assert(filter_sql(filter.view(), n).0 == LINKED_FROM_CONDITION@ + placeholder(n + 1) + seq![')']);
                assert(param_views(parameters@) =~= before + filter_sql(filter.view(), n).1);
                assert(out@ =~= filter_sql(filter.view(), n).0);
            }
            out
        },
        Filter::CreatedSince(timestamp) => {
            let k = push_parameter(parameters, timestamp.as_str());
            let mut out = owned("n.created >= ");
            push_placeholder(&mut out, k);
            proof {
                assert(param_views(parameters@) =~= before + filter_sql(filter.view(), n).1);
            }
            out
        },
        Filter::UpdatedSince(timestamp) => {
            let k = push_parameter(parameters, timestamp.as_str());
            let mut out = owned("n.updated >= ");
            push_placeholder(&mut out, k);
            proof {
                assert(param_views(parameters@) =~= before + filter_sql(filter.view(), n).1);
            }
            out
        },
        Filter::Not(inner) => {
            let condition = compile_filter(inner, parameters);
            let mut out = owned("NOT (");
            append_str(&mut out, condition.as_str());
            push_char(&mut out, ')');
            proof {
                assert(filter.view() == FilterSpec::Not(Box::new((**inner).view())));
                assert(filter_sql(filter.view(), n).0 == "NOT ("@ + filter_sql((**inner).view(), n).0 + seq![')']);
                assert(out@ =~= filter_sql(filter.view(), n).0);
            }
            out
        },
    }
}

proof fn lemma_joined_and_push(parts: Seq<Seq<char>>, x: Seq<char>)
    requires
        parts.len() > 0,
    ensures
        joined_and(parts.push(x)) == joined_and(parts) + " AND "@ + x,
{
    assert(parts.push(x).drop_last() =~= parts);
}

/// The clauses that follow `FROM notes n` in a query of the notes, with the
/// values they bind, numbered from one.
pub fn compile_ordered_query(query: &NoteQuery) -> (r: (String, Vec<SqlValue>))
    requires
        query.sql_ready(),
    ensures
        r.0@ == ordered_query_sql(query.spec_filters(), query.spec_terms(), query.spec_limit()).0,
        param_views(r.1@) == ordered_query_sql(query.spec_filters(), query.spec_terms(), query.spec_limit()).1,
{
    let ghost fs = query.spec_filters();
    let filters = query.filters();
    let mut parameters: Vec<SqlValue> = Vec::new();
    let mut expressions: Vec<String> = Vec::new();
    let mut k: usize = 0;
    proof {
        assert(fs.subrange(0, 0) =~= Seq::<FilterSpec>::empty());
        assert(views(expressions@) =~= Seq::<Seq<char>>::empty());
        assert(param_views(parameters@) =~= Seq::<SqlParam>::empty());
    }
    while k < filters.len()
        invariant
            k <= filters@.len(),
            filter_views(filters@) == fs,
            forall|i: int| 0 <= i < fs.len() ==> sql_ready(#[trigger] fs[i]),
            conditions(fs.subrange(0, k as int)) == (views(expressions@), param_views(parameters@)),
        decreases filters@.len() - k,
    {
        proof {
            assert(fs[k as int] == filters@[k as int].view());
        }
        let ghost before_e = expressions@;
        let ghost before_p = param_views(parameters@);
        let condition = compile_filter(&filters[k], &mut parameters);
        expressions.push(condition);
        proof {
            assert(fs.subrange(0, k + 1).drop_last() =~= fs.subrange(0, k as int));
            assert(fs.subrange(0, k + 1).last() == fs[k as int]);
            assert(views(expressions@) =~= views(before_e).push(condition@));
        }
        k += 1;
    }
    proof {
        assert(fs.subrange(0, filters@.len() as int) =~= fs);
    }
    let ghost base = conditions(fs);
    let terms = query.lexical_terms();
    if terms.len() > 0 {
        let search = fts_and_expression(terms);
        proof {
            assert(string_views(terms@) =~= views(terms@));
        }
        let ghost before_e = expressions@;
        let ghost before_p = parameters@;
        assert(param_views(before_p).len() == before_p.len());
        let p = push_parameter(&mut parameters, search.as_str());
        let mut condition = owned(SEARCH_CONDITION);
        push_placeholder(&mut condition, p);
        push_char(&mut condition, ')');
        assert(condition@ =~= SEARCH_CONDITION@ + placeholder(base.1.len() + 1) + seq![')']);
        expressions.push(condition);
        proof {
            assert(views(expressions@) =~= views(before_e).push(condition@));
            assert(views(expressions@) == base.0.push(SEARCH_CONDITION@ + placeholder(base.1.len() + 1) + seq![')']));
            assert(param_views(parameters@) == base.1.push(SqlParam::Text(and_expression(query.spec_terms()))));
        }
    }
    let ghost searched = (views(expressions@), param_views(parameters@));
    let ghost where_sql = if searched.0.len() == 0 {
        Seq::<char>::empty()
    } else {
        "WHERE "@ + joined_and(searched.0)
    };
    let mut out = String::new();
    if expressions.len() > 0 {
        append_str(&mut out, "WHERE ");
        append_str(&mut out, expressions[0].as_str());
        let mut j: usize = 1;
        proof {
            assert(views(expressions@).subrange(0, 1) =~= seq![expressions@[0]@]);
        }
        while j < expressions.len()
            invariant
                1 <= j <= expressions@.len(),
                searched.0 == views(expressions@),
                out@ == "WHERE "@ + joined_and(views(expressions@).subrange(0, j as int)),
            decreases expressions@.len() - j,
        {
            append_str(&mut out, " AND ");
            append_str(&mut out, expressions[j].as_str());
            proof {
                let ev = views(expressions@);
                assert(ev.subrange(0, j + 1) =~= ev.subrange(0, j as int).push(ev[j as int]));
                lemma_joined_and_push(ev.subrange(0, j as int), ev[j as int]);
            }
            j += 1;
        }
        proof {
            assert(views(expressions@).subrange(0, expressions@.len() as int) =~= views(expressions@));
        }
    }
    append_str(&mut out, ORDERING);
    assert(out@ == where_sql + ORDERING@);
    match query.limit() {
        Some(limit) => {
            let ghost before = parameters@;
            parameters.push(SqlValue::Integer(limit));
            proof {
                assert(param_views(parameters@) =~= param_views(before).push(SqlParam::Integer(limit as int)));
            }
            append_str(&mut out, "LIMIT ");
            let count = parameters.len();
            push_placeholder(&mut out, count);
        },
        None => {},
    }
    (out, parameters)
}

} // verus!
