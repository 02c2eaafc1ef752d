//! Literal search terms: tokenizing text into alphanumeric runs, sorted
//! deduplicated term lists, and SQLite FTS5 `AND` expressions.
use vstd::prelude::*;

use crate::text::{append_chars, chars_of, is_alphanumeric, push_char, string_of, unicode_alphanumeric};

verus! {

// ---------------------------------------------------------------------------
// Ordering of strings (code point order, which is the order of their UTF-8
// bytes and so the order of `String`)
// ---------------------------------------------------------------------------

/// `a` sorts strictly before `b`.
pub open spec fn seq_lt(a: Seq<char>, b: Seq<char>) -> bool
    decreases a.len(),
{
    if a.len() == 0 {
        b.len() > 0
    } else if b.len() == 0 {
        false
    } else if a[0] != b[0] {
        a[0] < b[0]
    } else {
        seq_lt(a.drop_first(), b.drop_first())
    }
}

pub proof fn lemma_seq_lt_irreflexive(a: Seq<char>)
    ensures
        !seq_lt(a, a),
    decreases a.len(),
{
    if a.len() > 0 {
        lemma_seq_lt_irreflexive(a.drop_first());
    }
}

pub proof fn lemma_seq_lt_total(a: Seq<char>, b: Seq<char>)
    ensures
        seq_lt(a, b) || seq_lt(b, a) || a == b,
        !(seq_lt(a, b) && seq_lt(b, a)),
    decreases a.len(),
{
    if a.len() > 0 && b.len() > 0 {
        if a[0] == b[0] {
            lemma_seq_lt_total(a.drop_first(), b.drop_first());
            if a.drop_first() == b.drop_first() {
                assert(a =~= seq![a[0]] + a.drop_first());
                assert(b =~= seq![b[0]] + b.drop_first());
            }
        }
    } else if a.len() == 0 && b.len() == 0 {
        assert(a =~= b);
    }
}

pub proof fn lemma_seq_lt_transitive(a: Seq<char>, b: Seq<char>, c: Seq<char>)
    requires
        seq_lt(a, b),
        seq_lt(b, c),
    ensures
        seq_lt(a, c),
    decreases a.len(),
{
    if a.len() > 0 && b.len() > 0 && c.len() > 0 {
        if a[0] == b[0] && b[0] == c[0] {
            lemma_seq_lt_transitive(a.drop_first(), b.drop_first(), c.drop_first());
        }
    }
}

/// Whether `a` sorts strictly before `b`.
pub fn chars_lt(a: &[char], b: &[char]) -> (r: bool)
    ensures
        r == seq_lt(a@, b@),
{
    let mut i: usize = 0;
    proof {
        assert(a@.subrange(0, a@.len() as int) =~= a@);
        assert(b@.subrange(0, b@.len() as int) =~= b@);
    }
    while i < a.len() && i < b.len()
        invariant
            i <= a@.len(),
            i <= b@.len(),
            forall|k: int| 0 <= k < i ==> a@[k] == b@[k],
            seq_lt(a@, b@) == seq_lt(a@.subrange(i as int, a@.len() as int), b@.subrange(
                i as int,
                b@.len() as int,
            )),
        decreases a@.len() - i,
    {
        if a[i] != b[i] {
            return a[i] < b[i];
        }
        proof {
            let x = a@.subrange(i as int, a@.len() as int);
            let y = b@.subrange(i as int, b@.len() as int);
            assert(x.drop_first() =~= a@.subrange(i + 1, a@.len() as int));
            assert(y.drop_first() =~= b@.subrange(i + 1, b@.len() as int));
        }
        i += 1;
    }
    i == a.len() && i < b.len()
}

/// Strictly increasing: sorted with no value twice.
pub open spec fn strictly_sorted(s: Seq<Seq<char>>) -> bool {
    forall|i: int, j: int| 0 <= i < j < s.len() ==> seq_lt(#[trigger] s[i], #[trigger] s[j])
}

pub open spec fn views(v: Seq<String>) -> Seq<Seq<char>> {
    v.map_values(|s: String| s@)
}

/// Two strictly increasing lists with the same elements are the same list.
pub proof fn lemma_sorted_set_unique(a: Seq<Seq<char>>, b: Seq<Seq<char>>)
    requires
        strictly_sorted(a),
        strictly_sorted(b),
        a.to_set() == b.to_set(),
    ensures
        a == b,
    decreases a.len(),
{
    if a.len() == 0 {
        if b.len() > 0 {
            assert(b.to_set().contains(b[0]));
        }
        assert(a =~= b);
    } else if b.len() == 0 {
        assert(a.to_set().contains(a[0]));
    } else {
        assert(a.to_set().contains(a[0]));
        assert(b.to_set().contains(b[0]));
        let j = choose|j: int| 0 <= j < b.len() && b[j] == a[0];
        let i = choose|i: int| 0 <= i < a.len() && a[i] == b[0];
        if j > 0 && i > 0 {
            assert(seq_lt(b[0], b[j]));
            assert(seq_lt(a[0], a[i]));
            lemma_seq_lt_transitive(a[0], b[0], a[0]);
            lemma_seq_lt_irreflexive(a[0]);
        } else if j > 0 {
            assert(seq_lt(b[0], b[j]));
            lemma_seq_lt_irreflexive(b[0]);
        } else if i > 0 {
            assert(seq_lt(a[0], a[i]));
            lemma_seq_lt_irreflexive(a[0]);
        }
        assert(a[0] == b[0]);
        let ta = a.drop_first();
        let tb = b.drop_first();
        assert forall|x: Seq<char>| ta.to_set().contains(x) <==> tb.to_set().contains(x) by {
            if ta.to_set().contains(x) {
                let k = choose|k: int| 0 <= k < ta.len() && ta[k] == x;
                assert(a[k + 1] == x);
                assert(seq_lt(a[0], x));
                assert(b.to_set().contains(x));
                let m = choose|m: int| 0 <= m < b.len() && b[m] == x;
                if m == 0 {
                    lemma_seq_lt_irreflexive(x);
                }
                assert(tb[m - 1] == x);
            }
            if tb.to_set().contains(x) {
                let k = choose|k: int| 0 <= k < tb.len() && tb[k] == x;
                assert(b[k + 1] == x);
                assert(seq_lt(b[0], x));
                assert(a.to_set().contains(x));
                let m = choose|m: int| 0 <= m < a.len() && a[m] == x;
                if m == 0 {
                    lemma_seq_lt_irreflexive(x);
                }
                assert(ta[m - 1] == x);
            }
        }
        assert(ta.to_set() =~= tb.to_set());
        lemma_sorted_set_unique(ta, tb);
        assert(a =~= seq![a[0]] + ta);
        assert(b =~= seq![b[0]] + tb);
    }
}

/// The strictly increasing list of the elements of a finite set of texts.
pub open spec fn sorted_of(set: Set<Seq<char>>) -> Seq<Seq<char>> {
    choose|s: Seq<Seq<char>>| strictly_sorted(s) && s.to_set() == set
}

/// A strictly increasing list is the sorted list of its elements.
pub proof fn lemma_sorted_of(s: Seq<Seq<char>>)
    requires
        strictly_sorted(s),
    ensures
        sorted_of(s.to_set()) == s,
{
    let c = sorted_of(s.to_set());
    lemma_sorted_set_unique(c, s);
}

/// `t` with `x` put in its place.
pub open spec fn sorted_insert(t: Seq<Seq<char>>, x: Seq<char>) -> Seq<Seq<char>>
    decreases t.len(),
{
    if t.len() == 0 {
        seq![x]
    } else if seq_lt(t.last(), x) {
        t.push(x)
    } else {
        sorted_insert(t.drop_last(), x).push(t.last())
    }
}

proof fn lemma_sorted_insert(t: Seq<Seq<char>>, x: Seq<char>)
    requires
        strictly_sorted(t),
        !t.contains(x),
    ensures
        strictly_sorted(sorted_insert(t, x)),
        sorted_insert(t, x).to_set() == t.to_set().insert(x),
        forall|k: int|
            0 <= k < sorted_insert(t, x).len() ==> #[trigger] sorted_insert(t, x)[k] == x || t.contains(
                sorted_insert(t, x)[k],
            ),
    decreases t.len(),
{
    let r = sorted_insert(t, x);
    if t.len() == 0 {
        assert(r[0] == x);
        assert forall|y: Seq<char>| r.to_set().contains(y) <==> t.to_set().insert(x).contains(y) by {
            if r.to_set().contains(y) {
                let k = choose|k: int| 0 <= k < r.len() && r[k] == y;
            }
            if y == x {
                assert(r.contains(x));
            }
        }
        assert(r.to_set() =~= t.to_set().insert(x));
    } else if seq_lt(t.last(), x) {
        assert forall|a: int, b: int| 0 <= a < b < r.len() implies seq_lt(#[trigger] r[a], #[trigger] r[b]) by {
            if b == r.len() - 1 && a < b {
                if a < t.len() - 1 {
                    lemma_seq_lt_transitive(t[a], t.last(), x);
                }
            }
        }
        t.lemma_push_to_set_commute(x);
        assert forall|k: int| 0 <= k < r.len() implies #[trigger] r[k] == x || t.contains(r[k]) by {
            if k < t.len() {
                assert(t.contains(t[k]));
            }
        }
    } else {
        let init = t.drop_last();
        let y = t.last();
        assert(t.contains(y));
        assert(y != x);
        lemma_seq_lt_total(y, x);
        assert forall|a: int, b: int| 0 <= a < b < init.len() implies seq_lt(#[trigger] init[a], #[trigger] init[b]) by {
            assert(init[a] == t[a] && init[b] == t[b]);
        }
        assert(!init.contains(x)) by {
            if init.contains(x) {
                let k = choose|k: int| 0 <= k < init.len() && init[k] == x;
                assert(t[k] == x);
            }
        }
        lemma_sorted_insert(init, x);
        let p = sorted_insert(init, x);
        assert(r == p.push(y));
        assert forall|a: int, b: int| 0 <= a < b < r.len() implies seq_lt(#[trigger] r[a], #[trigger] r[b]) by {
            if b == r.len() - 1 {
                assert(r[a] == p[a]);
                if p[a] != x {
                    assert(init.contains(p[a]));
                    let k = choose|k: int| 0 <= k < init.len() && init[k] == p[a];
                    assert(t[k] == p[a]);
                }
            } else {
                assert(r[a] == p[a] && r[b] == p[b]);
            }
        }
        p.lemma_push_to_set_commute(y);
        assert(t =~= init.push(y));
        init.lemma_push_to_set_commute(y);
        assert(r.to_set() =~= t.to_set().insert(x));
        assert forall|k: int| 0 <= k < r.len() implies #[trigger] r[k] == x || t.contains(r[k]) by {
            if k < p.len() {
                assert(r[k] == p[k]);
                if p[k] != x {
                    let j = choose|j: int| 0 <= j < init.len() && init[j] == p[k];
                    assert(t[j] == p[k]);
                }
            }
        }
    }
}

/// Every finite set of texts has a sorted list.
pub proof fn lemma_sortable(s: Set<Seq<char>>) -> (t: Seq<Seq<char>>)
    requires
        s.finite(),
    ensures
        strictly_sorted(t),
        t.to_set() == s,
    decreases s.len(),
{
    if s.len() == 0 {
        assert(s =~= Set::<Seq<char>>::empty());
        let t = Seq::<Seq<char>>::empty();
        assert(t.to_set() =~= s);
        t
    } else {
        let x = s.choose();
        let rest = s.remove(x);
        let t0 = lemma_sortable(rest);
        assert(!t0.contains(x)) by {
            if t0.contains(x) {
                assert(t0.to_set().contains(x));
            }
        }
        lemma_sorted_insert(t0, x);
        let t = sorted_insert(t0, x);
        assert(t.to_set() =~= s);
        t
    }
}

/// The sorted list of a finite set of texts holds exactly its texts.
pub proof fn lemma_sorted_of_contains(s: Set<Seq<char>>, w: Seq<char>)
    requires
        s.finite(),
    ensures
        strictly_sorted(sorted_of(s)),
        sorted_of(s).contains(w) <==> s.contains(w),
{
    let t = lemma_sortable(s);
    assert(strictly_sorted(t) && t.to_set() == s);
    let c = sorted_of(s);
    assert(strictly_sorted(c) && c.to_set() == s);
    if c.contains(w) {
        assert(c.to_set().contains(w));
    }
    if s.contains(w) {
        assert(c.to_set().contains(w));
    }
}

/// Inserts `item` into a strictly sorted list unless it is already there.
pub fn insert_sorted(list: &mut Vec<String>, item: String)
    requires
        strictly_sorted(views(old(list)@)),
    ensures
        strictly_sorted(views(final(list)@)),
        views(final(list)@).to_set() == views(old(list)@).to_set().insert(item@),
{
    let ghost old_views = views(list@);
    let item_chars = chars_of(item.as_str());
    let mut i: usize = 0;
    while i < list.len()
        invariant
            strictly_sorted(views(list@)),
            views(list@) == old_views,
            item_chars@ == item@,
            i <= list@.len(),
            forall|k: int| 0 <= k < i ==> seq_lt(#[trigger] views(list@)[k], item@),
        ensures
            i <= list@.len(),
            views(list@) == old_views,
            forall|k: int| 0 <= k < i ==> seq_lt(#[trigger] views(list@)[k], item@),
            i < list@.len() ==> seq_lt(item@, views(list@)[i as int]),
        decreases list@.len() - i,
    {
        let current = chars_of(list[i].as_str());
        if chars_eq_slice(&current, &item_chars) {
            proof {
                assert(views(list@)[i as int] == item@);
                assert(views(list@).to_set().insert(item@) =~= views(list@).to_set());
            }
            return;
        }
        if chars_lt(item_chars.as_slice(), current.as_slice()) {
            break;
        }
        proof {
            lemma_seq_lt_total(current@, item_chars@);
        }
        i += 1;
    }
    let ghost before = list@;
    list.insert(i, item);
    proof {
        let nv = views(list@);
        assert(nv =~= old_views.subrange(0, i as int).push(item@) + old_views.subrange(
            i as int,
            old_views.len() as int,
        ));
        assert forall|a: int, b: int| 0 <= a < b < nv.len() implies seq_lt(
            #[trigger] nv[a],
            #[trigger] nv[b],
        ) by {
            if a < i && b == i {
            } else if a < i && b > i {
                assert(nv[b] == old_views[b - 1]);
            } else if a == i && b > i {
                assert(nv[b] == old_views[b - 1]);
                if b - 1 > i {
                    assert(seq_lt(old_views[i as int], old_views[b - 1]));
                    lemma_seq_lt_transitive(item@, old_views[i as int], old_views[b - 1]);
                }
            } else if a > i {
                assert(nv[a] == old_views[a - 1] && nv[b] == old_views[b - 1]);
            }
        }
        assert forall|x: Seq<char>| nv.to_set().contains(x) <==> old_views.to_set().insert(
            item@,
        ).contains(x) by {
            if nv.to_set().contains(x) {
                let k = choose|k: int| 0 <= k < nv.len() && nv[k] == x;
                if k < i {
                    assert(old_views[k] == x);
                } else if k > i {
                    assert(old_views[k - 1] == x);
                }
            }
            if old_views.to_set().contains(x) {
                let k = choose|k: int| 0 <= k < old_views.len() && old_views[k] == x;
                if k < i {
                    assert(nv[k] == x);
                } else {
                    assert(nv[k + 1] == x);
                }
            }
            if x == item@ {
                assert(nv[i as int] == x);
            }
        }
        assert(nv.to_set() =~= old_views.to_set().insert(item@));
    }
}

fn chars_eq_slice(a: &Vec<char>, b: &Vec<char>) -> (r: bool)
    ensures
        r == (a@ == b@),
{
    crate::text::chars_eq(a.as_slice(), b.as_slice())
}

// ---------------------------------------------------------------------------
// Tokens
// ---------------------------------------------------------------------------

/// The text split at every character that `is_sep` holds of, keeping empty
/// pieces: `a,,b` splits into `a`, ``, `b`.
pub open spec fn pieces(s: Seq<char>, is_sep: spec_fn(char) -> bool) -> Seq<Seq<char>>
    decreases s.len(),
{
    if s.len() == 0 {
        seq![Seq::<char>::empty()]
    } else {
        let before = pieces(s.drop_last(), is_sep);
        if is_sep(s.last()) {
            before.push(Seq::<char>::empty())
        } else {
            before.drop_last().push(before.last().push(s.last()))
        }
    }
}

pub proof fn lemma_pieces_nonempty(s: Seq<char>, is_sep: spec_fn(char) -> bool)
    ensures
        pieces(s, is_sep).len() >= 1,
    decreases s.len(),
{
    if s.len() > 0 {
        lemma_pieces_nonempty(s.drop_last(), is_sep);
    }
}

/// The non-empty items of a list of texts, in order.
pub open spec fn nonempty(s: Seq<Seq<char>>) -> Seq<Seq<char>>
    decreases s.len(),
{
    if s.len() == 0 {
        Seq::empty()
    } else if s.last().len() == 0 {
        nonempty(s.drop_last())
    } else {
        nonempty(s.drop_last()).push(s.last())
    }
}

pub open spec fn not_alphanumeric() -> spec_fn(char) -> bool {
    |c: char| !unicode_alphanumeric(c)
}

/// The maximal runs of alphanumeric characters of a text, in order.
pub open spec fn literal_token_seq(s: Seq<char>) -> Seq<Seq<char>> {
    nonempty(pieces(s, not_alphanumeric()))
}

pub open spec fn string_views(v: Seq<String>) -> Seq<Seq<char>> {
    v.map_values(|s: String| s@)
}

proof fn lemma_nonempty_push(s: Seq<Seq<char>>, x: Seq<char>)
    ensures
        nonempty(s.push(x)) == (if x.len() == 0 {
            nonempty(s)
        } else {
            nonempty(s).push(x)
        }),
{
    assert(s.push(x).drop_last() =~= s);
}

/// The maximal runs of alphanumeric characters of `value`, in order.
pub fn literal_tokens(value: &str) -> (tokens: Vec<String>)
    ensures
        string_views(tokens@) == literal_token_seq(value@),
{
    let chars = chars_of(value);
    let mut tokens: Vec<String> = Vec::new();
    let mut current: Vec<char> = Vec::new();
    let mut i: usize = 0;
    while i < chars.len()
        invariant
            chars@ == value@,
            i <= chars@.len(),
            pieces(chars@.subrange(0, i as int), not_alphanumeric()).last() == current@,
            string_views(tokens@) == nonempty(
                pieces(chars@.subrange(0, i as int), not_alphanumeric()).drop_last(),
            ),
        decreases chars@.len() - i,
    {
        let c = chars[i];
        let ghost prefix = chars@.subrange(0, i as int);
        let ghost next = chars@.subrange(0, i + 1);
        proof {
            assert(next.drop_last() =~= prefix);
            assert(next.last() == c);
            lemma_pieces_nonempty(prefix, not_alphanumeric());
        }
        if is_alphanumeric(c) {
            current.push(c);
            proof {
                let p = pieces(prefix, not_alphanumeric());
                assert(pieces(next, not_alphanumeric()) == p.drop_last().push(p.last().push(c)));
                assert(pieces(next, not_alphanumeric()).drop_last() =~= p.drop_last());
            }
        } else {
            let ghost before = tokens@;
            if current.len() > 0 {
                tokens.push(string_of(current.as_slice()));
            }
            proof {
                let p = pieces(prefix, not_alphanumeric());
                assert(pieces(next, not_alphanumeric()) == p.push(Seq::<char>::empty()));
                assert(pieces(next, not_alphanumeric()).drop_last() =~= p);
                assert(p =~= p.drop_last().push(p.last()));
                lemma_nonempty_push(p.drop_last(), p.last());
                assert(string_views(tokens@) =~= nonempty(p));
            }
            current = Vec::new();
        }
        i += 1;
    }
    proof {
        assert(chars@.subrange(0, chars@.len() as int) =~= chars@);
        let p = pieces(chars@, not_alphanumeric());
        lemma_pieces_nonempty(chars@, not_alphanumeric());
        assert(p =~= p.drop_last().push(p.last()));
        lemma_nonempty_push(p.drop_last(), p.last());
    }
    if current.len() > 0 {
        tokens.push(string_of(current.as_slice()));
    }
    proof {
        assert(string_views(tokens@) =~= literal_token_seq(value@));
    }
    tokens
}

/// All literal tokens of the given texts, sorted, each once.
pub fn normalized_terms(values: &[String]) -> (terms: Vec<String>)
    ensures
        strictly_sorted(views(terms@)),
        views(terms@).to_set() == token_set(string_views(values@)),
{
    let mut terms: Vec<String> = Vec::new();
    let mut i: usize = 0;
    proof {
        assert(views(terms@).to_set() =~= Set::empty());
        assert(string_views(values@).subrange(0, 0) =~= Seq::<Seq<char>>::empty());
    }
    while i < values.len()
        invariant
            i <= values@.len(),
            strictly_sorted(views(terms@)),
            views(terms@).to_set() == token_set(string_views(values@).subrange(0, i as int)),
        decreases values@.len() - i,
    {
        let tokens = literal_tokens(values[i].as_str());
        let mut k: usize = 0;
        let ghost base = views(terms@).to_set();
        while k < tokens.len()
            invariant
                k <= tokens@.len(),
                strictly_sorted(views(terms@)),
                string_views(tokens@) == literal_token_seq(values@[i as int]@),
                views(terms@).to_set() == base + string_views(tokens@).subrange(0, k as int).to_set(),
            decreases tokens@.len() - k,
        {
            insert_sorted(&mut terms, tokens[k].clone());
            proof {
                let sv = string_views(tokens@);
                assert(sv.subrange(0, k + 1) =~= sv.subrange(0, k as int).push(sv[k as int]));
                sv.subrange(0, k as int).lemma_push_to_set_commute(sv[k as int]);
                assert(views(terms@).to_set() =~= base + sv.subrange(0, k + 1).to_set());
            }
            k += 1;
        }
        proof {
            let sv = string_views(values@);
            assert(sv.subrange(0, i + 1) =~= sv.subrange(0, i as int).push(sv[i as int]));
            lemma_token_set_push(sv.subrange(0, i as int), sv[i as int]);
            assert(string_views(tokens@).subrange(0, tokens@.len() as int) =~= string_views(
                tokens@,
            ));
            assert(views(terms@).to_set() =~= token_set(sv.subrange(0, i + 1)));
        }
        i += 1;
    }
    proof {
        assert(string_views(values@).subrange(0, values@.len() as int) =~= string_views(values@));
    }
    terms
}

/// Appends copies of the strings of `items`.
pub fn append_strings(list: &mut Vec<String>, items: &Vec<String>)
    ensures
        views(final(list)@) == views(old(list)@) + views(items@),
{
    let ghost base = views(list@);
    let mut k: usize = 0;
    while k < items.len()
        invariant
            k <= items@.len(),
            views(list@) == base + views(items@).subrange(0, k as int),
        decreases items@.len() - k,
    {
        let ghost before = list@;
        let item = items[k].clone();
        assert(item@ == views(items@)[k as int]);
        list.push(item);
        proof {
            assert(list@ == before.push(item));
            assert(views(list@) =~= views(before).push(item@));
            assert(views(items@).subrange(0, k + 1) =~= views(items@).subrange(0, k as int).push(
                item@,
            ));
            assert(views(list@) =~= base + views(items@).subrange(0, k + 1));
        }
        k += 1;
    }
    proof {
        assert(views(items@).subrange(0, items@.len() as int) =~= views(items@));
    }
}

/// Inserts every string of `items` into a strictly sorted list, each once.
pub fn insert_all_sorted(list: &mut Vec<String>, items: &Vec<String>)
    requires
        strictly_sorted(views(old(list)@)),
    ensures
        strictly_sorted(views(final(list)@)),
        views(final(list)@).to_set() == views(old(list)@).to_set() + views(items@).to_set(),
{
    let ghost base = views(list@).to_set();
    let mut k: usize = 0;
    proof {
        assert(views(items@).subrange(0, 0).to_set() =~= Set::<Seq<char>>::empty());
        assert(base + Set::<Seq<char>>::empty() =~= base);
    }
    while k < items.len()
        invariant
            k <= items@.len(),
            strictly_sorted(views(list@)),
            views(list@).to_set() == base + views(items@).subrange(0, k as int).to_set(),
        decreases items@.len() - k,
    {
        insert_sorted(list, items[k].clone());
        proof {
            let sv = views(items@);
            assert(sv.subrange(0, k + 1) =~= sv.subrange(0, k as int).push(sv[k as int]));
            sv.subrange(0, k as int).lemma_push_to_set_commute(sv[k as int]);
            assert(views(list@).to_set() =~= base + sv.subrange(0, k + 1).to_set());
        }
        k += 1;
    }
    proof {
        assert(views(items@).subrange(0, items@.len() as int) =~= views(items@));
    }
}

/// Every literal token of every text in the list.
pub open spec fn token_set(texts: Seq<Seq<char>>) -> Set<Seq<char>>
    decreases texts.len(),
{
    if texts.len() == 0 {
        Set::empty()
    } else {
        token_set(texts.drop_last()) + literal_token_seq(texts.last()).to_set()
    }
}

proof fn lemma_token_set_push(texts: Seq<Seq<char>>, t: Seq<char>)
    ensures
        token_set(texts.push(t)) == token_set(texts) + literal_token_seq(t).to_set(),
{
    assert(texts.push(t).drop_last() =~= texts);
}

// ---------------------------------------------------------------------------
// FTS expressions
// ---------------------------------------------------------------------------

/// A term with every `"` doubled.
pub open spec fn escape_quotes(t: Seq<char>) -> Seq<char>
    decreases t.len(),
{
    if t.len() == 0 {
        Seq::empty()
    } else if t.last() == '"' {
        escape_quotes(t.drop_last()) + seq!['"', '"']
    } else {
        escape_quotes(t.drop_last()).push(t.last())
    }
}

/// A term as an FTS5 string literal.
pub open spec fn quoted(t: Seq<char>) -> Seq<char> {
    seq!['"'] + escape_quotes(t) + seq!['"']
}

/// The quoted terms joined by ` AND `.
pub open spec fn and_expression(terms: Seq<Seq<char>>) -> Seq<char>
    decreases terms.len(),
{
    if terms.len() == 0 {
        Seq::empty()
    } else if terms.len() == 1 {
        quoted(terms[0])
    } else {
        and_expression(terms.drop_last()) + " AND "@ + quoted(terms.last())
    }
}

fn push_quoted(out: &mut String, term: &str)
    ensures
        final(out)@ == old(out)@ + quoted(term@),
{
    let chars = chars_of(term);
    let ghost start = out@;
    push_char(out, '"');
    let mut i: usize = 0;
    while i < chars.len()
        invariant
            chars@ == term@,
            i <= chars@.len(),
            out@ == start + seq!['"'] + escape_quotes(chars@.subrange(0, i as int)),
        decreases chars@.len() - i,
    {
        let c = chars[i];
        proof {
            let next = chars@.subrange(0, i + 1);
            assert(next.drop_last() =~= chars@.subrange(0, i as int));
            assert(next.last() == c);
        }
        if c == '"' {
            push_char(out, '"');
            push_char(out, '"');
        } else {
            push_char(out, c);
        }
        proof {
            let next = chars@.subrange(0, i + 1);
            assert(out@ =~= start + seq!['"'] + escape_quotes(next));
        }
        i += 1;
    }
    push_char(out, '"');
    proof {
        assert(chars@.subrange(0, chars@.len() as int) =~= chars@);
        assert(out@ =~= start + quoted(term@));
    }
}

/// An FTS5 query that matches rows holding every one of the literal terms.
pub fn fts_and_expression(terms: &[String]) -> (out: String)
    ensures
        out@ == and_expression(string_views(terms@)),
{
    let mut out = String::new();
    let mut i: usize = 0;
    while i < terms.len()
        invariant
            i <= terms@.len(),
            out@ == and_expression(string_views(terms@).subrange(0, i as int)),
        decreases terms@.len() - i,
    {
        proof {
            let sv = string_views(terms@);
            assert(sv.subrange(0, i + 1).drop_last() =~= sv.subrange(0, i as int));
            assert(sv.subrange(0, i + 1).last() == terms@[i as int]@);
            reveal_strlit(" AND ");
        }
        if i > 0 {
            crate::text::append_str(&mut out, " AND ");
        }
        push_quoted(&mut out, terms[i].as_str());
        proof {
            let sv = string_views(terms@);
            if i == 0 {
                assert(sv.subrange(0, 1) =~= seq![sv[0]]);
                assert(out@ =~= quoted(sv[0]));
            } else {
                assert(out@ =~= and_expression(sv.subrange(0, i + 1)));
            }
        }
        i += 1;
    }
    proof {
        assert(string_views(terms@).subrange(0, terms@.len() as int) =~= string_views(terms@));
    }
    out
}

} // verus!
