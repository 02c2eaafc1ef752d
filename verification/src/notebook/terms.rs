//! Search words: the lowercased runs of letters and digits of a text, and which
//! notes' bodies, headings and metadata hold each word.
use vstd::prelude::*;

use crate::lexical::{
    append_strings, insert_all_sorted, insert_sorted, lemma_pieces_nonempty, lemma_seq_lt_irreflexive,
    lemma_sorted_of, literal_token_seq, seq_lt,
    literal_tokens, pieces, sorted_of, strictly_sorted, string_views, views,
};
use crate::notebook::Index;
use crate::strmap::StrMap;
use crate::text::{
    append_chars, chars_of, owned, slice_chars, str_eq, string_of, to_lowercase, trim,
    trim_chars, trim_start, trim_start_chars, unicode_lowercase,
};

verus! {

/// A text with each character replaced by its lowercase form.
pub open spec fn lower_text(w: Seq<char>) -> Seq<char>
    decreases w.len(),
{
    if w.len() == 0 {
        Seq::empty()
    } else {
        lower_text(w.drop_last()) + unicode_lowercase(w.last())
    }
}

/// The words of a text: its runs of letters and digits, lowercased, in order.
pub open spec fn text_words(t: Seq<char>) -> Seq<Seq<char>> {
    literal_token_seq(t).map_values(|w: Seq<char>| lower_text(w))
}

fn lower_string(s: &String) -> (out: String)
    ensures
        out@ == lower_text(s@),
{
    let chars = chars_of(s.as_str());
    let mut out = String::new();
    let mut i: usize = 0;
    proof {
        assert(chars@.subrange(0, 0) =~= Seq::<char>::empty());
    }
    while i < chars.len()
        invariant
            i <= chars@.len(),
            chars@ == s@,
            out@ == lower_text(chars@.subrange(0, i as int)),
        decreases chars@.len() - i,
    {
        let lower = to_lowercase(chars[i]);
        append_chars(&mut out, lower.as_slice());
        proof {
            assert(chars@.subrange(0, i + 1).drop_last() =~= chars@.subrange(0, i as int));
        }
        i += 1;
    }
    proof {
        assert(chars@.subrange(0, chars@.len() as int) =~= chars@);
    }
    out
}

/// The distinct words of a text, lowercased and sorted.
pub fn tokenize_text(text: &str) -> (terms: Vec<String>)
    ensures
        strictly_sorted(views(terms@)),
        views(terms@).to_set() == text_words(text@).to_set(),
{
    let tokens = literal_tokens(text);
    let mut terms: Vec<String> = Vec::new();
    let mut k: usize = 0;
    proof {
        assert(views(terms@).to_set() =~= text_words(text@).subrange(0, 0).to_set());
    }
    while k < tokens.len()
        invariant
            k <= tokens@.len(),
            string_views(tokens@) == literal_token_seq(text@),
            strictly_sorted(views(terms@)),
            views(terms@).to_set() == text_words(text@).subrange(0, k as int).to_set(),
        decreases tokens@.len() - k,
    {
        let word = lower_string(&tokens[k]);
        proof {
            assert(word@ == text_words(text@)[k as int]);
        }
        let ghost before = views(terms@).to_set();
        insert_sorted(&mut terms, word);
        proof {
            let tw = text_words(text@);
            assert(tw.subrange(0, k + 1) =~= tw.subrange(0, k as int).push(tw[k as int]));
            tw.subrange(0, k as int).lemma_push_to_set_commute(tw[k as int]);
        }
        k += 1;
    }
    proof {
        assert(text_words(text@).subrange(0, tokens@.len() as int) =~= text_words(text@));
    }
    terms
}

// ---------------------------------------------------------------------------
// Headings
// ---------------------------------------------------------------------------
pub open spec fn is_newline() -> spec_fn(char) -> bool {
    |c: char| c == '\n'
}

/// The text without its leading `#` characters.
pub open spec fn strip_hashes(t: Seq<char>) -> Seq<char>
    decreases t.len(),
{
    if t.len() > 0 && t[0] == '#' {
        strip_hashes(t.drop_first())
    } else {
        t
    }
}

/// The words of a line that is a heading (a `#` after any indentation).
pub open spec fn heading_words(line: Seq<char>) -> Set<Seq<char>> {
    let t = trim_start(line);
    if t.len() > 0 && t[0] == '#' {
        text_words(trim(strip_hashes(t))).to_set()
    } else {
        Set::empty()
    }
}

/// The words of every heading line of a list of lines.
pub open spec fn heading_word_set(lines: Seq<Seq<char>>) -> Set<Seq<char>>
    decreases lines.len(),
{
    if lines.len() == 0 {
        Set::empty()
    } else {
        heading_word_set(lines.drop_last()) + heading_words(lines.last())
    }
}

/// The words of the headings of a body.
pub open spec fn body_heading_words(body: Seq<char>) -> Set<Seq<char>> {
    heading_word_set(pieces(body, is_newline()))
}

pub open spec fn line_views(v: Seq<Vec<char>>) -> Seq<Seq<char>> {
    v.map_values(|l: Vec<char>| l@)
}

fn split_lines(chars: &Vec<char>) -> (lines: Vec<Vec<char>>)
    ensures
        line_views(lines@) == pieces(chars@, is_newline()),
{
    let mut lines: Vec<Vec<char>> = Vec::new();
    let mut current: Vec<char> = Vec::new();
    let mut i: usize = 0;
    proof {
        assert(chars@.subrange(0, 0) =~= Seq::<char>::empty());
        assert(line_views(lines@) =~= seq![Seq::<char>::empty()].drop_last());
    }
    while i < chars.len()
        invariant
            i <= chars@.len(),
            pieces(chars@.subrange(0, i as int), is_newline()).last() == current@,
            line_views(lines@) == pieces(chars@.subrange(0, i as int), is_newline()).drop_last(),
        decreases chars@.len() - i,
    {
        let c = chars[i];
        let ghost prefix = chars@.subrange(0, i as int);
        let ghost next = chars@.subrange(0, i + 1);
        proof {
            assert(next.drop_last() =~= prefix);
            assert(next.last() == c);
            lemma_pieces_nonempty(prefix, is_newline());
        }
        if c == '\n' {
            let ghost before = lines@;
            lines.push(current);
            current = Vec::new();
            proof {
                let p = pieces(prefix, is_newline());
                assert(pieces(next, is_newline()) == p.push(Seq::<char>::empty()));
                assert(line_views(lines@) =~= line_views(before).push(p.last()));
                assert(p =~= p.drop_last().push(p.last()));
                assert(pieces(next, is_newline()).drop_last() =~= p);
                assert(current@ =~= Seq::<char>::empty());
            }
        } else {
            current.push(c);
            proof {
                let p = pieces(prefix, is_newline());
                assert(pieces(next, is_newline()) == p.drop_last().push(p.last().push(c)));
                assert(pieces(next, is_newline()).drop_last() =~= p.drop_last());
            }
        }
        i += 1;
    }
    let ghost before = lines@;
    lines.push(current);
    proof {
        assert(chars@.subrange(0, chars@.len() as int) =~= chars@);
        let p = pieces(chars@, is_newline());
        lemma_pieces_nonempty(chars@, is_newline());
        assert(line_views(lines@) =~= line_views(before).push(p.last()));
        assert(p =~= p.drop_last().push(p.last()));
    }
    lines
}

fn strip_hash_chars(t: &Vec<char>) -> (out: Vec<char>)
    ensures
        out@ == strip_hashes(t@),
{
    let mut k: usize = 0;
    proof {
        assert(t@.subrange(0, t@.len() as int) =~= t@);
    }
    while k < t.len() && t[k] == '#'
        invariant
            k <= t@.len(),
            strip_hashes(t@) == strip_hashes(t@.subrange(k as int, t@.len() as int)),
        decreases t@.len() - k,
    {
        proof {
            assert(t@.subrange(k as int, t@.len() as int).drop_first() =~= t@.subrange(
                k + 1,
                t@.len() as int,
            ));
        }
        k += 1;
    }
    slice_chars(t.as_slice(), k, t.len())
}

/// The words of the heading lines of a body, sorted, each once.
fn heading_terms_from_body(body: &str) -> (terms: Vec<String>)
    ensures
        strictly_sorted(views(terms@)),
        views(terms@).to_set() == body_heading_words(body@),
{
    let chars = chars_of(body);
    let lines = split_lines(&chars);
    let mut terms: Vec<String> = Vec::new();
    let mut k: usize = 0;
    proof {
        assert(line_views(lines@).subrange(0, 0) =~= Seq::<Seq<char>>::empty());
        assert(views(terms@).to_set() =~= Set::<Seq<char>>::empty());
    }
    while k < lines.len()
        invariant
            k <= lines@.len(),
            line_views(lines@) == pieces(body@, is_newline()),
            strictly_sorted(views(terms@)),
            views(terms@).to_set() == heading_word_set(line_views(lines@).subrange(0, k as int)),
        decreases lines@.len() - k,
    {
        let line = &lines[k];
        let t = trim_start_chars(line.as_slice());
        let ghost before = views(terms@).to_set();
        if t.len() > 0 && t[0] == '#' {
            let stripped = strip_hash_chars(&t);
            let heading = trim_chars(stripped.as_slice());
            let text = string_of(heading.as_slice());
            let words = tokenize_text(text.as_str());
            insert_all_sorted(&mut terms, &words);
        }
        proof {
            let lv = line_views(lines@);
            assert(lv.subrange(0, k + 1).drop_last() =~= lv.subrange(0, k as int));
            assert(lv.subrange(0, k + 1).last() == line@);
            assert(views(terms@).to_set() =~= heading_word_set(lv.subrange(0, k + 1)));
        }
        k += 1;
    }
    proof {
        assert(line_views(lines@).subrange(0, lines@.len() as int) =~= line_views(lines@));
    }
    terms
}

// ---------------------------------------------------------------------------
// Filing note ids under words
// ---------------------------------------------------------------------------
/// Every list of a table is strictly increasing.
pub open spec fn lists_sorted(m: Map<Seq<char>, Seq<Seq<char>>>) -> bool {
    forall|k: Seq<char>| m.dom().contains(k) ==> strictly_sorted(#[trigger] m[k])
}

/// Whether `id` is on the list of `key` in a table.
pub open spec fn filed_under(m: Map<Seq<char>, Seq<Seq<char>>>, key: Seq<char>, id: Seq<char>) -> bool {
    m.dom().contains(key) && m[key].contains(id)
}

/// Every text but `id`.
pub open spec fn other_than(id: Seq<char>) -> spec_fn(Seq<char>) -> bool {
    |x: Seq<char>| x != id
}

/// A table with `id` taken out of every list, and the lists left empty dropped.
pub open spec fn without_id(m: Map<Seq<char>, Seq<Seq<char>>>, id: Seq<char>) -> Map<
    Seq<char>,
    Seq<Seq<char>>,
> {
    Map::new(
        |k: Seq<char>| m.dom().contains(k) && m[k].filter(other_than(id)).len() > 0,
        |k: Seq<char>| m[k].filter(other_than(id)),
    )
}

/// A table with `id` filed, in order, under each key of `keys`.
pub open spec fn with_id(
    m: Map<Seq<char>, Seq<Seq<char>>>,
    keys: Set<Seq<char>>,
    id: Seq<char>,
) -> Map<Seq<char>, Seq<Seq<char>>> {
    Map::new(
        |k: Seq<char>| m.dom().contains(k) || keys.contains(k),
        |k: Seq<char>|
            if keys.contains(k) {
                sorted_of(
                    (if m.dom().contains(k) {
                        m[k].to_set()
                    } else {
                        Set::empty()
                    }).insert(id),
                )
            } else {
                m[k]
            },
    )
}

/// Adds `id` to a strictly increasing list of ids unless it is there.
fn push_indexed_id(ids: &mut Vec<String>, id: &str)
    requires
        strictly_sorted(views(old(ids)@)),
    ensures
        strictly_sorted(views(final(ids)@)),
        views(final(ids)@).to_set() == views(old(ids)@).to_set().insert(id@),
{
    insert_sorted(ids, owned(id));
}

/// The ids of a list other than `id`, in order.
fn without(ids: &Vec<String>, id: &str) -> (r: Vec<String>)
    ensures
        views(r@) == views(ids@).filter(other_than(id@)),
{
    let mut r: Vec<String> = Vec::new();
    let mut k: usize = 0;
    proof {
        assert(views(ids@).subrange(0, 0) =~= Seq::<Seq<char>>::empty());
        assert(views(r@) =~= Seq::<Seq<char>>::empty().filter(other_than(id@)));
    }
    while k < ids.len()
        invariant
            k <= ids@.len(),
            views(r@) == views(ids@).subrange(0, k as int).filter(other_than(id@)),
        decreases ids@.len() - k,
    {
        let ghost before = views(r@);
        let same = str_eq(ids[k].as_str(), id);
        if !same {
            let item = ids[k].clone();
            r.push(item);
        }
        proof {
            let iv = views(ids@);
            assert(iv.subrange(0, k + 1) =~= iv.subrange(0, k as int).push(iv[k as int]));
            iv.subrange(0, k as int).lemma_filter_push(iv[k as int], other_than(id@));
            assert(views(r@) =~= iv.subrange(0, k + 1).filter(other_than(id@)));
        }
        k += 1;
    }
    proof {
        assert(views(ids@).subrange(0, ids@.len() as int) =~= views(ids@));
    }
    r
}

/// Takes `id` out of every list of a table, dropping the lists left empty.
fn remove_indexed_id(index: &mut StrMap<Vec<String>>, id: &str)
    requires
        old(index).wf(),
    ensures
        final(index).wf(),
        final(index).lists() == without_id(old(index).lists(), id@),
{
    let mut kept: StrMap<Vec<String>> = StrMap::new();
    let ghost source = index.lists();
    let mut i: usize = 0;
    while i < index.len()
        invariant
            index.wf(),
            kept.wf(),
            i <= index.keys().len(),
            source == index.lists(),
            kept.lists() == without_id(source, id@).restrict(
                index.keys().subrange(0, i as int).to_set(),
            ),
        decreases index.keys().len() - i,
    {
        let key = index.key_at(i);
        let ids = index.value_at(i);
        let remaining = without(ids, id);
        let ghost before = kept.lists();
        let ghost k = index.keys()[i as int];
        if remaining.len() > 0 {
            kept.insert(key.clone(), remaining);
        }
        proof {
            index.lemma_at(i as int);
            assert(source.dom().contains(k));
            assert(source[k] == views(ids@));
            let done = index.keys().subrange(0, i as int).to_set();
            assert(index.keys().subrange(0, i + 1).to_set() =~= done.insert(k)) by {
                assert(index.keys().subrange(0, i + 1) =~= index.keys().subrange(0, i as int).push(
                    k,
                ));
                index.keys().subrange(0, i as int).lemma_push_to_set_commute(k);
            }
            let goal = without_id(source, id@).restrict(done.insert(k));
            if remaining@.len() > 0 {
                assert(kept.lists() =~= before.insert(k, views(remaining@)));
                assert(goal =~= without_id(source, id@).restrict(done).insert(k, views(remaining@)));
            } else {
                assert(!without_id(source, id@).dom().contains(k));
                assert(goal =~= without_id(source, id@).restrict(done));
            }
            assert(kept.lists() =~= goal);
        }
        i += 1;
    }
    proof {
        assert(index.keys().subrange(0, index.keys().len() as int) =~= index.keys());
        index.lemma_dom();
        assert(kept.lists() =~= without_id(source, id@));
    }
    *index = kept;
}

impl StrMap<Vec<String>> {
    /// Files `id` under `key`, keeping the list of `key` strictly increasing.
    fn file_id(&mut self, key: &str, id: &str)
        requires
            old(self).wf(),
            lists_sorted(old(self).lists()),
        ensures
            final(self).wf(),
            lists_sorted(final(self).lists()),
            final(self).lists() == with_id(old(self).lists(), set![key@], id@),
    {
        let ghost before = self.lists();
        let mut list: Vec<String> = Vec::new();
        match self.get(key) {
            Some(existing) => append_strings(&mut list, existing),
            None => {},
        }
        let ghost start = views(list@);
        proof {
            if before.dom().contains(key@) {
                assert(start =~= before[key@]);
            } else {
                assert(start.to_set() =~= Set::<Seq<char>>::empty());
            }
        }
        push_indexed_id(&mut list, id);
        proof {
            lemma_sorted_of(views(list@));
        }
        self.insert(owned(key), list);
        proof {
            assert(self.lists() =~= before.insert(key@, views(list@)));
            assert(with_id(before, set![key@], id@) =~= before.insert(key@, views(list@)));
        }
    }
}

impl Index {
    /// Whether the body of note `id` holds every one of `terms`; `None` when no
    /// terms are asked or that body has not been indexed.
    pub fn body_terms_match(&self, id: &str, terms: &[String]) -> (r: Option<bool>)
        requires
            self.wf(),
        ensures
            r == (if terms@.len() == 0 || !views(self.body_indexed@).contains(id@) {
                None::<bool>
            } else {
                Some(
                    forall|t: int|
                        0 <= t < terms@.len() ==> #[trigger] filed_under(
                            self.body_terms.lists(),
                            terms@[t]@,
                            id@,
                        ),
                )
            }),
    {
        if terms.len() == 0 || !contains_str(&self.body_indexed, id) {
            return None;
        }
        let mut t: usize = 0;
        while t < terms.len()
            invariant
                self.wf(),
                t <= terms@.len(),
                terms@.len() > 0,
                views(self.body_indexed@).contains(id@),
                forall|u: int|
                    0 <= u < t ==> #[trigger] filed_under(self.body_terms.lists(), terms@[u]@, id@),
            decreases terms@.len() - t,
        {
            let found = match self.body_terms.get(terms[t].as_str()) {
                Some(ids) => contains_str(ids, id),
                None => false,
            };
            proof {
                let key = terms@[t as int]@;
                let lists = self.body_terms.lists();
                assert(lists.dom() =~= self.body_terms@.dom());
                if lists.dom().contains(key) {
                    assert(lists[key] == views(self.body_terms@[key]@));
                }
                assert(found == filed_under(lists, key, id@));
            }
            if !found {
                proof {
                    assert(!filed_under(self.body_terms.lists(), terms@[t as int]@, id@));
                }
                return Some(false);
            }
            t += 1;
        }
        Some(true)
    }

    /// Whether note `id` is filed under `term` in the metadata words.
    pub fn metadata_term_matches(&self, id: &str, term: &str) -> (r: bool)
        requires
            self.wf(),
        ensures
            r == filed_under(self.terms.lists(), term@, id@),
    {
        let found = match self.terms.get(term) {
            Some(ids) => contains_str(ids, id),
            None => false,
        };
        proof {
            let lists = self.terms.lists();
            assert(lists.dom() =~= self.terms@.dom());
            if lists.dom().contains(term@) {
                assert(lists[term@] == views(self.terms@[term@]@));
            }
        }
        found
    }

    /// Files note `id` under the words of its body and of its headings, after
    /// taking it out of those tables.
    pub fn refresh_text_terms(&mut self, id: &str, body: &str)
        requires
            old(self).wf(),
            lists_sorted(old(self).body_terms.lists()),
            lists_sorted(old(self).heading_terms.lists()),
            strictly_sorted(views(old(self).body_indexed@)),
        ensures
            final(self).wf(),
            final(self).notes == old(self).notes,
            final(self).terms == old(self).terms,
            final(self).body_terms.lists() == with_id(
                without_id(old(self).body_terms.lists(), id@),
                text_words(body@).to_set(),
                id@,
            ),
            final(self).heading_terms.lists() == with_id(
                without_id(old(self).heading_terms.lists(), id@),
                body_heading_words(body@),
                id@,
            ),
            views(final(self).body_indexed@).to_set() == views(old(self).body_indexed@).to_set().insert(
                id@,
            ),
    {
        proof {
            lemma_without_id_sorted(self.body_terms.lists(), id@);
            lemma_without_id_sorted(self.heading_terms.lists(), id@);
            lemma_filter_sorted(views(self.body_indexed@), id@);
        }
        self.remove_text_terms(id);
        let words = tokenize_text(body);
        file_under_all(&mut self.body_terms, &words, id);
        let headings = heading_terms_from_body(body);
        file_under_all(&mut self.heading_terms, &headings, id);
        let ghost filtered = views(self.body_indexed@);
        push_indexed_id(&mut self.body_indexed, id);
        proof {
            let old_set = views(old(self).body_indexed@).to_set();
            assert(filtered.to_set().insert(id@) =~= old_set.insert(id@)) by {
                assert forall|x: Seq<char>| filtered.to_set().contains(x) implies old_set.contains(
                    x,
                ) by {
                    views(old(self).body_indexed@).lemma_filter_contains_rev(
                        other_than(id@),
                        x,
                    );
                }
                assert forall|x: Seq<char>| old_set.contains(x) && x != id@ implies filtered.to_set().contains(
                    x,
                ) by {
                    let j = choose|j: int|
                        0 <= j < views(old(self).body_indexed@).len() && views(
                            old(self).body_indexed@,
                        )[j] == x;
                    views(old(self).body_indexed@).lemma_filter_contains(
                        other_than(id@),
                        j,
                    );
                }
            }
        }
    }

    /// Takes note `id` out of the body and heading word tables.
    pub fn remove_text_terms(&mut self, id: &str)
        requires
            old(self).wf(),
        ensures
            final(self).wf(),
            final(self).notes == old(self).notes,
            final(self).terms == old(self).terms,
            final(self).body_terms.lists() == without_id(old(self).body_terms.lists(), id@),
            final(self).heading_terms.lists() == without_id(old(self).heading_terms.lists(), id@),
            views(final(self).body_indexed@) == views(old(self).body_indexed@).filter(
                other_than(id@),
            ),
    {
        proof {
            lemma_without_id_sorted(self.body_terms.lists(), id@);
            lemma_without_id_sorted(self.heading_terms.lists(), id@);
        }
        remove_indexed_id(&mut self.body_terms, id);
        remove_indexed_id(&mut self.heading_terms, id);
        self.body_indexed = without(&self.body_indexed, id);
    }
}

proof fn lemma_filter_sorted(s: Seq<Seq<char>>, id: Seq<char>)
    requires
        strictly_sorted(s),
    ensures
        strictly_sorted(s.filter(other_than(id))),
    decreases s.len(),
{
    if s.len() > 0 {
        let rest = s.drop_last();
        lemma_filter_sorted(rest, id);
        assert(s =~= rest.push(s.last()));
        rest.lemma_filter_push(s.last(), other_than(id));
        let f = rest.filter(other_than(id));
        assert forall|i: int| 0 <= i < f.len() implies seq_lt(#[trigger] f[i], s.last()) by {
            assert(f.contains(f[i]));
            rest.lemma_filter_contains_rev(other_than(id), f[i]);
            let j = choose|j: int| 0 <= j < rest.len() && rest[j] == f[i];
            assert(s[j] == rest[j]);
        }
    }
}

proof fn lemma_without_id_sorted(m: Map<Seq<char>, Seq<Seq<char>>>, id: Seq<char>)
    requires
        lists_sorted(m),
    ensures
        lists_sorted(without_id(m, id)),
{
    assert forall|k: Seq<char>| without_id(m, id).dom().contains(k) implies strictly_sorted(
        #[trigger] without_id(m, id)[k],
    ) by {
        assert(m.dom().contains(k));
        assert(strictly_sorted(m[k]));
        assert(without_id(m, id)[k] == m[k].filter(other_than(id)));
        lemma_filter_sorted(m[k], id);
    }
}

/// Files `id` under each word of a strictly increasing list of words.
fn file_under_all(table: &mut StrMap<Vec<String>>, words: &Vec<String>, id: &str)
    requires
        old(table).wf(),
        lists_sorted(old(table).lists()),
        strictly_sorted(views(words@)),
    ensures
        final(table).wf(),
        lists_sorted(final(table).lists()),
        final(table).lists() == with_id(old(table).lists(), views(words@).to_set(), id@),
{
    let ghost start = table.lists();
    let mut k: usize = 0;
    proof {
        assert(views(words@).subrange(0, 0).to_set() =~= Set::<Seq<char>>::empty());
        assert(with_id(start, Set::empty(), id@) =~= start);
    }
    while k < words.len()
        invariant
            k <= words@.len(),
            strictly_sorted(views(words@)),
            table.wf(),
            lists_sorted(table.lists()),
            table.lists() == with_id(start, views(words@).subrange(0, k as int).to_set(), id@),
        decreases words@.len() - k,
    {
        let ghost before = table.lists();
        let ghost done = views(words@).subrange(0, k as int).to_set();
        let ghost w = views(words@)[k as int];
        table.file_id(words[k].as_str(), id);
        proof {
            assert(!done.contains(w)) by {
                if done.contains(w) {
                    let j = choose|j: int| 0 <= j < k && views(words@).subrange(0, k as int)[j] == w;
                    assert(seq_lt(views(words@)[j], w));
                    lemma_seq_lt_irreflexive(w);
                }
            }
            assert(views(words@).subrange(0, k + 1) =~= views(words@).subrange(0, k as int).push(
                w,
            ));
            views(words@).subrange(0, k as int).lemma_push_to_set_commute(w);
            assert(table.lists() =~= with_id(start, done.insert(w), id@));
        }
        k += 1;
    }
    proof {
        assert(views(words@).subrange(0, words@.len() as int) =~= views(words@));
    }
}

/// Whether a list of strings holds `id`.
fn contains_str(ids: &Vec<String>, id: &str) -> (r: bool)
    ensures
        r == views(ids@).contains(id@),
{
    let mut k: usize = 0;
    while k < ids.len()
        invariant
            k <= ids@.len(),
            forall|j: int| 0 <= j < k ==> ids@[j]@ != id@,
        decreases ids@.len() - k,
    {
        if str_eq(ids[k].as_str(), id) {
            assert(views(ids@)[k as int] == id@);
            return true;
        }
        k += 1;
    }
    proof {
        if views(ids@).contains(id@) {
            let j = choose|j: int| 0 <= j < views(ids@).len() && views(ids@)[j] == id@;
            assert(ids@[j]@ == id@);
        }
    }
    false
}

} // verus!
