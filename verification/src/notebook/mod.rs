//! The notebook index: the metadata of every note and the lookup tables derived from it.
pub mod listing;
pub mod terms;
pub mod words;

use vstd::prelude::*;

use crate::lexical::{
    append_strings, chars_lt, insert_all_sorted, lemma_seq_lt_irreflexive, lemma_seq_lt_total, lemma_seq_lt_transitive,
    lemma_sorted_of, seq_lt, sorted_of, strictly_sorted, string_views, views,
};
use crate::notebook::words::{ascii_word_seq, ascii_words};
use crate::strmap::{push_item_under, StrMap};
use crate::error::NtError;
use crate::note::date::Timestamp;
use crate::text::{chars_eq, chars_of, owned, slice_chars, string_of};

verus! {

/// A notebook and when it was created.
#[derive(Clone, Debug)]
pub struct NotebookMeta {
    pub created: String,
}

/// The metadata of one note.
#[derive(Debug)]
pub struct NoteMeta {
    pub id: String,
    pub path: std::path::PathBuf,
    pub created: String,
    pub updated: String,
    pub title: String,
    pub kind: String,
    pub status: Option<String>,
    pub priority: Option<String>,
    pub scheduled: Option<String>,
    pub due: Option<String>,
    pub closed: Option<String>,
    pub tags: Vec<String>,
    pub collections: Vec<String>,
    pub links: Vec<String>,
    pub sources: Vec<String>,
}

/// The notebook index: its notes by id, and for each key of each table the ids
/// of the notes under it, newest first.
#[derive(Debug)]
pub struct Index {
    pub version: u8,
    pub active_notes_dir: Option<std::path::PathBuf>,
    pub notebooks: StrMap<NotebookMeta>,
    pub notes: StrMap<NoteMeta>,
    pub recent: Vec<String>,
    pub kinds: StrMap<Vec<String>>,
    pub statuses: StrMap<Vec<String>>,
    pub tags: StrMap<Vec<String>>,
    pub collections: StrMap<Vec<String>>,
    pub days: StrMap<Vec<String>>,
    pub backlinks: StrMap<Vec<String>>,
    pub terms: StrMap<Vec<String>>,
    pub body_terms: StrMap<Vec<String>>,
    pub heading_terms: StrMap<Vec<String>>,
    pub body_indexed: Vec<String>,
}

/// The kind a note has unless it says otherwise.
pub fn default_kind() -> (r: String)
    ensures
        r@ == seq!['n', 'o', 't', 'e'],
{
    let r = owned("note");
    proof {
        reveal_strlit("note");
    }
    r
}

/// The format version of an index that does not give one.
pub fn default_version() -> (r: u8)
    ensures
        r == 1,
{
    1
}

impl Index {
    /// Every table of the index keeps its keys in order.
    pub open spec fn wf(&self) -> bool {
        &&& self.notebooks.wf()
        &&& self.notes.wf()
        &&& self.kinds.wf()
        &&& self.statuses.wf()
        &&& self.tags.wf()
        &&& self.collections.wf()
        &&& self.days.wf()
        &&& self.backlinks.wf()
        &&& self.terms.wf()
        &&& self.body_terms.wf()
        &&& self.heading_terms.wf()
        &&& crate::notebook::terms::lists_sorted(self.body_terms.lists())
        &&& crate::notebook::terms::lists_sorted(self.heading_terms.lists())
    }

    /// An empty index of the current version.
    pub fn empty() -> (r: Self)
        ensures
            r.wf(),
            r.version == 1,
            r.active_notes_dir is None,
            r.notebooks@ == Map::<Seq<char>, NotebookMeta>::empty(),
            r.notes@ == Map::<Seq<char>, NoteMeta>::empty(),
            r.recent@.len() == 0,
            r.kinds@.len() == 0,
            r.statuses@.len() == 0,
            r.tags@.len() == 0,
            r.collections@.len() == 0,
            r.days@.len() == 0,
            r.backlinks@.len() == 0,
            r.terms@.len() == 0,
            r.body_terms@.len() == 0,
            r.heading_terms@.len() == 0,
            r.body_indexed@.len() == 0,
    {
        Index {
            version: 1,
            active_notes_dir: None,
            notebooks: StrMap::new(),
            notes: StrMap::new(),
            recent: Vec::new(),
            kinds: StrMap::new(),
            statuses: StrMap::new(),
            tags: StrMap::new(),
            collections: StrMap::new(),
            days: StrMap::new(),
            backlinks: StrMap::new(),
            terms: StrMap::new(),
            body_terms: StrMap::new(),
            heading_terms: StrMap::new(),
            body_indexed: Vec::new(),
        }
    }
}

impl Default for Index {
    fn default() -> (r: Self)
        ensures
            r.wf(),
            r.version == 1,
            r.notes@ == Map::<Seq<char>, NoteMeta>::empty(),
            r.recent@.len() == 0,
    {
        Index::empty()
    }
}

impl NoteMeta {
    /// A note of the default kind with no status, tags, collections, links or sources.
    pub fn new_note(
        id: String,
        path: std::path::PathBuf,
        created: String,
        updated: String,
        title: String,
    ) -> (r: Self)
        ensures
            r.id == id,
            r.path == path,
            r.created == created,
            r.updated == updated,
            r.title == title,
            r.kind@ == seq!['n', 'o', 't', 'e'],
            r.status is None,
            r.priority is None,
            r.scheduled is None,
            r.due is None,
            r.closed is None,
            r.tags@.len() == 0,
            r.collections@.len() == 0,
            r.links@.len() == 0,
            r.sources@.len() == 0,
    {
        NoteMeta {
            id,
            path,
            created,
            updated,
            title,
            kind: default_kind(),
            status: None,
            priority: None,
            scheduled: None,
            due: None,
            closed: None,
            tags: Vec::new(),
            collections: Vec::new(),
            links: Vec::new(),
            sources: Vec::new(),
        }
    }
}

// ---------------------------------------------------------------------------
// Recency order
// ---------------------------------------------------------------------------
/// `a` is listed before `b`: it was created later, or at the same time with a
/// larger id.
pub open spec fn recent_before(a: NoteMeta, b: NoteMeta) -> bool {
    seq_lt(b.created@, a.created@) || (b.created@ == a.created@ && seq_lt(b.id@, a.id@))
}

/// Where a stable insertion puts `x` into `r`: before the first note that `x`
/// is listed before.
pub open spec fn insertion_index(r: Seq<NoteMeta>, x: NoteMeta) -> int
    decreases r.len(),
{
    if r.len() == 0 {
        0
    } else if recent_before(x, r[0]) {
        0
    } else {
        1 + insertion_index(r.drop_first(), x)
    }
}

/// The notes in recency order; notes that tie keep their order.
pub open spec fn recent_sort(s: Seq<NoteMeta>) -> Seq<NoteMeta>
    decreases s.len(),
{
    if s.len() == 0 {
        Seq::empty()
    } else {
        let r = recent_sort(s.drop_last());
        r.insert(insertion_index(r, s.last()), s.last())
    }
}

/// No note is listed before one that precedes it.
pub open spec fn in_recent_order(s: Seq<NoteMeta>) -> bool {
    forall|i: int, j: int| 0 <= i < j < s.len() ==> !recent_before(#[trigger] s[j], #[trigger] s[i])
}

/// The ids of a list of notes.
pub open spec fn ids_of(s: Seq<NoteMeta>) -> Seq<Seq<char>> {
    s.map_values(|n: NoteMeta| n.id@)
}

proof fn lemma_insertion_index(r: Seq<NoteMeta>, x: NoteMeta)
    ensures
        0 <= insertion_index(r, x) <= r.len(),
        forall|k: int| 0 <= k < insertion_index(r, x) ==> !recent_before(x, #[trigger] r[k]),
        insertion_index(r, x) < r.len() ==> recent_before(x, r[insertion_index(r, x)]),
    decreases r.len(),
{
    if r.len() > 0 && !recent_before(x, r[0]) {
        lemma_insertion_index(r.drop_first(), x);
        assert forall|k: int| 0 <= k < insertion_index(r, x) implies !recent_before(
            x,
            #[trigger] r[k],
        ) by {
            if k > 0 {
                assert(r[k] == r.drop_first()[k - 1]);
            }
        }
    }
}

proof fn lemma_recent_before_trans(a: NoteMeta, b: NoteMeta, c: NoteMeta)
    ensures
        recent_before(a, b) && recent_before(b, c) ==> recent_before(a, c),
        !recent_before(a, b) && !recent_before(b, c) ==> !recent_before(a, c),
        recent_before(a, b) ==> !recent_before(b, a),
{
    lemma_seq_lt_total(a.created@, b.created@);
    lemma_seq_lt_total(b.created@, c.created@);
    lemma_seq_lt_total(a.created@, c.created@);
    lemma_seq_lt_total(a.id@, b.id@);
    lemma_seq_lt_total(b.id@, c.id@);
    lemma_seq_lt_total(a.id@, c.id@);
    if seq_lt(c.created@, b.created@) && seq_lt(b.created@, a.created@) {
        lemma_seq_lt_transitive(c.created@, b.created@, a.created@);
    }
    if seq_lt(c.id@, b.id@) && seq_lt(b.id@, a.id@) {
        lemma_seq_lt_transitive(c.id@, b.id@, a.id@);
    }
    if seq_lt(a.created@, b.created@) && seq_lt(b.created@, c.created@) {
        lemma_seq_lt_transitive(a.created@, b.created@, c.created@);
    }
    if seq_lt(a.id@, b.id@) && seq_lt(b.id@, c.id@) {
        lemma_seq_lt_transitive(a.id@, b.id@, c.id@);
    }
}

/// The recency sort lists its notes in recency order.
pub proof fn law_recent_sort_ordered(s: Seq<NoteMeta>)
    ensures
        in_recent_order(recent_sort(s)),
        recent_sort(s).len() == s.len(),
    decreases s.len(),
{
    if s.len() > 0 {
        law_recent_sort_ordered(s.drop_last());
        let r = recent_sort(s.drop_last());
        let x = s.last();
        let p = insertion_index(r, x);
        lemma_insertion_index(r, x);
        let n = r.insert(p, x);
        assert forall|i: int, j: int| 0 <= i < j < n.len() implies !recent_before(
            #[trigger] n[j],
            #[trigger] n[i],
        ) by {
            if j < p {
                assert(n[i] == r[i] && n[j] == r[j]);
            } else if j == p {
                assert(n[i] == r[i]);
            } else if i < p {
                assert(n[i] == r[i] && n[j] == r[j - 1]);
            } else if i == p {
                assert(n[j] == r[j - 1]);
                lemma_recent_before_trans(x, r[p], x);
                lemma_recent_before_trans(r[j - 1], x, r[p]);
                if j - 1 > p {
                    assert(!recent_before(r[j - 1], r[p]));
                }
            } else {
                assert(n[i] == r[i - 1] && n[j] == r[j - 1]);
            }
        }
    }
}

/// The recency sort lists exactly the notes it was given.
pub proof fn law_recent_sort_permutes(s: Seq<NoteMeta>)
    ensures
        recent_sort(s).to_multiset() == s.to_multiset(),
    decreases s.len(),
{
    broadcast use vstd::multiset::group_multiset_axioms;
    broadcast use vstd::seq_lib::group_to_multiset_ensures;

    if s.len() > 0 {
        law_recent_sort_permutes(s.drop_last());
        let r = recent_sort(s.drop_last());
        let x = s.last();
        let p = insertion_index(r, x);
        lemma_insertion_index(r, x);
        vstd::seq_lib::lemma_multiset_commutative(r.subrange(0, p), r.subrange(p, r.len() as int));
        assert(r.insert(p, x) =~= r.subrange(0, p).push(x) + r.subrange(p, r.len() as int));
        assert(r =~= r.subrange(0, p) + r.subrange(p, r.len() as int));
        vstd::seq_lib::lemma_multiset_commutative(
            r.subrange(0, p).push(x),
            r.subrange(p, r.len() as int),
        );
        vstd::seq_lib::lemma_multiset_commutative(r.subrange(0, p), r.subrange(p, r.len() as int));
        assert(s =~= s.drop_last().push(x));
    }
}

fn listed_before(a: &NoteMeta, b: &NoteMeta) -> (r: bool)
    ensures
        r == recent_before(*a, *b),
{
    let ac = chars_of(a.created.as_str());
    let bc = chars_of(b.created.as_str());
    if chars_lt(bc.as_slice(), ac.as_slice()) {
        return true;
    }
    if !chars_eq(bc.as_slice(), ac.as_slice()) {
        return false;
    }
    let ai = chars_of(a.id.as_str());
    let bi = chars_of(b.id.as_str());
    chars_lt(bi.as_slice(), ai.as_slice())
}

/// The notes of a map in recency order.
fn notes_in_recent_order(notes: &StrMap<NoteMeta>) -> (r: Vec<&NoteMeta>)
    requires
        notes.wf(),
    ensures
        r@.map_values(|n: &NoteMeta| *n) == recent_sort(notes.values()),
{
    let mut sorted: Vec<&NoteMeta> = Vec::new();
    let mut i: usize = 0;
    while i < notes.len()
        invariant
            notes.wf(),
            i <= notes.keys().len(),
            sorted@.map_values(|n: &NoteMeta| *n) == recent_sort(
                notes.values().subrange(0, i as int),
            ),
        decreases notes.keys().len() - i,
    {
        let note = notes.value_at(i);
        let ghost r = sorted@.map_values(|n: &NoteMeta| *n);
        let mut p: usize = 0;
        proof {
            assert(r.subrange(0, r.len() as int) =~= r);
        }
        while p < sorted.len() && !listed_before(note, sorted[p])
            invariant
                p <= sorted@.len(),
                r == sorted@.map_values(|n: &NoteMeta| *n),
                insertion_index(r, *note) == p + insertion_index(r.subrange(p as int, r.len() as int), *note),
            decreases sorted@.len() - p,
        {
            proof {
                let tail = r.subrange(p as int, r.len() as int);
                assert(tail.drop_first() =~= r.subrange(p + 1, r.len() as int));
            }
            p += 1;
        }
        proof {
            let tail = r.subrange(p as int, r.len() as int);
            assert(insertion_index(tail, *note) == 0);
            let s = notes.values().subrange(0, i + 1);
            assert(s.drop_last() =~= notes.values().subrange(0, i as int));
            assert(s.last() == *note);
        }
        sorted.insert(p, note);
        proof {
            assert(sorted@.map_values(|n: &NoteMeta| *n) =~= r.insert(p as int, *note));
        }
        i += 1;
    }
    proof {
        assert(notes.values().subrange(0, notes.keys().len() as int) =~= notes.values());
    }
    sorted
}

} // verus!

verus! {

// ---------------------------------------------------------------------------
// Derived tables
// ---------------------------------------------------------------------------
/// How many bytes UTF-8 takes for a character.
pub open spec fn utf8_len(c: char) -> int {
    if (c as u32) < 0x80 {
        1
    } else if (c as u32) < 0x800 {
        2
    } else if (c as u32) < 0x10000 {
        3
    } else {
        4
    }
}

/// The leading characters of `s` that take exactly `n` bytes, if a character
/// boundary falls there.
pub open spec fn byte_prefix(s: Seq<char>, n: int) -> Option<Seq<char>>
    decreases s.len(),
{
    if n == 0 {
        Some(Seq::empty())
    } else if n < 0 || s.len() == 0 {
        None
    } else {
        match byte_prefix(s.drop_first(), n - utf8_len(s[0])) {
            Some(t) => Some(seq![s[0]] + t),
            None => None,
        }
    }
}

/// The day a note was created on: the first ten bytes of its creation time.
pub open spec fn day_keys(n: NoteMeta) -> Seq<Seq<char>> {
    match byte_prefix(n.created@, 10) {
        Some(d) => seq![d],
        None => Seq::empty(),
    }
}

pub open spec fn kind_keys(n: NoteMeta) -> Seq<Seq<char>> {
    seq![n.kind@]
}

pub open spec fn status_keys(n: NoteMeta) -> Seq<Seq<char>> {
    match n.status {
        Some(s) => seq![s@],
        None => Seq::empty(),
    }
}

/// The texts of a note that its search words come from.
pub open spec fn note_texts(n: NoteMeta) -> Seq<Seq<char>> {
    seq![n.id@, n.title@, n.kind@] + status_keys(n) + views(n.tags@) + views(n.collections@)
        + views(n.links@) + views(n.sources@)
}

/// Every ASCII word of every text of a list.
pub open spec fn word_set(texts: Seq<Seq<char>>) -> Set<Seq<char>>
    decreases texts.len(),
{
    if texts.len() == 0 {
        Set::empty()
    } else {
        word_set(texts.drop_last()) + ascii_word_seq(texts.last()).to_set()
    }
}

/// The search words of a note: its own, in order, then those given for its body.
pub open spec fn term_keys(n: NoteMeta, body_terms: Map<Seq<char>, Seq<Seq<char>>>) -> Seq<
    Seq<char>,
> {
    sorted_of(word_set(note_texts(n))) + (if body_terms.dom().contains(n.id@) {
        body_terms[n.id@]
    } else {
        Seq::empty()
    })
}

/// For each key, the ids of the notes of `notes` filed under it, in the order
/// of `notes` (a note is listed once for each time it names the key).
pub open spec fn grouped(
    notes: Seq<NoteMeta>,
    keys_of: spec_fn(NoteMeta) -> Seq<Seq<char>>,
) -> Map<Seq<char>, Seq<Seq<char>>>
    decreases notes.len(),
{
    if notes.len() == 0 {
        Map::empty()
    } else {
        push_item_under(grouped(notes.drop_last(), keys_of), keys_of(notes.last()), notes.last().id@)
    }
}

proof fn lemma_push_item_under(
    m: Map<Seq<char>, Seq<Seq<char>>>,
    keys: Seq<Seq<char>>,
    item: Seq<char>,
    k: Seq<char>,
    x: Seq<char>,
)
    ensures
        push_item_under(m, keys, item).dom().contains(k) <==> (m.dom().contains(k) || keys.contains(k)),
        push_item_under(m, keys, item).dom().contains(k) ==> (push_item_under(m, keys, item)[k].contains(x)
            <==> ((m.dom().contains(k) && m[k].contains(x)) || (keys.contains(k) && x == item))),
    decreases keys.len(),
{
    if keys.len() > 0 {
        let prior = keys.drop_last();
        lemma_push_item_under(m, prior, item, k, x);
        let p = push_item_under(m, prior, item);
        assert(keys.contains(k) <==> (prior.contains(k) || keys.last() == k)) by {
            if keys.contains(k) {
                let i = choose|i: int| 0 <= i < keys.len() && keys[i] == k;
                if i < keys.len() - 1 {
                    assert(prior[i] == k);
                }
            }
            if prior.contains(k) {
                let i = choose|i: int| 0 <= i < prior.len() && prior[i] == k;
                assert(keys[i] == k);
            }
        }
        if keys.last() == k {
            let old_list = if p.dom().contains(k) {
                p[k]
            } else {
                Seq::empty()
            };
            assert(push_item_under(m, keys, item)[k] == old_list.push(item));
            assert(old_list.push(item).contains(x) <==> (old_list.contains(x) || x == item)) by {
                if old_list.push(item).contains(x) {
                    let i = choose|i: int| 0 <= i < old_list.len() + 1 && old_list.push(item)[i] == x;
                    if i < old_list.len() {
                        assert(old_list[i] == x);
                    }
                }
                if old_list.contains(x) {
                    let i = choose|i: int| 0 <= i < old_list.len() && old_list[i] == x;
                    assert(old_list.push(item)[i] == x);
                }
                if x == item {
                    assert(old_list.push(item)[old_list.len() as int] == x);
                }
            }
        }
    }
}

/// A table of ids grouped by key files an id under a key exactly when a note
/// with that id has that key: it names no other note and misses none.
pub proof fn law_grouped_files_exactly(
    notes: Seq<NoteMeta>,
    keys_of: spec_fn(NoteMeta) -> Seq<Seq<char>>,
    k: Seq<char>,
    x: Seq<char>,
)
    ensures
        grouped(notes, keys_of).dom().contains(k) <==> exists|j: int|
            0 <= j < notes.len() && keys_of(#[trigger] notes[j]).contains(k),
        grouped(notes, keys_of).dom().contains(k) ==> (grouped(notes, keys_of)[k].contains(x) <==> exists|j: int|
            0 <= j < notes.len() && #[trigger] notes[j].id@ == x && keys_of(notes[j]).contains(k)),
    decreases notes.len(),
{
    if notes.len() > 0 {
        let prior = notes.drop_last();
        let last = notes.last();
        law_grouped_files_exactly(prior, keys_of, k, x);
        lemma_push_item_under(grouped(prior, keys_of), keys_of(last), last.id@, k, x);
        assert((exists|j: int| 0 <= j < notes.len() && keys_of(#[trigger] notes[j]).contains(k)) <==> ((exists|j: int|
            0 <= j < prior.len() && keys_of(#[trigger] prior[j]).contains(k)) || keys_of(last).contains(k))) by {
            if exists|j: int| 0 <= j < notes.len() && keys_of(#[trigger] notes[j]).contains(k) {
                let j = choose|j: int| 0 <= j < notes.len() && keys_of(#[trigger] notes[j]).contains(k);
                if j < prior.len() {
                    assert(prior[j] == notes[j]);
                }
            }
            if exists|j: int| 0 <= j < prior.len() && keys_of(#[trigger] prior[j]).contains(k) {
                let j = choose|j: int| 0 <= j < prior.len() && keys_of(#[trigger] prior[j]).contains(k);
                assert(notes[j] == prior[j]);
            }
            if keys_of(last).contains(k) {
                assert(notes[notes.len() - 1] == last);
            }
        }
        assert((exists|j: int| 0 <= j < notes.len() && #[trigger] notes[j].id@ == x && keys_of(notes[j]).contains(k))
            <==> ((exists|j: int| 0 <= j < prior.len() && #[trigger] prior[j].id@ == x && keys_of(prior[j]).contains(k))
            || (last.id@ == x && keys_of(last).contains(k)))) by {
            if exists|j: int| 0 <= j < notes.len() && #[trigger] notes[j].id@ == x && keys_of(notes[j]).contains(k) {
                let j = choose|j: int| 0 <= j < notes.len() && #[trigger] notes[j].id@ == x && keys_of(notes[j]).contains(k);
                if j < prior.len() {
                    assert(prior[j] == notes[j]);
                }
            }
            if exists|j: int| 0 <= j < prior.len() && #[trigger] prior[j].id@ == x && keys_of(prior[j]).contains(k) {
                let j = choose|j: int| 0 <= j < prior.len() && #[trigger] prior[j].id@ == x && keys_of(prior[j]).contains(k);
                assert(notes[j] == prior[j]);
            }
            if last.id@ == x && keys_of(last).contains(k) {
                assert(notes[notes.len() - 1] == last);
            }
        }
    }
}

pub open spec fn days_of(notes: Seq<NoteMeta>) -> Map<Seq<char>, Seq<Seq<char>>> {
    grouped(notes, |n: NoteMeta| day_keys(n))
}

pub open spec fn kinds_of(notes: Seq<NoteMeta>) -> Map<Seq<char>, Seq<Seq<char>>> {
    grouped(notes, |n: NoteMeta| kind_keys(n))
}

pub open spec fn statuses_of(notes: Seq<NoteMeta>) -> Map<Seq<char>, Seq<Seq<char>>> {
    grouped(notes, |n: NoteMeta| status_keys(n))
}

pub open spec fn tags_of(notes: Seq<NoteMeta>) -> Map<Seq<char>, Seq<Seq<char>>> {
    grouped(notes, |n: NoteMeta| views(n.tags@))
}

pub open spec fn collections_of(notes: Seq<NoteMeta>) -> Map<Seq<char>, Seq<Seq<char>>> {
    grouped(notes, |n: NoteMeta| views(n.collections@))
}

pub open spec fn backlinks_of(notes: Seq<NoteMeta>) -> Map<Seq<char>, Seq<Seq<char>>> {
    grouped(notes, |n: NoteMeta| views(n.links@))
}

pub open spec fn terms_of(
    notes: Seq<NoteMeta>,
    body_terms: Map<Seq<char>, Seq<Seq<char>>>,
) -> Map<Seq<char>, Seq<Seq<char>>> {
    grouped(notes, |n: NoteMeta| term_keys(n, body_terms))
}

/// The first ten bytes of a creation time, if a character boundary falls there.
fn day_of(created: &String) -> (r: Vec<String>)
    ensures
        views(r@) == day_keys_of(created@),
{
    let chars = chars_of(created.as_str());
    let mut used: usize = 0;
    let mut i: usize = 0;
    proof {
        assert(chars@.subrange(0, 0) =~= Seq::<char>::empty());
        assert(chars@.subrange(0, chars@.len() as int) =~= chars@);
        assert(Seq::<char>::empty() + chars@ =~= chars@);
    }
    while i < chars.len() && used < 10
        invariant
            i <= chars@.len(),
            used <= 10,
            chars@ == created@,
            byte_prefix(chars@, 10) == match byte_prefix(
                chars@.subrange(i as int, chars@.len() as int),
                10 - used,
            ) {
                Some(t) => Some(chars@.subrange(0, i as int) + t),
                None => None::<Seq<char>>,
            },
        decreases chars@.len() - i,
    {
        let c = chars[i];
        let code: u32 = c as u32;
        let width: usize = if code < 0x80 {
            1
        } else if code < 0x800 {
            2
        } else if code < 0x10000 {
            3
        } else {
            4
        };
        proof {
            let rest = chars@.subrange(i as int, chars@.len() as int);
            assert(rest[0] == c);
            assert(rest.drop_first() =~= chars@.subrange(i + 1, chars@.len() as int));
            assert(chars@.subrange(0, i + 1) =~= chars@.subrange(0, i as int) + seq![c]);
            assert(width == utf8_len(c));
            if used + width <= 10 {
                match byte_prefix(rest.drop_first(), 10 - used - width) {
                    Some(t) => {
                        assert(chars@.subrange(0, i as int) + (seq![c] + t) =~= chars@.subrange(
                            0,
                            i + 1,
                        ) + t);
                    },
                    None => {},
                }
            }
        }
        if used + width > 10 {
            proof {
                assert(byte_prefix(chars@.subrange(i + 1, chars@.len() as int), 10 - used - width)
                    is None) by {
                    lemma_byte_prefix_negative(
                        chars@.subrange(i + 1, chars@.len() as int),
                        10 - used - width,
                    );
                }
            }
            return Vec::new();
        }
        used = used + width;
        i += 1;
    }
    if used == 10 {
        let mut r: Vec<String> = Vec::new();
        r.push(string_of(slice_chars(chars.as_slice(), 0, i).as_slice()));
        proof {
            assert(chars@.subrange(0, i as int) + Seq::<char>::empty() =~= chars@.subrange(0, i as int));
            assert(views(r@) =~= seq![chars@.subrange(0, i as int)]);
        }
        r
    } else {
        proof {
            assert(chars@.subrange(i as int, chars@.len() as int).len() == 0);
        }
        Vec::new()
    }
}

pub open spec fn day_keys_of(created: Seq<char>) -> Seq<Seq<char>> {
    match byte_prefix(created, 10) {
        Some(d) => seq![d],
        None => Seq::empty(),
    }
}

proof fn lemma_byte_prefix_negative(s: Seq<char>, n: int)
    requires
        n < 0,
    ensures
        byte_prefix(s, n) is None,
{
}

} // verus!

verus! {

/// Adds the ASCII words of `text` to a sorted set of words.
fn insert_terms(terms: &mut Vec<String>, text: &str)
    requires
        strictly_sorted(views(old(terms)@)),
    ensures
        strictly_sorted(views(final(terms)@)),
        views(final(terms)@).to_set() == views(old(terms)@).to_set() + ascii_word_seq(
            text@,
        ).to_set(),
{
    let words = ascii_words(text);
    proof {
        assert(views(words@) =~= string_views(words@));
    }
    insert_all_sorted(terms, &words);
}

/// The search words of a note's metadata, sorted, each once.
fn terms_for_note(note: &NoteMeta) -> (r: Vec<String>)
    ensures
        strictly_sorted(views(r@)),
        views(r@).to_set() == word_set(note_texts(*note)),
{
    let mut texts: Vec<String> = Vec::new();
    texts.push(note.id.clone());
    texts.push(note.title.clone());
    texts.push(note.kind.clone());
    match &note.status {
        Some(status) => texts.push(status.clone()),
        None => {},
    }
    proof {
        assert(views(texts@) =~= seq![note.id@, note.title@, note.kind@] + status_keys(*note));
    }
    append_strings(&mut texts, &note.tags);
    append_strings(&mut texts, &note.collections);
    append_strings(&mut texts, &note.links);
    append_strings(&mut texts, &note.sources);
    proof {
        assert(views(texts@) =~= note_texts(*note));
    }
    let mut terms: Vec<String> = Vec::new();
    let mut k: usize = 0;
    proof {
        assert(views(texts@).subrange(0, 0) =~= Seq::<Seq<char>>::empty());
        assert(views(terms@).to_set() =~= Set::<Seq<char>>::empty());
    }
    while k < texts.len()
        invariant
            k <= texts@.len(),
            views(texts@) == note_texts(*note),
            strictly_sorted(views(terms@)),
            views(terms@).to_set() == word_set(views(texts@).subrange(0, k as int)),
        decreases texts@.len() - k,
    {
        insert_terms(&mut terms, texts[k].as_str());
        proof {
            let tv = views(texts@);
            assert(tv.subrange(0, k + 1).drop_last() =~= tv.subrange(0, k as int));
            assert(tv.subrange(0, k + 1).last() == texts@[k as int]@);
        }
        k += 1;
    }
    proof {
        assert(views(texts@).subrange(0, texts@.len() as int) =~= views(texts@));
    }
    terms
}

/// The tables derived from the notes.
struct Derived {
    recent: Vec<String>,
    kinds: StrMap<Vec<String>>,
    statuses: StrMap<Vec<String>>,
    tags: StrMap<Vec<String>>,
    collections: StrMap<Vec<String>>,
    days: StrMap<Vec<String>>,
    backlinks: StrMap<Vec<String>>,
    terms: StrMap<Vec<String>>,
}

proof fn lemma_grouped_step(
    s: Seq<NoteMeta>,
    i: int,
    keys_of: spec_fn(NoteMeta) -> Seq<Seq<char>>,
)
    requires
        0 <= i < s.len(),
    ensures
        grouped(s.subrange(0, i + 1), keys_of) == push_item_under(
            grouped(s.subrange(0, i), keys_of),
            keys_of(s[i]),
            s[i].id@,
        ),
{
    assert(s.subrange(0, i + 1).drop_last() =~= s.subrange(0, i));
    assert(s.subrange(0, i + 1).last() == s[i]);
}

#[verifier::rlimit(60)]
fn derive_tables(notes: &StrMap<NoteMeta>, body_terms: &StrMap<Vec<String>>) -> (d: Derived)
    requires
        notes.wf(),
        body_terms.wf(),
    ensures
        views(d.recent@) == ids_of(recent_sort(notes.values())),
        d.kinds.wf() && d.kinds.lists() == kinds_of(recent_sort(notes.values())),
        d.statuses.wf() && d.statuses.lists() == statuses_of(recent_sort(notes.values())),
        d.tags.wf() && d.tags.lists() == tags_of(recent_sort(notes.values())),
        d.collections.wf() && d.collections.lists() == collections_of(recent_sort(notes.values())),
        d.days.wf() && d.days.lists() == days_of(recent_sort(notes.values())),
        d.backlinks.wf() && d.backlinks.lists() == backlinks_of(recent_sort(notes.values())),
        d.terms.wf() && d.terms.lists() == terms_of(
            recent_sort(notes.values()),
            body_terms.lists(),
        ),
{
    let sorted = notes_in_recent_order(notes);
    let ghost sv = sorted@.map_values(|n: &NoteMeta| *n);
    let ghost bt = body_terms.lists();
    let mut d = Derived {
        recent: Vec::new(),
        kinds: StrMap::new(),
        statuses: StrMap::new(),
        tags: StrMap::new(),
        collections: StrMap::new(),
        days: StrMap::new(),
        backlinks: StrMap::new(),
        terms: StrMap::new(),
    };
    proof {
        assert(sv.subrange(0, 0) =~= Seq::<NoteMeta>::empty());
        assert(d.kinds.lists() =~= Map::<Seq<char>, Seq<Seq<char>>>::empty());
        assert(d.statuses.lists() =~= Map::<Seq<char>, Seq<Seq<char>>>::empty());
        assert(d.tags.lists() =~= Map::<Seq<char>, Seq<Seq<char>>>::empty());
        assert(d.collections.lists() =~= Map::<Seq<char>, Seq<Seq<char>>>::empty());
        assert(d.days.lists() =~= Map::<Seq<char>, Seq<Seq<char>>>::empty());
        assert(d.backlinks.lists() =~= Map::<Seq<char>, Seq<Seq<char>>>::empty());
        assert(d.terms.lists() =~= Map::<Seq<char>, Seq<Seq<char>>>::empty());
        assert(views(d.recent@) =~= ids_of(sv.subrange(0, 0)));
    }
    let mut i: usize = 0;
    while i < sorted.len()
        invariant
            i <= sorted@.len(),
            sv == sorted@.map_values(|n: &NoteMeta| *n),
            sv == recent_sort(notes.values()),
            body_terms.wf(),
            bt == body_terms.lists(),
            views(d.recent@) == ids_of(sv.subrange(0, i as int)),
            d.kinds.wf() && d.kinds.lists() == kinds_of(sv.subrange(0, i as int)),
            d.statuses.wf() && d.statuses.lists() == statuses_of(sv.subrange(0, i as int)),
            d.tags.wf() && d.tags.lists() == tags_of(sv.subrange(0, i as int)),
            d.collections.wf() && d.collections.lists() == collections_of(sv.subrange(0, i as int)),
            d.days.wf() && d.days.lists() == days_of(sv.subrange(0, i as int)),
            d.backlinks.wf() && d.backlinks.lists() == backlinks_of(sv.subrange(0, i as int)),
            d.terms.wf() && d.terms.lists() == terms_of(sv.subrange(0, i as int), bt),
        decreases sorted@.len() - i,
    {
        let note: &NoteMeta = sorted[i];
        assert(*note == sv[i as int]);
        proof {
            lemma_grouped_step(sv, i as int, |n: NoteMeta| day_keys(n));
            lemma_grouped_step(sv, i as int, |n: NoteMeta| kind_keys(n));
            lemma_grouped_step(sv, i as int, |n: NoteMeta| status_keys(n));
            lemma_grouped_step(sv, i as int, |n: NoteMeta| views(n.tags@));
            lemma_grouped_step(sv, i as int, |n: NoteMeta| views(n.collections@));
            lemma_grouped_step(sv, i as int, |n: NoteMeta| views(n.links@));
            lemma_grouped_step(sv, i as int, |n: NoteMeta| term_keys(n, bt));
        }
        let day = day_of(&note.created);
        d.days.push_under(&day, &note.id);
        let mut kind: Vec<String> = Vec::new();
        kind.push(note.kind.clone());
        proof {
            assert(views(kind@) =~= kind_keys(*note));
        }
        d.kinds.push_under(&kind, &note.id);
        let mut status: Vec<String> = Vec::new();
        match &note.status {
            Some(s) => status.push(s.clone()),
            None => {},
        }
        proof {
            assert(views(status@) =~= status_keys(*note));
        }
        d.statuses.push_under(&status, &note.id);
        d.tags.push_under(&note.tags, &note.id);
        d.collections.push_under(&note.collections, &note.id);
        d.backlinks.push_under(&note.links, &note.id);
        let mut terms = terms_for_note(note);
        proof {
            lemma_sorted_of(views(terms@));
        }
        match body_terms.get(note.id.as_str()) {
            Some(list) => append_strings(&mut terms, list),
            None => {},
        }
        proof {
            assert(views(terms@) =~= term_keys(*note, bt));
        }
        d.terms.push_under(&terms, &note.id);
        let ghost before = d.recent@;
        let id = note.id.clone();
        d.recent.push(id);
        proof {
            assert(views(d.recent@) =~= views(before).push(sv[i as int].id@));
            assert(sv.subrange(0, i + 1) =~= sv.subrange(0, i as int).push(sv[i as int]));
            assert(views(d.recent@) =~= ids_of(sv.subrange(0, i + 1)));
        }
        i += 1;
    }
    proof {
        assert(sv.subrange(0, sorted@.len() as int) =~= sv);
    }
    d
}

} // verus!

verus! {

/// `PathBuf::as_path`: the path a `PathBuf` holds. Nothing is stated of it.
#[verifier::external_body]
fn path_of(path: &std::path::PathBuf) -> &std::path::Path {
    path.as_path()
}

impl Index {
    /// The tables of the index are those derived from `notes`, taken in
    /// recency order, with `body_terms` as the words of their bodies.
    pub open spec fn derived_from(
        &self,
        notes: Seq<NoteMeta>,
        body_terms: Map<Seq<char>, Seq<Seq<char>>>,
    ) -> bool {
        &&& views(self.recent@) == ids_of(recent_sort(notes))
        &&& self.kinds.lists() == kinds_of(recent_sort(notes))
        &&& self.statuses.lists() == statuses_of(recent_sort(notes))
        &&& self.tags.lists() == tags_of(recent_sort(notes))
        &&& self.collections.lists() == collections_of(recent_sort(notes))
        &&& self.days.lists() == days_of(recent_sort(notes))
        &&& self.backlinks.lists() == backlinks_of(recent_sort(notes))
        &&& self.terms.lists() == terms_of(recent_sort(notes), body_terms)
    }

    /// Everything but the derived tables is as in `other`.
    pub open spec fn same_base(&self, other: &Self) -> bool {
        &&& self.version == other.version
        &&& self.active_notes_dir == other.active_notes_dir
        &&& self.notebooks == other.notebooks
        &&& self.body_terms == other.body_terms
        &&& self.heading_terms == other.heading_terms
        &&& self.body_indexed == other.body_indexed
    }

    /// The directory of the active notes, if one is set.
    pub fn active_notes_dir(&self) -> (r: Option<&std::path::Path>)
        ensures
            r is Some <==> self.active_notes_dir is Some,
    {
        match &self.active_notes_dir {
            Some(dir) => Some(path_of(dir)),
            None => None,
        }
    }

    /// Stores a note under its id, replacing any note with that id, and
    /// rebuilds the tables.
    pub fn upsert_note(&mut self, note: NoteMeta)
        requires
            old(self).wf(),
        ensures
            final(self).wf(),
            final(self).same_base(old(self)),
            final(self).notes@ == old(self).notes@.insert(note.id@, note),
            final(self).derived_from(final(self).notes.values(), Map::empty()),
    {
        let id = note.id.clone();
        self.notes.insert(id, note);
        self.rebuild_derived();
    }

    /// Removes the note with an id, if there is one, and rebuilds the tables.
    pub fn remove_note(&mut self, id: &str)
        requires
            old(self).wf(),
        ensures
            final(self).wf(),
            final(self).same_base(old(self)),
            final(self).notes@ == old(self).notes@.remove(id@),
            final(self).derived_from(final(self).notes.values(), Map::empty()),
    {
        self.notes.remove(id);
        self.rebuild_derived();
    }

    /// Rebuilds the tables from the notes, with no body words.
    pub fn rebuild_derived(&mut self)
        requires
            old(self).wf(),
        ensures
            final(self).wf(),
            final(self).same_base(old(self)),
            final(self).notes == old(self).notes,
            final(self).derived_from(old(self).notes.values(), Map::empty()),
    {
        let none: StrMap<Vec<String>> = StrMap::new();
        proof {
            assert(none.lists() =~= Map::<Seq<char>, Seq<Seq<char>>>::empty());
        }
        self.rebuild_derived_with_body_terms(&none);
    }

    /// Rebuilds the tables from the notes: the ids newest first, and each table
    /// keyed by day, kind, status, tag, collection, link target and search word
    /// (with `body_terms` giving the words of each note's body).
    pub fn rebuild_derived_with_body_terms(&mut self, body_terms: &StrMap<Vec<String>>)
        requires
            old(self).wf(),
            body_terms.wf(),
            crate::notebook::terms::lists_sorted(body_terms.lists()),
        ensures
            final(self).wf(),
            final(self).same_base(old(self)),
            final(self).notes == old(self).notes,
            final(self).derived_from(old(self).notes.values(), body_terms.lists()),
    {
        let d = derive_tables(&self.notes, body_terms);
        self.recent = d.recent;
        self.kinds = d.kinds;
        self.statuses = d.statuses;
        self.tags = d.tags;
        self.collections = d.collections;
        self.days = d.days;
        self.backlinks = d.backlinks;
        self.terms = d.terms;
    }

    /// What `rebuild_derived_with_body_terms` makes of `before`.
    pub open spec fn rebuilt_from(
        &self,
        before: &Self,
        body_terms: Map<Seq<char>, Seq<Seq<char>>>,
    ) -> bool {
        &&& self.same_base(before)
        &&& self.notes == before.notes
        &&& self.derived_from(before.notes.values(), body_terms)
    }

    /// The tables, base and notes of two indexes agree.
    pub open spec fn same_contents(&self, other: &Self) -> bool {
        &&& self.same_base(other)
        &&& self.notes == other.notes
        &&& views(self.recent@) == views(other.recent@)
        &&& self.kinds.lists() == other.kinds.lists()
        &&& self.statuses.lists() == other.statuses.lists()
        &&& self.tags.lists() == other.tags.lists()
        &&& self.collections.lists() == other.collections.lists()
        &&& self.days.lists() == other.days.lists()
        &&& self.backlinks.lists() == other.backlinks.lists()
        &&& self.terms.lists() == other.terms.lists()
    }
}

proof fn lemma_word_set_finite(texts: Seq<Seq<char>>)
    ensures
        word_set(texts).finite(),
    decreases texts.len(),
{
    if texts.len() > 0 {
        lemma_word_set_finite(texts.drop_last());
        vstd::seq_lib::seq_to_set_is_finite(ascii_word_seq(texts.last()));
    }
}

/// The search table of a rebuilt index files a note under a word exactly
/// when the word is an ASCII word of the note's id, title, kind, status,
/// tags, collections, links or sources, or one of the body words given for
/// its id; body words under ids of no note file nothing.
pub proof fn law_terms_per_word(
    idx: Index,
    notes: Seq<NoteMeta>,
    body_terms: Map<Seq<char>, Seq<Seq<char>>>,
    w: Seq<char>,
    id: Seq<char>,
)
    requires
        idx.derived_from(notes, body_terms),
    ensures
        (idx.terms.lists().dom().contains(w) && idx.terms.lists()[w].contains(id)) <==> exists|j: int|
            0 <= j < recent_sort(notes).len() && #[trigger] recent_sort(notes)[j].id@ == id && (word_set(
                note_texts(recent_sort(notes)[j]),
            ).contains(w) || (body_terms.dom().contains(id) && body_terms[id].contains(w))),
{
    let rs = recent_sort(notes);
    law_grouped_files_exactly(rs, |n: NoteMeta| term_keys(n, body_terms), w, id);
    assert forall|j: int| 0 <= j < rs.len() implies (term_keys(#[trigger] rs[j], body_terms).contains(w) <==> (
        word_set(note_texts(rs[j])).contains(w) || (body_terms.dom().contains(rs[j].id@)
            && body_terms[rs[j].id@].contains(w)))) by {
        let n = rs[j];
        lemma_word_set_finite(note_texts(n));
        crate::lexical::lemma_sorted_of_contains(word_set(note_texts(n)), w);
        let a = sorted_of(word_set(note_texts(n)));
        let b = if body_terms.dom().contains(n.id@) {
            body_terms[n.id@]
        } else {
            Seq::empty()
        };
        if (a + b).contains(w) {
            let k = choose|k: int| 0 <= k < (a + b).len() && (a + b)[k] == w;
            if k < a.len() {
                assert(a[k] == w);
            } else {
                assert(b[k - a.len()] == w);
            }
        }
        if a.contains(w) {
            let k = choose|k: int| 0 <= k < a.len() && a[k] == w;
            assert((a + b)[k] == w);
        }
        if b.contains(w) {
            let k = choose|k: int| 0 <= k < b.len() && b[k] == w;
            assert((a + b)[k + a.len()] == w);
        }
    }
    if idx.terms.lists().dom().contains(w) && idx.terms.lists()[w].contains(id) {
        let j = choose|j: int| 0 <= j < rs.len() && #[trigger] rs[j].id@ == id && term_keys(rs[j], body_terms).contains(w);
        assert(rs[j].id@ == id);
    }
    if exists|j: int| 0 <= j < rs.len() && #[trigger] rs[j].id@ == id && (word_set(note_texts(rs[j])).contains(w)
        || (body_terms.dom().contains(id) && body_terms[id].contains(w))) {
        let j = choose|j: int| 0 <= j < rs.len() && #[trigger] rs[j].id@ == id && (word_set(note_texts(rs[j])).contains(w)
            || (body_terms.dom().contains(id) && body_terms[id].contains(w)));
        assert(term_keys(rs[j], body_terms).contains(w));
        assert(exists|j: int| 0 <= j < rs.len() && term_keys(#[trigger] rs[j], body_terms).contains(w));
    }
}

/// Whether `w` is an ASCII word of one of the texts of `texts`.
pub open spec fn word_of_some(texts: Seq<Seq<char>>, w: Seq<char>) -> bool {
    exists|k: int| 0 <= k < texts.len() && ascii_word_seq(#[trigger] texts[k]).contains(w)
}

/// Whether `w` is an ASCII word of one of the strings of `values`.
pub open spec fn word_of_any(values: Seq<String>, w: Seq<char>) -> bool {
    exists|k: int| 0 <= k < values.len() && ascii_word_seq((#[trigger] values[k])@).contains(w)
}

/// Whether `w` is an ASCII word of the id, title, kind or status of a note,
/// or of one of its tags, collections, links or sources.
pub open spec fn metadata_word(n: NoteMeta, w: Seq<char>) -> bool {
    ||| ascii_word_seq(n.id@).contains(w)
    ||| ascii_word_seq(n.title@).contains(w)
    ||| ascii_word_seq(n.kind@).contains(w)
    ||| (n.status matches Some(st) && ascii_word_seq(st@).contains(w))
    ||| word_of_any(n.tags@, w)
    ||| word_of_any(n.collections@, w)
    ||| word_of_any(n.links@, w)
    ||| word_of_any(n.sources@, w)
}

proof fn lemma_word_set_contains(texts: Seq<Seq<char>>, w: Seq<char>)
    ensures
        word_set(texts).contains(w) <==> word_of_some(texts, w),
    decreases texts.len(),
{
    if texts.len() > 0 {
        let init = texts.drop_last();
        lemma_word_set_contains(init, w);
        if word_of_some(texts, w) {
            let k = choose|k: int| 0 <= k < texts.len() && ascii_word_seq(#[trigger] texts[k]).contains(w);
            if k < init.len() {
                assert(init[k] == texts[k]);
                assert(word_of_some(init, w));
            } else {
                assert(ascii_word_seq(texts.last()).to_set().contains(w));
            }
        }
        if word_set(texts).contains(w) {
            if word_set(init).contains(w) {
                let k = choose|k: int| 0 <= k < init.len() && ascii_word_seq(#[trigger] init[k]).contains(w);
                assert(texts[k] == init[k]);
            } else {
                assert(ascii_word_seq(texts.last()).to_set().contains(w));
                assert(ascii_word_seq(texts[texts.len() - 1]).contains(w));
            }
        }
    }
}

proof fn lemma_word_of_views(values: Seq<String>, w: Seq<char>)
    ensures
        word_of_some(views(values), w) <==> word_of_any(values, w),
{
    if word_of_some(views(values), w) {
        let k = choose|k: int| 0 <= k < views(values).len() && ascii_word_seq(#[trigger] views(values)[k]).contains(w);
        assert(views(values)[k] == values[k]@);
    }
    if word_of_any(values, w) {
        let k = choose|k: int| 0 <= k < values.len() && ascii_word_seq((#[trigger] values[k])@).contains(w);
        assert(views(values)[k] == values[k]@);
    }
}

proof fn lemma_word_of_concat(a: Seq<Seq<char>>, b: Seq<Seq<char>>, w: Seq<char>)
    ensures
        word_of_some(a + b, w) <==> word_of_some(a, w) || word_of_some(b, w),
{
    if word_of_some(a + b, w) {
        let k = choose|k: int| 0 <= k < (a + b).len() && ascii_word_seq(#[trigger] (a + b)[k]).contains(w);
        if k < a.len() {
            assert((a + b)[k] == a[k]);
        } else {
            assert((a + b)[k] == b[k - a.len()]);
        }
    }
    if word_of_some(a, w) {
        let k = choose|k: int| 0 <= k < a.len() && ascii_word_seq(#[trigger] a[k]).contains(w);
        assert((a + b)[k] == a[k]);
    }
    if word_of_some(b, w) {
        let k = choose|k: int| 0 <= k < b.len() && ascii_word_seq(#[trigger] b[k]).contains(w);
        assert((a + b)[k + a.len()] == b[k]);
    }
}

/// The words a note is searched by are exactly the ASCII words of its id,
/// title, kind, status, tags, collections, links and sources.
pub proof fn law_search_words_of_a_note(n: NoteMeta, w: Seq<char>)
    ensures
        word_set(note_texts(n)).contains(w) <==> metadata_word(n, w),
{
    lemma_word_set_contains(note_texts(n), w);
    let head = seq![n.id@, n.title@, n.kind@];
    let st = status_keys(n);
    let (t, c, l, so) = (views(n.tags@), views(n.collections@), views(n.links@), views(n.sources@));
    assert(note_texts(n) == head + st + t + c + l + so);
    lemma_word_of_concat(head + st + t + c + l, so, w);
    lemma_word_of_concat(head + st + t + c, l, w);
    lemma_word_of_concat(head + st + t, c, w);
    lemma_word_of_concat(head + st, t, w);
    lemma_word_of_concat(head, st, w);
    lemma_word_of_views(n.tags@, w);
    lemma_word_of_views(n.collections@, w);
    lemma_word_of_views(n.links@, w);
    lemma_word_of_views(n.sources@, w);
    if word_of_some(head, w) {
        let k = choose|k: int| 0 <= k < head.len() && ascii_word_seq(#[trigger] head[k]).contains(w);
        assert(k == 0 || k == 1 || k == 2);
    }
    if ascii_word_seq(n.id@).contains(w) {
        assert(head[0] == n.id@);
    }
    if ascii_word_seq(n.title@).contains(w) {
        assert(head[1] == n.title@);
    }
    if ascii_word_seq(n.kind@).contains(w) {
        assert(head[2] == n.kind@);
    }
    match n.status {
        Some(s) => {
            if word_of_some(st, w) {
                let k = choose|k: int| 0 <= k < st.len() && ascii_word_seq(#[trigger] st[k]).contains(w);
            }
            if ascii_word_seq(s@).contains(w) {
                assert(st[0] == s@);
            }
        },
        None => {
            assert(!word_of_some(st, w));
        },
    }
}

/// A rebuilt index files a note under each search word of its id, title,
/// kind, status, tags, collections, links and sources, and under each body
/// word given for its id, and under no other word.
pub proof fn law_metadata_words_find_the_note(
    idx: Index,
    notes: Seq<NoteMeta>,
    body_terms: Map<Seq<char>, Seq<Seq<char>>>,
    j: int,
    w: Seq<char>,
)
    requires
        idx.derived_from(notes, body_terms),
        0 <= j < recent_sort(notes).len(),
    ensures
        metadata_word(recent_sort(notes)[j], w) ==> idx.terms.lists().dom().contains(w)
            && idx.terms.lists()[w].contains(recent_sort(notes)[j].id@),
        (idx.terms.lists().dom().contains(w) && idx.terms.lists()[w].contains(recent_sort(notes)[j].id@))
            <==> exists|q: int|
            0 <= q < recent_sort(notes).len() && #[trigger] recent_sort(notes)[q].id@ == recent_sort(notes)[j].id@
                && (metadata_word(recent_sort(notes)[q], w) || (body_terms.dom().contains(
                recent_sort(notes)[j].id@,
            ) && body_terms[recent_sort(notes)[j].id@].contains(w))),
{
    let rs = recent_sort(notes);
    let id = rs[j].id@;
    law_terms_per_word(idx, notes, body_terms, w, id);
    assert forall|q: int| 0 <= q < rs.len() implies (word_set(note_texts(#[trigger] rs[q])).contains(w)
        <==> metadata_word(rs[q], w)) by {
        law_search_words_of_a_note(rs[q], w);
    }
    if metadata_word(rs[j], w) {
        law_search_words_of_a_note(rs[j], w);
        assert(rs[j].id@ == id);
    }
}

/// Whether `x` is one of the strings of `values`.
pub open spec fn has_value(values: Seq<String>, x: Seq<char>) -> bool {
    exists|i: int| 0 <= i < values.len() && (#[trigger] values[i])@ == x
}

/// Each lookup table of a rebuilt index files a note under a key exactly
/// when the note has that key in the table's own field: its kind, its
/// status, one of its tags, one of its collections, or (for backlinks) one
/// of the notes it links to.
pub proof fn law_tables_file_notes_by_their_field(
    idx: Index,
    notes: Seq<NoteMeta>,
    body_terms: Map<Seq<char>, Seq<Seq<char>>>,
    key: Seq<char>,
    id: Seq<char>,
)
    requires
        idx.derived_from(notes, body_terms),
    ensures
        (idx.kinds.lists().dom().contains(key) && idx.kinds.lists()[key].contains(id)) <==> exists|j: int|
            0 <= j < recent_sort(notes).len() && #[trigger] recent_sort(notes)[j].id@ == id
                && recent_sort(notes)[j].kind@ == key,
        (idx.statuses.lists().dom().contains(key) && idx.statuses.lists()[key].contains(id)) <==> exists|j: int|
            0 <= j < recent_sort(notes).len() && #[trigger] recent_sort(notes)[j].id@ == id
                && (recent_sort(notes)[j].status matches Some(st) && st@ == key),
        (idx.tags.lists().dom().contains(key) && idx.tags.lists()[key].contains(id)) <==> exists|j: int|
            0 <= j < recent_sort(notes).len() && #[trigger] recent_sort(notes)[j].id@ == id
                && has_value(recent_sort(notes)[j].tags@, key),
        (idx.collections.lists().dom().contains(key) && idx.collections.lists()[key].contains(id)) <==> exists|j: int|
            0 <= j < recent_sort(notes).len() && #[trigger] recent_sort(notes)[j].id@ == id
                && has_value(recent_sort(notes)[j].collections@, key),
        (idx.backlinks.lists().dom().contains(key) && idx.backlinks.lists()[key].contains(id)) <==> exists|j: int|
            0 <= j < recent_sort(notes).len() && #[trigger] recent_sort(notes)[j].id@ == id
                && has_value(recent_sort(notes)[j].links@, key),
{
    let rs = recent_sort(notes);
    law_grouped_files_exactly(rs, |n: NoteMeta| kind_keys(n), key, id);
    law_grouped_files_exactly(rs, |n: NoteMeta| status_keys(n), key, id);
    law_grouped_files_exactly(rs, |n: NoteMeta| views(n.tags@), key, id);
    law_grouped_files_exactly(rs, |n: NoteMeta| views(n.collections@), key, id);
    law_grouped_files_exactly(rs, |n: NoteMeta| views(n.links@), key, id);
    assert forall|j: int| 0 <= j < rs.len() implies {
        &&& kind_keys(#[trigger] rs[j]).contains(key) <==> rs[j].kind@ == key
        &&& status_keys(rs[j]).contains(key) <==> (rs[j].status matches Some(st) && st@ == key)
        &&& views(rs[j].tags@).contains(key) <==> has_value(rs[j].tags@, key)
        &&& views(rs[j].collections@).contains(key) <==> has_value(rs[j].collections@, key)
        &&& views(rs[j].links@).contains(key) <==> has_value(rs[j].links@, key)
    } by {
        let n = rs[j];
        if kind_keys(n).contains(key) {
            assert(kind_keys(n)[0] == key);
        }
        if n.kind@ == key {
            assert(kind_keys(n)[0] == key);
        }
        match n.status {
            Some(st) => {
                if status_keys(n).contains(key) {
                    assert(status_keys(n)[0] == key);
                }
                if st@ == key {
                    assert(status_keys(n)[0] == key);
                }
            },
            None => {},
        }
        lemma_views_has_value(n.tags@, key);
        lemma_views_has_value(n.collections@, key);
        lemma_views_has_value(n.links@, key);
    }
}

proof fn lemma_views_has_value(values: Seq<String>, x: Seq<char>)
    ensures
        views(values).contains(x) <==> has_value(values, x),
{
    if views(values).contains(x) {
        let i = choose|i: int| 0 <= i < views(values).len() && views(values)[i] == x;
        assert(values[i]@ == x);
    }
    if has_value(values, x) {
        let i = choose|i: int| 0 <= i < values.len() && (#[trigger] values[i])@ == x;
        assert(views(values)[i] == x);
    }
}

/// Rebuilding is idempotent: a second rebuild with the same body words
/// leaves the index as the first one left it.
pub proof fn law_rebuild_idempotent(
    before: Index,
    once: Index,
    twice: Index,
    body_terms: Map<Seq<char>, Seq<Seq<char>>>,
)
    requires
        once.rebuilt_from(&before, body_terms),
        twice.rebuilt_from(&once, body_terms),
    ensures
        twice.same_contents(&once),
{
}

} // verus!

verus! {

/// How many times a new note id is tried before giving up.
pub const ID_ATTEMPTS: u32 = 5;

/// What to do after trying a timestamp as the id of a new note.
#[derive(Debug)]
pub enum IdStep {
    /// The id is free: use this timestamp.
    Use(Timestamp),
    /// The id is taken: wait a second, then make this attempt.
    Retry(u32),
    /// The id is taken and no attempt is left: wait a second, then fail.
    GiveUp(NtError),
}

/// The decision after attempt `attempt` (from 0) has read the clock: the id
/// is free when no note file has it and the index holds no note under it.
pub fn unique_id_step(attempt: u32, timestamp: Timestamp, file_exists: bool, index: &Index) -> (r: IdStep)
    requires
        index.notes.wf(),
        attempt < ID_ATTEMPTS,
    ensures
        !file_exists && !index.notes@.contains_key(timestamp.id@) ==> r == IdStep::Use(timestamp),
        (file_exists || index.notes@.contains_key(timestamp.id@)) && attempt + 1 < ID_ATTEMPTS ==> r
            == IdStep::Retry((attempt + 1) as u32),
        (file_exists || index.notes@.contains_key(timestamp.id@)) && attempt + 1 >= ID_ATTEMPTS ==> (r matches IdStep::GiveUp(e)
            && e is Message && e->Message_0@ == "could not allocate a unique note id"@),
{
    if !file_exists && !index.notes.contains_key(timestamp.id.as_str()) {
        return IdStep::Use(timestamp);
    }
    if attempt + 1 < ID_ATTEMPTS {
        IdStep::Retry(attempt + 1)
    } else {
        IdStep::GiveUp(NtError::Message(owned("could not allocate a unique note id")))
    }
}

} // verus!
