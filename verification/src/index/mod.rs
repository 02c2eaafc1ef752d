//! The vault index: vaults, their collections, and the notes filed in them,
//! as the database holds them.
use vstd::prelude::*;

pub mod values;

use crate::error::{NtError, Result};
use crate::lexical::{
    chars_lt, lemma_seq_lt_total, lemma_seq_lt_transitive, seq_lt, string_views, views,
};
use crate::note::id::NoteId;
use crate::strmap::StrMap;
use crate::text::{
    append_str, chars_eq, chars_of, find_char, first_index_from, is_uppercase, is_whitespace,
    lemma_first_index_from, owned, padded_signed, push_padded_signed, slice_chars, str_eq, string_of, unicode_uppercase,
    unicode_whitespace,
};

verus! {

/// A vault: a named set of collections.
#[derive(Clone, Debug)]
pub struct VaultMeta {
    pub id: String,
    pub name: String,
    pub created: String,
}

/// A collection of a vault.
#[derive(Clone, Debug)]
pub struct CollectionMeta {
    pub id: String,
    pub vault_id: String,
    pub name: String,
    pub created: String,
}

/// The metadata and body of a note, with its home collection and memberships.
#[derive(Clone, Debug)]
pub struct NoteMeta {
    pub id: String,
    pub home_collection: String,
    pub body: String,
    pub created: String,
    pub updated: String,
    pub title: String,
    pub kind: String,
    pub status: Option<String>,
    pub priority: Option<String>,
    pub scheduled: Option<String>,
    pub due: Option<String>,
    pub closed: Option<String>,
    pub tags: Vec<String>,
    pub collections: Vec<String>,
    pub links: Vec<String>,
    pub sources: Vec<String>,
}

/// The vaults by name, the collections by `vault/collection`, and the notes by id.
#[derive(Debug)]
pub struct Index {
    pub vaults: StrMap<VaultMeta>,
    pub collections: StrMap<CollectionMeta>,
    pub notes: StrMap<NoteMeta>,
}

impl NoteMeta {
    /// A note of kind `note` that belongs to its home collection only, with no
    /// status, dates, tags, links or sources.
    pub fn new_note(
        id: String,
        home_collection: String,
        body: String,
        created: String,
        updated: String,
        title: String,
    ) -> (r: Self)
        ensures
            r.id == id,
            r.home_collection == home_collection,
            r.body == body,
            r.created == created,
            r.updated == updated,
            r.title == title,
            r.kind@ == "note"@,
            r.status is None,
            r.priority is None,
            r.scheduled is None,
            r.due is None,
            r.closed is None,
            r.tags@.len() == 0,
            string_views(r.collections@) == seq![home_collection@],
            r.links@.len() == 0,
            r.sources@.len() == 0,
    {
        let mut collections: Vec<String> = Vec::new();
        collections.push(home_collection.clone());
        proof {
            assert(string_views(collections@) =~= seq![home_collection@]);
        }
        NoteMeta {
            id,
            home_collection,
            body,
            created,
            updated,
            title,
            kind: owned("note"),
            status: None,
            priority: None,
            scheduled: None,
            due: None,
            closed: None,
            tags: Vec::new(),
            collections,
            links: Vec::new(),
            sources: Vec::new(),
        }
    }
}

impl Index {
    /// Each table of the index keeps its keys in order.
    pub open spec fn wf(&self) -> bool {
        self.vaults.wf() && self.collections.wf() && self.notes.wf()
    }

    /// An index with no vaults, collections or notes.
    pub fn empty() -> (r: Self)
        ensures
            r.wf(),
            r.vaults@ == Map::<Seq<char>, VaultMeta>::empty(),
            r.collections@ == Map::<Seq<char>, CollectionMeta>::empty(),
            r.notes@ == Map::<Seq<char>, NoteMeta>::empty(),
    {
        Index { vaults: StrMap::new(), collections: StrMap::new(), notes: StrMap::new() }
    }
}

impl Default for Index {
    fn default() -> (r: Self)
        ensures
            r.wf(),
            r.vaults@ == Map::<Seq<char>, VaultMeta>::empty(),
            r.collections@ == Map::<Seq<char>, CollectionMeta>::empty(),
            r.notes@ == Map::<Seq<char>, NoteMeta>::empty(),
    {
        Index::empty()
    }
}

/// `a` is listed before `b`: it was created later, or at the same time with a
/// larger id.
pub open spec fn recent_before(a: NoteMeta, b: NoteMeta) -> bool {
    seq_lt(b.created@, a.created@) || (b.created@ == a.created@ && seq_lt(b.id@, a.id@))
}

/// Where a stable insertion puts `x` into `r`: before the first note that `x`
/// is listed before.
pub open spec fn insertion_index(r: Seq<NoteMeta>, x: NoteMeta) -> int
    decreases r.len(),
{
    if r.len() == 0 {
        0
    } else if recent_before(x, r[0]) {
        0
    } else {
        1 + insertion_index(r.drop_first(), x)
    }
}

/// The notes in recency order; notes that tie keep their order.
pub open spec fn recent_sort(s: Seq<NoteMeta>) -> Seq<NoteMeta>
    decreases s.len(),
{
    if s.len() == 0 {
        Seq::empty()
    } else {
        let r = recent_sort(s.drop_last());
        r.insert(insertion_index(r, s.last()), s.last())
    }
}

/// No note is listed before one that precedes it.
pub open spec fn in_recent_order(s: Seq<NoteMeta>) -> bool {
    forall|i: int, j: int| 0 <= i < j < s.len() ==> !recent_before(#[trigger] s[j], #[trigger] s[i])
}

/// The ids of a list of notes.
pub open spec fn ids_of(s: Seq<NoteMeta>) -> Seq<Seq<char>> {
    s.map_values(|n: NoteMeta| n.id@)
}

proof fn lemma_insertion_index(r: Seq<NoteMeta>, x: NoteMeta)
    ensures
        0 <= insertion_index(r, x) <= r.len(),
        forall|k: int| 0 <= k < insertion_index(r, x) ==> !recent_before(x, #[trigger] r[k]),
        insertion_index(r, x) < r.len() ==> recent_before(x, r[insertion_index(r, x)]),
    decreases r.len(),
{
    if r.len() > 0 && !recent_before(x, r[0]) {
        lemma_insertion_index(r.drop_first(), x);
        assert forall|k: int| 0 <= k < insertion_index(r, x) implies !recent_before(
            x,
            #[trigger] r[k],
        ) by {
            if k > 0 {
                assert(r[k] == r.drop_first()[k - 1]);
            }
        }
    }
}

proof fn lemma_recent_before_trans(a: NoteMeta, b: NoteMeta, c: NoteMeta)
    ensures
        recent_before(a, b) && recent_before(b, c) ==> recent_before(a, c),
        !recent_before(a, b) && !recent_before(b, c) ==> !recent_before(a, c),
        recent_before(a, b) ==> !recent_before(b, a),
{
    lemma_seq_lt_total(a.created@, b.created@);
    lemma_seq_lt_total(b.created@, c.created@);
    lemma_seq_lt_total(a.created@, c.created@);
    lemma_seq_lt_total(a.id@, b.id@);
    lemma_seq_lt_total(b.id@, c.id@);
    lemma_seq_lt_total(a.id@, c.id@);
    if seq_lt(c.created@, b.created@) && seq_lt(b.created@, a.created@) {
        lemma_seq_lt_transitive(c.created@, b.created@, a.created@);
    }
    if seq_lt(c.id@, b.id@) && seq_lt(b.id@, a.id@) {
        lemma_seq_lt_transitive(c.id@, b.id@, a.id@);
    }
    if seq_lt(a.created@, b.created@) && seq_lt(b.created@, c.created@) {
        lemma_seq_lt_transitive(a.created@, b.created@, c.created@);
    }
    if seq_lt(a.id@, b.id@) && seq_lt(b.id@, c.id@) {
        lemma_seq_lt_transitive(a.id@, b.id@, c.id@);
    }
}

/// The recency sort lists its notes in recency order.
pub proof fn law_recent_sort_ordered(s: Seq<NoteMeta>)
    ensures
        in_recent_order(recent_sort(s)),
        recent_sort(s).len() == s.len(),
    decreases s.len(),
{
    if s.len() > 0 {
        law_recent_sort_ordered(s.drop_last());
        let r = recent_sort(s.drop_last());
        let x = s.last();
        let p = insertion_index(r, x);
        lemma_insertion_index(r, x);
        let n = r.insert(p, x);
        assert forall|i: int, j: int| 0 <= i < j < n.len() implies !recent_before(
            #[trigger] n[j],
            #[trigger] n[i],
        ) by {
            if j < p {
                assert(n[i] == r[i] && n[j] == r[j]);
            } else if j == p {
                assert(n[i] == r[i]);
            } else if i < p {
                assert(n[i] == r[i] && n[j] == r[j - 1]);
            } else if i == p {
                assert(n[j] == r[j - 1]);
                lemma_recent_before_trans(x, r[p], x);
                lemma_recent_before_trans(r[j - 1], x, r[p]);
                if j - 1 > p {
                    assert(!recent_before(r[j - 1], r[p]));
                }
            } else {
                assert(n[i] == r[i - 1] && n[j] == r[j - 1]);
            }
        }
    }
}

/// The recency sort lists exactly the notes it was given.
pub proof fn law_recent_sort_permutes(s: Seq<NoteMeta>)
    ensures
        recent_sort(s).to_multiset() == s.to_multiset(),
    decreases s.len(),
{
    broadcast use vstd::multiset::group_multiset_axioms;
    broadcast use vstd::seq_lib::group_to_multiset_ensures;

    if s.len() > 0 {
        law_recent_sort_permutes(s.drop_last());
        let r = recent_sort(s.drop_last());
        let x = s.last();
        let p = insertion_index(r, x);
        lemma_insertion_index(r, x);
        vstd::seq_lib::lemma_multiset_commutative(r.subrange(0, p), r.subrange(p, r.len() as int));
        assert(r.insert(p, x) =~= r.subrange(0, p).push(x) + r.subrange(p, r.len() as int));
        assert(r =~= r.subrange(0, p) + r.subrange(p, r.len() as int));
        vstd::seq_lib::lemma_multiset_commutative(
            r.subrange(0, p).push(x),
            r.subrange(p, r.len() as int),
        );
        vstd::seq_lib::lemma_multiset_commutative(r.subrange(0, p), r.subrange(p, r.len() as int));
        assert(s =~= s.drop_last().push(x));
    }
}

fn listed_before(a: &NoteMeta, b: &NoteMeta) -> (r: bool)
    ensures
        r == recent_before(*a, *b),
{
    let ac = chars_of(a.created.as_str());
    let bc = chars_of(b.created.as_str());
    if chars_lt(bc.as_slice(), ac.as_slice()) {
        return true;
    }
    if !chars_eq(bc.as_slice(), ac.as_slice()) {
        return false;
    }
    let ai = chars_of(a.id.as_str());
    let bi = chars_of(b.id.as_str());
    chars_lt(bi.as_slice(), ai.as_slice())
}

/// The notes of a map in recency order.
fn notes_in_recent_order(notes: &StrMap<NoteMeta>) -> (r: Vec<&NoteMeta>)
    requires
        notes.wf(),
    ensures
        r@.map_values(|n: &NoteMeta| *n) == recent_sort(notes.values()),
{
    let mut sorted: Vec<&NoteMeta> = Vec::new();
    let mut i: usize = 0;
    while i < notes.len()
        invariant
            notes.wf(),
            i <= notes.keys().len(),
            sorted@.map_values(|n: &NoteMeta| *n) == recent_sort(
                notes.values().subrange(0, i as int),
            ),
        decreases notes.keys().len() - i,
    {
        let note = notes.value_at(i);
        let ghost r = sorted@.map_values(|n: &NoteMeta| *n);
        let mut p: usize = 0;
        proof {
            assert(r.subrange(0, r.len() as int) =~= r);
        }
        while p < sorted.len() && !listed_before(note, sorted[p])
            invariant
                p <= sorted@.len(),
                r == sorted@.map_values(|n: &NoteMeta| *n),
                insertion_index(r, *note) == p + insertion_index(r.subrange(p as int, r.len() as int), *note),
            decreases sorted@.len() - p,
        {
            proof {
                let tail = r.subrange(p as int, r.len() as int);
                assert(tail.drop_first() =~= r.subrange(p + 1, r.len() as int));
            }
            p += 1;
        }
        proof {
            let tail = r.subrange(p as int, r.len() as int);
            assert(insertion_index(tail, *note) == 0);
            let s = notes.values().subrange(0, i + 1);
            assert(s.drop_last() =~= notes.values().subrange(0, i as int));
            assert(s.last() == *note);
        }
        sorted.insert(p, note);
        proof {
            assert(sorted@.map_values(|n: &NoteMeta| *n) =~= r.insert(p as int, *note));
        }
        i += 1;
    }
    proof {
        assert(notes.values().subrange(0, notes.keys().len() as int) =~= notes.values());
    }
    sorted
}


// ---------------------------------------------------------------------------
// Views of notes
// ---------------------------------------------------------------------------
/// A note as plain values.
pub struct NoteView {
    pub id: Seq<char>,
    pub home_collection: Seq<char>,
    pub body: Seq<char>,
    pub created: Seq<char>,
    pub updated: Seq<char>,
    pub title: Seq<char>,
    pub kind: Seq<char>,
    pub status: Option<Seq<char>>,
    pub priority: Option<Seq<char>>,
    pub scheduled: Option<Seq<char>>,
    pub due: Option<Seq<char>>,
    pub closed: Option<Seq<char>>,
    pub tags: Seq<Seq<char>>,
    pub collections: Seq<Seq<char>>,
    pub links: Seq<Seq<char>>,
    pub sources: Seq<Seq<char>>,
}

pub open spec fn opt_text(v: Option<String>) -> Option<Seq<char>> {
    match v {
        Some(s) => Some(s@),
        None => None,
    }
}

impl NoteMeta {
    pub open spec fn view(&self) -> NoteView {
        NoteView {
            id: self.id@,
            home_collection: self.home_collection@,
            body: self.body@,
            created: self.created@,
            updated: self.updated@,
            title: self.title@,
            kind: self.kind@,
            status: opt_text(self.status),
            priority: opt_text(self.priority),
            scheduled: opt_text(self.scheduled),
            due: opt_text(self.due),
            closed: opt_text(self.closed),
            tags: string_views(self.tags@),
            collections: string_views(self.collections@),
            links: string_views(self.links@),
            sources: string_views(self.sources@),
        }
    }
}

/// `Index::remove_notes` takes the notes out and every link to them, and
/// nothing else:
/// the notes kept are those not removed; no kept note links to a removed
/// note; every other link of a kept note stays, in its order; and all other
/// fields of a kept note are as they were.
pub proof fn law_removal_drops_every_link_to_removed_notes(
    before: Map<Seq<char>, NoteView>,
    after: Map<Seq<char>, NoteView>,
    ids: Seq<Seq<char>>,
)
    requires
        after == after_removal(before, ids),
    ensures
        forall|k: Seq<char>| #[trigger] after.dom().contains(k) <==> before.dom().contains(k) && !ids.contains(k),
        forall|k: Seq<char>, l: Seq<char>|
            after.dom().contains(k) && #[trigger] after[k].links.contains(l) ==> !ids.contains(l)
                && before[k].links.contains(l),
        forall|k: Seq<char>, l: Seq<char>|
            after.dom().contains(k) && #[trigger] before[k].links.contains(l) && !ids.contains(l)
                ==> after[k].links.contains(l),
        forall|k: Seq<char>, a: int, b: int|
            after.dom().contains(k) && 0 <= a < b < after[k].links.len() ==> kept_in_order(
                before[k].links,
                #[trigger] after[k].links[a],
                #[trigger] after[k].links[b],
            ),
        forall|k: Seq<char>| #[trigger] after.dom().contains(k) ==> same_but_links(after[k], before[k]),
{
    assert forall|k: Seq<char>, l: Seq<char>|
        after.dom().contains(k) && #[trigger] after[k].links.contains(l) implies !ids.contains(l)
            && before[k].links.contains(l) by {
        before[k].links.lemma_filter_contains_rev(one_of(ids), l);
    }
    assert forall|k: Seq<char>, l: Seq<char>|
        after.dom().contains(k) && #[trigger] before[k].links.contains(l) && !ids.contains(l)
            implies after[k].links.contains(l) by {
        let i = choose|i: int| 0 <= i < before[k].links.len() && before[k].links[i] == l;
        before[k].links.lemma_filter_contains(one_of(ids), i);
    }
    assert forall|k: Seq<char>, a: int, b: int|
        after.dom().contains(k) && 0 <= a < b < after[k].links.len() implies kept_in_order(
            before[k].links,
            #[trigger] after[k].links[a],
            #[trigger] after[k].links[b],
        ) by {
        assert(after[k].links == before[k].links.filter(one_of(ids)));
        lemma_filter_keeps_order(before[k].links, one_of(ids), a, b);
    }
}

/// `x` comes before `y` in `s`.
pub open spec fn kept_in_order(s: Seq<Seq<char>>, x: Seq<char>, y: Seq<char>) -> bool {
    exists|i: int, j: int| 0 <= i < j < s.len() && #[trigger] s[i] == x && #[trigger] s[j] == y
}

/// Two notes agree in every field but their links.
pub open spec fn same_but_links(a: NoteView, b: NoteView) -> bool {
    &&& a.id == b.id
    &&& a.home_collection == b.home_collection
    &&& a.body == b.body
    &&& a.created == b.created
    &&& a.updated == b.updated
    &&& a.title == b.title
    &&& a.kind == b.kind
    &&& a.status == b.status
    &&& a.priority == b.priority
    &&& a.scheduled == b.scheduled
    &&& a.due == b.due
    &&& a.closed == b.closed
    &&& a.tags == b.tags
    &&& a.collections == b.collections
    &&& a.sources == b.sources
}

proof fn lemma_filter_keeps_order(s: Seq<Seq<char>>, p: spec_fn(Seq<char>) -> bool, a: int, b: int)
    requires
        0 <= a < b < s.filter(p).len(),
    ensures
        kept_in_order(s, s.filter(p)[a], s.filter(p)[b]),
    decreases s.len(),
{
    reveal(Seq::filter);
    let init = s.drop_last();
    let f = s.filter(p);
    let g = init.filter(p);
    assert(s.len() > 0);
    if p(s.last()) {
        assert(f == g.push(s.last()));
        if b < g.len() {
            lemma_filter_keeps_order(init, p, a, b);
            let (i, j) = choose|i: int, j: int| 0 <= i < j < init.len() && init[i] == g[a] && init[j] == g[b];
            assert(s[i] == f[a] && s[j] == f[b]);
        } else {
            assert(f[b] == s.last());
            assert(f[a] == g[a]);
            assert(g.contains(g[a]));
            init.lemma_filter_contains_rev(p, g[a]);
            let i = choose|i: int| 0 <= i < init.len() && init[i] == g[a];
            assert(s[i] == f[a] && s[s.len() - 1] == f[b]);
        }
    } else {
        assert(f == g);
        lemma_filter_keeps_order(init, p, a, b);
        let (i, j) = choose|i: int, j: int| 0 <= i < j < init.len() && init[i] == g[a] && init[j] == g[b];
        assert(s[i] == f[a] && s[j] == f[b]);
    }
}

/// The notes of a map, as plain values.
pub open spec fn note_views(m: Map<Seq<char>, NoteMeta>) -> Map<Seq<char>, NoteView> {
    m.map_values(|n: NoteMeta| n@)
}

/// Whether `x` is one of `ids`.
pub open spec fn one_of(ids: Seq<Seq<char>>) -> spec_fn(Seq<char>) -> bool {
    |x: Seq<char>| !ids.contains(x)
}

/// A note with the links to `ids` taken out.
pub open spec fn without_links(n: NoteView, ids: Seq<Seq<char>>) -> NoteView {
    NoteView { links: n.links.filter(one_of(ids)), ..n }
}

/// The notes left when `ids` are removed: the others, with their links to the
/// removed ids taken out.
pub open spec fn after_removal(m: Map<Seq<char>, NoteView>, ids: Seq<Seq<char>>) -> Map<Seq<char>, NoteView> {
    Map::new(
        |k: Seq<char>| m.dom().contains(k) && !ids.contains(k),
        |k: Seq<char>| without_links(m[k], ids),
    )
}

fn contains_text(list: &[String], x: &str) -> (r: bool)
    ensures
        r == string_views(list@).contains(x@),
{
    let mut i: usize = 0;
    while i < list.len()
        invariant
            i <= list@.len(),
            forall|k: int| 0 <= k < i ==> list@[k]@ != x@,
        decreases list@.len() - i,
    {
        if str_eq(list[i].as_str(), x) {
            assert(string_views(list@)[i as int] == x@);
            return true;
        }
        i += 1;
    }
    proof {
        if string_views(list@).contains(x@) {
            let j = choose|j: int| 0 <= j < string_views(list@).len() && string_views(list@)[j] == x@;
            assert(list@[j]@ == x@);
        }
    }
    false
}

fn keep_links(links: &Vec<String>, ids: &[String]) -> (r: Vec<String>)
    ensures
        string_views(r@) == string_views(links@).filter(one_of(string_views(ids@))),
{
    let ghost p = one_of(string_views(ids@));
    let mut r: Vec<String> = Vec::new();
    let mut k: usize = 0;
    proof {
        assert(string_views(links@).subrange(0, 0) =~= Seq::<Seq<char>>::empty());
        assert(string_views(r@) =~= Seq::<Seq<char>>::empty().filter(p));
    }
    while k < links.len()
        invariant
            k <= links@.len(),
            p == one_of(string_views(ids@)),
            string_views(r@) == string_views(links@).subrange(0, k as int).filter(p),
        decreases links@.len() - k,
    {
        let ghost lv = string_views(links@);
        let ghost before = r@;
        if !contains_text(ids, links[k].as_str()) {
            let item = links[k].clone();
            r.push(item);
            proof {
                assert(string_views(r@) =~= string_views(before).push(lv[k as int]));
            }
        }
        proof {
            assert(lv.subrange(0, k + 1) =~= lv.subrange(0, k as int).push(lv[k as int]));
            lv.subrange(0, k as int).lemma_filter_push(lv[k as int], p);
        }
        k += 1;
    }
    proof {
        assert(string_views(links@).subrange(0, links@.len() as int) =~= string_views(links@));
    }
    r
}

impl Index {
    /// The notes, newest first (ties by the larger id first).
    pub fn all_notes(&self) -> (r: Vec<&NoteMeta>)
        requires
            self.wf(),
        ensures
            r@.map_values(|n: &NoteMeta| *n) == recent_sort(self.notes.values()),
    {
        notes_in_recent_order(&self.notes)
    }

    /// Stores a note under its id, replacing any note with that id.
    pub fn upsert_note(&mut self, note: NoteMeta)
        requires
            old(self).wf(),
        ensures
            final(self).wf(),
            final(self).vaults == old(self).vaults,
            final(self).collections == old(self).collections,
            final(self).notes@ == old(self).notes@.insert(note.id@, note),
    {
        let id = note.id.clone();
        self.notes.insert(id, note);
    }

    /// Removes the notes with the given ids, and every link to them.
    pub fn remove_notes(&mut self, ids: &[String])
        requires
            old(self).wf(),
        ensures
            final(self).wf(),
            final(self).vaults == old(self).vaults,
            final(self).collections == old(self).collections,
            note_views(final(self).notes@) == after_removal(
                note_views(old(self).notes@),
                string_views(ids@),
            ),
    {
        let ghost start = note_views(self.notes@);
        let ghost iv = string_views(ids@);
        let mut kept: StrMap<NoteMeta> = StrMap::new();
        let mut i: usize = 0;
        while i < self.notes.len()
            invariant
                self.wf(),
                kept.wf(),
                i <= self.notes.keys().len(),
                start == note_views(self.notes@),
                iv == string_views(ids@),
                note_views(kept@) == after_removal(start, iv).restrict(
                    self.notes.keys().subrange(0, i as int).to_set(),
                ),
            decreases self.notes.keys().len() - i,
        {
            let key = self.notes.key_at(i);
            let note = self.notes.value_at(i);
            let ghost k = self.notes.keys()[i as int];
            let ghost before = note_views(kept@);
            proof {
                self.notes.lemma_at(i as int);
                assert(start[k] == note@);
            }
            if !contains_text(ids, key.as_str()) {
                let copy = NoteMeta {
                    id: note.id.clone(),
                    home_collection: note.home_collection.clone(),
                    body: note.body.clone(),
                    created: note.created.clone(),
                    updated: note.updated.clone(),
                    title: note.title.clone(),
                    kind: note.kind.clone(),
                    status: copy_opt(&note.status),
                    priority: copy_opt(&note.priority),
                    scheduled: copy_opt(&note.scheduled),
                    due: copy_opt(&note.due),
                    closed: copy_opt(&note.closed),
                    tags: copy_strings(&note.tags),
                    collections: copy_strings(&note.collections),
                    links: keep_links(&note.links, ids),
                    sources: copy_strings(&note.sources),
                };
                proof {
                    assert(copy@ == without_links(note@, iv));
                }
                kept.insert(key.clone(), copy);
                proof {
                    assert(note_views(kept@) =~= before.insert(k, without_links(start[k], iv)));
                }
            }
            proof {
                let done = self.notes.keys().subrange(0, i as int).to_set();
                assert(self.notes.keys().subrange(0, i + 1) =~= self.notes.keys().subrange(0, i as int).push(k));
                self.notes.keys().subrange(0, i as int).lemma_push_to_set_commute(k);
                assert(note_views(kept@) =~= after_removal(start, iv).restrict(done.insert(k)));
            }
            i += 1;
        }
        proof {
            assert(self.notes.keys().subrange(0, self.notes.keys().len() as int) =~= self.notes.keys());
            self.notes.lemma_dom();
            assert(note_views(kept@) =~= after_removal(start, iv));
        }
        self.notes = kept;
    }
}

fn copy_opt(v: &Option<String>) -> (r: Option<String>)
    ensures
        opt_text(r) == opt_text(*v),
{
    match v {
        Some(s) => Some(s.clone()),
        None => None,
    }
}

fn copy_strings(v: &Vec<String>) -> (r: Vec<String>)
    ensures
        string_views(r@) == string_views(v@),
{
    let mut r: Vec<String> = Vec::new();
    crate::lexical::append_strings(&mut r, v);
    proof {
        assert(string_views(r@) =~= views(r@));
        assert(string_views(v@) =~= views(v@));
    }
    r
}

// ---------------------------------------------------------------------------
// Vaults and collections
// ---------------------------------------------------------------------------
/// A vault or collection name: nonempty, not starting or ending with `/`, and
/// without whitespace, capitals or commas.
pub open spec fn is_namespace_part(v: Seq<char>) -> bool {
    &&& v.len() > 0
    &&& v[0] != '/'
    &&& v.last() != '/'
    &&& forall|i: int|
        0 <= i < v.len() ==> !unicode_whitespace(#[trigger] v[i]) && !unicode_uppercase(v[i])
            && v[i] != ','
}

/// The message a bad name is refused with.
pub open spec fn namespace_message(kind: Seq<char>, v: Seq<char>) -> Seq<char> {
    "invalid "@ + kind + " `"@ + v + "`; use lowercase names without spaces or commas"@
}

fn validate_namespace_part(value: &str, kind: &str) -> (r: Result<()>)
    ensures
        r is Ok <==> is_namespace_part(value@),
        r matches Err(e) ==> e is Message && e->Message_0@ == namespace_message(kind@, value@),
{
    let chars = chars_of(value);
    let n = chars.len();
    let mut bad = n == 0 || chars[0] == '/' || chars[n - 1] == '/';
    let mut i: usize = 0;
    while i < n && !bad
        invariant
            n == chars@.len(),
            chars@ == value@,
            i <= n,
            !bad ==> forall|k: int|
                0 <= k < i ==> !unicode_whitespace(#[trigger] chars@[k]) && !unicode_uppercase(
                    chars@[k],
                ) && chars@[k] != ',',
            bad ==> !is_namespace_part(value@),
            !bad ==> n > 0 && chars@[0] != '/' && chars@[n - 1] != '/',
        decreases n - i,
    {
        let c = chars[i];
        if is_whitespace(c) || is_uppercase(c) || c == ',' {
            bad = true;
        }
        i += 1;
    }
    if bad {
        let mut message = owned("invalid ");
        append_str(&mut message, kind);
        append_str(&mut message, " `");
        append_str(&mut message, value);
        append_str(&mut message, "`; use lowercase names without spaces or commas");
        return Err(NtError::Message(message));
    }
    proof {
        assert(chars@.last() == chars@[n - 1]);
    }
    Ok(())
}

/// Where the first `/` of a text is.
pub open spec fn slash_of(v: Seq<char>) -> Option<int> {
    first_index_from(v, '/', 0)
}

/// Splits `vault/collection` at its first `/`; both parts must be valid names.
pub fn parse_collection_name(value: &str) -> (r: Result<(String, String)>)
    ensures
        match slash_of(value@) {
            None => r matches Err(e) && e is Message && e->Message_0@ == "invalid collection `"@
                + value@ + "`; use <vault>/<collection>"@,
            Some(i) => {
                let vault = value@.subrange(0, i);
                let collection = value@.subrange(i + 1, value@.len() as int);
                if !is_namespace_part(vault) {
                    r matches Err(e) && e is Message && e->Message_0@ == namespace_message(
                        "vault"@,
                        vault,
                    )
                } else if !is_namespace_part(collection) {
                    r matches Err(e) && e is Message && e->Message_0@ == namespace_message(
                        "collection"@,
                        collection,
                    )
                } else {
                    r matches Ok((v, c)) && v@ == vault && c@ == collection
                }
            },
        },
{
    let chars = chars_of(value);
    proof {
        lemma_first_index_from(value@, '/', 0);
    }
    let slash = match find_char(chars.as_slice(), '/') {
        Some(i) => i,
        None => {
            let mut message = owned("invalid collection `");
            append_str(&mut message, value);
            append_str(&mut message, "`; use <vault>/<collection>");
            return Err(NtError::Message(message));
        },
    };
    let n = chars.len();
    assert(slash < n);
    let vault = string_of(slice_chars(chars.as_slice(), 0, slash).as_slice());
    let collection = string_of(slice_chars(chars.as_slice(), slash + 1, chars.len()).as_slice());
    validate_namespace_part(vault.as_str(), "vault")?;
    validate_namespace_part(collection.as_str(), "collection")?;
    Ok((vault, collection))
}

/// A new identifier for a vault or collection: the text of a version 7 UUID.
fn new_id() -> (r: String)
    ensures
        exists|v: u128| r@ == crate::note::id::uuid_text(v) && crate::note::id::uuid_version(v) == 7,
{
    let id = NoteId::generate();
    id.to_string()
}

/// The note ids are UUID texts of version 7.
pub open spec fn is_new_id(s: Seq<char>) -> bool {
    exists|v: u128| s == crate::note::id::uuid_text(v) && crate::note::id::uuid_version(v) == 7
}

/// What ensuring the collection `full` of a vault does to the collections:
/// nothing if it is there; otherwise, if `full` is `vault/collection` with
/// valid names and the vault exists, a new collection of that vault with a new
/// id; otherwise an error.
pub open spec fn collection_ensured(
    vaults: Map<Seq<char>, VaultMeta>,
    before: Map<Seq<char>, CollectionMeta>,
    after: Map<Seq<char>, CollectionMeta>,
    full: Seq<char>,
    created: Seq<char>,
    r: Result<()>,
) -> bool {
    if before.dom().contains(full) {
        r is Ok && after == before
    } else {
        match slash_of(full) {
            None => r is Err && after == before,
            Some(i) => {
                let vault = full.subrange(0, i);
                let collection = full.subrange(i + 1, full.len() as int);
                if !is_namespace_part(vault) || !is_namespace_part(collection) {
                    r is Err && after == before
                } else if !vaults.dom().contains(vault) {
                    r matches Err(e) && e is Message && e->Message_0@ == "unknown vault `"@ + vault
                        + "`; run `nt init "@ + vault + "` first"@ && after == before
                } else {
                    &&& r is Ok
                    &&& after.dom() == before.dom().insert(full)
                    &&& forall|k: Seq<char>| k != full ==> after[k] == before[k]
                    &&& after[full].vault_id@ == vaults[vault].id@
                    &&& after[full].name@ == collection
                    &&& after[full].created@ == created
                    &&& is_new_id(after[full].id@)
                }
            },
        }
    }
}

impl Index {
    /// Adds a collection `vault/collection` of an existing vault, unless it is
    /// there already.
    pub fn ensure_collection(&mut self, full_name: &str, created: &str) -> (r: Result<()>)
        requires
            old(self).wf(),
        ensures
            final(self).wf(),
            final(self).vaults == old(self).vaults,
            final(self).notes == old(self).notes,
            collection_ensured(
                old(self).vaults@,
                old(self).collections@,
                final(self).collections@,
                full_name@,
                created@,
                r,
            ),
    {
        if self.collections.contains_key(full_name) {
            return Ok(());
        }
        let (vault_name, collection_name) = parse_collection_name(full_name)?;
        let vault_id = match self.vaults.get(vault_name.as_str()) {
            Some(vault) => vault.id.clone(),
            None => {
                let mut message = owned("unknown vault `");
                append_str(&mut message, vault_name.as_str());
                append_str(&mut message, "`; run `nt init ");
                append_str(&mut message, vault_name.as_str());
                append_str(&mut message, "` first");
                return Err(NtError::Message(message));
            },
        };
        let meta = CollectionMeta {
            id: new_id(),
            vault_id,
            name: collection_name,
            created: owned(created),
        };
        self.collections.insert(owned(full_name), meta);
        Ok(())
    }

    /// Adds a vault with an `inbox` collection. A name already taken is refused.
    pub fn create_vault(&mut self, name: &str, created: &str) -> (r: Result<()>)
        requires
            old(self).wf(),
        ensures
            final(self).wf(),
            final(self).notes == old(self).notes,
            !is_namespace_part(name@) ==> (r matches Err(e) && e is Message && e->Message_0@
                == namespace_message("vault"@, name@) && *final(self) == *old(self)),
            is_namespace_part(name@) && old(self).vaults@.dom().contains(name@) ==> (r matches Err(
                e,
            ) && e is Message && e->Message_0@ == "vault `"@ + name@ + "` already exists"@
                && *final(self) == *old(self)),
            is_namespace_part(name@) && !old(self).vaults@.dom().contains(name@) ==> {
                &&& final(self).vaults@.dom() == old(self).vaults@.dom().insert(name@)
                &&& forall|k: Seq<char>| k != name@ ==> final(self).vaults@[k] == old(self).vaults@[k]
                &&& final(self).vaults@[name@].name@ == name@
                &&& final(self).vaults@[name@].created@ == created@
                &&& is_new_id(final(self).vaults@[name@].id@)
                &&& collection_ensured(
                    final(self).vaults@,
                    old(self).collections@,
                    final(self).collections@,
                    name@ + "/inbox"@,
                    created@,
                    r,
                )
            },
    {
        validate_namespace_part(name, "vault")?;
        if self.vaults.contains_key(name) {
            let mut message = owned("vault `");
            append_str(&mut message, name);
            append_str(&mut message, "` already exists");
            return Err(NtError::Message(message));
        }
        let vault = VaultMeta { id: new_id(), name: owned(name), created: owned(created) };
        self.vaults.insert(owned(name), vault);
        let mut inbox = owned(name);
        append_str(&mut inbox, "/inbox");
        self.ensure_collection(inbox.as_str(), created)?;
        Ok(())
    }

    /// The `inbox` of the only vault; refused unless there is exactly one vault.
    pub fn default_home_collection(&self) -> (r: Result<String>)
        requires
            self.wf(),
        ensures
            self.vaults.keys().len() == 1 ==> (r matches Ok(home) && home@ == self.vaults.keys()[0]
                + "/inbox"@),
            self.vaults.keys().len() != 1 ==> (r matches Err(e) && e is Message && e->Message_0@
                == "specify `home:<vault>/<collection>` when more than one vault exists"@),
    {
        if self.vaults.len() != 1 {
            return Err(
                NtError::Message(
                    owned("specify `home:<vault>/<collection>` when more than one vault exists"),
                ),
            );
        }
        let mut home = self.vaults.key_at(0).clone();
        append_str(&mut home, "/inbox");
        Ok(home)
    }
}

// ---------------------------------------------------------------------------
// Validation and storage
// ---------------------------------------------------------------------------
/// The first of `cs` that is not a known collection.
pub open spec fn first_unknown(known: Set<Seq<char>>, cs: Seq<Seq<char>>) -> Option<Seq<char>>
    decreases cs.len(),
{
    if cs.len() == 0 {
        None
    } else if !known.contains(cs[0]) {
        Some(cs[0])
    } else {
        first_unknown(known, cs.drop_first())
    }
}

/// What is wrong with a note, if anything: an unknown home collection, a home
/// collection it is not a member of, or an unknown collection.
pub open spec fn note_problem(known: Set<Seq<char>>, n: NoteView) -> Option<Seq<char>> {
    if !known.contains(n.home_collection) {
        Some("unknown home collection `"@ + n.home_collection + "` for note "@ + n.id)
    } else if !n.collections.contains(n.home_collection) {
        Some("home collection `"@ + n.home_collection + "` is not a membership of note "@ + n.id)
    } else {
        match first_unknown(known, n.collections) {
            Some(c) => Some("unknown collection `"@ + c + "` for note "@ + n.id),
            None => None,
        }
    }
}

/// The problem of the first note that has one.
pub open spec fn first_problem(known: Set<Seq<char>>, notes: Seq<NoteView>) -> Option<Seq<char>>
    decreases notes.len(),
{
    if notes.len() == 0 {
        None
    } else {
        match note_problem(known, notes[0]) {
            Some(m) => Some(m),
            None => first_problem(known, notes.drop_first()),
        }
    }
}

pub open spec fn value_views(notes: Seq<NoteMeta>) -> Seq<NoteView> {
    notes.map_values(|n: NoteMeta| n@)
}

proof fn lemma_first_problem_step(known: Set<Seq<char>>, notes: Seq<NoteView>, i: int)
    requires
        0 <= i < notes.len(),
        first_problem(known, notes) == first_problem(known, notes.subrange(i, notes.len() as int)),
        note_problem(known, notes[i]) is None,
    ensures
        first_problem(known, notes) == first_problem(known, notes.subrange(i + 1, notes.len() as int)),
{
    let rest = notes.subrange(i, notes.len() as int);
    assert(rest[0] == notes[i]);
    assert(rest.drop_first() =~= notes.subrange(i + 1, notes.len() as int));
}

impl Index {
    fn unknown_collection<'a>(&self, cs: &'a Vec<String>) -> (r: Option<&'a String>)
        requires
            self.wf(),
        ensures
            match first_unknown(self.collections@.dom(), string_views(cs@)) {
                Some(c) => r matches Some(x) && x@ == c,
                None => r is None,
            },
    {
        let ghost known = self.collections@.dom();
        let ghost cv = string_views(cs@);
        let mut k: usize = 0;
        proof {
            assert(cv.subrange(0, cv.len() as int) =~= cv);
        }
        while k < cs.len()
            invariant
                self.wf(),
                known == self.collections@.dom(),
                cv == string_views(cs@),
                k <= cs@.len(),
                first_unknown(known, cv) == first_unknown(known, cv.subrange(k as int, cv.len() as int)),
            decreases cs@.len() - k,
        {
            let ghost rest = cv.subrange(k as int, cv.len() as int);
            proof {
                assert(rest[0] == cs@[k as int]@);
                assert(rest.drop_first() =~= cv.subrange(k + 1, cv.len() as int));
            }
            if !self.collections.contains_key(cs[k].as_str()) {
                return Some(&cs[k]);
            }
            k += 1;
        }
        None
    }

    fn problem_of(&self, note: &NoteMeta) -> (r: Option<String>)
        requires
            self.wf(),
        ensures
            match note_problem(self.collections@.dom(), note@) {
                Some(m) => r matches Some(x) && x@ == m,
                None => r is None,
            },
    {
        if !self.collections.contains_key(note.home_collection.as_str()) {
            let mut m = owned("unknown home collection `");
            append_str(&mut m, note.home_collection.as_str());
            append_str(&mut m, "` for note ");
            append_str(&mut m, note.id.as_str());
            return Some(m);
        }
        if !contains_text(note.collections.as_slice(), note.home_collection.as_str()) {
            let mut m = owned("home collection `");
            append_str(&mut m, note.home_collection.as_str());
            append_str(&mut m, "` is not a membership of note ");
            append_str(&mut m, note.id.as_str());
            return Some(m);
        }
        match self.unknown_collection(&note.collections) {
            Some(c) => {
                let mut m = owned("unknown collection `");
                append_str(&mut m, c.as_str());
                append_str(&mut m, "` for note ");
                append_str(&mut m, note.id.as_str());
                Some(m)
            },
            None => None,
        }
    }

    /// Checks, note by note in id order, that each note's home collection is
    /// known and one of its collections, and that all its collections are known.
    pub fn validate(&self) -> (r: Result<()>)
        requires
            self.wf(),
        ensures
            match first_problem(self.collections@.dom(), value_views(self.notes.values())) {
                None => r is Ok,
                Some(m) => r matches Err(e) && e is Message && e->Message_0@ == m,
            },
    {
        let ghost vv = value_views(self.notes.values());
        let ghost known = self.collections@.dom();
        let mut i: usize = 0;
        proof {
            assert(vv.subrange(0, vv.len() as int) =~= vv);
        }
        while i < self.notes.len()
            invariant
                self.wf(),
                i <= self.notes.keys().len(),
                vv == value_views(self.notes.values()),
                vv.len() == self.notes.keys().len(),
                known == self.collections@.dom(),
                first_problem(known, vv) == first_problem(known, vv.subrange(i as int, vv.len() as int)),
            decreases self.notes.keys().len() - i,
        {
            let note = self.notes.value_at(i);
            proof {
                assert(vv[i as int] == note@);
                let rest = vv.subrange(i as int, vv.len() as int);
                assert(rest[0] == vv[i as int]);
            }
            match self.problem_of(note) {
                Some(m) => {
                    return Err(NtError::Message(m));
                },
                None => {},
            }
            proof {
                lemma_first_problem_step(known, vv, i as int);
            }
            i += 1;
        }
        Ok(())
    }

    /// Checks the index and gives the rows of the database tables it is
    /// written to: every vault and collection, every note (in id order) with
    /// the id of its home collection, and the `(note id, value)` rows of its
    /// collection memberships (by collection id), tags, sources and links.
    pub fn save(&self) -> (r: Result<SavedRows>)
        requires
            self.wf(),
        ensures
            match first_problem(self.collections@.dom(), value_views(self.notes.values())) {
                Some(m) => r matches Err(e) && e is Message && e->Message_0@ == m,
                None => r matches Ok(rows) && rows.saved_from(self),
            },
    {
        self.validate()?;
        let ghost vv = value_views(self.notes.values());
        let ghost known = self.collections@.dom();
        let ghost cm = self.collections@;
        let mut vaults: Vec<VaultMeta> = Vec::new();
        let mut i: usize = 0;
        while i < self.vaults.len()
            invariant
                self.wf(),
                i <= self.vaults.keys().len(),
                vaults@ == self.vaults.values().subrange(0, i as int),
            decreases self.vaults.keys().len() - i,
        {
            let v = self.vaults.value_at(i);
            vaults.push(copy_vault(v));
            proof {
                assert(self.vaults.values().subrange(0, i + 1) =~= self.vaults.values().subrange(0, i as int).push(*v));
            }
            i += 1;
        }
        proof {
            assert(self.vaults.values().subrange(0, i as int) =~= self.vaults.values());
        }
        let mut collections: Vec<CollectionMeta> = Vec::new();
        let mut i: usize = 0;
        while i < self.collections.len()
            invariant
                self.wf(),
                i <= self.collections.keys().len(),
                collections@ == self.collections.values().subrange(0, i as int),
            decreases self.collections.keys().len() - i,
        {
            let c = self.collections.value_at(i);
            collections.push(copy_collection(c));
            proof {
                assert(self.collections.values().subrange(0, i + 1) =~= self.collections.values().subrange(0, i as int).push(*c));
            }
            i += 1;
        }
        proof {
            assert(self.collections.values().subrange(0, i as int) =~= self.collections.values());
        }
        let mut notes: Vec<NoteMeta> = Vec::new();
        let mut memberships: Vec<(String, String)> = Vec::new();
        let mut tags: Vec<(String, String)> = Vec::new();
        let mut sources: Vec<(String, String)> = Vec::new();
        let mut links: Vec<(String, String)> = Vec::new();
        let mut i: usize = 0;
        proof {
            assert(vv.subrange(0, vv.len() as int) =~= vv);
            assert(vv.subrange(0, 0) =~= Seq::<NoteView>::empty());
            assert(value_views(notes@) =~= Seq::<NoteView>::empty());
            assert(pair_views(tags@) =~= Seq::<(Seq<char>, Seq<char>)>::empty());
            assert(pair_views(sources@) =~= Seq::<(Seq<char>, Seq<char>)>::empty());
            assert(pair_views(links@) =~= Seq::<(Seq<char>, Seq<char>)>::empty());
            assert(pair_views(memberships@) =~= Seq::<(Seq<char>, Seq<char>)>::empty());
        }
        while i < self.notes.len()
            invariant
                self.wf(),
                i <= self.notes.keys().len(),
                vv == value_views(self.notes.values()),
                vv.len() == self.notes.keys().len(),
                known == self.collections@.dom(),
                cm == self.collections@,
                first_problem(known, vv) is None,
                first_problem(known, vv.subrange(i as int, vv.len() as int)) is None,
                value_views(notes@) == note_rows(vv.subrange(0, i as int), cm),
                pair_views(memberships@) == saved_value_rows(vv.subrange(0, i as int), 3, cm),
                pair_views(tags@) == saved_value_rows(vv.subrange(0, i as int), 0, cm),
                pair_views(sources@) == saved_value_rows(vv.subrange(0, i as int), 1, cm),
                pair_views(links@) == saved_value_rows(vv.subrange(0, i as int), 2, cm),
            decreases self.notes.keys().len() - i,
        {
            let note = self.notes.value_at(i);
            proof {
                let rest = vv.subrange(i as int, vv.len() as int);
                assert(rest[0] == note@);
                assert(rest.drop_first() =~= vv.subrange(i + 1, vv.len() as int));
                assert(note_problem(known, note@) is None);
                assert(vv[i as int] == note@);
                let pre = vv.subrange(0, i + 1);
                assert(pre.drop_last() =~= vv.subrange(0, i as int));
                assert(pre.last() == note@);
            }
            let home = match self.collections.get(note.home_collection.as_str()) {
                Some(c) => c.id.clone(),
                None => String::new(),
            };
            let ghost before_notes = value_views(notes@);
            notes.push(note_row_of(note, home));
            proof {
                assert(value_views(notes@) =~= before_notes.push(note_row(note@, cm)));
                assert(note_rows(vv.subrange(0, i + 1), cm) =~= note_rows(vv.subrange(0, i as int), cm).push(note_row(note@, cm)));
            }
            let members = self.membership_ids(note);
            push_rows(&mut memberships, &note.id, &members);
            push_rows(&mut tags, &note.id, &note.tags);
            push_rows(&mut sources, &note.id, &note.sources);
            push_rows(&mut links, &note.id, &note.links);
            i += 1;
        }
        proof {
            assert(vv.subrange(0, i as int) =~= vv);
        }
        Ok(SavedRows { vaults, collections, notes, memberships, tags, sources, links })
    }

    /// The ids of the collections a note belongs to, all of them known.
    fn membership_ids(&self, note: &NoteMeta) -> (members: Vec<String>)
        requires
            self.wf(),
            first_unknown(self.collections@.dom(), string_views(note.collections@)) is None,
        ensures
            string_views(members@) == member_ids(string_views(note.collections@), self.collections@),
    {
        let ghost known = self.collections@.dom();
        let mut members: Vec<String> = Vec::new();
        let mut k: usize = 0;
        while k < note.collections.len()
            invariant
                self.wf(),
                k <= note.collections@.len(),
                known == self.collections@.dom(),
                first_unknown(known, string_views(note.collections@)) is None,
                string_views(members@) == member_ids(
                    string_views(note.collections@).subrange(0, k as int),
                    self.collections@,
                ),
            decreases note.collections@.len() - k,
        {
            proof {
                lemma_first_unknown_none(known, string_views(note.collections@), k as int);
            }
            let id = match self.collections.get(note.collections[k].as_str()) {
                Some(c) => c.id.clone(),
                None => String::new(),
            };
            let ghost before = members@;
            members.push(id);
            proof {
                let cv = string_views(note.collections@);
                assert(cv.subrange(0, k + 1) =~= cv.subrange(0, k as int).push(cv[k as int]));
                assert(string_views(members@) =~= string_views(before).push(
                    self.collections@[cv[k as int]].id@,
                ));
                assert(member_ids(cv.subrange(0, k + 1), self.collections@) =~= member_ids(
                    cv.subrange(0, k as int),
                    self.collections@,
                ).push(self.collections@[cv[k as int]].id@));
            }
            k += 1;
        }
        proof {
            assert(string_views(note.collections@).subrange(0, note.collections@.len() as int)
                =~= string_views(note.collections@));
        }
        members
    }
}

/// The rows of the database tables an index is written to. A note row holds
/// the id of its home collection in `home_collection` and no tags,
/// memberships, links or sources: those are the `(note id, value)` rows of
/// their own tables, memberships by collection id.
pub struct SavedRows {
    pub vaults: Vec<VaultMeta>,
    pub collections: Vec<CollectionMeta>,
    pub notes: Vec<NoteMeta>,
    pub memberships: Vec<(String, String)>,
    pub tags: Vec<(String, String)>,
    pub sources: Vec<(String, String)>,
    pub links: Vec<(String, String)>,
}

/// The ids of the collections named `cs`.
pub open spec fn member_ids(cs: Seq<Seq<char>>, collections: Map<Seq<char>, CollectionMeta>) -> Seq<Seq<char>> {
    cs.map_values(|c: Seq<char>| collections[c].id@)
}

/// `(id, v)` for each value `v`, in order.
pub open spec fn rows_of(id: Seq<char>, values: Seq<Seq<char>>) -> Seq<(Seq<char>, Seq<char>)> {
    values.map_values(|v: Seq<char>| (id, v))
}

/// The rows of one note in a value table: its tags (0), sources (1), links
/// (2) or the ids of its collections (3).
pub open spec fn note_value_rows(
    n: NoteView,
    which: int,
    collections: Map<Seq<char>, CollectionMeta>,
) -> Seq<(Seq<char>, Seq<char>)> {
    rows_of(
        n.id,
        if which == 0 {
            n.tags
        } else if which == 1 {
            n.sources
        } else if which == 2 {
            n.links
        } else {
            member_ids(n.collections, collections)
        },
    )
}

/// The rows of a value table for notes taken in order.
pub open spec fn saved_value_rows(
    notes: Seq<NoteView>,
    which: int,
    collections: Map<Seq<char>, CollectionMeta>,
) -> Seq<(Seq<char>, Seq<char>)>
    decreases notes.len(),
{
    if notes.len() == 0 {
        Seq::empty()
    } else {
        saved_value_rows(notes.drop_last(), which, collections) + note_value_rows(
            notes.last(),
            which,
            collections,
        )
    }
}

/// The row of a note: its fields, with the id of its home collection and no
/// values.
pub open spec fn note_row(n: NoteView, collections: Map<Seq<char>, CollectionMeta>) -> NoteView {
    row_with_home(n, collections[n.home_collection].id@)
}

/// A note's fields with `home` as its home collection and no values.
pub open spec fn row_with_home(n: NoteView, home: Seq<char>) -> NoteView {
    NoteView {
        home_collection: home,
        tags: Seq::empty(),
        collections: Seq::empty(),
        links: Seq::empty(),
        sources: Seq::empty(),
        ..n
    }
}

/// The rows of notes taken in order.
pub open spec fn note_rows(notes: Seq<NoteView>, collections: Map<Seq<char>, CollectionMeta>) -> Seq<NoteView> {
    notes.map_values(|n: NoteView| note_row(n, collections))
}

impl SavedRows {
    /// These are the rows of `index`.
    pub open spec fn saved_from(&self, index: &Index) -> bool {
        let notes = value_views(index.notes.values());
        let cm = index.collections@;
        &&& self.vaults@ == index.vaults.values()
        &&& self.collections@ == index.collections.values()
        &&& value_views(self.notes@) == note_rows(notes, cm)
        &&& pair_views(self.memberships@) == saved_value_rows(notes, 3, cm)
        &&& pair_views(self.tags@) == saved_value_rows(notes, 0, cm)
        &&& pair_views(self.sources@) == saved_value_rows(notes, 1, cm)
        &&& pair_views(self.links@) == saved_value_rows(notes, 2, cm)
    }
}

proof fn lemma_vaults_by_name_prefix(m: StrMap<VaultMeta>, i: int)
    requires
        m.wf(),
        forall|k: Seq<char>| #[trigger] m@.dom().contains(k) ==> m@[k].name@ == k,
        0 <= i <= m.keys().len(),
    ensures
        vaults_by_name(m.values().subrange(0, i)) =~= Map::new(
            |k: Seq<char>| m.keys().subrange(0, i).contains(k),
            |k: Seq<char>| m@[k],
        ),
    decreases i,
{
    if i > 0 {
        lemma_vaults_by_name_prefix(m, i - 1);
        m.lemma_at(i - 1);
        let vals = m.values().subrange(0, i);
        assert(vals.drop_last() =~= m.values().subrange(0, i - 1));
        assert(vals.last() == m.values()[i - 1]);
        let ks = m.keys().subrange(0, i);
        assert(ks =~= m.keys().subrange(0, i - 1).push(m.keys()[i - 1]));
        assert forall|k: Seq<char>| ks.contains(k) <==> (m.keys().subrange(0, i - 1).contains(k) || k
            == m.keys()[i - 1]) by {
            if ks.contains(k) {
                let j = choose|j: int| 0 <= j < ks.len() && #[trigger] ks[j] == k;
                if j < i - 1 {
                    assert(m.keys().subrange(0, i - 1)[j] == k);
                }
            }
            if m.keys().subrange(0, i - 1).contains(k) {
                let j = choose|j: int| 0 <= j < i - 1 && #[trigger] m.keys().subrange(0, i - 1)[j] == k;
                assert(ks[j] == k);
            }
            if k == m.keys()[i - 1] {
                assert(ks[i - 1] == k);
            }
        }
    } else {
        assert(m.keys().subrange(0, 0) =~= Seq::<Seq<char>>::empty());
    }
}

/// Vaults saved in key order and read back by name give the index's vaults
/// again, when every vault is filed under its own name.
pub proof fn law_saved_vaults_read_back(index: Index, rows: SavedRows)
    requires
        index.wf(),
        forall|k: Seq<char>| #[trigger] index.vaults@.dom().contains(k) ==> index.vaults@[k].name@ == k,
        rows.saved_from(&index),
    ensures
        vaults_by_name(rows.vaults@) == index.vaults@,
{
    let m = index.vaults;
    lemma_vaults_by_name_prefix(m, m.keys().len() as int);
    assert(m.values().subrange(0, m.keys().len() as int) =~= m.values());
    assert(m.keys().subrange(0, m.keys().len() as int) =~= m.keys());
    assert(vaults_by_name(rows.vaults@) =~= index.vaults@);
}

proof fn lemma_notes_by_id_prefix(m: StrMap<NoteMeta>, cm: Map<Seq<char>, CollectionMeta>, i: int)
    requires
        m.wf(),
        forall|k: Seq<char>| #[trigger] m@.dom().contains(k) ==> m@[k].id@ == k,
        0 <= i <= m.keys().len(),
    ensures
        notes_by_id(note_rows(value_views(m.values()), cm).subrange(0, i)) =~= Map::new(
            |k: Seq<char>| m.keys().subrange(0, i).contains(k),
            |k: Seq<char>| note_row(m@[k]@, cm),
        ),
    decreases i,
{
    let all = note_rows(value_views(m.values()), cm);
    if i > 0 {
        lemma_notes_by_id_prefix(m, cm, i - 1);
        m.lemma_at(i - 1);
        let vals = all.subrange(0, i);
        assert(vals.drop_last() =~= all.subrange(0, i - 1));
        assert(vals.last() == note_row(m.values()[i - 1]@, cm));
        let ks = m.keys().subrange(0, i);
        assert forall|k: Seq<char>| ks.contains(k) <==> (m.keys().subrange(0, i - 1).contains(k) || k
            == m.keys()[i - 1]) by {
            if ks.contains(k) {
                let j = choose|j: int| 0 <= j < ks.len() && #[trigger] ks[j] == k;
                if j < i - 1 {
                    assert(m.keys().subrange(0, i - 1)[j] == k);
                }
            }
            if m.keys().subrange(0, i - 1).contains(k) {
                let j = choose|j: int| 0 <= j < i - 1 && #[trigger] m.keys().subrange(0, i - 1)[j] == k;
                assert(ks[j] == k);
            }
            if k == m.keys()[i - 1] {
                assert(ks[i - 1] == k);
            }
        }
    } else {
        assert(m.keys().subrange(0, 0) =~= Seq::<Seq<char>>::empty());
        assert(all.subrange(0, 0) =~= Seq::<NoteView>::empty());
    }
}

/// Note rows saved in id order and read back by id give each note of the
/// index again as its row (its fields, with the id of its home collection),
/// when every note is filed under its own id.
pub proof fn law_saved_notes_read_back(index: Index, rows: SavedRows)
    requires
        index.wf(),
        forall|k: Seq<char>| #[trigger] index.notes@.dom().contains(k) ==> index.notes@[k].id@ == k,
        rows.saved_from(&index),
    ensures
        notes_by_id(value_views(rows.notes@)).dom() == index.notes@.dom(),
        forall|k: Seq<char>| #[trigger] index.notes@.dom().contains(k) ==> notes_by_id(
            value_views(rows.notes@),
        )[k] == note_row(index.notes@[k]@, index.collections@),
{
    let m = index.notes;
    let cm = index.collections@;
    let n = m.keys().len() as int;
    lemma_notes_by_id_prefix(m, cm, n);
    assert(note_rows(value_views(m.values()), cm).subrange(0, n) =~= note_rows(value_views(m.values()), cm));
    assert(m.keys().subrange(0, n) =~= m.keys());
    assert(notes_by_id(value_views(rows.notes@)).dom() =~= index.notes@.dom());
}

/// A note row read back and joined by its home collection's id gives the
/// note's home collection again, when no two collections share an id: the
/// only collection with that id is the home collection.
pub proof fn law_saved_home_read_back(index: Index, rows: SavedRows, id: Seq<char>, name: Seq<char>)
    requires
        index.wf(),
        rows.saved_from(&index),
        forall|k: Seq<char>| #[trigger] index.notes@.dom().contains(k) ==> index.notes@[k].id@ == k,
        forall|a: Seq<char>, b: Seq<char>|
            #[trigger] index.collections@.dom().contains(a) && #[trigger] index.collections@.dom().contains(b)
                && index.collections@[a].id@ == index.collections@[b].id@ ==> a == b,
        index.notes@.dom().contains(id),
        index.collections@.dom().contains(index.notes@[id].home_collection@),
        index.collections@.dom().contains(name),
        index.collections@[name].id@ == notes_by_id(value_views(rows.notes@))[id].home_collection,
    ensures
        name == index.notes@[id].home_collection@,
{
    law_saved_notes_read_back(index, rows);
    let home = index.notes@[id].home_collection@;
    assert(notes_by_id(value_views(rows.notes@))[id] == note_row(index.notes@[id]@, index.collections@));
    assert(index.collections@[name].id@ == index.collections@[home].id@);
}

/// The index holds a vault with id `id` and name `name`.
pub open spec fn has_vault(index: &Index, id: Seq<char>, name: Seq<char>) -> bool {
    exists|k: Seq<char>|
        #[trigger] index.vaults@.dom().contains(k) && index.vaults@[k].id@ == id
            && index.vaults@[k].name@ == name
}

/// Every collection of the index is filed under `vault/collection`, with
/// the name of the vault whose id it holds; no two vaults share an id.
pub open spec fn collections_filed_by_name(index: &Index) -> bool {
    &&& forall|a: Seq<char>, b: Seq<char>|
        #[trigger] index.vaults@.dom().contains(a) && #[trigger] index.vaults@.dom().contains(b)
            && index.vaults@[a].id@ == index.vaults@[b].id@ ==> a == b
    &&& forall|k: Seq<char>|
        #[trigger] index.collections@.dom().contains(k) ==> exists|v: Seq<char>|
            #[trigger] index.vaults@.dom().contains(v) && index.vaults@[v].id@
                == index.collections@[k].vault_id@ && k == index.vaults@[v].name@ + "/"@
                + index.collections@[k].name@
}

proof fn lemma_collections_by_name_prefix(
    index: Index,
    rows: SavedRows,
    joined: Seq<(String, CollectionMeta)>,
    i: int,
)
    requires
        index.wf(),
        rows.saved_from(&index),
        collections_filed_by_name(&index),
        joined.len() == rows.collections@.len(),
        forall|j: int|
            0 <= j < joined.len() ==> (#[trigger] joined[j]).1 == rows.collections@[j] && has_vault(
                &index,
                joined[j].1.vault_id@,
                joined[j].0@,
            ),
        0 <= i <= joined.len(),
    ensures
        collections_by_name(joined.subrange(0, i)) =~= Map::new(
            |k: Seq<char>| index.collections.keys().subrange(0, i).contains(k),
            |k: Seq<char>| index.collections@[k],
        ),
    decreases i,
{
    let m = index.collections;
    if i > 0 {
        lemma_collections_by_name_prefix(index, rows, joined, i - 1);
        m.lemma_at(i - 1);
        let part = joined.subrange(0, i);
        assert(part.drop_last() =~= joined.subrange(0, i - 1));
        let row = joined[i - 1];
        assert(part.last() == row);
        let key = m.keys()[i - 1];
        assert(row.1 == m.values()[i - 1]);
        assert(row.1 == index.collections@[key]);
        assert(index.collections@.dom().contains(key));
        let v = choose|v: Seq<char>|
            #[trigger] index.vaults@.dom().contains(v) && index.vaults@[v].id@
                == index.collections@[key].vault_id@ && key == index.vaults@[v].name@ + "/"@
                + index.collections@[key].name@;
        assert(has_vault(&index, row.1.vault_id@, row.0@));
        let w = choose|w: Seq<char>|
            #[trigger] index.vaults@.dom().contains(w) && index.vaults@[w].id@ == row.1.vault_id@
                && index.vaults@[w].name@ == row.0@;
        assert(v == w);
        assert(row.0@ + "/"@ + row.1.name@ == key);
        let ks = m.keys().subrange(0, i);
        assert forall|k: Seq<char>| ks.contains(k) <==> (m.keys().subrange(0, i - 1).contains(k) || k
            == key) by {
            if ks.contains(k) {
                let j = choose|j: int| 0 <= j < ks.len() && #[trigger] ks[j] == k;
                if j < i - 1 {
                    assert(m.keys().subrange(0, i - 1)[j] == k);
                }
            }
            if m.keys().subrange(0, i - 1).contains(k) {
                let j = choose|j: int| 0 <= j < i - 1 && #[trigger] m.keys().subrange(0, i - 1)[j] == k;
                assert(ks[j] == k);
            }
            if k == key {
                assert(ks[i - 1] == k);
            }
        }
    } else {
        assert(m.keys().subrange(0, 0) =~= Seq::<Seq<char>>::empty());
        assert(joined.subrange(0, 0) =~= Seq::<(String, CollectionMeta)>::empty());
    }
}

/// Collections saved in key order, each read back with the name of its
/// vault, give the index's collections again by `vault/collection`, when
/// every collection is filed under that name.
pub proof fn law_saved_collections_read_back(
    index: Index,
    rows: SavedRows,
    joined: Seq<(String, CollectionMeta)>,
)
    requires
        index.wf(),
        rows.saved_from(&index),
        collections_filed_by_name(&index),
        joined.len() == rows.collections@.len(),
        forall|j: int|
            0 <= j < joined.len() ==> (#[trigger] joined[j]).1 == rows.collections@[j] && has_vault(
                &index,
                joined[j].1.vault_id@,
                joined[j].0@,
            ),
    ensures
        collections_by_name(joined) == index.collections@,
{
    let m = index.collections;
    let n = joined.len() as int;
    assert(n == m.keys().len());
    lemma_collections_by_name_prefix(index, rows, joined, n);
    assert(joined.subrange(0, n) =~= joined);
    assert(m.keys().subrange(0, n) =~= m.keys());
    assert(collections_by_name(joined) =~= index.collections@);
}

fn copy_text(o: &Option<String>) -> (r: Option<String>)
    ensures
        r == *o,
{
    match o {
        Some(s) => Some(s.clone()),
        None => None,
    }
}

fn copy_vault(v: &VaultMeta) -> (r: VaultMeta)
    ensures
        r == *v,
{
    VaultMeta { id: v.id.clone(), name: v.name.clone(), created: v.created.clone() }
}

fn copy_collection(c: &CollectionMeta) -> (r: CollectionMeta)
    ensures
        r == *c,
{
    CollectionMeta {
        id: c.id.clone(),
        vault_id: c.vault_id.clone(),
        name: c.name.clone(),
        created: c.created.clone(),
    }
}

/// The row of a note whose home collection has id `home`.
fn note_row_of(note: &NoteMeta, home: String) -> (r: NoteMeta)
    ensures
        r@ == row_with_home(note@, home@),
{
    let r = NoteMeta {
        id: note.id.clone(),
        home_collection: home,
        body: note.body.clone(),
        created: note.created.clone(),
        updated: note.updated.clone(),
        title: note.title.clone(),
        kind: note.kind.clone(),
        status: copy_text(&note.status),
        priority: copy_text(&note.priority),
        scheduled: copy_text(&note.scheduled),
        due: copy_text(&note.due),
        closed: copy_text(&note.closed),
        tags: Vec::new(),
        collections: Vec::new(),
        links: Vec::new(),
        sources: Vec::new(),
    };
    proof {
        assert(string_views(r.tags@) =~= Seq::<Seq<char>>::empty());
        assert(string_views(r.collections@) =~= Seq::<Seq<char>>::empty());
        assert(string_views(r.links@) =~= Seq::<Seq<char>>::empty());
        assert(string_views(r.sources@) =~= Seq::<Seq<char>>::empty());
    }
    r
}

/// Appends `(id, v)` for each value `v`.
fn push_rows(out: &mut Vec<(String, String)>, id: &String, values: &Vec<String>)
    ensures
        pair_views(final(out)@) == pair_views(old(out)@) + rows_of(id@, string_views(values@)),
{
    let ghost start = pair_views(out@);
    let mut k: usize = 0;
    proof {
        assert(rows_of(id@, string_views(values@).subrange(0, 0)) =~= Seq::<(Seq<char>, Seq<char>)>::empty());
        assert(pair_views(out@) =~= start + Seq::<(Seq<char>, Seq<char>)>::empty());
    }
    while k < values.len()
        invariant
            k <= values@.len(),
            pair_views(out@) == start + rows_of(id@, string_views(values@).subrange(0, k as int)),
        decreases values@.len() - k,
    {
        let ghost before = out@;
        out.push((id.clone(), values[k].clone()));
        proof {
            let sv = string_views(values@);
            assert(sv.subrange(0, k + 1) =~= sv.subrange(0, k as int).push(sv[k as int]));
            assert(rows_of(id@, sv.subrange(0, k + 1)) =~= rows_of(id@, sv.subrange(0, k as int)).push((id@, sv[k as int])));
            assert(pair_views(out@) =~= pair_views(before).push((id@, values@[k as int]@)));
        }
        k += 1;
    }
    proof {
        assert(string_views(values@).subrange(0, values@.len() as int) =~= string_views(values@));
    }
}

proof fn lemma_first_unknown_none(known: Set<Seq<char>>, cs: Seq<Seq<char>>, k: int)
    requires
        first_unknown(known, cs) is None,
        0 <= k < cs.len(),
    ensures
        known.contains(cs[k]),
    decreases k,
{
    if k > 0 {
        if known.contains(cs[0]) {
            lemma_first_unknown_none(known, cs.drop_first(), k - 1);
            assert(cs.drop_first()[k - 1] == cs[k]);
        }
    }
}

// ---------------------------------------------------------------------------
// Loading
// ---------------------------------------------------------------------------
/// The rows of the database an index is read from: vaults; collections with
/// the name of their vault; notes with no tags, collections, links or sources
/// yet; and the `(note id, value)` rows of tags, sources, links and
/// collection memberships (`vault/collection`).
pub struct IndexRows {
    pub vaults: Vec<VaultMeta>,
    pub collections: Vec<(String, CollectionMeta)>,
    pub notes: Vec<NoteMeta>,
    pub tags: Vec<(String, String)>,
    pub sources: Vec<(String, String)>,
    pub links: Vec<(String, String)>,
    pub memberships: Vec<(String, String)>,
}

/// The vaults by name; a later row replaces an earlier one of the same name.
pub open spec fn vaults_by_name(rows: Seq<VaultMeta>) -> Map<Seq<char>, VaultMeta>
    decreases rows.len(),
{
    if rows.len() == 0 {
        Map::empty()
    } else {
        vaults_by_name(rows.drop_last()).insert(rows.last().name@, rows.last())
    }
}

/// The collections by `vault/collection`.
pub open spec fn collections_by_name(rows: Seq<(String, CollectionMeta)>) -> Map<Seq<char>, CollectionMeta>
    decreases rows.len(),
{
    if rows.len() == 0 {
        Map::empty()
    } else {
        collections_by_name(rows.drop_last()).insert(
            rows.last().0@ + "/"@ + rows.last().1.name@,
            rows.last().1,
        )
    }
}

/// The notes by id.
pub open spec fn notes_by_id(rows: Seq<NoteView>) -> Map<Seq<char>, NoteView>
    decreases rows.len(),
{
    if rows.len() == 0 {
        Map::empty()
    } else {
        notes_by_id(rows.drop_last()).insert(rows.last().id, rows.last())
    }
}

/// A note with one more value: a tag (0), source (1), link (2) or collection (3).
pub open spec fn add_value(n: NoteView, which: int, v: Seq<char>) -> NoteView {
    if which == 0 {
        NoteView { tags: n.tags.push(v), ..n }
    } else if which == 1 {
        NoteView { sources: n.sources.push(v), ..n }
    } else if which == 2 {
        NoteView { links: n.links.push(v), ..n }
    } else {
        NoteView { collections: n.collections.push(v), ..n }
    }
}

/// The notes with the values of `(note id, value)` rows added, in order; rows
/// of unknown notes are passed over.
pub open spec fn with_values(
    m: Map<Seq<char>, NoteView>,
    rows: Seq<(Seq<char>, Seq<char>)>,
    which: int,
) -> Map<Seq<char>, NoteView>
    decreases rows.len(),
{
    if rows.len() == 0 {
        m
    } else {
        let before = with_values(m, rows.drop_last(), which);
        let (id, v) = rows.last();
        if before.dom().contains(id) {
            before.insert(id, add_value(before[id], which, v))
        } else {
            before
        }
    }
}

pub open spec fn pair_views(rows: Seq<(String, String)>) -> Seq<(Seq<char>, Seq<char>)> {
    rows.map_values(|p: (String, String)| (p.0@, p.1@))
}

/// The notes an index reads from its rows.
pub open spec fn loaded_notes(rows: IndexRows) -> Map<Seq<char>, NoteView> {
    with_values(
        with_values(
            with_values(
                with_values(
                    notes_by_id(value_views(rows.notes@)),
                    pair_views(rows.tags@),
                    0,
                ),
                pair_views(rows.sources@),
                1,
            ),
            pair_views(rows.links@),
            2,
        ),
        pair_views(rows.memberships@),
        3,
    )
}

fn add_values(notes: &mut StrMap<NoteMeta>, rows: &Vec<(String, String)>, which: u8)
    requires
        old(notes).wf(),
        which <= 3,
    ensures
        final(notes).wf(),
        note_views(final(notes)@) == with_values(note_views(old(notes)@), pair_views(rows@), which as int),
{
    let ghost start = note_views(notes@);
    let mut k: usize = 0;
    proof {
        assert(pair_views(rows@).subrange(0, 0) =~= Seq::<(Seq<char>, Seq<char>)>::empty());
    }
    while k < rows.len()
        invariant
            notes.wf(),
            k <= rows@.len(),
            which <= 3,
            note_views(notes@) == with_values(start, pair_views(rows@).subrange(0, k as int), which as int),
        decreases rows@.len() - k,
    {
        let ghost before = note_views(notes@);
        let (id, value) = (&rows[k].0, &rows[k].1);
        proof {
            let pv = pair_views(rows@);
            assert(pv.subrange(0, k + 1).drop_last() =~= pv.subrange(0, k as int));
            assert(pv.subrange(0, k + 1).last() == (id@, value@));
        }
        match notes.take(id.as_str()) {
            Some(mut note) => {
                let v = value.clone();
                if which == 0 {
                    note.tags.push(v);
                } else if which == 1 {
                    note.sources.push(v);
                } else if which == 2 {
                    note.links.push(v);
                } else {
                    note.collections.push(v);
                }
                let ghost changed = note@;
                notes.insert(id.clone(), note);
                proof {
                    assert(changed == add_value(before[id@], which as int, value@)) by {
                        if which == 0 {
                            assert(changed.tags =~= before[id@].tags.push(value@));
                        } else if which == 1 {
                            assert(changed.sources =~= before[id@].sources.push(value@));
                        } else if which == 2 {
                            assert(changed.links =~= before[id@].links.push(value@));
                        } else {
                            assert(changed.collections =~= before[id@].collections.push(value@));
                        }
                    }
                    assert(note_views(notes@) =~= before.insert(id@, add_value(before[id@], which as int, value@)));
                }
            },
            None => {},
        }
        k += 1;
    }
    proof {
        assert(pair_views(rows@).subrange(0, rows@.len() as int) =~= pair_views(rows@));
    }
}

impl Index {
    /// The index the database rows describe: the vaults by name, the collections
    /// by `vault/collection`, and the notes by id with their tags, sources, links
    /// and collections added in the order of their rows. The rows are read only
    /// from a database whose schema version `check_schema_version` accepts.
    pub fn load(rows: IndexRows) -> (index: Index)
        ensures
            index.wf(),
            index.vaults@ == vaults_by_name(rows.vaults@),
            index.collections@ == collections_by_name(rows.collections@),
            note_views(index.notes@) == loaded_notes(rows),
    {
        let ghost original = rows;
        let IndexRows { vaults, collections, notes, tags, sources, links, memberships } = rows;
        let mut index = Index::empty();
        let mut vaults = vaults;
        let ghost vault_rows = vaults@;
        let mut taken: usize = 0;
        let count = vaults.len();
        proof {
            assert(vault_rows.subrange(0, 0) =~= Seq::<VaultMeta>::empty());
            assert(vault_rows.subrange(0, vault_rows.len() as int) =~= vault_rows);
        }
        while vaults.len() > 0
            invariant
                index.wf(),
                taken + vaults@.len() == vault_rows.len(),
                vault_rows.len() == count,
                vaults@ == vault_rows.subrange(taken as int, vault_rows.len() as int),
                index.vaults@ == vaults_by_name(vault_rows.subrange(0, taken as int)),
                index.collections@ == Map::<Seq<char>, CollectionMeta>::empty(),
                index.notes@ == Map::<Seq<char>, NoteMeta>::empty(),
            decreases vaults@.len(),
        {
            let ghost before = vaults@;
            let vault = vaults.remove(0);
            proof {
                assert(vault == vault_rows[taken as int]);
                assert(vaults@ =~= vault_rows.subrange(taken + 1, vault_rows.len() as int));
                assert(vault_rows.subrange(0, taken + 1).drop_last() =~= vault_rows.subrange(0, taken as int));
            }
            index.vaults.insert(vault.name.clone(), vault);
            taken += 1;
        }
        let mut collections = collections;
        let ghost collection_rows = collections@;
        let mut taken: usize = 0;
        let count = collections.len();
        proof {
            assert(collection_rows.subrange(0, 0) =~= Seq::<(String, CollectionMeta)>::empty());
            assert(collection_rows.subrange(0, collection_rows.len() as int) =~= collection_rows);
        }
        while collections.len() > 0
            invariant
                index.wf(),
                taken + collections@.len() == collection_rows.len(),
                collection_rows.len() == count,
                collections@ == collection_rows.subrange(taken as int, collection_rows.len() as int),
                index.vaults@ == vaults_by_name(vault_rows),
                index.collections@ == collections_by_name(collection_rows.subrange(0, taken as int)),
                index.notes@ == Map::<Seq<char>, NoteMeta>::empty(),
            decreases collections@.len(),
        {
            let (vault_name, collection) = collections.remove(0);
            proof {
                assert((vault_name, collection) == collection_rows[taken as int]);
                assert(collections@ =~= collection_rows.subrange(taken + 1, collection_rows.len() as int));
                assert(collection_rows.subrange(0, taken + 1).drop_last() =~= collection_rows.subrange(0, taken as int));
            }
            let mut full = vault_name;
            append_str(&mut full, "/");
            append_str(&mut full, collection.name.as_str());
            index.collections.insert(full, collection);
            taken += 1;
        }
        let mut notes = notes;
        let ghost note_rows = notes@;
        let mut taken: usize = 0;
        let count = notes.len();
        proof {
            assert(value_views(note_rows).subrange(0, 0) =~= Seq::<NoteView>::empty());
            assert(note_views(index.notes@) =~= Map::<Seq<char>, NoteView>::empty());
            assert(note_rows.subrange(0, note_rows.len() as int) =~= note_rows);
        }
        while notes.len() > 0
            invariant
                index.wf(),
                taken + notes@.len() == note_rows.len(),
                note_rows.len() == count,
                notes@ == note_rows.subrange(taken as int, note_rows.len() as int),
                index.vaults@ == vaults_by_name(vault_rows),
                index.collections@ == collections_by_name(collection_rows),
                note_views(index.notes@) == notes_by_id(value_views(note_rows).subrange(0, taken as int)),
            decreases notes@.len(),
        {
            let note = notes.remove(0);
            proof {
                assert(note == note_rows[taken as int]);
                assert(notes@ =~= note_rows.subrange(taken + 1, note_rows.len() as int));
                let vv = value_views(note_rows);
                assert(vv.subrange(0, taken + 1).drop_last() =~= vv.subrange(0, taken as int));
                assert(vv.subrange(0, taken + 1).last() == note@);
            }
            let ghost before = note_views(index.notes@);
            let ghost nv = note@;
            index.notes.insert(note.id.clone(), note);
            proof {
                assert(note_views(index.notes@) =~= before.insert(nv.id, nv));
            }
            taken += 1;
        }
        proof {
            assert(value_views(note_rows).subrange(0, note_rows.len() as int) =~= value_views(note_rows));
        }
        add_values(&mut index.notes, &tags, 0);
        add_values(&mut index.notes, &sources, 1);
        add_values(&mut index.notes, &links, 2);
        add_values(&mut index.notes, &memberships, 3);
        proof {
            reveal_strlit("/");
        }
        index
    }
}


// ---------------------------------------------------------------------------
// Schema version
// ---------------------------------------------------------------------------
/// The schema version of the database this index is kept in.
pub const SCHEMA_VERSION: i64 = 1;

/// The message a database in another schema version is refused with.
pub open spec fn unsupported_schema_message(version: int) -> Seq<char> {
    "unsupported database schema version "@ + padded_signed(version, 0)
}

/// Decides on the schema version read from a database: none stored yet means
/// a fresh database, which is stamped with `SCHEMA_VERSION`, so `Ok(true)`
/// asks the caller to write it; the current version is `Ok(false)`; any other
/// version is refused.
pub fn check_schema_version(stored: Option<i64>) -> (r: Result<bool>)
    ensures
        stored is None ==> r == Ok::<bool, NtError>(true),
        stored == Some(SCHEMA_VERSION) ==> r == Ok::<bool, NtError>(false),
        match stored {
            Some(v) => v != SCHEMA_VERSION ==> (r matches Err(e) && e is Message
                && e->Message_0@ == unsupported_schema_message(v as int)),
            None => true,
        },
{
    match stored {
        None => Ok(true),
        Some(v) => {
            if v == SCHEMA_VERSION {
                Ok(false)
            } else {
                let mut message = owned("unsupported database schema version ");
                push_padded_signed(&mut message, v, 0);
                Err(NtError::Message(message))
            }
        },
    }
}

} // verus!
