//! Notes as the repository stores them: a normalized body with its title, a
//! home collection, and sets of tags and links.
use vstd::prelude::*;

use crate::error::{NtError, Result};
use crate::lexical::{chars_lt, lemma_seq_lt_total, lemma_seq_lt_transitive, seq_lt, strictly_sorted};
use crate::note::body::{first_line, heading_title, normalize_body, normalize_newlines};
use crate::note::collection::{CollectionPath, Tag};
use crate::note::date::Timestamp;
use crate::note::id::NoteId;
use crate::text::{chars_eq, chars_of, owned, str_eq};

verus! {

/// The texts of a list of tags.
pub open spec fn tag_views(tags: Seq<Tag>) -> Seq<Seq<char>> {
    tags.map_values(|t: Tag| t.view())
}

/// The numbers of a list of note ids.
pub open spec fn id_views(ids: Seq<NoteId>) -> Seq<u128> {
    ids.map_values(|id: NoteId| id@)
}

/// Strictly increasing numbers.
pub open spec fn increasing(s: Seq<u128>) -> bool {
    forall|i: int, j: int| 0 <= i < j < s.len() ==> s[i] < s[j]
}

/// The body a text normalizes to, and its title, when it has one.
pub open spec fn normalized(body: Seq<char>) -> Option<(Seq<char>, Seq<char>)> {
    if body.len() > 0 && heading_title(first_line(normalize_newlines(body))) is Some {
        Some((normalize_newlines(body), heading_title(first_line(normalize_newlines(body)))->0))
    } else {
        None
    }
}

/// The normalized text of a body.
pub open spec fn normalized_body(body: Seq<char>) -> Seq<char> {
    normalize_newlines(body)
}

/// The title of a body.
pub open spec fn normalized_title(body: Seq<char>) -> Seq<char> {
    match heading_title(first_line(normalize_newlines(body))) {
        Some(t) => t,
        None => Seq::empty(),
    }
}

/// The error a body without a title is refused with.
pub open spec fn body_error(body: Seq<char>) -> NtError {
    if body.len() == 0 {
        NtError::EmptyBody
    } else {
        NtError::InvalidTitle
    }
}

pub(crate) fn insert_tag(list: &mut Vec<Tag>, item: Tag)
    requires
        strictly_sorted(tag_views(old(list)@)),
    ensures
        strictly_sorted(tag_views(final(list)@)),
        tag_views(final(list)@).to_set() == tag_views(old(list)@).to_set().insert(item.view()),
{
    let ghost old_views = tag_views(list@);
    let item_chars = chars_of(item.as_str());
    let mut i: usize = 0;
    while i < list.len()
        invariant
            strictly_sorted(tag_views(list@)),
            tag_views(list@) == old_views,
            item_chars@ == item.view(),
            i <= list@.len(),
            forall|k: int| 0 <= k < i ==> seq_lt(#[trigger] tag_views(list@)[k], item.view()),
        ensures
            i <= list@.len(),
            tag_views(list@) == old_views,
            forall|k: int| 0 <= k < i ==> seq_lt(#[trigger] tag_views(list@)[k], item.view()),
            i < list@.len() ==> seq_lt(item.view(), tag_views(list@)[i as int]),
        decreases list@.len() - i,
    {
        let current = chars_of(list[i].as_str());
        if chars_eq(current.as_slice(), item_chars.as_slice()) {
            proof {
                assert(tag_views(list@)[i as int] == item.view());
                assert(tag_views(list@).to_set().insert(item.view()) =~= tag_views(list@).to_set());
            }
            return;
        }
        if chars_lt(item_chars.as_slice(), current.as_slice()) {
            break;
        }
        proof {
            lemma_seq_lt_total(current@, item_chars@);
        }
        i += 1;
    }
    let ghost v = item.view();
    list.insert(i, item);
    proof {
        let nv = tag_views(list@);
        assert(nv =~= old_views.subrange(0, i as int).push(v) + old_views.subrange(
            i as int,
            old_views.len() as int,
        ));
        assert forall|a: int, b: int| 0 <= a < b < nv.len() implies seq_lt(
            #[trigger] nv[a],
            #[trigger] nv[b],
        ) by {
            if a < i && b == i {
            } else if a < i && b > i {
                assert(nv[b] == old_views[b - 1]);
            } else if a == i && b > i {
                assert(nv[b] == old_views[b - 1]);
                if b - 1 > i {
                    assert(seq_lt(old_views[i as int], old_views[b - 1]));
                    lemma_seq_lt_transitive(v, old_views[i as int], old_views[b - 1]);
                }
            } else if a > i {
                assert(nv[a] == old_views[a - 1] && nv[b] == old_views[b - 1]);
            }
        }
        assert forall|x: Seq<char>| nv.to_set().contains(x) <==> old_views.to_set().insert(
            v,
        ).contains(x) by {
            if nv.to_set().contains(x) {
                let k = choose|k: int| 0 <= k < nv.len() && nv[k] == x;
                if k < i {
                    assert(old_views[k] == x);
                } else if k > i {
                    assert(old_views[k - 1] == x);
                }
            }
            if old_views.to_set().contains(x) {
                let k = choose|k: int| 0 <= k < old_views.len() && old_views[k] == x;
                if k < i {
                    assert(nv[k] == x);
                } else {
                    assert(nv[k + 1] == x);
                }
            }
            if x == v {
                assert(nv[i as int] == x);
            }
        }
        assert(nv.to_set() =~= old_views.to_set().insert(v));
    }
}

pub(crate) fn insert_link(list: &mut Vec<NoteId>, item: NoteId)
    requires
        increasing(id_views(old(list)@)),
    ensures
        increasing(id_views(final(list)@)),
        id_views(final(list)@).to_set() == id_views(old(list)@).to_set().insert(item@),
{
    let ghost old_views = id_views(list@);
    let value = item.as_u128();
    let mut i: usize = 0;
    while i < list.len() && list[i].as_u128() < value
        invariant
            increasing(id_views(list@)),
            id_views(list@) == old_views,
            value == item@,
            i <= list@.len(),
            forall|k: int| 0 <= k < i ==> #[trigger] id_views(list@)[k] < value,
        decreases list@.len() - i,
    {
        i += 1;
    }
    if i < list.len() && list[i].as_u128() == value {
        proof {
            assert(id_views(list@)[i as int] == item@);
            assert(id_views(list@).to_set().insert(item@) =~= id_views(list@).to_set());
        }
        return;
    }
    list.insert(i, item);
    proof {
        let nv = id_views(list@);
        assert(nv =~= old_views.subrange(0, i as int).push(value) + old_views.subrange(
            i as int,
            old_views.len() as int,
        ));
        assert forall|x: u128| nv.to_set().contains(x) <==> old_views.to_set().insert(value).contains(
            x,
        ) by {
            if nv.to_set().contains(x) {
                let k = choose|k: int| 0 <= k < nv.len() && nv[k] == x;
                if k < i {
                    assert(old_views[k] == x);
                } else if k > i {
                    assert(old_views[k - 1] == x);
                }
            }
            if old_views.to_set().contains(x) {
                let k = choose|k: int| 0 <= k < old_views.len() && old_views[k] == x;
                if k < i {
                    assert(nv[k] == x);
                } else {
                    assert(nv[k + 1] == x);
                }
            }
            if x == value {
                assert(nv[i as int] == x);
            }
        }
        assert(nv.to_set() =~= old_views.to_set().insert(value));
    }
}

fn contains_link(list: &Vec<NoteId>, id: &NoteId) -> (r: bool)
    ensures
        r == id_views(list@).contains(id@),
{
    let mut i: usize = 0;
    while i < list.len()
        invariant
            i <= list@.len(),
            forall|k: int| 0 <= k < i ==> id_views(list@)[k] != id@,
        decreases list@.len() - i,
    {
        if list[i].as_u128() == id.as_u128() {
            assert(id_views(list@)[i as int] == id@);
            return true;
        }
        i += 1;
    }
    false
}

/// A note about to be created: its collection, normalized body and title, and
/// its tags and links, each once and in order.
#[derive(Clone, Debug, PartialEq, Eq)]
pub struct NewNote {
    collection: CollectionPath,
    body: String,
    title: String,
    tags: Vec<Tag>,
    links: Vec<NoteId>,
}

impl NewNote {
    pub closed spec fn spec_collection(&self) -> CollectionPath {
        self.collection
    }

    pub closed spec fn spec_body(&self) -> Seq<char> {
        self.body@
    }

    pub closed spec fn spec_title(&self) -> Seq<char> {
        self.title@
    }

    /// The tags, strictly increasing.
    pub closed spec fn spec_tags(&self) -> Seq<Seq<char>> {
        tag_views(self.tags@)
    }

    /// The links, strictly increasing.
    pub closed spec fn spec_links(&self) -> Seq<u128> {
        id_views(self.links@)
    }

    pub closed spec fn wf(&self) -> bool {
        strictly_sorted(tag_views(self.tags@)) && increasing(id_views(self.links@))
    }

    /// A note of a collection with no tags or links; its body is normalized and
    /// must begin with a `# ` title line.
    pub fn new(collection: CollectionPath, body: &str) -> (r: Result<Self>)
        ensures
            r is Ok <==> normalized(body@) is Some,
            r matches Ok(n) ==> n.wf() && n.spec_collection() == collection && normalized(body@)
                == Some((n.spec_body(), n.spec_title())) && n.spec_tags().len() == 0
                && n.spec_links().len() == 0,
            r matches Err(e) ==> e == body_error(body@),
    {
        let (body, title) = normalize_body(body)?;
        let r = NewNote { collection, body, title, tags: Vec::new(), links: Vec::new() };
        proof {
            assert(tag_views(r.tags@) =~= Seq::<Seq<char>>::empty());
            assert(id_views(r.links@) =~= Seq::<u128>::empty());
        }
        Ok(r)
    }

    /// The note with the given tags added.
    pub fn with_tags(self, tags: Vec<Tag>) -> (r: Self)
        requires
            self.wf(),
        ensures
            r.wf(),
            r.spec_collection() == self.spec_collection(),
            r.spec_body() == self.spec_body(),
            r.spec_title() == self.spec_title(),
            r.spec_links() == self.spec_links(),
            r.spec_tags().to_set() == self.spec_tags().to_set() + tag_views(tags@).to_set(),
    {
        let mut note = self;
        let mut tags = tags;
        let count = tags.len();
        let ghost given = tag_views(tags@);
        let ghost start = tag_views(note.tags@).to_set();
        let mut taken: usize = 0;
        proof {
            assert(given.subrange(0, given.len() as int) =~= given);
            assert(given.len() == count);
            assert(given.subrange(0, 0).to_set() =~= Set::<Seq<char>>::empty());
            assert(start + Set::<Seq<char>>::empty() =~= start);
        }
        while tags.len() > 0
            invariant
                taken + tags@.len() == given.len(),
                given.len() <= usize::MAX,
                tag_views(tags@) == given.subrange(taken as int, given.len() as int),
                strictly_sorted(tag_views(note.tags@)),
                tag_views(note.tags@).to_set() == start + given.subrange(0, taken as int).to_set(),
                increasing(id_views(note.links@)),
                note.collection == self.collection,
                note.body == self.body,
                note.title == self.title,
                note.links == self.links,
            decreases tags@.len(),
        {
            let ghost before = tags@;
            let tag = tags.remove(0);
            proof {
                assert(tag == before[0]);
                assert(tag_views(before)[0] == given[taken as int]);
                assert(tags@ =~= before.subrange(1, before.len() as int));
                assert forall|k: int| 0 <= k < tags@.len() implies tag_views(tags@)[k] == given[taken
                    + 1 + k] by {
                    assert(tag_views(tags@)[k] == tags@[k].view());
                    assert(tags@[k] == before[k + 1]);
                    assert(tag_views(before)[k + 1] == given.subrange(taken as int, given.len() as int)[k + 1]);
                }
                assert(tag_views(tags@) =~= given.subrange(taken + 1, given.len() as int));
                assert(given.subrange(0, taken + 1) =~= given.subrange(0, taken as int).push(
                    tag.view(),
                ));
                given.subrange(0, taken as int).lemma_push_to_set_commute(tag.view());
            }
            insert_tag(&mut note.tags, tag);
            proof {
                assert(tag_views(note.tags@).to_set() =~= start + given.subrange(
                    0,
                    taken + 1,
                ).to_set());
            }
            taken += 1;
        }
        proof {
            assert(given.subrange(0, given.len() as int) =~= given);
        }
        note
    }

    /// The note with the given links added.
    pub fn with_links(self, links: Vec<NoteId>) -> (r: Self)
        requires
            self.wf(),
        ensures
            r.wf(),
            r.spec_collection() == self.spec_collection(),
            r.spec_body() == self.spec_body(),
            r.spec_title() == self.spec_title(),
            r.spec_tags() == self.spec_tags(),
            r.spec_links().to_set() == self.spec_links().to_set() + id_views(links@).to_set(),
    {
        let mut note = self;
        let mut i: usize = 0;
        let ghost given = id_views(links@);
        let ghost start = id_views(note.links@).to_set();
        proof {
            assert(given.subrange(0, 0).to_set() =~= Set::<u128>::empty());
            assert(start + Set::<u128>::empty() =~= start);
        }
        while i < links.len()
            invariant
                i <= links@.len(),
                given == id_views(links@),
                increasing(id_views(note.links@)),
                id_views(note.links@).to_set() == start + given.subrange(0, i as int).to_set(),
                strictly_sorted(tag_views(note.tags@)),
                note.collection == self.collection,
                note.body == self.body,
                note.title == self.title,
                note.tags == self.tags,
            decreases links@.len() - i,
        {
            let link = links[i];
            insert_link(&mut note.links, link);
            proof {
                assert(given.subrange(0, i + 1) =~= given.subrange(0, i as int).push(link@));
                given.subrange(0, i as int).lemma_push_to_set_commute(link@);
                assert(id_views(note.links@).to_set() =~= start + given.subrange(0, i + 1).to_set());
            }
            i += 1;
        }
        proof {
            assert(given.subrange(0, links@.len() as int) =~= given);
        }
        note
    }

    /// Refuses a note that would link to its own id.
    pub fn validate_links_for(&self, id: &NoteId) -> (r: Result<()>)
        ensures
            r is Ok <==> !self.spec_links().contains(id@),
            r matches Err(e) ==> e == NtError::SelfLink,
    {
        if contains_link(&self.links, id) {
            return Err(NtError::SelfLink);
        }
        Ok(())
    }

    pub fn collection(&self) -> (r: &CollectionPath)
        ensures
            *r == self.spec_collection(),
    {
        &self.collection
    }

    pub fn body(&self) -> (r: &str)
        ensures
            r@ == self.spec_body(),
    {
        self.body.as_str()
    }

    pub fn title(&self) -> (r: &str)
        ensures
            r@ == self.spec_title(),
    {
        self.title.as_str()
    }

    /// The tags, each once, in order.
    pub fn tags(&self) -> (r: &[Tag])
        ensures
            tag_views(r@) == self.spec_tags(),
    {
        self.tags.as_slice()
    }

    /// The links, each once, in order.
    pub fn links(&self) -> (r: &[NoteId])
        ensures
            id_views(r@) == self.spec_links(),
    {
        self.links.as_slice()
    }
}

/// A stored note.
#[derive(Clone, Debug, PartialEq, Eq)]
pub struct Note {
    id: NoteId,
    collection: CollectionPath,
    body: String,
    title: String,
    created: Timestamp,
    updated: Timestamp,
    body_version: u64,
    tags: Vec<Tag>,
    links: Vec<NoteId>,
}

impl Note {
    pub closed spec fn spec_id(&self) -> NoteId {
        self.id
    }

    pub closed spec fn spec_body(&self) -> Seq<char> {
        self.body@
    }

    pub closed spec fn spec_title(&self) -> Seq<char> {
        self.title@
    }

    pub closed spec fn spec_updated(&self) -> Timestamp {
        self.updated
    }

    pub closed spec fn spec_created(&self) -> Timestamp {
        self.created
    }

    pub closed spec fn spec_body_version(&self) -> u64 {
        self.body_version
    }

    pub closed spec fn spec_collection(&self) -> CollectionPath {
        self.collection
    }

    pub closed spec fn spec_tags(&self) -> Seq<Tag> {
        self.tags@
    }

    pub closed spec fn spec_links(&self) -> Seq<NoteId> {
        self.links@
    }

    /// A stored note is kept only if its body is normalized with the title it
    /// derives, its body version is positive and it does not link to itself.
    pub fn rehydrate(
        id: NoteId,
        collection: CollectionPath,
        body: String,
        title: String,
        created: Timestamp,
        updated: Timestamp,
        body_version: u64,
        tags: Vec<Tag>,
        links: Vec<NoteId>,
    ) -> (r: Result<Self>)
        ensures
            normalized(body@) is None ==> r == Err::<Note, NtError>(body_error(body@)),
            normalized(body@) matches Some(n) && (n.0 != body@ || n.1 != title@) ==> r is Err
                && r->Err_0 is Message,
            normalized(body@) == Some((body@, title@)) && body_version == 0 ==> r
                == Err::<Note, NtError>(NtError::InvalidBodyVersion(0)),
            normalized(body@) == Some((body@, title@)) && body_version > 0 && id_views(
                links@,
            ).contains(id@) ==> r == Err::<Note, NtError>(NtError::SelfLink),
            r is Ok <==> normalized(body@) == Some((body@, title@)) && body_version > 0
                && !id_views(links@).contains(id@),
            r matches Ok(n) ==> n.spec_id() == id && n.spec_collection() == collection
                && n.spec_body() == body@ && n.spec_title() == title@ && n.spec_created()
                == created && n.spec_updated() == updated && n.spec_body_version() == body_version
                && n.spec_tags() == tags@ && n.spec_links() == links@,
    {
        let (normalized_body, derived_title) = normalize_body(body.as_str())?;
        if !str_eq(normalized_body.as_str(), body.as_str()) || !str_eq(
            derived_title.as_str(),
            title.as_str(),
        ) {
            return Err(NtError::Message(owned("invalid stored note body or title")));
        }
        if body_version == 0 {
            return Err(NtError::InvalidBodyVersion(body_version));
        }
        if contains_link(&links, &id) {
            return Err(NtError::SelfLink);
        }
        Ok(Note { id, collection, body, title, created, updated, body_version, tags, links })
    }

    /// Replaces the body when it normalizes to a different text: the title is
    /// derived anew, the body version goes up by one and `updated` is set.
    /// Returns whether anything changed.
    pub fn replace_body(&mut self, body: &str, updated: Timestamp) -> (r: Result<bool>)
        ensures
            normalized(body@) is None ==> r == Err::<bool, NtError>(body_error(body@))
                && *final(self) == *old(self),
            normalized(body@) is Some && normalized_body(body@) == old(self).spec_body() ==> r
                == Ok::<bool, NtError>(false) && *final(self) == *old(self),
            normalized(body@) is Some && normalized_body(body@) != old(self).spec_body()
                && old(self).spec_body_version() == u64::MAX ==> r == Err::<bool, NtError>(
                NtError::InvalidBodyVersion(u64::MAX),
            ) && *final(self) == *old(self),
            normalized(body@) is Some && normalized_body(body@) != old(self).spec_body()
                && old(self).spec_body_version() < u64::MAX ==> r == Ok::<bool, NtError>(true)
                && final(self).spec_body() == normalized_body(body@)
                && final(self).spec_title() == normalized_title(body@)
                && final(self).spec_updated() == updated
                && final(self).spec_body_version() == old(self).spec_body_version() + 1
                && final(self).spec_id() == old(self).spec_id()
                && final(self).spec_collection() == old(self).spec_collection()
                && final(self).spec_created() == old(self).spec_created()
                && final(self).spec_tags() == old(self).spec_tags()
                && final(self).spec_links() == old(self).spec_links(),
    {
        let (body, title) = normalize_body(body)?;
        if str_eq(body.as_str(), self.body.as_str()) {
            return Ok(false);
        }
        if self.body_version == u64::MAX {
            return Err(NtError::InvalidBodyVersion(self.body_version));
        }
        self.body_version = self.body_version + 1;
        self.body = body;
        self.title = title;
        self.updated = updated;
        Ok(true)
    }

    pub fn id(&self) -> (r: &NoteId)
        ensures
            *r == self.spec_id(),
    {
        &self.id
    }

    pub fn body(&self) -> (r: &str)
        ensures
            r@ == self.spec_body(),
    {
        self.body.as_str()
    }

    pub fn title(&self) -> (r: &str)
        ensures
            r@ == self.spec_title(),
    {
        self.title.as_str()
    }

    pub fn updated(&self) -> (r: &Timestamp)
        ensures
            *r == self.spec_updated(),
    {
        &self.updated
    }

    pub fn body_version(&self) -> (r: u64)
        ensures
            r == self.spec_body_version(),
    {
        self.body_version
    }

    pub fn collection(&self) -> (r: &CollectionPath)
        ensures
            *r == self.spec_collection(),
    {
        &self.collection
    }

    pub fn created(&self) -> (r: &Timestamp)
        ensures
            *r == self.spec_created(),
    {
        &self.created
    }

    pub fn tags(&self) -> (r: &[Tag])
        ensures
            r@ == self.spec_tags(),
    {
        self.tags.as_slice()
    }

    pub fn links(&self) -> (r: &[NoteId])
        ensures
            r@ == self.spec_links(),
    {
        self.links.as_slice()
    }
}

} // verus!
