//! Checks the note store makes before it writes.
use vstd::prelude::*;

use crate::error::{NtError, Result};
use crate::note::change::{Change, ChangeOperation};
use crate::note::collection::{CollectionPath, Tag};
use crate::note::domain::{id_views, increasing, insert_link, tag_views, NewNote};
use crate::note::id::{uuid_text, NoteId};
use crate::text::str_eq;

verus! {

/// Whether some id occurs twice.
pub open spec fn has_duplicate(ids: Seq<NoteId>) -> bool {
    exists|i: int, j: int| 0 <= i < j < ids.len() && ids[i]@ == ids[j]@
}

/// Whether the id at `j` repeats an earlier one.
pub open spec fn repeats_earlier(ids: Seq<NoteId>, j: int) -> bool {
    exists|i: int| 0 <= i < j && ids[i]@ == #[trigger] ids[j]@
}

/// Refuses a batch of ids in which an id occurs twice, naming the first id
/// that repeats an earlier one.
pub fn ensure_unique(ids: &[NoteId]) -> (r: Result<()>)
    ensures
        r is Ok <==> !has_duplicate(ids@),
        r matches Err(e) ==> exists|j: int|
            0 <= j < ids@.len() && repeats_earlier(ids@, j) && (forall|b: int|
                0 <= b < j ==> !repeats_earlier(ids@, b)) && e == NtError::DuplicateNoteId(
                e->DuplicateNoteId_0,
            ) && e->DuplicateNoteId_0@ == uuid_text(ids@[j]@),
{
    let mut j: usize = 0;
    while j < ids.len()
        invariant
            j <= ids@.len(),
            forall|a: int, b: int| 0 <= a < b < j ==> ids@[a]@ != ids@[b]@,
        decreases ids@.len() - j,
    {
        let mut i: usize = 0;
        while i < j
            invariant
                i <= j < ids@.len(),
                forall|a: int, b: int| 0 <= a < b < j ==> ids@[a]@ != ids@[b]@,
                forall|a: int| 0 <= a < i ==> ids@[a]@ != ids@[j as int]@,
            decreases j - i,
        {
            if ids[i].as_u128() == ids[j].as_u128() {
                proof {
                    assert(repeats_earlier(ids@, j as int));
                    assert forall|b: int| 0 <= b < j implies !repeats_earlier(ids@, b) by {
                        if repeats_earlier(ids@, b) {
                            let a = choose|a: int| 0 <= a < b && ids@[a]@ == #[trigger] ids@[b]@;
                        }
                    }
                }
                return Err(NtError::DuplicateNoteId(ids[j].to_string()));
            }
            i += 1;
        }
        j += 1;
    }
    Ok(())
}

/// Whether a note whose id has the value `v` is stored.
pub open spec fn is_stored_value(stored: Seq<NoteId>, v: u128) -> bool {
    exists|k: int| 0 <= k < stored.len() && #[trigger] stored[k]@ == v
}

/// Whether a note with the id of `id` is stored.
pub open spec fn is_stored(stored: Seq<NoteId>, id: NoteId) -> bool {
    exists|k: int| 0 <= k < stored.len() && #[trigger] stored[k]@ == id@
}

fn stored_contains(stored: &[NoteId], id: &NoteId) -> (r: bool)
    ensures
        r == is_stored(stored@, *id),
{
    let mut k: usize = 0;
    while k < stored.len()
        invariant
            k <= stored@.len(),
            forall|a: int| 0 <= a < k ==> stored@[a]@ != id@,
        decreases stored@.len() - k,
    {
        if stored[k].as_u128() == id.as_u128() {
            return true;
        }
        k += 1;
    }
    false
}

/// Refuses a batch naming a note that is not stored, naming the first such
/// id of the batch.
pub fn ensure_notes_exist(ids: &[NoteId], stored: &[NoteId]) -> (r: Result<()>)
    ensures
        r is Ok <==> forall|j: int| 0 <= j < ids@.len() ==> is_stored(stored@, #[trigger] ids@[j]),
        r matches Err(e) ==> exists|j: int|
            0 <= j < ids@.len() && !is_stored(stored@, ids@[j]) && (forall|b: int|
                0 <= b < j ==> is_stored(stored@, #[trigger] ids@[b])) && e == NtError::NoteNotFound(
                e->NoteNotFound_0,
            ) && e->NoteNotFound_0@ == uuid_text(ids@[j]@),
{
    let mut j: usize = 0;
    while j < ids.len()
        invariant
            j <= ids@.len(),
            forall|b: int| 0 <= b < j ==> is_stored(stored@, #[trigger] ids@[b]),
        decreases ids@.len() - j,
    {
        if !stored_contains(stored, &ids[j]) {
            return Err(NtError::NoteNotFound(ids[j].to_string()));
        }
        j += 1;
    }
    Ok(())
}

/// The change records a revision makes: one `op` record per note, in order.
pub open spec fn records(revision: u64, ids: Seq<NoteId>, op: ChangeOperation) -> Seq<(u64, ChangeOperation, u128)> {
    ids.map_values(|id: NoteId| (revision, op, id@))
}

/// Change records as plain values.
pub open spec fn change_views(changes: Seq<Change>) -> Seq<(u64, ChangeOperation, u128)> {
    changes.map_values(|c: Change| (c.spec_revision(), c.spec_operation(), c.spec_note_id()@))
}

fn push_records(out: &mut Vec<Change>, revision: u64, ids: &[NoteId], op: ChangeOperation)
    ensures
        change_views(final(out)@) == change_views(old(out)@) + records(revision, ids@, op),
{
    let ghost start = change_views(out@);
    let mut k: usize = 0;
    proof {
        assert(records(revision, ids@.subrange(0, 0), op) =~= Seq::<(u64, ChangeOperation, u128)>::empty());
        assert(change_views(out@) =~= start + records(revision, ids@.subrange(0, 0), op));
    }
    while k < ids.len()
        invariant
            k <= ids@.len(),
            change_views(out@) == start + records(revision, ids@.subrange(0, k as int), op),
        decreases ids@.len() - k,
    {
        let ghost before = out@;
        out.push(Change::new(revision, op, ids[k]));
        proof {
            assert(ids@.subrange(0, k + 1) =~= ids@.subrange(0, k as int).push(ids@[k as int]));
            assert(records(revision, ids@.subrange(0, k + 1), op) =~= records(
                revision,
                ids@.subrange(0, k as int),
                op,
            ).push((revision, op, ids@[k as int]@)));
            assert(change_views(out@) =~= change_views(before).push((revision, op, ids@[k as int]@)));
        }
        k += 1;
    }
    proof {
        assert(ids@.subrange(0, ids@.len() as int) =~= ids@);
    }
}

/// What deleting notes does to the store: the revision it makes (none for an
/// empty batch), the other notes whose links to a deleted note go away, in
/// id order, and the change records: one `metadata` record per such note,
/// then one `remove` record per deleted note.
pub struct DeletePlan {
    pub revision: Option<u64>,
    pub touched: Vec<NoteId>,
    pub changes: Vec<Change>,
}

/// Whether `x` is a note kept by the deletion that links to a deleted one.
pub open spec fn links_into(links: Seq<(NoteId, NoteId)>, ids: Seq<NoteId>, x: u128) -> bool {
    &&& !id_views(ids).contains(x)
    &&& exists|k: int| 0 <= k < links.len() && (#[trigger] links[k]).0@ == x && id_views(ids).contains(links[k].1@)
}

/// Whether `x` is kept and links to a note of `ids` in the first `n` links.
pub open spec fn linked_upto(links: Seq<(NoteId, NoteId)>, ids: Seq<NoteId>, n: int, x: u128) -> bool {
    &&& !id_views(ids).contains(x)
    &&& exists|q: int| 0 <= q < n && (#[trigger] links[q]).0@ == x && id_views(ids).contains(links[q].1@)
}

fn id_listed(ids: &[NoteId], x: u128) -> (r: bool)
    ensures
        r == id_views(ids@).contains(x),
{
    let mut k: usize = 0;
    while k < ids.len()
        invariant
            k <= ids@.len(),
            forall|a: int| 0 <= a < k ==> id_views(ids@)[a] != x,
        decreases ids@.len() - k,
    {
        if ids[k].as_u128() == x {
            assert(id_views(ids@)[k as int] == x);
            return true;
        }
        k += 1;
    }
    false
}

/// Plans the deletion of the notes `ids`, given the stored note ids, the
/// stored links `(source, target)` and the current revision: a repeated id
/// is refused first, then an id that is not stored; nothing is written on an
/// error.
pub fn delete_plan(ids: &[NoteId], stored: &[NoteId], links: &[(NoteId, NoteId)], revision: u64) -> (r: Result<DeletePlan>)
    requires
        revision < 0x7fff_ffff_ffff_ffff,
    ensures
        has_duplicate(ids@) ==> r is Err && r->Err_0 is DuplicateNoteId,
        r matches Err(e) ==> (e is DuplicateNoteId ==> has_duplicate(ids@)),
        !has_duplicate(ids@) && ids@.len() > 0 && (exists|j: int| 0 <= j < ids@.len() && !is_stored(stored@, #[trigger] ids@[j]))
            ==> r is Err && r->Err_0 is NoteNotFound,
        r matches Err(e) ==> e is NoteNotFound ==> !has_duplicate(ids@) && exists|j: int|
            0 <= j < ids@.len() && !is_stored(stored@, ids@[j]) && (forall|b: int|
                0 <= b < j ==> is_stored(stored@, #[trigger] ids@[b])) && e->NoteNotFound_0@ == uuid_text(ids@[j]@),
        r matches Err(e) ==> e is DuplicateNoteId || e is NoteNotFound,
        r matches Ok(p) ==> ids@.len() == 0 ==> p.revision is None && p.touched@.len() == 0 && p.changes@.len() == 0,
        r matches Ok(p) ==> ids@.len() > 0 ==> {
            &&& p.revision == Some((revision + 1) as u64)
            &&& increasing(id_views(p.touched@))
            &&& forall|x: u128| #[trigger] id_views(p.touched@).contains(x) <==> links_into(links@, ids@, x)
            &&& change_views(p.changes@) == records((revision + 1) as u64, p.touched@, ChangeOperation::Metadata)
                + records((revision + 1) as u64, ids@, ChangeOperation::Remove)
        },
{
    ensure_unique(ids)?;
    if ids.len() == 0 {
        return Ok(DeletePlan { revision: None, touched: Vec::new(), changes: Vec::new() });
    }
    ensure_notes_exist(ids, stored)?;
    let mut touched: Vec<NoteId> = Vec::new();
    let mut k: usize = 0;
    proof {
        assert(id_views(touched@).to_set() =~= Set::<u128>::empty());
    }
    while k < links.len()
        invariant
            k <= links@.len(),
            increasing(id_views(touched@)),
            forall|x: u128| #[trigger] id_views(touched@).to_set().contains(x) <==> linked_upto(links@, ids@, k as int, x),
        decreases links@.len() - k,
    {
        let (source, target) = links[k];
        let ghost old_set = id_views(touched@).to_set();
        proof {
            assert(forall|x: u128| old_set.contains(x) <==> linked_upto(links@, ids@, k as int, x));
        }
        let into = id_listed(ids, target.as_u128()) && !id_listed(ids, source.as_u128());
        if into {
            insert_link(&mut touched, source);
        }
        proof {
            let new_set = id_views(touched@).to_set();
            assert(links@[k as int] == (source, target));
            assert forall|x: u128| new_set.contains(x) <==> linked_upto(links@, ids@, k + 1, x) by {
                if linked_upto(links@, ids@, k as int, x) {
                    let q = choose|q: int| 0 <= q < k && (#[trigger] links@[q]).0@ == x && id_views(ids@).contains(links@[q].1@);
                    assert(0 <= q < k + 1);
                }
                if linked_upto(links@, ids@, k + 1, x) && !linked_upto(links@, ids@, k as int, x) {
                    let q = choose|q: int| 0 <= q < k + 1 && (#[trigger] links@[q]).0@ == x && id_views(ids@).contains(links@[q].1@);
                    if q < k {
                        assert(linked_upto(links@, ids@, k as int, x));
                    }
                    assert(q == k);
                }
                if into && x == source@ {
                    assert(linked_upto(links@, ids@, k + 1, x));
                }
            }
        }
        k += 1;
    }
    proof {
        assert forall|x: u128| #[trigger] id_views(touched@).contains(x) <==> links_into(links@, ids@, x) by {
            if id_views(touched@).contains(x) {
                assert(id_views(touched@).to_set().contains(x));
            }
            if links_into(links@, ids@, x) {
                assert(id_views(touched@).to_set().contains(x));
            }
        }
    }
    let next = revision + 1;
    let mut changes: Vec<Change> = Vec::new();
    push_records(&mut changes, next, touched.as_slice(), ChangeOperation::Metadata);
    push_records(&mut changes, next, ids, ChangeOperation::Remove);
    proof {
        assert(change_views(Seq::<Change>::empty()) =~= Seq::<(u64, ChangeOperation, u128)>::empty());
        assert(Seq::<(u64, ChangeOperation, u128)>::empty() + records(next, touched@, ChangeOperation::Metadata)
            =~= records(next, touched@, ChangeOperation::Metadata));
    }
    Ok(DeletePlan { revision: Some(next), touched, changes })
}

/// What a tag change does to the store: the notes it changes, in id order,
/// the revision it makes (none when no note changes), and one `metadata`
/// change record per changed note.
pub struct TagPlan {
    pub changed: Vec<NoteId>,
    pub revision: Option<u64>,
    pub changes: Vec<Change>,
}

/// Whether the stored note with the id of `id` has the tag `tag`.
pub open spec fn has_tag(stored: Seq<(NoteId, Vec<Tag>)>, id: u128, tag: Seq<char>) -> bool {
    exists|k: int| 0 <= k < stored.len() && (#[trigger] stored[k]).0@ == id && tag_views(stored[k].1@).contains(tag)
}

fn tag_listed(tags: &Vec<Tag>, tag: &Tag) -> (r: bool)
    ensures
        r == tag_views(tags@).contains(tag.view()),
{
    let mut k: usize = 0;
    while k < tags.len()
        invariant
            k <= tags@.len(),
            forall|a: int| 0 <= a < k ==> tag_views(tags@)[a] != tag.view(),
        decreases tags@.len() - k,
    {
        if str_eq(tags[k].as_str(), tag.as_str()) {
            assert(tag_views(tags@)[k as int] == tag.view());
            return true;
        }
        k += 1;
    }
    false
}

fn stored_has_tag(stored: &[(NoteId, Vec<Tag>)], id: &NoteId, tag: &Tag) -> (r: bool)
    ensures
        r == has_tag(stored@, id@, tag.view()),
{
    let mut k: usize = 0;
    while k < stored.len()
        invariant
            k <= stored@.len(),
            forall|a: int| 0 <= a < k ==> !((#[trigger] stored@[a]).0@ == id@ && tag_views(stored@[a].1@).contains(tag.view())),
        decreases stored@.len() - k,
    {
        if stored[k].0.as_u128() == id.as_u128() && tag_listed(&stored[k].1, tag) {
            return true;
        }
        k += 1;
    }
    false
}

/// The stored note ids.
pub open spec fn stored_ids(stored: Seq<(NoteId, Vec<Tag>)>) -> Seq<NoteId> {
    stored.map_values(|e: (NoteId, Vec<Tag>)| e.0)
}

/// Whether the change adds `tag` to the note `x` of the batch (`add`) or
/// takes it away: the notes that do not yet have it, or that have it.
pub open spec fn tag_changes(stored: Seq<(NoteId, Vec<Tag>)>, ids: Seq<NoteId>, tag: Seq<char>, add: bool, x: u128) -> bool {
    id_views(ids).contains(x) && has_tag(stored, x, tag) != add
}

/// Plans adding (`add`) or removing a tag on the notes `ids`, given the
/// stored notes with their tags and the current revision: a repeated id is
/// refused first, then an id that is not stored.
pub fn tag_change_plan(
    stored: &[(NoteId, Vec<Tag>)],
    ids: &[NoteId],
    tag: &Tag,
    add: bool,
    revision: u64,
) -> (r: Result<TagPlan>)
    requires
        revision < 0x7fff_ffff_ffff_ffff,
    ensures
        has_duplicate(ids@) ==> r is Err && r->Err_0 is DuplicateNoteId,
        r matches Err(e) ==> (e is DuplicateNoteId ==> has_duplicate(ids@)),
        !has_duplicate(ids@) && (exists|j: int| 0 <= j < ids@.len() && !is_stored(stored_ids(stored@), #[trigger] ids@[j]))
            ==> r is Err && r->Err_0 is NoteNotFound,
        r matches Err(e) ==> e is NoteNotFound ==> !has_duplicate(ids@) && exists|j: int|
            0 <= j < ids@.len() && !is_stored(stored_ids(stored@), ids@[j]) && (forall|b: int|
                0 <= b < j ==> is_stored(stored_ids(stored@), #[trigger] ids@[b])) && e->NoteNotFound_0@ == uuid_text(ids@[j]@),
        r matches Err(e) ==> e is DuplicateNoteId || e is NoteNotFound,
        r matches Ok(p) ==> {
            &&& increasing(id_views(p.changed@))
            &&& forall|x: u128| #[trigger] id_views(p.changed@).contains(x) <==> tag_changes(stored@, ids@, tag.view(), add, x)
            &&& p.changed@.len() == 0 ==> p.revision is None && p.changes@.len() == 0
            &&& p.changed@.len() > 0 ==> p.revision == Some((revision + 1) as u64) && change_views(p.changes@)
                == records((revision + 1) as u64, p.changed@, ChangeOperation::Metadata)
        },
{
    ensure_unique(ids)?;
    let mut known: Vec<NoteId> = Vec::new();
    let mut k: usize = 0;
    while k < stored.len()
        invariant
            k <= stored@.len(),
            known@ == stored_ids(stored@).subrange(0, k as int),
        decreases stored@.len() - k,
    {
        known.push(stored[k].0);
        proof {
            assert(stored_ids(stored@).subrange(0, k + 1) =~= stored_ids(stored@).subrange(0, k as int).push(stored@[k as int].0));
        }
        k += 1;
    }
    proof {
        assert(stored_ids(stored@).subrange(0, k as int) =~= stored_ids(stored@));
    }
    ensure_notes_exist(ids, known.as_slice())?;
    let mut changed: Vec<NoteId> = Vec::new();
    let mut j: usize = 0;
    proof {
        assert(id_views(changed@).to_set() =~= Set::<u128>::empty());
    }
    while j < ids.len()
        invariant
            j <= ids@.len(),
            increasing(id_views(changed@)),
            forall|x: u128| id_views(changed@).to_set().contains(x) <==> (id_views(ids@.subrange(0, j as int)).contains(x)
                && has_tag(stored@, x, tag.view()) != add),
        decreases ids@.len() - j,
    {
        let id = ids[j];
        let has = stored_has_tag(stored, &id, tag);
        let ghost before = id_views(changed@).to_set();
        if has != add {
            insert_link(&mut changed, id);
        }
        proof {
            let pre = id_views(ids@.subrange(0, j as int));
            let post = id_views(ids@.subrange(0, j + 1));
            assert(post =~= pre.push(id@));
            assert forall|x: u128| id_views(changed@).to_set().contains(x) <==> (post.contains(x)
                && has_tag(stored@, x, tag.view()) != add) by {
                if post.contains(x) && x != id@ {
                    let q = choose|q: int| 0 <= q < post.len() && post[q] == x;
                    assert(pre[q] == x);
                }
                if pre.contains(x) {
                    let q = choose|q: int| 0 <= q < pre.len() && pre[q] == x;
                    assert(post[q] == x);
                }
                assert(post[j as int] == id@);
            }
        }
        j += 1;
    }
    proof {
        assert(ids@.subrange(0, j as int) =~= ids@);
        assert forall|x: u128| #[trigger] id_views(changed@).contains(x) <==> tag_changes(stored@, ids@, tag.view(), add, x) by {
            if id_views(changed@).contains(x) {
                assert(id_views(changed@).to_set().contains(x));
            }
            if tag_changes(stored@, ids@, tag.view(), add, x) {
                assert(id_views(changed@).to_set().contains(x));
            }
        }
    }
    if changed.len() == 0 {
        return Ok(TagPlan { changed, revision: None, changes: Vec::new() });
    }
    let next = revision + 1;
    let mut changes: Vec<Change> = Vec::new();
    push_records(&mut changes, next, changed.as_slice(), ChangeOperation::Metadata);
    proof {
        assert(change_views(Seq::<Change>::empty()) =~= Seq::<(u64, ChangeOperation, u128)>::empty());
        assert(Seq::<(u64, ChangeOperation, u128)>::empty() + records(next, changed@, ChangeOperation::Metadata)
            =~= records(next, changed@, ChangeOperation::Metadata));
    }
    Ok(TagPlan { changed, revision: Some(next), changes })
}

/// Checks the revision a caller expects a note to be at: nothing to check
/// without one; the note must be stored (`actual`, its stored revision) and
/// at that revision.
pub fn check_revision(id: &NoteId, expected: Option<u64>, actual: Option<u64>) -> (r: Result<()>)
    ensures
        expected is None ==> r is Ok,
        expected matches Some(x) ==> match actual {
            None => r == Err::<(), NtError>(NtError::NoteNotFound(r->Err_0->NoteNotFound_0))
                && r->Err_0->NoteNotFound_0@ == uuid_text(id@),
            Some(y) => if x == y {
                r is Ok
            } else {
                (r matches Err(e) && e matches NtError::RevisionConflict { note, expected: ex, actual: ac }
                    && note@ == uuid_text(id@) && ex == x && ac == y)
            },
        },
{
    match expected {
        None => Ok(()),
        Some(x) => match actual {
            None => Err(NtError::NoteNotFound(id.to_string())),
            Some(y) => if x == y {
                Ok(())
            } else {
                Err(NtError::RevisionConflict { note: id.to_string(), expected: x, actual: y })
            },
        },
    }
}

/// Checks the body version a caller edited against the stored one (`None`
/// when the note is not stored): a version beyond what the store holds is
/// refused first, then a missing note, then a version that moved on.
pub fn check_body_version(id: &NoteId, expected: u64, stored: Option<u64>) -> (r: Result<()>)
    ensures
        expected > i64::MAX ==> r == Err::<(), NtError>(NtError::InvalidBodyVersion(expected)),
        expected <= i64::MAX ==> match stored {
            None => r is Err && r->Err_0 is NoteNotFound && r->Err_0->NoteNotFound_0@ == uuid_text(id@),
            Some(v) => if v == expected {
                r is Ok
            } else {
                r is Err && r->Err_0 is ConcurrentEdit && r->Err_0->ConcurrentEdit_0@ == uuid_text(id@)
            },
        },
{
    if expected > 0x7fff_ffff_ffff_ffff {
        return Err(NtError::InvalidBodyVersion(expected));
    }
    match stored {
        None => Err(NtError::NoteNotFound(id.to_string())),
        Some(v) => if v == expected {
            Ok(())
        } else {
            Err(NtError::ConcurrentEdit(id.to_string()))
        },
    }
}

/// Whether the stored note with the id `id` is in the collection `c`.
pub open spec fn stored_in(stored: Seq<(NoteId, CollectionPath)>, id: u128, c: Seq<char>) -> bool {
    exists|k: int| 0 <= k < stored.len() && (#[trigger] stored[k]).0@ == id && stored[k].1.view() == c
}

/// The stored note ids of notes with their collections.
pub open spec fn placed_ids(stored: Seq<(NoteId, CollectionPath)>) -> Seq<NoteId> {
    stored.map_values(|e: (NoteId, CollectionPath)| e.0)
}

/// What moving notes does to the store: the notes that were elsewhere, in id
/// order, the revision it makes (none when no note moves), and one
/// `metadata` change record per moved note.
pub struct MovePlan {
    pub moved: Vec<NoteId>,
    pub revision: Option<u64>,
    pub changes: Vec<Change>,
}

fn stored_in_collection(stored: &[(NoteId, CollectionPath)], id: &NoteId, c: &CollectionPath) -> (r: bool)
    ensures
        r == stored_in(stored@, id@, c.view()),
{
    let mut k: usize = 0;
    while k < stored.len()
        invariant
            k <= stored@.len(),
            forall|a: int| 0 <= a < k ==> !((#[trigger] stored@[a]).0@ == id@ && stored@[a].1.view() == c.view()),
        decreases stored@.len() - k,
    {
        if stored[k].0.as_u128() == id.as_u128() && str_eq(stored[k].1.as_str(), c.as_str()) {
            return true;
        }
        k += 1;
    }
    false
}

/// Plans moving the notes `ids` into `collection`, given the stored notes
/// with their collections and the current revision: a repeated id is refused
/// first, then an id that is not stored; only notes not already in the
/// collection move.
pub fn move_plan(
    stored: &[(NoteId, CollectionPath)],
    ids: &[NoteId],
    collection: &CollectionPath,
    revision: u64,
) -> (r: Result<MovePlan>)
    requires
        revision < 0x7fff_ffff_ffff_ffff,
    ensures
        has_duplicate(ids@) ==> r is Err && r->Err_0 is DuplicateNoteId,
        r matches Err(e) ==> (e is DuplicateNoteId ==> has_duplicate(ids@)),
        !has_duplicate(ids@) && (exists|j: int| 0 <= j < ids@.len() && !is_stored(placed_ids(stored@), #[trigger] ids@[j]))
            ==> r is Err && r->Err_0 is NoteNotFound,
        r matches Err(e) ==> e is NoteNotFound ==> !has_duplicate(ids@) && exists|j: int|
            0 <= j < ids@.len() && !is_stored(placed_ids(stored@), ids@[j]) && (forall|b: int|
                0 <= b < j ==> is_stored(placed_ids(stored@), #[trigger] ids@[b])) && e->NoteNotFound_0@ == uuid_text(ids@[j]@),
        r matches Err(e) ==> e is DuplicateNoteId || e is NoteNotFound,
        r matches Ok(p) ==> {
            &&& increasing(id_views(p.moved@))
            &&& forall|x: u128| #[trigger] id_views(p.moved@).contains(x) <==> (id_views(ids@).contains(x)
                && !stored_in(stored@, x, collection.view()))
            &&& p.moved@.len() == 0 ==> p.revision is None && p.changes@.len() == 0
            &&& p.moved@.len() > 0 ==> p.revision == Some((revision + 1) as u64) && change_views(p.changes@)
                == records((revision + 1) as u64, p.moved@, ChangeOperation::Metadata)
        },
{
    ensure_unique(ids)?;
    let mut known: Vec<NoteId> = Vec::new();
    let mut k: usize = 0;
    while k < stored.len()
        invariant
            k <= stored@.len(),
            known@ == placed_ids(stored@).subrange(0, k as int),
        decreases stored@.len() - k,
    {
        known.push(stored[k].0);
        proof {
            assert(placed_ids(stored@).subrange(0, k + 1) =~= placed_ids(stored@).subrange(0, k as int).push(stored@[k as int].0));
        }
        k += 1;
    }
    proof {
        assert(placed_ids(stored@).subrange(0, k as int) =~= placed_ids(stored@));
    }
    ensure_notes_exist(ids, known.as_slice())?;
    let mut moved: Vec<NoteId> = Vec::new();
    let mut j: usize = 0;
    proof {
        assert(id_views(moved@).to_set() =~= Set::<u128>::empty());
    }
    while j < ids.len()
        invariant
            j <= ids@.len(),
            increasing(id_views(moved@)),
            forall|x: u128| id_views(moved@).to_set().contains(x) <==> (id_views(ids@.subrange(0, j as int)).contains(x)
                && !stored_in(stored@, x, collection.view())),
        decreases ids@.len() - j,
    {
        let id = ids[j];
        let there = stored_in_collection(stored, &id, collection);
        if !there {
            insert_link(&mut moved, id);
        }
        proof {
            let pre = id_views(ids@.subrange(0, j as int));
            let post = id_views(ids@.subrange(0, j + 1));
            assert(post =~= pre.push(id@));
            assert forall|x: u128| id_views(moved@).to_set().contains(x) <==> (post.contains(x)
                && !stored_in(stored@, x, collection.view())) by {
                if post.contains(x) && x != id@ {
                    let q = choose|q: int| 0 <= q < post.len() && post[q] == x;
                    assert(pre[q] == x);
                }
                if pre.contains(x) {
                    let q = choose|q: int| 0 <= q < pre.len() && pre[q] == x;
                    assert(post[q] == x);
                }
                assert(post[j as int] == id@);
            }
        }
        j += 1;
    }
    proof {
        assert(ids@.subrange(0, j as int) =~= ids@);
        assert forall|x: u128| #[trigger] id_views(moved@).contains(x) <==> (id_views(ids@).contains(x)
            && !stored_in(stored@, x, collection.view())) by {
            if id_views(moved@).contains(x) {
                assert(id_views(moved@).to_set().contains(x));
            }
            if id_views(ids@).contains(x) && !stored_in(stored@, x, collection.view()) {
                assert(id_views(moved@).to_set().contains(x));
            }
        }
    }
    if moved.len() == 0 {
        return Ok(MovePlan { moved, revision: None, changes: Vec::new() });
    }
    let next = revision + 1;
    let mut changes: Vec<Change> = Vec::new();
    push_records(&mut changes, next, moved.as_slice(), ChangeOperation::Metadata);
    proof {
        assert(change_views(Seq::<Change>::empty()) =~= Seq::<(u64, ChangeOperation, u128)>::empty());
        assert(Seq::<(u64, ChangeOperation, u128)>::empty() + records(next, moved@, ChangeOperation::Metadata)
            =~= records(next, moved@, ChangeOperation::Metadata));
    }
    Ok(MovePlan { moved, revision: Some(next), changes })
}

/// Whether the stored links hold `source -> target`.
pub open spec fn has_link(links: Seq<(NoteId, NoteId)>, source: u128, target: u128) -> bool {
    exists|k: int| 0 <= k < links.len() && (#[trigger] links[k]).0@ == source && links[k].1@ == target
}

fn link_stored(links: &[(NoteId, NoteId)], source: &NoteId, target: &NoteId) -> (r: bool)
    ensures
        r == has_link(links@, source@, target@),
{
    let mut k: usize = 0;
    while k < links.len()
        invariant
            k <= links@.len(),
            forall|a: int| 0 <= a < k ==> !((#[trigger] links@[a]).0@ == source@ && links@[a].1@ == target@),
        decreases links@.len() - k,
    {
        if links[k].0.as_u128() == source.as_u128() && links[k].1.as_u128() == target.as_u128() {
            return true;
        }
        k += 1;
    }
    false
}

/// Plans adding (`add`) or removing the link `id -> target`, given the
/// stored note ids, the stored links, the revision the caller expects the
/// note at (if any) and its stored revision, and the current revision. The
/// note must be stored, then at the expected revision; a note cannot link to
/// itself; an added target must be stored. When the links change, the note
/// gets the next revision and one `metadata` change record, which is given.
pub fn link_change_plan(
    id: &NoteId,
    target: &NoteId,
    add: bool,
    stored: &[NoteId],
    links: &[(NoteId, NoteId)],
    expected: Option<u64>,
    actual: Option<u64>,
    revision: u64,
) -> (r: Result<Option<Change>>)
    requires
        revision < 0x7fff_ffff_ffff_ffff,
    ensures
        !is_stored(stored@, *id) ==> r == Err::<Option<Change>, NtError>(NtError::NoteNotFound(r->Err_0->NoteNotFound_0))
            && r->Err_0->NoteNotFound_0@ == uuid_text(id@),
        is_stored(stored@, *id) && expected is Some && expected != actual ==> r is Err && (r->Err_0 is NoteNotFound
            || r->Err_0 is RevisionConflict),
        is_stored(stored@, *id) && (expected is None || expected == actual) ==> {
            if target@ == id@ {
                r == Err::<Option<Change>, NtError>(NtError::SelfLink)
            } else if add && !is_stored(stored@, *target) {
                r is Err && r->Err_0 is NoteNotFound && r->Err_0->NoteNotFound_0@ == uuid_text(target@)
            } else {
                let changed = if add {
                    !has_link(links@, id@, target@)
                } else {
                    has_link(links@, id@, target@)
                };
                &&& r is Ok
                &&& changed ==> (r matches Ok(Some(c)) && c.spec_revision() == revision + 1
                    && c.spec_operation() == ChangeOperation::Metadata && c.spec_note_id() == *id)
                &&& !changed ==> r == Ok::<Option<Change>, NtError>(None)
            }
        },
{
    if !stored_contains(stored, id) {
        return Err(NtError::NoteNotFound(id.to_string()));
    }
    check_revision(id, expected, actual)?;
    if target.as_u128() == id.as_u128() {
        return Err(NtError::SelfLink);
    }
    let present = link_stored(links, id, target);
    let changed = if add {
        if !stored_contains(stored, target) {
            return Err(NtError::NoteNotFound(target.to_string()));
        }
        !present
    } else {
        present
    };
    if changed {
        Ok(Some(Change::new(revision + 1, ChangeOperation::Metadata, *id)))
    } else {
        Ok(None)
    }
}

/// Plans storing a new note under the fresh id `id`, given the stored note
/// ids and the current revision: the note must not link to itself and every
/// note it links to must be stored (the first missing one, in link order, is
/// named). The note gets the next revision and one `add` change record.
pub fn create_plan(note: &NewNote, id: &NoteId, stored: &[NoteId], revision: u64) -> (r: Result<Change>)
    requires
        revision < 0x7fff_ffff_ffff_ffff,
    ensures
        note.spec_links().contains(id@) ==> r == Err::<Change, NtError>(NtError::SelfLink),
        !note.spec_links().contains(id@) && (exists|j: int| 0 <= j < note.spec_links().len()
            && !is_stored_value(stored@, #[trigger] note.spec_links()[j])) ==> r is Err
            && r->Err_0 is NoteNotFound,
        r matches Err(e) ==> e is NoteNotFound ==> exists|j: int|
            0 <= j < note.spec_links().len() && !is_stored_value(stored@, note.spec_links()[j])
            && (forall|b: int| 0 <= b < j ==> is_stored_value(stored@, #[trigger] note.spec_links()[b]))
            && e->NoteNotFound_0@ == uuid_text(note.spec_links()[j]),
        r matches Err(e) ==> e is SelfLink || e is NoteNotFound,
        r matches Ok(c) ==> c.spec_revision() == revision + 1 && c.spec_operation() == ChangeOperation::Add
            && c.spec_note_id() == *id,
        r is Ok <==> !note.spec_links().contains(id@) && forall|j: int|
            0 <= j < note.spec_links().len() ==> is_stored_value(stored@, #[trigger] note.spec_links()[j]),
{
    note.validate_links_for(id)?;
    let links = note.links();
    proof {
        assert(id_views(links@) == note.spec_links());
        assert forall|j: int| 0 <= j < links@.len() implies #[trigger] note.spec_links()[j] == links@[j]@ by {
            assert(id_views(links@)[j] == links@[j]@);
        }
    }
    let checked = ensure_notes_exist(links, stored);
    proof {
        assert forall|j: int| 0 <= j < links@.len() implies (is_stored(stored@, #[trigger] links@[j])
            <==> is_stored_value(stored@, note.spec_links()[j])) by {
            assert(note.spec_links()[j] == links@[j]@);
        }
    }
    match checked {
        Err(e) => {
            proof {
                let j = choose|j: int|
                    0 <= j < links@.len() && !is_stored(stored@, links@[j]) && (forall|b: int|
                        0 <= b < j ==> is_stored(stored@, #[trigger] links@[b])) && e == NtError::NoteNotFound(
                        e->NoteNotFound_0,
                    ) && e->NoteNotFound_0@ == uuid_text(links@[j]@);
                assert(note.spec_links()[j] == links@[j]@);
                assert forall|b: int| 0 <= b < j implies is_stored_value(stored@, #[trigger] note.spec_links()[b]) by {
                    assert(is_stored(stored@, links@[b]));
                }
            }
            Err(e)
        },
        Ok(()) => Ok(Change::new(revision + 1, ChangeOperation::Add, *id)),
    }
}

} // verus!
