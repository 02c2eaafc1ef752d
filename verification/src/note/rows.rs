//! Notes as the store reads them back: one row of texts per note, its tags
//! and links as JSON arrays, and the order in which listings visit them.
use vstd::prelude::*;

use crate::error::{NtError, Result};
use crate::lexical::{
    chars_lt, lemma_seq_lt_irreflexive, lemma_seq_lt_transitive, seq_lt, string_views, strictly_sorted,
};
use crate::text::{chars_eq, chars_of};
use crate::note::collection::{is_collection_path, is_name, CollectionPath, Tag};
use crate::note::date::{is_iso_timestamp, Timestamp};
use crate::note::domain::{
    body_error, id_views, increasing, insert_link, insert_tag, normalized, tag_views, Note,
};
use crate::note::id::{is_note_uuid, uuid_text, uuid_version, NoteId};

verus! {

/// What `serde_json::from_str::<Vec<String>>` gives for a text: the strings
/// of a JSON array, or the text of the error it reports.
pub uninterp spec fn json_strings(text: Seq<char>) -> core::result::Result<Seq<Seq<char>>, Seq<char>>;

/// `serde_json::from_str::<Vec<String>>`, with its error written out by its
/// `Display`. Both outcomes are named by `json_strings` of the text.
#[verifier::external_body]
fn parse_json_strings(text: &str) -> (r: core::result::Result<Vec<String>, String>)
    ensures
        match r {
            Ok(values) => json_strings(text@) == Ok::<Seq<Seq<char>>, Seq<char>>(string_views(values@)),
            Err(message) => json_strings(text@) == Err::<Seq<Seq<char>>, Seq<char>>(message@),
        },
{
    match serde_json::from_str::<Vec<String>>(text) {
        Ok(values) => Ok(values),
        Err(error) => Err(error.to_string()),
    }
}

/// One stored note as the store reads it: its row number, its texts, its
/// body version and revision as stored integers, and its tags and link
/// targets as JSON arrays of texts.
pub struct NoteRowText {
    pub row: i64,
    pub id: String,
    pub collection: String,
    pub body: String,
    pub title: String,
    pub created: String,
    pub updated: String,
    pub body_version: i64,
    pub revision: i64,
    pub tags: String,
    pub links: String,
}

/// `e` reports the stored note of row `row` (with the id `id`, when known)
/// as invalid in `field`, for the reason `detail` where one is given.
pub open spec fn is_stored_fault(
    e: NtError,
    id: Option<Seq<char>>,
    row: i64,
    field: Seq<char>,
    detail: Option<Seq<char>>,
) -> bool {
    &&& e matches NtError::InvalidStoredNote { id: i, row: w, stored_field: f, detail: d }
    &&& match id {
        Some(x) => i matches Some(s) && s@ == x,
        None => i is None,
    }
    &&& w == row
    &&& f@ == field
    &&& match detail {
        Some(x) => d matches Some(s) && s@ == x,
        None => d is None,
    }
}

/// Some id of `ids` is spelled `text`.
pub open spec fn spelled_by(ids: Seq<NoteId>, text: Seq<char>) -> bool {
    exists|v: u128| #[trigger] id_views(ids).contains(v) && uuid_text(v) == text
}

/// Every text is a tag.
pub open spec fn all_names(values: Seq<Seq<char>>) -> bool {
    forall|k: int| 0 <= k < values.len() ==> is_name(#[trigger] values[k])
}

/// Every text is a note id.
pub open spec fn all_uuids(values: Seq<Seq<char>>) -> bool {
    forall|k: int| 0 <= k < values.len() ==> is_note_uuid(#[trigger] values[k])
}

/// A decoded note holds the row's fields, its tags once each in order, and
/// the ids its link texts spell once each in order.
pub open spec fn decoded_from(n: Note, row: NoteRowText, tags: Seq<Seq<char>>, links: Seq<Seq<char>>) -> bool {
    &&& uuid_text(n.spec_id()@) == row.id@
    &&& n.spec_collection().view() == row.collection@
    &&& n.spec_body() == row.body@
    &&& n.spec_title() == row.title@
    &&& n.spec_created().iso@ == row.created@
    &&& n.spec_updated().iso@ == row.updated@
    &&& n.spec_body_version() == row.body_version
    &&& strictly_sorted(tag_views(n.spec_tags()))
    &&& tag_views(n.spec_tags()).to_set() == tags.to_set()
    &&& increasing(id_views(n.spec_links()))
    &&& forall|v: u128| #[trigger] id_views(n.spec_links()).contains(v) ==> links.contains(uuid_text(v))
    &&& forall|k: int| 0 <= k < links.len() ==> spelled_by(n.spec_links(), #[trigger] links[k])
}

/// What decoding the row gives once all its fields read: the note that the
/// stored body, title, version and links make, with the row's revision.
pub open spec fn rehydrated(r: Result<(Note, u64)>, row: NoteRowText, tags: Seq<Seq<char>>, links: Seq<Seq<char>>) -> bool {
    &&& normalized(row.body@) is None ==> r == Err::<(Note, u64), NtError>(body_error(row.body@))
    &&& (normalized(row.body@) is Some && normalized(row.body@) != Some((row.body@, row.title@)))
        ==> (r is Err && r->Err_0 is Message)
    &&& normalized(row.body@) == Some((row.body@, row.title@)) && row.body_version == 0 ==> r
        == Err::<(Note, u64), NtError>(NtError::InvalidBodyVersion(0))
    &&& normalized(row.body@) == Some((row.body@, row.title@)) && row.body_version > 0
        && links.contains(row.id@) ==> r == Err::<(Note, u64), NtError>(NtError::SelfLink)
    &&& r is Ok <==> normalized(row.body@) == Some((row.body@, row.title@)) && row.body_version > 0
        && !links.contains(row.id@)
    &&& r matches Ok(p) ==> decoded_from(p.0, row, tags, links) && p.1 == row.revision
}

fn stored_fault(id: Option<&String>, row: i64, field: &'static str, detail: Option<String>) -> (e: NtError)
    ensures
        is_stored_fault(
            e,
            match id {
                Some(s) => Some(s@),
                None => None,
            },
            row,
            field@,
            match detail {
                Some(s) => Some(s@),
                None => None,
            },
        ),
{
    let id = match id {
        Some(s) => Some(s.clone()),
        None => None,
    };
    NtError::InvalidStoredNote { id, row, stored_field: field, detail }
}

fn decode_tags(values: &Vec<String>) -> (r: Option<Vec<Tag>>)
    ensures
        r is Some <==> all_names(string_views(values@)),
        r matches Some(tags) ==> strictly_sorted(tag_views(tags@)) && tag_views(tags@).to_set()
            == string_views(values@).to_set(),
{
    let mut tags: Vec<Tag> = Vec::new();
    let mut k: usize = 0;
    proof {
        assert(tag_views(tags@).to_set() =~= string_views(values@).subrange(0, 0).to_set());
    }
    while k < values.len()
        invariant
            k <= values@.len(),
            all_names(string_views(values@).subrange(0, k as int)),
            strictly_sorted(tag_views(tags@)),
            tag_views(tags@).to_set() == string_views(values@).subrange(0, k as int).to_set(),
        decreases values@.len() - k,
    {
        let ghost sv = string_views(values@);
        match Tag::parse(values[k].as_str()) {
            Ok(tag) => {
                insert_tag(&mut tags, tag);
                proof {
                    assert(sv.subrange(0, k + 1) =~= sv.subrange(0, k as int).push(sv[k as int]));
                    sv.subrange(0, k as int).lemma_push_to_set_commute(sv[k as int]);
                    assert forall|q: int| 0 <= q < k + 1 implies is_name(#[trigger] sv.subrange(0, k + 1)[q]) by {
                        if q < k {
                            assert(sv.subrange(0, k + 1)[q] == sv.subrange(0, k as int)[q]);
                        }
                    }
                }
            },
            Err(_) => {
                proof {
                    assert(!is_name(sv[k as int]));
                }
                return None;
            },
        }
        k += 1;
    }
    proof {
        assert(string_views(values@).subrange(0, k as int) =~= string_views(values@));
    }
    Some(tags)
}

fn decode_links(values: &Vec<String>) -> (r: Option<Vec<NoteId>>)
    ensures
        r is Some <==> all_uuids(string_views(values@)),
        r matches Some(links) ==> {
            &&& increasing(id_views(links@))
            &&& forall|v: u128| #[trigger] id_views(links@).contains(v) ==> uuid_version(v) == 7
            &&& forall|v: u128| #[trigger] id_views(links@).contains(v) ==> string_views(values@).contains(uuid_text(v))
            &&& forall|k: int| 0 <= k < values@.len() ==> spelled_by(links@, #[trigger] string_views(values@)[k])
        },
{
    let mut links: Vec<NoteId> = Vec::new();
    let mut k: usize = 0;
    while k < values.len()
        invariant
            k <= values@.len(),
            all_uuids(string_views(values@).subrange(0, k as int)),
            increasing(id_views(links@)),
            forall|v: u128| #[trigger] id_views(links@).contains(v) ==> uuid_version(v) == 7,
            forall|v: u128| #[trigger] id_views(links@).contains(v) ==> string_views(values@).subrange(0, k as int).contains(uuid_text(v)),
            forall|q: int| 0 <= q < k ==> spelled_by(links@, #[trigger] string_views(values@)[q]),
        decreases values@.len() - k,
    {
        let ghost sv = string_views(values@);
        match NoteId::parse(values[k].as_str()) {
            Ok(id) => {
                let ghost before = id_views(links@);
                insert_link(&mut links, id);
                proof {
                    let now = id_views(links@);
                    assert(sv.subrange(0, k + 1) =~= sv.subrange(0, k as int).push(sv[k as int]));
                    assert forall|v: u128| #[trigger] now.contains(v) implies uuid_version(v) == 7 by {
                        assert(now.to_set().contains(v));
                        if v != id@ {
                            assert(before.to_set().contains(v));
                            assert(before.contains(v));
                        }
                    }
                    assert forall|v: u128| #[trigger] now.contains(v) implies sv.subrange(0, k + 1).contains(uuid_text(v)) by {
                        assert(now.to_set().contains(v));
                        if v == id@ {
                            assert(sv.subrange(0, k + 1)[k as int] == uuid_text(v));
                        } else {
                            assert(before.to_set().contains(v));
                            assert(before.contains(v));
                            let q = choose|q: int| 0 <= q < k && sv.subrange(0, k as int)[q] == uuid_text(v);
                            assert(sv.subrange(0, k + 1)[q] == uuid_text(v));
                        }
                    }
                    assert forall|q: int| 0 <= q < k + 1 implies spelled_by(links@, #[trigger] sv[q]) by {
                        if q < k {
                            let v = choose|v: u128| #[trigger] before.contains(v) && uuid_text(v) == sv[q];
                            assert(before.to_set().contains(v));
                            assert(now.to_set().contains(v));
                            assert(now.contains(v));
                        } else {
                            assert(now.to_set().contains(id@));
                            assert(now.contains(id@));
                        }
                    }
                    assert forall|q: int| 0 <= q < k + 1 implies is_note_uuid(#[trigger] sv.subrange(0, k + 1)[q]) by {
                        if q < k {
                            assert(sv.subrange(0, k + 1)[q] == sv.subrange(0, k as int)[q]);
                        }
                    }
                }
            },
            Err(_) => {
                proof {
                    assert(!is_note_uuid(sv[k as int]));
                }
                return None;
            },
        }
        k += 1;
    }
    proof {
        let sv = string_views(values@);
        assert(sv.subrange(0, k as int) =~= sv);
        assert forall|v: u128| #[trigger] id_views(links@).contains(v) implies sv.contains(uuid_text(v)) by {
            assert(sv.subrange(0, k as int).contains(uuid_text(v)));
        }
        assert forall|q: int| 0 <= q < values@.len() implies spelled_by(links@, #[trigger] sv[q]) by {
            assert(0 <= q < k);
        }
    }
    Some(links)
}

/// Reads one stored note back from its row, checking each field in turn:
/// the id, the tags, the links, the collection, the two timestamps, the body
/// version and the revision; a field that does not read is reported with the
/// row (and the id, once it read). The note itself must then be one the
/// store could have written; its revision comes with it.
pub fn decode_note_row(row: NoteRowText) -> (r: Result<(Note, u64)>)
    ensures
        !is_note_uuid(row.id@) ==> (r matches Err(e) && is_stored_fault(e, None, row.row, "id"@, None)),
        is_note_uuid(row.id@) ==> match json_strings(row.tags@) {
            Err(m) => (r matches Err(e) && is_stored_fault(e, Some(row.id@), row.row, "tag"@, Some(m))),
            Ok(ts) => if !all_names(ts) {
                (r matches Err(e) && is_stored_fault(e, Some(row.id@), row.row, "tag"@, None))
            } else {
                match json_strings(row.links@) {
                    Err(m) => (r matches Err(e) && is_stored_fault(e, Some(row.id@), row.row, "links"@, Some(m))),
                    Ok(ls) => if !all_uuids(ls) {
                        (r matches Err(e) && is_stored_fault(e, Some(row.id@), row.row, "links"@, None))
                    } else if !is_collection_path(row.collection@) {
                        (r matches Err(e) && is_stored_fault(e, Some(row.id@), row.row, "collection"@, None))
                    } else if !is_iso_timestamp(row.created@) {
                        (r matches Err(e) && is_stored_fault(e, Some(row.id@), row.row, "created"@, None))
                    } else if !is_iso_timestamp(row.updated@) {
                        (r matches Err(e) && is_stored_fault(e, Some(row.id@), row.row, "updated"@, None))
                    } else if row.body_version < 0 {
                        (r matches Err(e) && is_stored_fault(e, Some(row.id@), row.row, "body_version"@, None))
                    } else if row.revision <= 0 {
                        (r matches Err(e) && is_stored_fault(e, Some(row.id@), row.row, "note_revision"@, None))
                    } else {
                        rehydrated(r, row, ts, ls)
                    },
                }
            },
        },
{
    let ghost original = row;
    let NoteRowText { row: row_pk, id: id_text, collection, body, title, created, updated, body_version, revision, tags, links } = row;
    let parsed = NoteId::parse(id_text.as_str());
    let id = match parsed {
        Ok(id) => id,
        Err(_) => {
            return Err(stored_fault(None, row_pk, "id", None));
        },
    };
    let tag_texts = match parse_json_strings(tags.as_str()) {
        Ok(values) => values,
        Err(message) => {
            return Err(stored_fault(Some(&id_text), row_pk, "tag", Some(message)));
        },
    };
    let tag_set = match decode_tags(&tag_texts) {
        Some(set) => set,
        None => {
            return Err(stored_fault(Some(&id_text), row_pk, "tag", None));
        },
    };
    let link_texts = match parse_json_strings(links.as_str()) {
        Ok(values) => values,
        Err(message) => {
            return Err(stored_fault(Some(&id_text), row_pk, "links", Some(message)));
        },
    };
    let link_set = match decode_links(&link_texts) {
        Some(set) => set,
        None => {
            return Err(stored_fault(Some(&id_text), row_pk, "links", None));
        },
    };
    let collection = match CollectionPath::parse(collection.as_str()) {
        Ok(c) => c,
        Err(_) => {
            return Err(stored_fault(Some(&id_text), row_pk, "collection", None));
        },
    };
    let created = match Timestamp::parse(created.as_str()) {
        Ok(t) => t,
        Err(_) => {
            return Err(stored_fault(Some(&id_text), row_pk, "created", None));
        },
    };
    let updated = match Timestamp::parse(updated.as_str()) {
        Ok(t) => t,
        Err(_) => {
            return Err(stored_fault(Some(&id_text), row_pk, "updated", None));
        },
    };
    if body_version < 0 {
        return Err(stored_fault(Some(&id_text), row_pk, "body_version", None));
    }
    if revision <= 0 {
        return Err(stored_fault(Some(&id_text), row_pk, "note_revision", None));
    }
    let ghost ls = string_views(link_texts@);
    proof {
        assert(id_views(link_set@).contains(id@) <==> ls.contains(original.id@)) by {
            if id_views(link_set@).contains(id@) {
                assert(ls.contains(uuid_text(id@)));
            }
            if ls.contains(original.id@) {
                let k = choose|k: int| 0 <= k < ls.len() && ls[k] == original.id@;
                assert(spelled_by(link_set@, ls[k]));
                let v = choose|v: u128| #[trigger] id_views(link_set@).contains(v) && uuid_text(v) == ls[k];
                assert(uuid_text(v) == original.id@ && uuid_version(v) == 7);
                assert(v == id@);
            }
        }
    }
    match Note::rehydrate(id, collection, body, title, created, updated, body_version as u64, tag_set, link_set) {
        Ok(note) => Ok((note, revision as u64)),
        Err(e) => Err(e),
    }
}

/// Whether `a` comes before `b` in a listing: updated later, or updated at
/// the same second with a greater id.
pub open spec fn comes_before(a: Note, b: Note) -> bool {
    ||| seq_lt(b.spec_updated().iso@, a.spec_updated().iso@)
    ||| (a.spec_updated().iso@ == b.spec_updated().iso@ && b.spec_id()@ < a.spec_id()@)
}

proof fn lemma_comes_before_transitive(a: Note, b: Note, c: Note)
    requires
        comes_before(a, b),
        comes_before(b, c),
    ensures
        comes_before(a, c),
{
    let (ua, ub, uc) = (a.spec_updated().iso@, b.spec_updated().iso@, c.spec_updated().iso@);
    if seq_lt(ub, ua) && seq_lt(uc, ub) {
        lemma_seq_lt_transitive(uc, ub, ua);
    }
}

proof fn lemma_comes_before_irreflexive(a: Note)
    ensures
        !comes_before(a, a),
{
    lemma_seq_lt_irreflexive(a.spec_updated().iso@);
}

fn note_comes_before(a: &Note, b: &Note) -> (r: bool)
    ensures
        r == comes_before(*a, *b),
{
    let au = chars_of(a.updated().as_str());
    let bu = chars_of(b.updated().as_str());
    if chars_lt(bu.as_slice(), au.as_slice()) {
        return true;
    }
    chars_eq(au.as_slice(), bu.as_slice()) && b.id().as_u128() < a.id().as_u128()
}

/// The positions of `notes` in listing order, each once.
pub open spec fn in_listing_order(notes: Seq<Note>, order: Seq<usize>) -> bool {
    &&& forall|a: int| 0 <= a < order.len() ==> (#[trigger] order[a]) < notes.len()
    &&& forall|a: int, b: int| 0 <= a < b < order.len() ==> order[a] != order[b]
    &&& forall|a: int, b: int|
        0 <= a < b < order.len() ==> !comes_before(notes[#[trigger] order[b] as int], notes[#[trigger] order[a] as int])
}

/// The positions of the notes a listing visits, in the order it visits them:
/// updated latest first, then greatest id first, and at most `limit` of them.
pub fn visit_order(notes: &[Note], limit: Option<u64>) -> (r: Vec<usize>)
    ensures
        r@.len() == match limit {
            Some(n) => if (n as int) < notes@.len() {
                n as int
            } else {
                notes@.len() as int
            },
            None => notes@.len() as int,
        },
        in_listing_order(notes@, r@),
        forall|i: int, a: int|
            0 <= i < notes@.len() && !r@.contains(i as usize) && 0 <= a < r@.len() ==> !comes_before(
                #[trigger] notes@[i],
                notes@[#[trigger] r@[a] as int],
            ),
{
    let mut order: Vec<usize> = Vec::new();
    let mut i: usize = 0;
    while i < notes.len()
        invariant
            i <= notes@.len(),
            order@.len() == i,
            in_listing_order(notes@, order@),
            forall|a: int| 0 <= a < order@.len() ==> (#[trigger] order@[a]) < i,
            forall|j: usize| j < i ==> #[trigger] order@.contains(j),
        decreases notes@.len() - i,
    {
        let mut p: usize = 0;
        while p < order.len() && !note_comes_before(&notes[i], &notes[order[p]])
            invariant
                p <= order@.len(),
                i < notes@.len(),
                forall|a: int| 0 <= a < order@.len() ==> (#[trigger] order@[a]) < i,
                forall|a: int| 0 <= a < p ==> !comes_before(notes@[i as int], notes@[#[trigger] order@[a] as int]),
            decreases order@.len() - p,
        {
            p += 1;
        }
        let ghost old_order = order@;
        order.insert(p, i);
        proof {
            let x = notes@[i as int];
            assert(order@ =~= old_order.subrange(0, p as int).push(i) + old_order.subrange(p as int, old_order.len() as int));
            assert forall|a: int, b: int|
                0 <= a < b < order@.len() implies !comes_before(notes@[#[trigger] order@[b] as int], notes@[#[trigger] order@[a] as int]) by {
                if a < p && b == p {
                } else if a < p && b > p {
                    assert(order@[b] == old_order[b - 1]);
                } else if a == p && b > p {
                    assert(order@[b] == old_order[b - 1]);
                    let ob = notes@[old_order[b - 1] as int];
                    let op = notes@[old_order[p as int] as int];
                    assert(comes_before(x, op));
                    if b - 1 > p {
                        assert(!comes_before(ob, op));
                    } else {
                        lemma_comes_before_irreflexive(op);
                    }
                    if comes_before(ob, x) {
                        lemma_comes_before_transitive(ob, x, op);
                    }
                } else if a > p {
                    assert(order@[a] == old_order[a - 1] && order@[b] == old_order[b - 1]);
                }
            }
            assert forall|a: int, b: int| 0 <= a < b < order@.len() implies order@[a] != order@[b] by {
                if a < p && b > p {
                    assert(order@[b] == old_order[b - 1]);
                } else if a == p && b > p {
                    assert(order@[b] == old_order[b - 1]);
                } else if a > p {
                    assert(order@[a] == old_order[a - 1] && order@[b] == old_order[b - 1]);
                }
            }
            assert forall|j: usize| j < i + 1 implies #[trigger] order@.contains(j) by {
                if j < i {
                    assert(old_order.contains(j));
                    let k = choose|k: int| 0 <= k < old_order.len() && old_order[k] == j;
                    if k < p {
                        assert(order@[k] == j);
                    } else {
                        assert(order@[k + 1] == j);
                    }
                } else {
                    assert(order@[p as int] == i);
                }
            }
            assert forall|a: int| 0 <= a < order@.len() implies (#[trigger] order@[a]) < i + 1 by {
                if a < p {
                } else if a > p {
                    assert(order@[a] == old_order[a - 1]);
                }
            }
        }
        i += 1;
    }
    let count: usize = match limit {
        Some(n) => if (n as u128) < (order.len() as u128) {
            n as usize
        } else {
            order.len()
        },
        None => order.len(),
    };
    let mut out: Vec<usize> = Vec::new();
    let mut k: usize = 0;
    while k < count
        invariant
            k <= count <= order@.len(),
            out@ == order@.subrange(0, k as int),
        decreases count - k,
    {
        out.push(order[k]);
        proof {
            assert(order@.subrange(0, k + 1) =~= order@.subrange(0, k as int).push(order@[k as int]));
        }
        k += 1;
    }
    proof {
        assert forall|j: int, a: int|
            0 <= j < notes@.len() && !out@.contains(j as usize) && 0 <= a < out@.len() implies !comes_before(
                #[trigger] notes@[j],
                notes@[#[trigger] out@[a] as int],
            ) by {
            assert(order@.contains(j as usize));
            let q = choose|q: int| 0 <= q < order@.len() && order@[q] == j as usize;
            if q < count {
                assert(out@[q] == j as usize);
            }
            assert(out@[a] == order@[a]);
            assert(a < q);
        }
    }
    out
}

} // verus!
