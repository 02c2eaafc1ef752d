//! What the value tables (tags, sources, links and memberships) give back
//! when the rows an index was saved to are read again.
use vstd::multiset::Multiset;
use vstd::prelude::*;

use crate::index::{
    add_value, member_ids, note_value_rows, rows_of, saved_value_rows, value_views,
    with_values, CollectionMeta, Index, NoteView, SavedRows,
};
use crate::lexical::seq_lt;

verus! {

/// The values of the `(note id, value)` rows of one note, in row order.
pub open spec fn values_for(rows: Seq<(Seq<char>, Seq<char>)>, id: Seq<char>) -> Seq<Seq<char>>
    decreases rows.len(),
{
    if rows.len() == 0 {
        Seq::empty()
    } else {
        let before = values_for(rows.drop_last(), id);
        if rows.last().0 == id {
            before.push(rows.last().1)
        } else {
            before
        }
    }
}

/// The tags (0), sources (1), links (2) or collections (3) of a note.
pub open spec fn field_values(n: NoteView, which: int) -> Seq<Seq<char>> {
    if which == 0 {
        n.tags
    } else if which == 1 {
        n.sources
    } else if which == 2 {
        n.links
    } else {
        n.collections
    }
}

/// What a note writes to a value table: its tags (0), sources (1), links (2)
/// or the ids of its collections (3).
pub open spec fn saved_values(
    n: NoteView,
    which: int,
    collections: Map<Seq<char>, CollectionMeta>,
) -> Seq<Seq<char>> {
    if which == 3 {
        member_ids(n.collections, collections)
    } else {
        field_values(n, which)
    }
}

/// Rows in order of note id, then value.
pub open spec fn rows_in_order(rows: Seq<(Seq<char>, Seq<char>)>) -> bool {
    forall|i: int, j: int|
        0 <= i < j < rows.len() ==> !(seq_lt(#[trigger] rows[j].0, #[trigger] rows[i].0) || (rows[j].0
            == rows[i].0 && seq_lt(rows[j].1, rows[i].1)))
}

/// Values in increasing order, equal ones allowed.
pub open spec fn values_in_order(values: Seq<Seq<char>>) -> bool {
    forall|i: int, j: int| 0 <= i < j < values.len() ==> !seq_lt(#[trigger] values[j], #[trigger] values[i])
}

proof fn lemma_with_values(
    m: Map<Seq<char>, NoteView>,
    rows: Seq<(Seq<char>, Seq<char>)>,
    which: int,
    id: Seq<char>,
)
    requires
        0 <= which <= 3,
        m.dom().contains(id),
    ensures
        with_values(m, rows, which).dom() == m.dom(),
        field_values(with_values(m, rows, which)[id], which) == field_values(m[id], which)
            + values_for(rows, id),
    decreases rows.len(),
{
    if rows.len() == 0 {
        assert(field_values(m[id], which) + values_for(rows, id) =~= field_values(m[id], which));
    } else {
        lemma_with_values(m, rows.drop_last(), which, id);
        let before = with_values(m, rows.drop_last(), which);
        let (k, v) = rows.last();
        if before.dom().contains(k) {
            assert(before.insert(k, add_value(before[k], which, v)).dom() =~= before.dom());
            if k == id {
                assert(field_values(add_value(before[k], which, v), which) =~= field_values(
                    before[k],
                    which,
                ).push(v));
                assert(field_values(m[id], which) + values_for(rows, id) =~= (field_values(
                    m[id],
                    which,
                ) + values_for(rows.drop_last(), id)).push(v));
            }
        }
    }
}

proof fn lemma_values_for_concat(a: Seq<(Seq<char>, Seq<char>)>, b: Seq<(Seq<char>, Seq<char>)>, id: Seq<char>)
    ensures
        values_for(a + b, id) == values_for(a, id) + values_for(b, id),
    decreases b.len(),
{
    if b.len() == 0 {
        assert(a + b =~= a);
        assert(values_for(a, id) + values_for(b, id) =~= values_for(a, id));
    } else {
        lemma_values_for_concat(a, b.drop_last(), id);
        assert((a + b).drop_last() =~= a + b.drop_last());
        assert((a + b).last() == b.last());
        if b.last().0 == id {
            assert(values_for(a, id) + values_for(b, id) =~= (values_for(a, id) + values_for(
                b.drop_last(),
                id,
            )).push(b.last().1));
        }
    }
}

proof fn lemma_values_for_rows_of(owner: Seq<char>, vs: Seq<Seq<char>>, id: Seq<char>)
    ensures
        values_for(rows_of(owner, vs), id) == if owner == id {
            vs
        } else {
            Seq::empty()
        },
    decreases vs.len(),
{
    if vs.len() > 0 {
        lemma_values_for_rows_of(owner, vs.drop_last(), id);
        assert(rows_of(owner, vs).drop_last() =~= rows_of(owner, vs.drop_last()));
        if owner == id {
            assert(vs.drop_last().push(vs.last()) =~= vs);
        }
    } else {
        assert(rows_of(owner, vs) =~= Seq::<(Seq<char>, Seq<char>)>::empty());
    }
}

proof fn lemma_values_for_saved(
    notes: Seq<NoteView>,
    which: int,
    cm: Map<Seq<char>, CollectionMeta>,
    j: int,
)
    requires
        0 <= which <= 3,
        0 <= j < notes.len(),
        forall|a: int, b: int|
            0 <= a < notes.len() && 0 <= b < notes.len() && a != b ==> (#[trigger] notes[a]).id
                != (#[trigger] notes[b]).id,
    ensures
        values_for(saved_value_rows(notes, which, cm), notes[j].id) == saved_values(notes[j], which, cm),
    decreases notes.len(),
{
    let id = notes[j].id;
    let last = notes.last();
    let init = notes.drop_last();
    lemma_values_for_concat(saved_value_rows(init, which, cm), note_value_rows(last, which, cm), id);
    lemma_values_for_rows_of(last.id, saved_values(last, which, cm), id);
    assert(note_value_rows(last, which, cm) == rows_of(last.id, saved_values(last, which, cm)));
    if j == notes.len() - 1 {
        lemma_values_for_absent(init, which, cm, id);
        assert(Seq::<Seq<char>>::empty() + saved_values(last, which, cm) =~= saved_values(
            last,
            which,
            cm,
        ));
    } else {
        assert(init[j] == notes[j]);
        assert(last.id != id);
        lemma_values_for_saved(init, which, cm, j);
        assert(values_for(saved_value_rows(init, which, cm), id) + Seq::<Seq<char>>::empty()
            =~= values_for(saved_value_rows(init, which, cm), id));
    }
}

proof fn lemma_values_for_absent(
    notes: Seq<NoteView>,
    which: int,
    cm: Map<Seq<char>, CollectionMeta>,
    id: Seq<char>,
)
    requires
        0 <= which <= 3,
        forall|a: int| 0 <= a < notes.len() ==> (#[trigger] notes[a]).id != id,
    ensures
        values_for(saved_value_rows(notes, which, cm), id) == Seq::<Seq<char>>::empty(),
    decreases notes.len(),
{
    if notes.len() > 0 {
        let last = notes.last();
        let init = notes.drop_last();
        assert(forall|a: int| 0 <= a < init.len() ==> (#[trigger] init[a]) == notes[a]);
        lemma_values_for_absent(init, which, cm, id);
        lemma_values_for_concat(saved_value_rows(init, which, cm), note_value_rows(last, which, cm), id);
        lemma_values_for_rows_of(last.id, saved_values(last, which, cm), id);
        assert(note_value_rows(last, which, cm) == rows_of(last.id, saved_values(last, which, cm)));
        assert(Seq::<Seq<char>>::empty() + Seq::<Seq<char>>::empty() =~= Seq::<Seq<char>>::empty());
    }
}

proof fn lemma_values_for_count(rows: Seq<(Seq<char>, Seq<char>)>, id: Seq<char>, v: Seq<char>)
    ensures
        values_for(rows, id).to_multiset().count(v) == rows.to_multiset().count((id, v)),
    decreases rows.len(),
{
    broadcast use vstd::seq_lib::group_to_multiset_ensures;

    if rows.len() == 0 {
        assert(values_for(rows, id).to_multiset() =~= Multiset::empty());
        assert(rows.to_multiset() =~= Multiset::empty());
    } else {
        lemma_values_for_count(rows.drop_last(), id, v);
        assert(rows.drop_last().push(rows.last()) =~= rows);
        let before = values_for(rows.drop_last(), id);
        if rows.last().0 == id {
            assert(before.push(rows.last().1).to_multiset() =~= before.to_multiset().insert(rows.last().1));
        }
        assert(rows.drop_last().push(rows.last()).to_multiset() =~= rows.drop_last().to_multiset().insert(
            rows.last(),
        ));
    }
}

proof fn lemma_values_for_member(rows: Seq<(Seq<char>, Seq<char>)>, id: Seq<char>, k: int)
    requires
        0 <= k < values_for(rows, id).len(),
    ensures
        exists|i: int| 0 <= i < rows.len() && #[trigger] rows[i] == (id, values_for(rows, id)[k]),
    decreases rows.len(),
{
    let before = values_for(rows.drop_last(), id);
    if k < before.len() {
        lemma_values_for_member(rows.drop_last(), id, k);
        let i = choose|i: int|
            0 <= i < rows.drop_last().len() && #[trigger] rows.drop_last()[i] == (id, before[k]);
        assert(rows[i] == rows.drop_last()[i]);
    } else {
        assert(rows[rows.len() - 1] == (id, values_for(rows, id)[k]));
    }
}

proof fn lemma_values_for_in_order(rows: Seq<(Seq<char>, Seq<char>)>, id: Seq<char>)
    requires
        rows_in_order(rows),
    ensures
        values_in_order(values_for(rows, id)),
    decreases rows.len(),
{
    if rows.len() > 0 {
        let init = rows.drop_last();
        assert forall|i: int, j: int| 0 <= i < j < init.len() implies !(seq_lt(
            #[trigger] init[j].0,
            #[trigger] init[i].0,
        ) || (init[j].0 == init[i].0 && seq_lt(init[j].1, init[i].1))) by {
            assert(init[i] == rows[i] && init[j] == rows[j]);
        }
        lemma_values_for_in_order(init, id);
        let before = values_for(init, id);
        if rows.last().0 == id {
            let vs = values_for(rows, id);
            assert forall|i: int, j: int| 0 <= i < j < vs.len() implies !seq_lt(
                #[trigger] vs[j],
                #[trigger] vs[i],
            ) by {
                if j < before.len() {
                    assert(vs[i] == before[i] && vs[j] == before[j]);
                } else {
                    lemma_values_for_member(init, id, i);
                    let a = choose|a: int| 0 <= a < init.len() && #[trigger] init[a] == (id, before[i]);
                    assert(rows[a] == init[a]);
                    let b = rows.len() - 1;
                    assert(rows[b] == (id, vs[j]));
                    assert(a < b);
                    assert(vs[i] == before[i]);
                    assert(!(seq_lt(rows[b].0, rows[a].0) || (rows[b].0 == rows[a].0 && seq_lt(
                        rows[b].1,
                        rows[a].1,
                    ))));
                }
            }
        }
    }
}

/// A value table saved from an index and read back in any row order gives
/// each note its values again, each as often as before (tags, sources and
/// links as they were; collections as the ids of its collections); read back
/// in order of note id and value, the values come in increasing order. Here
/// `base` holds the notes read back before their values are added.
pub proof fn law_saved_values_read_back(
    index: Index,
    rows: SavedRows,
    base: Map<Seq<char>, NoteView>,
    read: Seq<(Seq<char>, Seq<char>)>,
    which: int,
)
    requires
        index.wf(),
        rows.saved_from(&index),
        forall|k: Seq<char>| #[trigger] index.notes@.dom().contains(k) ==> index.notes@[k].id@ == k,
        0 <= which <= 3,
        read.to_multiset() == saved_value_rows(value_views(index.notes.values()), which, index.collections@).to_multiset(),
        base.dom() == index.notes@.dom(),
        forall|k: Seq<char>| #[trigger] base.dom().contains(k) ==> field_values(base[k], which).len() == 0,
    ensures
        forall|k: Seq<char>, v: Seq<char>|
            #[trigger] index.notes@.dom().contains(k) ==> #[trigger] field_values(
                with_values(base, read, which)[k],
                which,
            ).to_multiset().count(v) == saved_values(index.notes@[k]@, which, index.collections@).to_multiset().count(v),
        rows_in_order(read) ==> forall|k: Seq<char>|
            #[trigger] index.notes@.dom().contains(k) ==> values_in_order(
                field_values(with_values(base, read, which)[k], which),
            ),
{
    let m = index.notes;
    let cm = index.collections@;
    let notes = value_views(m.values());
    let saved = saved_value_rows(notes, which, cm);
    m.lemma_dom();
    assert forall|a: int, b: int|
        0 <= a < notes.len() && 0 <= b < notes.len() && a != b implies (#[trigger] notes[a]).id
        != (#[trigger] notes[b]).id by {
        m.lemma_at(a);
        m.lemma_at(b);
    }
    assert forall|k: Seq<char>, v: Seq<char>|
        #[trigger] index.notes@.dom().contains(k) implies #[trigger] field_values(
            with_values(base, read, which)[k],
            which,
        ).to_multiset().count(v) == saved_values(index.notes@[k]@, which, cm).to_multiset().count(v) by {
        lemma_with_values(base, read, which, k);
        assert(field_values(base[k], which) + values_for(read, k) =~= values_for(read, k));
        assert(m.keys().contains(k));
        let j = choose|j: int| 0 <= j < m.keys().len() && m.keys()[j] == k;
        m.lemma_at(j);
        assert(notes[j] == m.values()[j]@);
        assert(notes[j].id == k);
        lemma_values_for_saved(notes, which, cm, j);
        lemma_values_for_count(read, k, v);
        lemma_values_for_count(saved, k, v);
    }
    if rows_in_order(read) {
        assert forall|k: Seq<char>| #[trigger] index.notes@.dom().contains(k) implies values_in_order(
            field_values(with_values(base, read, which)[k], which),
        ) by {
            lemma_with_values(base, read, which, k);
            assert(field_values(base[k], which) + values_for(read, k) =~= values_for(read, k));
            lemma_values_for_in_order(read, k);
        }
    }
}

} // verus!
