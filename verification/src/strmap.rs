//! A map from strings to values that keeps its keys in lexical order, as the
//! indexes serialize and walk them.
use vstd::prelude::*;

use crate::lexical::{
    chars_lt, lemma_seq_lt_irreflexive, lemma_seq_lt_total, lemma_seq_lt_transitive, seq_lt,
    strictly_sorted,
};
use crate::lexical::views;
use crate::text::{chars_eq, chars_of, owned};

verus! {

/// Keys in strictly increasing order have no key twice.
pub proof fn lemma_sorted_unique(s: Seq<Seq<char>>, i: int, j: int)
    requires
        strictly_sorted(s),
        0 <= i < s.len(),
        0 <= j < s.len(),
        s[i] == s[j],
    ensures
        i == j,
{
    if i < j {
        lemma_seq_lt_irreflexive(s[i]);
    } else if j < i {
        lemma_seq_lt_irreflexive(s[i]);
    }
}

/// A map from strings to values, walked in lexical order of its keys.
#[derive(Debug)]
pub struct StrMap<V> {
    entries: Vec<(String, V)>,
}

impl<V> StrMap<V> {
    /// The keys, in increasing order.
    pub closed spec fn keys(&self) -> Seq<Seq<char>> {
        self.entries@.map_values(|e: (String, V)| e.0@)
    }

    /// The values, in the order of their keys.
    pub closed spec fn values(&self) -> Seq<V> {
        self.entries@.map_values(|e: (String, V)| e.1)
    }

    /// The keys are strictly increasing.
    pub open spec fn wf(&self) -> bool {
        strictly_sorted(self.keys()) && self.values().len() == self.keys().len()
    }

    /// The map itself.
    pub open spec fn view(&self) -> Map<Seq<char>, V> {
        Map::new(
            |k: Seq<char>| self.keys().contains(k),
            |k: Seq<char>| self.values()[self.keys().index_of(k)],
        )
    }

    /// The entry at an index is the map's entry for its key.
    pub proof fn lemma_at(&self, i: int)
        requires
            self.wf(),
            0 <= i < self.keys().len(),
        ensures
            self@.dom().contains(self.keys()[i]),
            self@[self.keys()[i]] == self.values()[i],
    {
        let k = self.keys()[i];
        assert(self.keys().contains(k));
        let j = self.keys().index_of(k);
        lemma_sorted_unique(self.keys(), i, j);
    }

    /// The domain is the set of keys.
    pub proof fn lemma_dom(&self)
        requires
            self.wf(),
        ensures
            self@.dom() == self.keys().to_set(),
            self.keys().no_duplicates(),
            self@.dom().finite(),
            self@.dom().len() == self.keys().len(),
    {
        assert(self@.dom() =~= self.keys().to_set());
        assert forall|i: int, j: int|
            0 <= i < self.keys().len() && 0 <= j < self.keys().len() && i != j implies self.keys()[i]
            != self.keys()[j] by {
            if self.keys()[i] == self.keys()[j] {
                lemma_sorted_unique(self.keys(), i, j);
            }
        }
        self.keys().unique_seq_to_set();
    }

    /// An empty map.
    pub fn new() -> (m: Self)
        ensures
            m.wf(),
            m@ == Map::<Seq<char>, V>::empty(),
            m.keys().len() == 0,
    {
        let m = StrMap { entries: Vec::new() };
        assert(m.keys() =~= Seq::<Seq<char>>::empty());
        assert(m@ =~= Map::<Seq<char>, V>::empty());
        m
    }

    /// How many keys the map has.
    pub fn len(&self) -> (n: usize)
        ensures
            n == self.keys().len(),
    {
        self.entries.len()
    }

    /// The key at an index of the increasing order.
    pub fn key_at(&self, i: usize) -> (k: &String)
        requires
            i < self.keys().len(),
        ensures
            k@ == self.keys()[i as int],
    {
        &self.entries[i].0
    }

    /// The value at an index of the increasing order of keys.
    pub fn value_at(&self, i: usize) -> (v: &V)
        requires
            self.wf(),
            i < self.keys().len(),
        ensures
            *v == self.values()[i as int],
            *v == self@[self.keys()[i as int]],
    {
        proof {
            self.lemma_at(i as int);
        }
        &self.entries[i].1
    }

    /// Where `key` is or would go: every key before that index is smaller.
    fn position(&self, key: &[char]) -> (r: (usize, bool))
        requires
            self.wf(),
        ensures
            r.0 <= self.keys().len(),
            forall|j: int| 0 <= j < r.0 ==> seq_lt(#[trigger] self.keys()[j], key@),
            r.0 < self.keys().len() ==> !seq_lt(self.keys()[r.0 as int], key@),
            r.1 == (r.0 < self.keys().len() && self.keys()[r.0 as int] == key@),
            !r.1 ==> forall|j: int| 0 <= j < self.keys().len() ==> self.keys()[j] != key@,
    {
        let mut i: usize = 0;
        while i < self.entries.len()
            invariant
                self.wf(),
                i <= self.keys().len(),
                self.keys().len() == self.entries@.len(),
                forall|j: int| 0 <= j < i ==> seq_lt(#[trigger] self.keys()[j], key@),
            decreases self.entries@.len() - i,
        {
            let current = chars_of(self.entries[i].0.as_str());
            assert(current@ == self.keys()[i as int]);
            if !chars_lt(current.as_slice(), key) {
                let found = chars_eq(current.as_slice(), key);
                proof {
                    if !found {
                        lemma_seq_lt_total(current@, key@);
                        assert forall|j: int| 0 <= j < self.keys().len() implies self.keys()[j]
                            != key@ by {
                            if j < i {
                                if self.keys()[j] == key@ {
                                    lemma_seq_lt_irreflexive(key@);
                                }
                            } else if j > i {
                                assert(seq_lt(self.keys()[i as int], self.keys()[j]));
                            }
                        }
                    }
                }
                return (i, found);
            }
            i += 1;
        }
        proof {
            assert forall|j: int| 0 <= j < self.keys().len() implies self.keys()[j] != key@ by {
                if self.keys()[j] == key@ {
                    lemma_seq_lt_irreflexive(key@);
                }
            }
        }
        (i, false)
    }

    /// The value of `key`, if the map has one.
    pub fn get(&self, key: &str) -> (r: Option<&V>)
        requires
            self.wf(),
        ensures
            r == (if self@.dom().contains(key@) {
                Some(&self@[key@])
            } else {
                None::<&V>
            }),
    {
        let k = chars_of(key);
        let (i, found) = self.position(k.as_slice());
        if found {
            proof {
                self.lemma_at(i as int);
            }
            Some(&self.entries[i].1)
        } else {
            None
        }
    }

    /// Whether the map has a value for `key`.
    pub fn contains_key(&self, key: &str) -> (r: bool)
        requires
            self.wf(),
        ensures
            r == self@.dom().contains(key@),
    {
        let k = chars_of(key);
        let (_, found) = self.position(k.as_slice());
        found
    }

    proof fn lemma_insert_view(old_map: Self, new_map: Self, i: int, key: Seq<char>, value: V)
        requires
            old_map.wf(),
            0 <= i <= old_map.keys().len(),
            new_map.keys() == old_map.keys().insert(i, key),
            new_map.values() == old_map.values().insert(i, value),
            forall|j: int| 0 <= j < i ==> seq_lt(#[trigger] old_map.keys()[j], key),
            i < old_map.keys().len() ==> seq_lt(key, old_map.keys()[i]),
        ensures
            new_map.wf(),
            new_map@ == old_map@.insert(key, value),
    {
        let ok = old_map.keys();
        let nk = new_map.keys();
        assert forall|a: int, b: int| 0 <= a < b < nk.len() implies seq_lt(
            #[trigger] nk[a],
            #[trigger] nk[b],
        ) by {
            if a < i && b == i {
            } else if a < i && b > i {
                assert(nk[b] == ok[b - 1]);
            } else if a == i && b > i {
                assert(nk[b] == ok[b - 1]);
                if b - 1 > i {
                    assert(seq_lt(ok[i], ok[b - 1]));
                    lemma_seq_lt_transitive(key, ok[i], ok[b - 1]);
                }
            } else if a > i {
                assert(nk[a] == ok[a - 1] && nk[b] == ok[b - 1]);
            }
        }
        assert forall|k: Seq<char>| #[trigger]
            new_map@.dom().contains(k) == old_map@.insert(key, value).dom().contains(k) by {
            if nk.contains(k) {
                let j = choose|j: int| 0 <= j < nk.len() && nk[j] == k;
                if j < i {
                    assert(ok[j] == k);
                } else if j > i {
                    assert(ok[j - 1] == k);
                }
            }
            if ok.contains(k) {
                let j = choose|j: int| 0 <= j < ok.len() && ok[j] == k;
                if j < i {
                    assert(nk[j] == k);
                } else {
                    assert(nk[j + 1] == k);
                }
            }
            if k == key {
                assert(nk[i] == k);
            }
        }
        assert forall|k: Seq<char>| #[trigger] new_map@.dom().contains(k) implies new_map@[k]
            == old_map@.insert(key, value)[k] by {
            let j = choose|j: int| 0 <= j < nk.len() && nk[j] == k;
            new_map.lemma_at(j);
            if j < i {
                old_map.lemma_at(j);
                assert(ok[j] == k);
                lemma_seq_lt_irreflexive(k);
            } else if j > i {
                old_map.lemma_at(j - 1);
                assert(ok[j - 1] == k);
                assert(seq_lt(key, k)) by {
                    if j - 1 > i {
                        lemma_seq_lt_transitive(key, ok[i], ok[j - 1]);
                    }
                }
                lemma_seq_lt_irreflexive(k);
            }
        }
        assert(new_map@ =~= old_map@.insert(key, value));
    }

    proof fn lemma_remove_view(old_map: Self, new_map: Self, i: int)
        requires
            old_map.wf(),
            0 <= i < old_map.keys().len(),
            new_map.keys() == old_map.keys().remove(i),
            new_map.values() == old_map.values().remove(i),
        ensures
            new_map.wf(),
            new_map@ == old_map@.remove(old_map.keys()[i]),
    {
        let ok = old_map.keys();
        let nk = new_map.keys();
        let key = ok[i];
        assert forall|a: int, b: int| 0 <= a < b < nk.len() implies seq_lt(
            #[trigger] nk[a],
            #[trigger] nk[b],
        ) by {
            if a < i && b < i {
            } else if a < i {
                assert(nk[b] == ok[b + 1]);
            } else {
                assert(nk[a] == ok[a + 1] && nk[b] == ok[b + 1]);
            }
        }
        assert forall|k: Seq<char>| #[trigger]
            new_map@.dom().contains(k) == old_map@.remove(key).dom().contains(k) by {
            if nk.contains(k) {
                let j = choose|j: int| 0 <= j < nk.len() && nk[j] == k;
                if j < i {
                    assert(ok[j] == k);
                    if k == key {
                        lemma_sorted_unique(ok, j, i);
                    }
                } else {
                    assert(ok[j + 1] == k);
                    if k == key {
                        lemma_sorted_unique(ok, j + 1, i);
                    }
                }
            }
            if ok.contains(k) && k != key {
                let j = choose|j: int| 0 <= j < ok.len() && ok[j] == k;
                if j < i {
                    assert(nk[j] == k);
                } else {
                    assert(j != i);
                    assert(nk[j - 1] == k);
                }
            }
        }
        assert forall|k: Seq<char>| #[trigger] new_map@.dom().contains(k) implies new_map@[k]
            == old_map@.remove(key)[k] by {
            let j = choose|j: int| 0 <= j < nk.len() && nk[j] == k;
            new_map.lemma_at(j);
            if j < i {
                old_map.lemma_at(j);
            } else {
                old_map.lemma_at(j + 1);
            }
        }
        assert(new_map@ =~= old_map@.remove(key));
    }

    /// Sets the value of `key`, replacing any value it had.
    pub fn insert(&mut self, key: String, value: V)
        requires
            old(self).wf(),
        ensures
            final(self).wf(),
            final(self)@ == old(self)@.insert(key@, value),
    {
        let k = chars_of(key.as_str());
        let (i, found) = self.position(k.as_slice());
        if found {
            let ghost before = *self;
            let _ = self.entries.remove(i);
            let ghost middle = *self;
            proof {
                assert(middle.keys() =~= before.keys().remove(i as int));
                assert(middle.values() =~= before.values().remove(i as int));
                Self::lemma_remove_view(before, middle, i as int);
            }
            self.entries.insert(i, (key, value));
            proof {
                assert(self.keys() =~= middle.keys().insert(i as int, k@));
                assert(self.values() =~= middle.values().insert(i as int, value));
                assert forall|j: int| 0 <= j < i implies seq_lt(#[trigger] middle.keys()[j], k@) by {
                    assert(middle.keys()[j] == before.keys()[j]);
                }
                if i < middle.keys().len() {
                    assert(middle.keys()[i as int] == before.keys()[i + 1]);
                }
                Self::lemma_insert_view(middle, *self, i as int, k@, value);
                assert(self@ =~= before@.insert(key@, value));
            }
        } else {
            let ghost before = *self;
            self.entries.insert(i, (key, value));
            proof {
                assert(self.keys() =~= before.keys().insert(i as int, k@));
                assert(self.values() =~= before.values().insert(i as int, value));
                if i < before.keys().len() {
                    lemma_seq_lt_total(before.keys()[i as int], k@);
                }
                Self::lemma_insert_view(before, *self, i as int, k@, value);
            }
        }
    }

    /// Removes `key` and hands back its value, if the map has it.
    pub fn take(&mut self, key: &str) -> (r: Option<V>)
        requires
            old(self).wf(),
        ensures
            final(self).wf(),
            final(self)@ == old(self)@.remove(key@),
            r == (if old(self)@.dom().contains(key@) {
                Some(old(self)@[key@])
            } else {
                None::<V>
            }),
    {
        let k = chars_of(key);
        let (i, found) = self.position(k.as_slice());
        if found {
            let ghost before = *self;
            proof {
                before.lemma_at(i as int);
            }
            let (_, value) = self.entries.remove(i);
            proof {
                assert(self.keys() =~= before.keys().remove(i as int));
                assert(self.values() =~= before.values().remove(i as int));
                Self::lemma_remove_view(before, *self, i as int);
            }
            Some(value)
        } else {
            proof {
                assert(self@.remove(key@) =~= self@);
            }
            None
        }
    }

    /// Removes `key` and its value, if the map has it.
    pub fn remove(&mut self, key: &str)
        requires
            old(self).wf(),
        ensures
            final(self).wf(),
            final(self)@ == old(self)@.remove(key@),
    {
        let k = chars_of(key);
        let (i, found) = self.position(k.as_slice());
        if found {
            let ghost before = *self;
            let _ = self.entries.remove(i);
            proof {
                assert(self.keys() =~= before.keys().remove(i as int));
                assert(self.values() =~= before.values().remove(i as int));
                Self::lemma_remove_view(before, *self, i as int);
            }
        } else {
            proof {
                assert(!self@.dom().contains(key@));
                assert(self@.remove(key@) =~= self@);
            }
        }
    }
}

/// A map of lists with `item` appended to the list of `key`, which starts
/// empty if `key` had none.
pub open spec fn push_item(
    m: Map<Seq<char>, Seq<Seq<char>>>,
    key: Seq<char>,
    item: Seq<char>,
) -> Map<Seq<char>, Seq<Seq<char>>> {
    m.insert(
        key,
        (if m.dom().contains(key) {
            m[key]
        } else {
            Seq::empty()
        }).push(item),
    )
}

/// `item` appended, in turn, to the list of each key of `keys`.
pub open spec fn push_item_under(
    m: Map<Seq<char>, Seq<Seq<char>>>,
    keys: Seq<Seq<char>>,
    item: Seq<char>,
) -> Map<Seq<char>, Seq<Seq<char>>>
    decreases keys.len(),
{
    if keys.len() == 0 {
        m
    } else {
        push_item(push_item_under(m, keys.drop_last(), item), keys.last(), item)
    }
}

impl StrMap<Vec<String>> {
    /// The lists of the map, each as the sequence of its strings.
    pub open spec fn lists(&self) -> Map<Seq<char>, Seq<Seq<char>>> {
        self@.map_values(|v: Vec<String>| views(v@))
    }

    /// Appends `item` to the list of `key`, creating the list if needed.
    pub fn push_to(&mut self, key: &str, item: String)
        requires
            old(self).wf(),
        ensures
            final(self).wf(),
            final(self).lists() == push_item(old(self).lists(), key@, item@),
    {
        let k = chars_of(key);
        let (i, found) = self.position(k.as_slice());
        let ghost before = *self;
        if found {
            let (name, mut list) = self.entries.remove(i);
            proof {
                assert(self.keys() =~= before.keys().remove(i as int));
                assert(self.values() =~= before.values().remove(i as int));
                Self::lemma_remove_view(before, *self, i as int);
                before.lemma_at(i as int);
                assert(name@ == key@);
            }
            let ghost old_list = list;
            list.push(item);
            self.insert(name, list);
            proof {
                assert(views(list@) =~= views(old_list@).push(item@));
                assert(self@ =~= before@.insert(key@, list));
                assert(self.lists() =~= push_item(before.lists(), key@, item@));
            }
        } else {
            let mut list: Vec<String> = Vec::new();
            list.push(item);
            self.insert(owned(key), list);
            proof {
                assert(views(list@) =~= Seq::<Seq<char>>::empty().push(item@));
                assert(self.lists() =~= push_item(before.lists(), key@, item@));
            }
        }
    }

    /// Appends `item`, in turn, to the list of each key of `keys`.
    pub fn push_under(&mut self, keys: &Vec<String>, item: &String)
        requires
            old(self).wf(),
        ensures
            final(self).wf(),
            final(self).lists() == push_item_under(old(self).lists(), views(keys@), item@),
    {
        let ghost start = self.lists();
        let mut i: usize = 0;
        while i < keys.len()
            invariant
                self.wf(),
                i <= keys@.len(),
                self.lists() == push_item_under(
                    start,
                    views(keys@).subrange(0, i as int),
                    item@,
                ),
            decreases keys@.len() - i,
        {
            proof {
                assert(views(keys@).subrange(0, i + 1).drop_last() =~= views(keys@).subrange(
                    0,
                    i as int,
                ));
            }
            self.push_to(keys[i].as_str(), item.clone());
            i += 1;
        }
        proof {
            assert(views(keys@).subrange(0, keys@.len() as int) =~= views(keys@));
        }
    }
}

} // verus!
