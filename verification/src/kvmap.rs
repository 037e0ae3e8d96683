//! A string-keyed association vector, viewed as a `Map<Seq<char>, _>`.
//!
//! Both the debouncer's pending table and the index's document tables need
//! insert-or-update semantics with at most one entry per key. This module
//! provides that once: a `Vec` of entries whose keys are pairwise distinct,
//! together with the lemmas that relate the vector to its map view.

use vstd::prelude::*;

use crate::strutil::str_eq_str;

verus! {

/// One key/value pair of a [`KvVec`].
pub struct KvEntry<V> {
    pub key: String,
    pub val: V,
}

/// The map described by a sequence of entries; a later entry for the same
/// key would win, though well-formed vectors never hold two.
pub open spec fn kv_map<V: View>(s: Seq<KvEntry<V>>) -> Map<Seq<char>, V::V>
    decreases s.len(),
{
    if s.len() == 0 {
        Map::empty()
    } else {
        kv_map(s.drop_last()).insert(s.last().key@, s.last().val@)
    }
}

/// No two entries share a key.
pub open spec fn keys_distinct<V>(s: Seq<KvEntry<V>>) -> bool {
    forall|i: int, j: int| 0 <= i < j < s.len() ==> s[i].key@ != s[j].key@
}

/// An insert-or-update table with at most one entry per key.
pub struct KvVec<V> {
    pub entries: Vec<KvEntry<V>>,
}

impl<V: View> View for KvVec<V> {
    type V = Map<Seq<char>, <V as View>::V>;

    open spec fn view(&self) -> Map<Seq<char>, <V as View>::V> {
        kv_map(self.entries@)
    }
}

/// The domain of `kv_map(s)` is exactly the set of keys in `s`, and the
/// map is always finite.
pub proof fn lemma_kv_map_dom<V: View>(s: Seq<KvEntry<V>>)
    ensures
        kv_map(s).dom().finite(),
        forall|k: Seq<char>|
            kv_map(s).contains_key(k) <==> exists|i: int| 0 <= i < s.len() && s[i].key@ == k,
    decreases s.len(),
{
    if s.len() == 0 {
    } else {
        lemma_kv_map_dom(s.drop_last());
        assert forall|k: Seq<char>| kv_map(s).contains_key(k) implies exists|i: int|
            0 <= i < s.len() && s[i].key@ == k by {
            if k == s.last().key@ {
                assert(s[s.len() - 1].key@ == k);
            } else {
                let i = choose|i: int| 0 <= i < s.drop_last().len() && s.drop_last()[i].key@ == k;
                assert(s[i].key@ == k);
            }
        }
        assert forall|k: Seq<char>|
            (exists|i: int| 0 <= i < s.len() && s[i].key@ == k) implies kv_map(s).contains_key(
            k,
        ) by {
            let i = choose|i: int| 0 <= i < s.len() && s[i].key@ == k;
            if i < s.len() - 1 {
                assert(s.drop_last()[i].key@ == k);
            }
        }
    }
}

/// In a well-formed vector every entry is visible in the map view.
pub proof fn lemma_kv_map_values<V: View>(s: Seq<KvEntry<V>>)
    requires
        keys_distinct(s),
    ensures
        forall|i: int|
            0 <= i < s.len() ==> kv_map(s).contains_key(#[trigger] s[i].key@) && kv_map(s)[s[i].key@]
                == s[i].val@,
    decreases s.len(),
{
    if s.len() == 0 {
    } else {
        lemma_kv_map_values(s.drop_last());
        assert forall|i: int| 0 <= i < s.len() implies kv_map(s).contains_key(#[trigger] s[i].key@)
            && kv_map(s)[s[i].key@] == s[i].val@ by {
            if i < s.len() - 1 {
                assert(s.drop_last()[i] == s[i]);
                assert(s[i].key@ != s.last().key@);
            }
        }
    }
}

/// A well-formed vector and its map view have the same size.
pub proof fn lemma_kv_map_len<V: View>(s: Seq<KvEntry<V>>)
    requires
        keys_distinct(s),
    ensures
        kv_map(s).len() == s.len(),
    decreases s.len(),
{
    broadcast use vstd::set::group_set_axioms;

    if s.len() == 0 {
        assert(kv_map(s).dom() =~= Set::empty());
    } else {
        lemma_kv_map_len(s.drop_last());
        lemma_kv_map_dom(s.drop_last());
        assert(!kv_map(s.drop_last()).contains_key(s.last().key@)) by {
            if kv_map(s.drop_last()).contains_key(s.last().key@) {
                let i = choose|i: int|
                    0 <= i < s.drop_last().len() && s.drop_last()[i].key@ == s.last().key@;
                assert(s[i].key@ == s[s.len() - 1].key@);
            }
        }
        assert(kv_map(s).dom() =~= kv_map(s.drop_last()).dom().insert(s.last().key@));
    }
}

/// Updating the entry that holds a key updates the map view at that key.
pub proof fn lemma_kv_map_update<V: View>(s: Seq<KvEntry<V>>, i: int, e: KvEntry<V>)
    requires
        keys_distinct(s),
        0 <= i < s.len(),
        e.key@ == s[i].key@,
    ensures
        kv_map(s.update(i, e)) =~= kv_map(s).insert(e.key@, e.val@),
        keys_distinct(s.update(i, e)),
    decreases s.len(),
{
    let t = s.update(i, e);
    assert(keys_distinct(t)) by {
        assert forall|p: int, q: int| 0 <= p < q < t.len() implies t[p].key@ != t[q].key@ by {
            assert(t[p].key@ == s[p].key@ && t[q].key@ == s[q].key@);
        }
    }
    if i == s.len() - 1 {
        assert(t.drop_last() =~= s.drop_last());
        assert(t.last() == e);
        assert(kv_map(t) =~= kv_map(s).insert(e.key@, e.val@));
    } else {
        assert(t.drop_last() =~= s.drop_last().update(i, e));
        assert(t.last() == s.last());
        lemma_kv_map_update(s.drop_last(), i, e);
        assert(kv_map(t) =~= kv_map(s.drop_last()).insert(e.key@, e.val@).insert(
            s.last().key@,
            s.last().val@,
        ));
        assert(e.key@ != s.last().key@) by {
            assert(s[i].key@ != s[s.len() - 1].key@);
        }
        assert(kv_map(s.drop_last()).insert(e.key@, e.val@).insert(s.last().key@, s.last().val@)
            =~= kv_map(s).insert(e.key@, e.val@));
    }
}

/// Removing the entry that holds a key removes that key from the map view.
pub proof fn lemma_kv_map_remove<V: View>(s: Seq<KvEntry<V>>, i: int)
    requires
        keys_distinct(s),
        0 <= i < s.len(),
    ensures
        kv_map(s.remove(i)) =~= kv_map(s).remove(s[i].key@),
        keys_distinct(s.remove(i)),
    decreases s.len(),
{
    let t = s.remove(i);
    assert(keys_distinct(t)) by {
        assert forall|p: int, q: int| 0 <= p < q < t.len() implies t[p].key@ != t[q].key@ by {
            let sp: int = if p < i {
                p
            } else {
                p + 1
            };
            let sq: int = if q < i {
                q
            } else {
                q + 1
            };
            assert(t[p] == s[sp] && t[q] == s[sq]);
        }
    }
    lemma_kv_map_dom(s.drop_last());
    if i == s.len() - 1 {
        assert(t =~= s.drop_last());
        assert(!kv_map(s.drop_last()).contains_key(s.last().key@)) by {
            if kv_map(s.drop_last()).contains_key(s.last().key@) {
                let j = choose|j: int|
                    0 <= j < s.drop_last().len() && s.drop_last()[j].key@ == s.last().key@;
                assert(s[j].key@ == s[s.len() - 1].key@);
            }
        }
        assert(kv_map(t) =~= kv_map(s).remove(s[i].key@));
    } else {
        assert(t.drop_last() =~= s.drop_last().remove(i));
        assert(t.last() == s.last());
        lemma_kv_map_remove(s.drop_last(), i);
        assert(s[i].key@ != s.last().key@) by {
            assert(s[i].key@ != s[s.len() - 1].key@);
        }
        assert(s.drop_last()[i] == s[i]);
        assert(kv_map(t) =~= kv_map(s.drop_last()).remove(s[i].key@).insert(
            s.last().key@,
            s.last().val@,
        ));
        assert(kv_map(s.drop_last()).remove(s[i].key@).insert(s.last().key@, s.last().val@)
            =~= kv_map(s).remove(s[i].key@));
    }
}

impl<V: View> KvVec<V> {
    /// Well-formedness: at most one entry per key.
    pub open spec fn wf(self) -> bool {
        keys_distinct(self.entries@)
    }

    /// An empty table.
    pub fn new() -> (r: KvVec<V>)
        ensures
            r.wf(),
            r@ =~= Map::<Seq<char>, <V as View>::V>::empty(),
            r.entries@.len() == 0,
    {
        KvVec { entries: Vec::new() }
    }

    /// The index of the entry holding `k`, if one does.
    pub fn find_index(&self, k: &str) -> (r: Option<usize>)
        ensures
            match r {
                Some(i) => i < self.entries@.len() && self.entries@[i as int].key@ == k@,
                None => forall|i: int| 0 <= i < self.entries@.len() ==> self.entries@[i].key@ != k@,
            },
    {
        let n = self.entries.len();
        let mut i: usize = 0;
        while i < n
            invariant
                n == self.entries@.len(),
                i <= n,
                forall|j: int| 0 <= j < i ==> self.entries@[j].key@ != k@,
            decreases n - i,
        {
            if str_eq_str(self.entries[i].key.as_str(), k) {
                return Some(i);
            }
            i = i + 1;
        }
        None
    }

    /// The number of keys in the table.
    pub fn len(&self) -> (r: usize)
        requires
            self.wf(),
        ensures
            r == self@.len(),
    {
        proof {
            lemma_kv_map_len(self.entries@);
        }
        self.entries.len()
    }

    /// Whether `k` has an entry.
    pub fn contains(&self, k: &str) -> (r: bool)
        requires
            self.wf(),
        ensures
            r == self@.contains_key(k@),
    {
        proof {
            lemma_kv_map_dom(self.entries@);
        }
        self.find_index(k).is_some()
    }

    /// The value stored for `k`, if any.
    pub fn get(&self, k: &str) -> (r: Option<&V>)
        requires
            self.wf(),
        ensures
            match r {
                Some(v) => self@.contains_key(k@) && v@ == self@[k@],
                None => !self@.contains_key(k@),
            },
    {
        proof {
            lemma_kv_map_dom(self.entries@);
            lemma_kv_map_values(self.entries@);
        }
        match self.find_index(k) {
            Some(i) => Some(&self.entries[i].val),
            None => None,
        }
    }

    /// Inserts or updates the value for `k`.
    pub fn insert(&mut self, k: String, v: V)
        requires
            old(self).wf(),
        ensures
            final(self).wf(),
            final(self)@ =~= old(self)@.insert(k@, v@),
    {
        let idx = self.find_index(k.as_str());
        match idx {
            Some(i) => {
                proof {
                    lemma_kv_map_update(self.entries@, i as int, KvEntry { key: k, val: v });
                }
                self.entries.set(i, KvEntry { key: k, val: v });
            },
            None => {
                proof {
                    let s = self.entries@;
                    let e = KvEntry { key: k, val: v };
                    assert(s.push(e).drop_last() =~= s);
                    assert(forall|i: int, j: int|
                        0 <= i < j < s.push(e).len() ==> s.push(e)[i].key@ != s.push(e)[j].key@);
                }
                self.entries.push(KvEntry { key: k, val: v });
            },
        }
    }

    /// Removes the entry for `k`, if any.
    pub fn remove(&mut self, k: &str)
        requires
            old(self).wf(),
        ensures
            final(self).wf(),
            final(self)@ =~= old(self)@.remove(k@),
    {
        proof {
            lemma_kv_map_dom(self.entries@);
        }
        let idx = self.find_index(k);
        match idx {
            Some(i) => {
                proof {
                    lemma_kv_map_remove(self.entries@, i as int);
                }
                self.entries.remove(i);
            },
            None => {
                proof {
                    assert(!self@.contains_key(k@));
                    assert(self@ =~= self@.remove(k@));
                }
            },
        }
    }

    /// Drops every entry.
    pub fn clear(&mut self)
        ensures
            final(self).wf(),
            final(self)@ =~= Map::<Seq<char>, <V as View>::V>::empty(),
            final(self).entries@.len() == 0,
    {
        self.entries.clear();
    }
}

} // verus!
