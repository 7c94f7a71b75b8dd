//! A map from `u32` keys kept as a vector sorted by key, so that walking it
//! visits keys in increasing order.

use vstd::prelude::*;

verus! {

/// Keys strictly increase along the sequence.
pub open spec fn keys_sorted<V>(s: Seq<(u32, V)>) -> bool {
    forall|i: int, j: int| 0 <= i < j < s.len() ==> (#[trigger] s[i]).0 < (#[trigger] s[j]).0
}

/// Whether some entry of `s` has key `k`.
pub open spec fn seq_has<V>(s: Seq<(u32, V)>, k: u32) -> bool {
    exists|i: int| 0 <= i < s.len() && (#[trigger] s[i]).0 == k
}

/// The entries of `s`, read as a map.
pub open spec fn seq_map<V>(s: Seq<(u32, V)>) -> Map<u32, V> {
    Map::new(
        |k: u32| seq_has(s, k),
        |k: u32| s[choose|i: int| 0 <= i < s.len() && (#[trigger] s[i]).0 == k].1,
    )
}

pub struct SortedMap<V> {
    entries: Vec<(u32, V)>,
}

impl<V> View for SortedMap<V> {
    type V = Map<u32, V>;

    open spec fn view(&self) -> Map<u32, V> {
        seq_map(self.entries())
    }
}

/// In a sorted sequence the entry with a key is unique.
pub proof fn lemma_sorted_lookup<V>(s: Seq<(u32, V)>, i: int)
    requires
        keys_sorted(s),
        0 <= i < s.len(),
    ensures
        seq_has(s, s[i].0),
        seq_map(s).contains_key(s[i].0),
        seq_map(s)[s[i].0] == s[i].1,
{
    assert(seq_has(s, s[i].0));
    let j = choose|j: int| 0 <= j < s.len() && (#[trigger] s[j]).0 == s[i].0;
    if j < i {
        assert(s[j].0 < s[i].0);
    } else if j > i {
        assert(s[i].0 < s[j].0);
    }
}

impl<V> SortedMap<V> {
    /// The entries, in increasing key order.
    pub closed spec fn entries(&self) -> Seq<(u32, V)> {
        self.entries@
    }

    pub open spec fn wf(&self) -> bool {
        keys_sorted(self.entries())
    }

    pub fn new() -> (m: SortedMap<V>)
        ensures
            m.wf(),
            m.entries() == Seq::<(u32, V)>::empty(),
            m@ == Map::<u32, V>::empty(),
    {
        let m = SortedMap { entries: Vec::new() };
        assert(m@ =~= Map::<u32, V>::empty());
        m
    }

    pub fn len(&self) -> (n: usize)
        ensures
            n == self.entries().len(),
    {
        self.entries.len()
    }

    /// Entry `i` in key order.
    pub fn at(&self, i: usize) -> (e: &(u32, V))
        requires
            i < self.entries().len(),
        ensures
            *e == self.entries()[i as int],
    {
        &self.entries[i]
    }

    /// The position of key `k`, or where it would be inserted.
    pub fn search(&self, k: u32) -> (r: (bool, usize))
        requires
            self.wf(),
        ensures
            r.1 <= self.entries().len(),
            r.0 ==> r.1 < self.entries().len() && self.entries()[r.1 as int].0 == k,
            !r.0 ==> forall|i: int| 0 <= i < r.1 ==> (#[trigger] self.entries()[i]).0 < k,
            !r.0 ==> forall|i: int| r.1 <= i < self.entries().len() ==> (#[trigger] self.entries()[i]).0 > k,
    {
        let mut lo: usize = 0;
        let mut hi: usize = self.entries.len();
        while lo < hi
            invariant
                self.wf(),
                lo <= hi <= self.entries@.len(),
                forall|i: int| 0 <= i < lo ==> (#[trigger] self.entries@[i]).0 < k,
                forall|i: int| hi <= i < self.entries@.len() ==> (#[trigger] self.entries@[i]).0 > k,
            decreases hi - lo,
        {
            let mid = lo + (hi - lo) / 2;
            let key = self.entries[mid].0;
            if key == k {
                return (true, mid);
            } else if key < k {
                lo = mid + 1;
            } else {
                hi = mid;
            }
        }
        (false, lo)
    }

    pub fn contains_key(&self, k: u32) -> (r: bool)
        requires
            self.wf(),
        ensures
            r == self@.contains_key(k),
    {
        let (found, at) = self.search(k);
        proof {
            if found {
                lemma_sorted_lookup(self.entries(), at as int);
            }
        }
        found
    }

    pub fn get(&self, k: u32) -> (r: Option<&V>)
        requires
            self.wf(),
        ensures
            r is Some <==> self@.contains_key(k),
            r matches Some(v) ==> *v == self@[k],
    {
        let (found, at) = self.search(k);
        if found {
            proof {
                lemma_sorted_lookup(self.entries(), at as int);
            }
            Some(&self.entries[at].1)
        } else {
            None
        }
    }

    /// Set `k` to `v`, replacing any value it had.
    pub fn insert(&mut self, k: u32, v: V)
        requires
            old(self).wf(),
        ensures
            final(self).wf(),
            final(self)@ == old(self)@.insert(k, v),
    {
        let (found, at) = self.search(k);
        let ghost old_e = self.entries@;
        if found {
            self.entries.set(at, (k, v));
            proof {
                let e = self.entries@;
                assert(e =~= old_e.update(at as int, (k, v)));
                assert(keys_sorted(e)) by {
                    assert forall|i: int, j: int| 0 <= i < j < e.len() implies (#[trigger] e[i]).0 < (
                    #[trigger] e[j]).0 by {
                        assert(old_e[i].0 < old_e[j].0);
                    }
                }
                assert forall|key: u32| #[trigger] seq_has(e, key) == seq_has(old_e, key) || key == k by {
                    if seq_has(e, key) {
                        let i = choose|i: int| 0 <= i < e.len() && (#[trigger] e[i]).0 == key;
                        assert(old_e[i].0 == key);
                    }
                    if seq_has(old_e, key) {
                        let i = choose|i: int| 0 <= i < old_e.len() && (#[trigger] old_e[i]).0 == key;
                        assert(e[i].0 == key);
                    }
                }
                assert(seq_map(e) =~= seq_map(old_e).insert(k, v)) by {
                    assert forall|key: u32| seq_map(e).contains_key(key) implies seq_map(e)[key] == seq_map(
                        old_e,
                    ).insert(k, v)[key] by {
                        let i = choose|i: int| 0 <= i < e.len() && (#[trigger] e[i]).0 == key;
                        lemma_sorted_lookup(e, i);
                        if key != k {
                            lemma_sorted_lookup(old_e, i);
                        }
                    }
                    assert forall|key: u32| seq_map(old_e).insert(k, v).contains_key(key) implies seq_map(
                        e,
                    ).contains_key(key) by {
                        if key == k {
                            assert(e[at as int].0 == k);
                        } else {
                            let i = choose|i: int| 0 <= i < old_e.len() && (#[trigger] old_e[i]).0 == key;
                            assert(e[i].0 == key);
                        }
                    }
                }
            }
        } else {
            self.entries.insert(at, (k, v));
            proof {
                let e = self.entries@;
                assert(e =~= old_e.insert(at as int, (k, v)));
                assert(keys_sorted(e)) by {
                    assert forall|i: int, j: int| 0 <= i < j < e.len() implies (#[trigger] e[i]).0 < (
                    #[trigger] e[j]).0 by {
                        if i < at && j < at {
                            assert(old_e[i].0 < old_e[j].0);
                        } else if i < at && j == at {
                        } else if i < at && j > at {
                            assert(old_e[j - 1].0 > k);
                        } else if i == at {
                            assert(old_e[j - 1].0 > k);
                        } else {
                            assert(old_e[i - 1].0 < old_e[j - 1].0);
                        }
                    }
                }
                assert(seq_map(e) =~= seq_map(old_e).insert(k, v)) by {
                    assert forall|key: u32| seq_map(e).contains_key(key) implies seq_map(old_e).insert(
                        k,
                        v,
                    ).contains_key(key) && seq_map(e)[key] == seq_map(old_e).insert(k, v)[key] by {
                        let i = choose|i: int| 0 <= i < e.len() && (#[trigger] e[i]).0 == key;
                        lemma_sorted_lookup(e, i);
                        if i < at {
                            assert(old_e[i] == e[i]);
                            lemma_sorted_lookup(old_e, i);
                        } else if i > at {
                            assert(old_e[i - 1] == e[i]);
                            lemma_sorted_lookup(old_e, i - 1);
                        }
                    }
                    assert forall|key: u32| seq_map(old_e).insert(k, v).contains_key(key) implies seq_map(
                        e,
                    ).contains_key(key) by {
                        if key == k {
                            assert(e[at as int].0 == k);
                        } else {
                            let i = choose|i: int| 0 <= i < old_e.len() && (#[trigger] old_e[i]).0 == key;
                            if i < at {
                                assert(e[i].0 == key);
                            } else {
                                assert(e[i + 1].0 == key);
                            }
                        }
                    }
                }
            }
        }
    }

    /// Remove `k`, returning its value if it had one.
    pub fn remove(&mut self, k: u32) -> (r: Option<V>)
        requires
            old(self).wf(),
        ensures
            final(self).wf(),
            final(self)@ == old(self)@.remove(k),
            r is Some <==> old(self)@.contains_key(k),
            r matches Some(v) ==> v == old(self)@[k],
    {
        let (found, at) = self.search(k);
        let ghost old_e = self.entries@;
        if !found {
            proof {
                assert(!seq_has(old_e, k));
                assert(seq_map(old_e) =~= seq_map(old_e).remove(k));
            }
            return None;
        }
        proof {
            lemma_sorted_lookup(old_e, at as int);
        }
        let e = self.entries.remove(at);
        proof {
            let ne = self.entries@;
            assert(ne =~= old_e.remove(at as int));
            assert(keys_sorted(ne)) by {
                assert forall|i: int, j: int| 0 <= i < j < ne.len() implies (#[trigger] ne[i]).0 < (#[trigger] ne[j]).0 by {
                    if i < at && j < at {
                        assert(old_e[i].0 < old_e[j].0);
                    } else if i < at {
                        assert(old_e[i].0 < old_e[j + 1].0);
                    } else {
                        assert(old_e[i + 1].0 < old_e[j + 1].0);
                    }
                }
            }
            assert(seq_map(ne) =~= seq_map(old_e).remove(k)) by {
                assert forall|key: u32| seq_map(ne).contains_key(key) implies seq_map(old_e).remove(k).contains_key(key)
                    && seq_map(ne)[key] == seq_map(old_e).remove(k)[key] by {
                    let i = choose|i: int| 0 <= i < ne.len() && (#[trigger] ne[i]).0 == key;
                    lemma_sorted_lookup(ne, i);
                    if i < at {
                        assert(old_e[i] == ne[i]);
                        assert(old_e[i].0 < old_e[at as int].0);
                        lemma_sorted_lookup(old_e, i);
                    } else {
                        assert(old_e[i + 1] == ne[i]);
                        assert(old_e[at as int].0 < old_e[i + 1].0);
                        lemma_sorted_lookup(old_e, i + 1);
                    }
                }
                assert forall|key: u32| seq_map(old_e).remove(k).contains_key(key) implies seq_map(ne).contains_key(key) by {
                    let i = choose|i: int| 0 <= i < old_e.len() && (#[trigger] old_e[i]).0 == key;
                    if i < at {
                        assert(ne[i].0 == key);
                    } else {
                        assert(i != at);
                        assert(ne[i - 1].0 == key);
                    }
                }
            }
        }
        Some(e.1)
    }
}

} // verus!
