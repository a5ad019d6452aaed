//! A map keyed by strings, kept as an association list so that its contents
//! can be reasoned about through the keys' views.
use vstd::prelude::*;
use crate::text::str_eq;

verus! {

/// The map that a list of entries gives when each entry in turn replaces any
/// earlier one with the same key.
pub open spec fn map_of<V>(entries: Seq<(String, V)>) -> Map<Seq<char>, V>
    decreases entries.len(),
{
    if entries.len() == 0 {
        Map::empty()
    } else {
        map_of(entries.drop_last()).insert(entries.last().0@, entries.last().1)
    }
}

/// Entries keyed by strings, each key once.
pub struct StrTable<V> {
    entries: Vec<(String, V)>,
}

impl<V> StrTable<V> {
    /// The keys, in insertion order.
    pub closed spec fn key_seq(&self) -> Seq<Seq<char>> {
        self.entries@.map_values(|e: (String, V)| e.0@)
    }

    /// The map the list stands for.
    pub closed spec fn view(&self) -> Map<Seq<char>, V> {
        Map::new(
            |k: Seq<char>| self.key_seq().contains(k),
            |k: Seq<char>| self.entries@[self.key_seq().index_of(k)].1,
        )
    }

    /// No key twice.
    #[verifier::type_invariant]
    closed spec fn distinct_keys(&self) -> bool {
        self.key_seq().no_duplicates()
    }

    /// An empty table.
    pub fn new() -> (t: Self)
        ensures
            t@ == Map::<Seq<char>, V>::empty(),
    {
        let t = StrTable { entries: Vec::new() };
        assert(t@ =~= Map::<Seq<char>, V>::empty());
        t
    }

    /// The position of key `k`, if present.
    fn position(&self, k: &str) -> (r: Option<usize>)
        ensures
            match r {
                Some(i) => i < self.entries@.len() && self.key_seq()[i as int] == k@,
                None => !self.key_seq().contains(k@),
            },
    {
        let mut i: usize = 0;
        while i < self.entries.len()
            invariant
                i <= self.entries@.len(),
                forall|j: int| 0 <= j < i ==> self.key_seq()[j] != k@,
            decreases self.entries@.len() - i,
        {
            if str_eq(self.entries[i].0.as_str(), k) {
                return Some(i);
            }
            i += 1;
        }
        None
    }

    /// The value stored under `k`.
    pub fn get(&self, k: &str) -> (r: Option<&V>)
        ensures
            match r {
                Some(v) => self@.contains_key(k@) && self@[k@] == *v,
                None => !self@.contains_key(k@),
            },
    {
        proof {
            use_type_invariant(self);
        }
        match self.position(k) {
            Some(i) => {
                proof {
                    let j = self.key_seq().index_of(k@);
                    assert(self.key_seq()[j] == k@);
                    assert(self.key_seq().contains(k@));
                    if j != i as int {
                        assert(self.key_seq()[j] == self.key_seq()[i as int]);
                    }
                }
                Some(&self.entries[i].1)
            },
            None => None,
        }
    }

    /// Stores `v` under `k`, replacing any earlier value.
    pub fn insert(&mut self, k: String, v: V)
        ensures
            final(self)@ == old(self)@.insert(k@, v),
    {
        proof {
            use_type_invariant(&*self);
        }
        let ghost kk = k@;
        let ghost keys0 = self.key_seq();
        let ghost old_view = self@;
        match self.position(k.as_str()) {
            Some(i) => {
                let ghost e0 = self.entries@;
                let mut entries = Vec::new();
                std::mem::swap(&mut entries, &mut self.entries);
                entries.set(i, (k, v));
                proof {
                    let ks = entries@.map_values(|e: (String, V)| e.0@);
                    assert(ks =~= keys0);
                    assert forall|q: Seq<char>| #[trigger] ks.contains(q) implies ks.index_of(q) == keys0.index_of(q) by {}
                }
                self.entries = entries;
                proof {
                    assert(self.key_seq() =~= keys0);
                    assert forall|q: Seq<char>| self@.contains_key(q) <==> old_view.insert(kk, v).contains_key(q) by {
                        if q == kk {
                            assert(keys0[i as int] == kk);
                        }
                    }
                    assert forall|q: Seq<char>| #[trigger] self@.contains_key(q) implies self@[q] == old_view.insert(kk, v)[q] by {
                        let j = keys0.index_of(q);
                        assert(keys0[j] == q);
                        if q == kk {
                            assert(keys0[i as int] == kk);
                            if j != i as int {
                                assert(keys0[j] == keys0[i as int]);
                            }
                        } else {
                            assert(j != i as int);
                            assert(self.entries@[j] == e0[j]);
                        }
                    }
                    assert(self@ =~= old_view.insert(kk, v));
                }
            },
            None => {
                let mut entries = Vec::new();
                std::mem::swap(&mut entries, &mut self.entries);
                entries.push((k, v));
                proof {
                    let ks = entries@.map_values(|e: (String, V)| e.0@);
                    assert(ks =~= keys0.push(kk));
                    assert forall|a: int, b: int| 0 <= a < b < ks.len() implies ks[a] != ks[b] by {
                        if b == keys0.len() {
                            assert(ks[a] == keys0[a]);
                            assert(keys0.contains(keys0[a]));
                        } else {
                            assert(ks[a] == keys0[a] && ks[b] == keys0[b]);
                        }
                    }
                }
                self.entries = entries;
                proof {
                    let ks = self.key_seq();
                    assert(ks =~= keys0.push(kk));
                    assert forall|q: Seq<char>| self@.contains_key(q) <==> old_view.insert(kk, v).contains_key(q) by {
                        if ks.contains(q) && q != kk {
                            let j = choose|j: int| 0 <= j < ks.len() && ks[j] == q;
                            assert(keys0[j] == q);
                        }
                        if keys0.contains(q) {
                            let j = choose|j: int| 0 <= j < keys0.len() && keys0[j] == q;
                            assert(ks[j] == q);
                        }
                        if q == kk {
                            assert(ks[keys0.len() as int] == kk);
                        }
                    }
                    assert forall|q: Seq<char>| #[trigger] self@.contains_key(q) implies self@[q] == old_view.insert(kk, v)[q] by {
                        let j = ks.index_of(q);
                        assert(ks[j] == q);
                        if q == kk {
                            assert(ks[keys0.len() as int] == kk);
                            if j != keys0.len() as int {
                                assert(keys0[j] == kk);
                                assert(keys0.contains(kk));
                            }
                        } else {
                            assert(j < keys0.len());
                            let j0 = keys0.index_of(q);
                            assert(keys0.contains(q)) by {
                                assert(keys0[j] == q);
                            }
                            assert(keys0[j0] == q);
                            if j0 != j {
                                assert(ks[j0] == q);
                            }
                        }
                    }
                    assert(self@ =~= old_view.insert(kk, v));
                }
            },
        }
    }

    /// The entries, in insertion order: each key of the table once, with
    /// its value.
    pub fn entries(&self) -> (r: &Vec<(String, V)>)
        ensures
            r@.map_values(|e: (String, V)| e.0@) == self.key_seq(),
            forall|k: Seq<char>| #[trigger] self@.contains_key(k) <==> exists|i: int| 0 <= i < r@.len() && (#[trigger] r@[i]).0@ == k,
            forall|i: int| 0 <= i < r@.len() ==> #[trigger] self@.contains_key(r@[i].0@) && self@[r@[i].0@] == r@[i].1,
            forall|i: int, j: int| 0 <= i < j < r@.len() ==> (#[trigger] r@[i]).0@ != (#[trigger] r@[j]).0@,
    {
        proof {
            use_type_invariant(self);
            let ks = self.key_seq();
            assert forall|i: int| 0 <= i < self.entries@.len() implies #[trigger] self@.contains_key(self.entries@[i].0@)
                && self@[self.entries@[i].0@] == self.entries@[i].1 by {
                assert(ks[i] == self.entries@[i].0@);
                assert(ks.contains(ks[i]));
                let j = ks.index_of(ks[i]);
                assert(ks[j] == ks[i]);
            }
            assert forall|k: Seq<char>| #[trigger] self@.contains_key(k) implies exists|i: int|
                0 <= i < self.entries@.len() && (#[trigger] self.entries@[i]).0@ == k by {
                let i = choose|i: int| 0 <= i < ks.len() && ks[i] == k;
                assert(self.entries@[i].0@ == k);
            }
            assert forall|i: int, j: int| 0 <= i < j < self.entries@.len() implies (#[trigger] self.entries@[i]).0@
                != (#[trigger] self.entries@[j]).0@ by {
                assert(ks[i] == self.entries@[i].0@ && ks[j] == self.entries@[j].0@);
            }
        }
        &self.entries
    }

    /// A table holding `entries`, later entries replacing earlier ones with
    /// the same key.
    pub fn from_entries(entries: Vec<(String, V)>) -> (t: Self)
        ensures
            t@ == map_of(entries@),
            forall|k: Seq<char>| #[trigger] t@.contains_key(k) <==> exists|i: int|
                0 <= i < entries@.len() && (#[trigger] entries@[i]).0@ == k,
    {
        let ghost all = entries@;
        let n = entries.len();
        let mut t = StrTable::new();
        let mut entries = entries;
        let mut rev: Vec<(String, V)> = Vec::new();
        while entries.len() > 0
            invariant
                entries@ + rev@.reverse() == all,
            decreases entries@.len(),
        {
            let ghost a0 = entries@;
            let ghost r0 = rev@;
            let e = entries.pop().unwrap();
            rev.push(e);
            assert(entries@ + rev@.reverse() =~= a0.drop_last() + (seq![a0.last()] + r0.reverse()));
            assert(seq![a0.last()] + r0.reverse() =~= r0.push(a0.last()).reverse());
            assert(a0.drop_last() + seq![a0.last()] + r0.reverse() =~= a0 + r0.reverse());
        }
        assert(rev@.reverse() =~= all);
        let mut i: usize = 0;
        while rev.len() > 0
            invariant
                i + rev@.len() == all.len(),
                all.len() == n,
                rev@.reverse() == all.skip(i as int),
                forall|k: Seq<char>| #[trigger] t@.contains_key(k) <==> exists|j: int|
                    0 <= j < i && (#[trigger] all[j]).0@ == k,
                t@ == map_of(all.take(i as int)),
            decreases rev@.len(),
        {
            let ghost rv0 = rev@;
            let (k, v) = rev.pop().unwrap();
            proof {
                assert(rv0.reverse()[0] == rv0.last());
                assert(all.skip(i as int)[0] == all[i as int]);
                assert(rev@.reverse() =~= rv0.reverse().drop_first());
                assert(all.skip(i + 1) =~= all.skip(i as int).drop_first());
            }
            let ghost kk = k@;
            proof {
                assert(all.take(i + 1).drop_last() =~= all.take(i as int));
                assert(all.take(i + 1).last() == all[i as int]);
                assert(all[i as int] == (k, v));
            }
            t.insert(k, v);
            proof {
                assert forall|q: Seq<char>| #[trigger] t@.contains_key(q) <==> exists|j: int|
                    0 <= j < i + 1 && (#[trigger] all[j]).0@ == q by {
                    if q == kk {
                        assert(all[i as int].0@ == q);
                    }
                }
            }
            i += 1;
        }
        assert(all.take(i as int) =~= all);
        t
    }
}

} // verus!
