//! A small map from strings to indices, kept as an association list so that
//! its contents can be reasoned about by the strings' views.
use vstd::prelude::*;
use crate::text::{chars_of, seq_eq};

verus! {

/// Keys (as character vectors) with their values, no key twice.
pub struct StrMap {
    keys: Vec<Vec<char>>,
    vals: Vec<usize>,
}

impl StrMap {
    /// The keys, in insertion order.
    pub closed spec fn key_seq(&self) -> Seq<Seq<char>> {
        self.keys@.map_values(|k: Vec<char>| k@)
    }

    /// The map this list stands for.
    pub closed spec fn view(&self) -> Map<Seq<char>, usize> {
        Map::new(
            |k: Seq<char>| self.key_seq().contains(k),
            |k: Seq<char>| self.vals@[self.key_seq().index_of(k)],
        )
    }

    /// Parallel vectors, no key twice.
    pub closed spec fn wf(&self) -> bool {
        &&& self.keys@.len() == self.vals@.len()
        &&& self.key_seq().no_duplicates()
    }

    /// An empty map.
    pub fn new() -> (m: Self)
        ensures
            m.wf(),
            m.view() == Map::<Seq<char>, usize>::empty(),
    {
        let m = StrMap { keys: Vec::new(), vals: Vec::new() };
        assert(m.view() =~= Map::<Seq<char>, usize>::empty());
        m
    }

    /// The value stored under `k`.
    pub fn get(&self, k: &[char]) -> (r: Option<usize>)
        requires
            self.wf(),
        ensures
            match r {
                Some(v) => self.view().contains_key(k@) && self.view()[k@] == v,
                None => !self.view().contains_key(k@),
            },
    {
        let mut i: usize = 0;
        while i < self.keys.len()
            invariant
                self.wf(),
                i <= self.keys@.len(),
                forall|j: int| 0 <= j < i ==> self.key_seq()[j] != k@,
            decreases self.keys@.len() - i,
        {
            if seq_eq(&self.keys[i], k) {
                proof {
                    assert(self.key_seq()[i as int] == k@);
                    let j = self.key_seq().index_of(k@);
                    assert(0 <= j < self.key_seq().len() && self.key_seq()[j] == k@);
                }
                return Some(self.vals[i]);
            }
            i += 1;
        }
        proof {
            if self.key_seq().contains(k@) {
                let j = self.key_seq().index_of(k@);
                assert(self.key_seq()[j] == k@);
            }
        }
        None
    }

    /// Stores `v` under `k`, which must be new.
    pub fn insert_new(&mut self, k: Vec<char>, v: usize)
        requires
            old(self).wf(),
            !old(self).view().contains_key(k@),
        ensures
            final(self).wf(),
            final(self).view() == old(self).view().insert(k@, v),
    {
        let ghost kk = k@;
        let ghost old_keys = self.key_seq();
        self.keys.push(k);
        self.vals.push(v);
        proof {
            assert(self.key_seq() =~= old_keys.push(kk));
            assert(!old_keys.contains(kk));
            assert forall|a: int, b: int|
                0 <= a < b < self.key_seq().len() implies self.key_seq()[a] != self.key_seq()[b] by {
                if b == old_keys.len() {
                    assert(old_keys[a] == self.key_seq()[a]);
                }
            }
            assert forall|q: Seq<char>| old_keys.contains(q) implies self.key_seq().index_of(q)
                == old_keys.index_of(q) by {
                let j = old_keys.index_of(q);
                assert(0 <= j < old_keys.len() && old_keys[j] == q);
                assert(self.key_seq()[j] == q);
                let j2 = self.key_seq().index_of(q);
                assert(0 <= j2 < self.key_seq().len() && self.key_seq()[j2] == q);
            }
            assert(self.key_seq()[old_keys.len() as int] == kk);
            let jn = self.key_seq().index_of(kk);
            assert(0 <= jn < self.key_seq().len() && self.key_seq()[jn] == kk);
            assert forall|q: Seq<char>| #[trigger] self.view().contains_key(q) implies self.view()[q]
                == old(self).view().insert(kk, v)[q] by {
                if q != kk {
                    assert(old_keys.contains(q)) by {
                        let j = self.key_seq().index_of(q);
                        assert(self.key_seq()[j] == q);
                        assert(j < old_keys.len());
                        assert(old_keys[j] == q);
                    }
                }
            }
            assert forall|q: Seq<char>| self.view().contains_key(q) <==> old(self).view().insert(kk, v).contains_key(q) by {
                if old_keys.contains(q) {
                    let j = old_keys.index_of(q);
                    assert(self.key_seq()[j] == q);
                }
                if self.key_seq().contains(q) && q != kk {
                    let j = self.key_seq().index_of(q);
                    assert(self.key_seq()[j] == q);
                    assert(old_keys[j] == q);
                }
            }
            assert(self.view() =~= old(self).view().insert(kk, v));
        }
    }
}

} // verus!
