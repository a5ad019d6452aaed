//! Union–find over identity nodes, with path compression.
//!
//! Each node's representative is tracked as a ghost map (`root`), and a ghost
//! distance-to-root (`dist`) strictly decreases along parent links, which is
//! what makes `find` terminate.
use vstd::prelude::*;

verus! {

/// A disjoint-set forest over nodes `0..len`.
pub struct Dsu {
    parent: Vec<usize>,
    root: Ghost<Seq<usize>>,
    dist: Ghost<Seq<nat>>,
}

impl Dsu {
    /// Number of nodes.
    pub closed spec fn len(&self) -> nat {
        self.parent@.len()
    }

    /// Distance bound from `x` to its representative.
    pub closed spec fn depth(&self, x: int) -> nat {
        self.dist@[x]
    }

    /// The representative of node `x`.
    pub closed spec fn rep(&self, x: int) -> usize {
        self.root@[x]
    }

    /// The forest is consistent: every node's representative is a root, and
    /// parent links climb towards it.
    pub closed spec fn wf(&self) -> bool {
        let n = self.parent@.len();
        &&& self.root@.len() == n
        &&& self.dist@.len() == n
        &&& forall|x: int| 0 <= x < n ==> {
            &&& #[trigger] self.parent@[x] < n
            &&& self.root@[x] < n
            &&& self.parent@[self.root@[x] as int] == self.root@[x]
            &&& self.root@[self.parent@[x] as int] == self.root@[x]
            &&& (self.parent@[x] == x ==> self.root@[x] == x)
            &&& (self.parent@[x] != x ==> self.dist@[self.parent@[x] as int] < self.dist@[x])
        }
    }

    /// Representatives lie within the node range and are their own
    /// representatives.
    pub proof fn lemma_rep(&self, x: int)
        requires
            self.wf(),
            0 <= x < self.len(),
        ensures
            self.rep(x) < self.len(),
            self.rep(self.rep(x) as int) == self.rep(x),
    {
        assert(self.parent@[x] < self.len());
        let r = self.root@[x] as int;
        assert(self.parent@[r] < self.len());
        assert(self.parent@[r] == r);
    }

    proof fn lemma_root_dist(&self, x: int)
        requires
            self.wf(),
            0 <= x < self.len(),
        ensures
            self.dist@[self.root@[x] as int] <= self.dist@[x],
        decreases self.dist@[x],
    {
        if self.parent@[x] != x {
            let p = self.parent@[x] as int;
            self.lemma_root_dist(p);
        }
    }

    /// Number of nodes.
    pub fn size(&self) -> (n: usize)
        ensures
            n == self.len(),
    {
        self.parent.len()
    }

    /// An empty forest.
    pub fn new() -> (d: Self)
        ensures
            d.wf(),
            d.len() == 0,
    {
        Dsu { parent: Vec::new(), root: Ghost(Seq::empty()), dist: Ghost(Seq::empty()) }
    }

    /// Adds a singleton node and returns it.
    pub fn make(&mut self) -> (x: usize)
        requires
            old(self).wf(),
            old(self).len() < usize::MAX,
        ensures
            final(self).wf(),
            x == old(self).len(),
            final(self).len() == old(self).len() + 1,
            final(self).rep(x as int) == x,
            forall|y: int| 0 <= y < old(self).len() ==> final(self).rep(y) == old(self).rep(y),
    {
        let n = self.parent.len();
        self.parent.push(n);
        self.root = Ghost(self.root@.push(n));
        self.dist = Ghost(self.dist@.push(0));
        proof {
            assert forall|x: int| 0 <= x < n + 1 implies {
                &&& #[trigger] self.parent@[x] < n + 1
                &&& self.root@[x] < n + 1
                &&& self.parent@[self.root@[x] as int] == self.root@[x]
                &&& self.root@[self.parent@[x] as int] == self.root@[x]
                &&& (self.parent@[x] == x ==> self.root@[x] == x)
                &&& (self.parent@[x] != x ==> self.dist@[self.parent@[x] as int] < self.dist@[x])
            } by {
                if x < n {
                    assert(old(self).parent@[x] < n);
                    assert(old(self).root@[x] < n);
                }
            }
        }
        n
    }

    /// The representative of `x`, compressing the path on the way.
    pub fn find(&mut self, x: usize) -> (r: usize)
        requires
            old(self).wf(),
            x < old(self).len(),
        ensures
            final(self).wf(),
            r == old(self).rep(x as int),
            final(self).len() == old(self).len(),
            forall|y: int| 0 <= y < old(self).len() ==> final(self).rep(y) == old(self).rep(y),
            forall|y: int| 0 <= y < old(self).len() ==> final(self).depth(y) == old(self).depth(y),
        decreases old(self).depth(x as int),
    {
        if self.parent[x] != x {
            let p = self.parent[x];
            let ghost rx = old(self).root@[x as int];
            assert(old(self).parent@[x as int] < old(self).len());
            assert(old(self).dist@[p as int] < old(self).dist@[x as int]);
            proof {
                old(self).lemma_rep(x as int);
                assert(rx != x) by {
                    if rx == x {
                        assert(old(self).parent@[rx as int] == rx);
                    }
                }
            }
            let r = self.find(p);
            proof {
                self.lemma_root_dist(p as int);
                self.lemma_rep(x as int);
                assert(self.parent@[x as int] < self.len());
                assert forall|y: int| 0 <= y < self.len() implies self.root@[y] != x by {
                    self.lemma_rep(y);
                }
            }
            let ghost mp = self.parent@;
            self.parent.set(x, r);
            proof {
                let n = self.parent@.len();
                assert forall|y: int| 0 <= y < n implies {
                    &&& #[trigger] self.parent@[y] < n
                    &&& self.root@[y] < n
                    &&& self.parent@[self.root@[y] as int] == self.root@[y]
                    &&& self.root@[self.parent@[y] as int] == self.root@[y]
                    &&& (self.parent@[y] == y ==> self.root@[y] == y)
                    &&& (self.parent@[y] != y ==> self.dist@[self.parent@[y] as int] < self.dist@[y])
                } by {
                    assert(mp[y] < n);
                    let ry = self.root@[y] as int;
                    assert(mp[ry] < n);
                    assert(self.root@[y] != x);
                    if y != x {
                        assert(self.parent@[y] == mp[y]);
                        let py = mp[y] as int;
                        assert(mp[py] < n);
                    } else {
                        assert(self.parent@[y] == r);
                        assert(mp[r as int] < n);
                    }
                }
            }
        }
        self.parent[x]
    }

    /// Merges the sets of `a` and `b`; the representative of `a` becomes the
    /// representative of both.
    pub fn union(&mut self, a: usize, b: usize)
        requires
            old(self).wf(),
            a < old(self).len(),
            b < old(self).len(),
        ensures
            final(self).wf(),
            final(self).len() == old(self).len(),
            forall|y: int| 0 <= y < old(self).len() ==> #[trigger] final(self).rep(y) == (
                if old(self).rep(y) == old(self).rep(b as int) {
                    old(self).rep(a as int)
                } else {
                    old(self).rep(y)
                }),
    {
        let ra = self.find(a);
        let rb = self.find(b);
        proof {
            self.lemma_rep(a as int);
            self.lemma_rep(b as int);
        }
        if ra != rb {
            let ghost r0 = self.root@;
            let ghost d0 = self.dist@;
            self.parent.set(rb, ra);
            self.root = Ghost(Seq::new(r0.len(), |y: int| if r0[y] == rb { ra } else { r0[y] }));
            self.dist = Ghost(
                Seq::new(d0.len(), |y: int| if r0[y] == rb { d0[y] + d0[ra as int] + 1 } else { d0[y] }),
            );
            proof {
                let n = self.parent@.len();
                assert(r0[ra as int] == ra);
                assert(r0[rb as int] == rb);
                assert forall|y: int| 0 <= y < n implies {
                    &&& #[trigger] self.parent@[y] < n
                    &&& self.root@[y] < n
                    &&& self.parent@[self.root@[y] as int] == self.root@[y]
                    &&& self.root@[self.parent@[y] as int] == self.root@[y]
                    &&& (self.parent@[y] == y ==> self.root@[y] == y)
                    &&& (self.parent@[y] != y ==> self.dist@[self.parent@[y] as int] < self.dist@[y])
                } by {
                    let p = self.parent@[y] as int;
                    if y != rb {
                        assert(self.parent@[y] == old(self).parent@[y] || true);
                    }
                }
            }
        }
    }
}

} // verus!
