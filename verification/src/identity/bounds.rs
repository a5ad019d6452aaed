//! Merging clusters moves commit references between them and invents none:
//! every commit a merged cluster refers to was referred to before.
use vstd::prelude::*;
use crate::identity::{
    all_hits, identity_step, identity_trace, live, login_merge_trace, login_step, merge_chain, merged, row_hit, views, without, Cluster,
};
use crate::text::unicode_lowercase;

verus! {

/// Every commit the cluster authored or co-authored has an index below `n`.
pub open spec fn cluster_within(c: Cluster, n: int) -> bool {
    &&& forall|k: int| 0 <= k < c.commit_idxs@.len() ==> (#[trigger] c.commit_idxs@[k] as int) < n
    &&& forall|k: int| 0 <= k < c.coauthored_idxs@.len() ==> (#[trigger] c.coauthored_idxs@[k] as int) < n
}

/// Every cluster refers only to commits below `n`.
pub open spec fn all_within(cs: Seq<Cluster>, n: int) -> bool {
    forall|i: int| 0 <= i < cs.len() ==> cluster_within(#[trigger] cs[i], n)
}

/// Every live cluster of an override state refers only to commits below `n`.
pub open spec fn state_within(state: Seq<Option<Cluster>>, n: int) -> bool {
    forall|i: int|
        0 <= i < state.len() ==> match #[trigger] state[i] {
            Some(c) => cluster_within(c, n),
            None => true,
        }
}

proof fn lemma_merged_within(t: Cluster, d: Cluster, r: Cluster, n: int)
    requires
        merged(t, d, r),
        cluster_within(t, n),
        cluster_within(d, n),
    ensures
        cluster_within(r, n),
{
    let tl = t.commit_idxs@.len();
    assert forall|k: int| 0 <= k < r.commit_idxs@.len() implies (#[trigger] r.commit_idxs@[k] as int) < n by {
        if k < tl {
            assert(r.commit_idxs@[k] == t.commit_idxs@[k]);
        } else {
            assert(r.commit_idxs@[k] == d.commit_idxs@[k - tl]);
        }
    }
    let cl = t.coauthored_idxs@.len();
    assert forall|k: int| 0 <= k < r.coauthored_idxs@.len() implies (#[trigger] r.coauthored_idxs@[k] as int) < n by {
        if k < cl {
            assert(r.coauthored_idxs@[k] == t.coauthored_idxs@[k]);
        } else {
            assert(r.coauthored_idxs@[k] == d.coauthored_idxs@[k - cl]);
        }
    }
}

proof fn lemma_login_steps_within(input: Seq<Cluster>, steps: Seq<Seq<Cluster>>, n: int, j: int)
    requires
        login_merge_trace(input, steps),
        all_within(input, n),
        0 <= j <= input.len(),
    ensures
        all_within(steps[j], n),
    decreases j,
{
    if j > 0 {
        lemma_login_steps_within(input, steps, n, j - 1);
        let out = steps[j - 1];
        let cl = input[j - 1];
        let r = steps[j];
        assert(login_step(out, cl, r));
        assert(cluster_within(cl, n));
        if cl.login is Some && exists|i: int|
            0 <= i < out.len() && (#[trigger] out[i]).login is Some && unicode_lowercase(out[i].login->0@)
                == unicode_lowercase(cl.login->0@) {
            let i = choose|i: int|
                0 <= i < out.len() && (#[trigger] out[i]).login is Some && unicode_lowercase(out[i].login->0@)
                    == unicode_lowercase(cl.login->0@) && r.len() == out.len() && merged(out[i], cl, r[i])
                    && forall|q: int| 0 <= q < out.len() && q != i ==> r[q] == out[q];
            lemma_merged_within(out[i], cl, r[i], n);
            assert forall|q: int| 0 <= q < r.len() implies cluster_within(#[trigger] r[q], n) by {
                if q != i {
                    assert(r[q] == out[q]);
                }
            }
        } else {
            assert forall|q: int| 0 <= q < r.len() implies cluster_within(#[trigger] r[q], n) by {
                if q < out.len() {
                    assert(r[q] == out[q]);
                }
            }
        }
    }
}

/// Merging clusters by login refers only to commits that the input
/// clusters referred to: when those are all below `n`, so are the merged
/// clusters' (whatever order the merges took).
pub proof fn law_login_merge_within(input: Seq<Cluster>, steps: Seq<Seq<Cluster>>, n: int)
    requires
        login_merge_trace(input, steps),
        all_within(input, n),
    ensures
        all_within(steps.last(), n),
{
    lemma_login_steps_within(input, steps, n, input.len() as int);
}

proof fn lemma_chain_within(
    state: Seq<Option<Cluster>>,
    row: Seq<String>,
    hits: Seq<int>,
    chain: Seq<Cluster>,
    n: int,
    q: int,
)
    requires
        all_hits(state, row, hits),
        merge_chain(state, hits, chain),
        state_within(state, n),
        0 <= q < chain.len(),
    ensures
        cluster_within(chain[q], n),
    decreases q,
{
    assert(row_hit(state, row, hits[q]));
    assert(match state[hits[q]] {
        Some(c) => cluster_within(c, n),
        None => true,
    });
    if q > 0 {
        lemma_chain_within(state, row, hits, chain, n, q - 1);
        let p = q - 1;
        assert(0 <= p < hits.len() - 1);
        assert(merged(chain[p], state[hits[p + 1]]->0, chain[p + 1]));
        assert(p + 1 == q);
        lemma_merged_within(chain[q - 1], state[hits[q]]->0, chain[q], n);
    }
}

proof fn lemma_identity_step_within(state: Seq<Option<Cluster>>, row: Seq<String>, next: Seq<Option<Cluster>>, n: int)
    requires
        identity_step(state, row, next),
        state_within(state, n),
    ensures
        state_within(next, n),
{
    if row.len() == 0 || !(exists|i: int| #[trigger] row_hit(state, row, i)) {
    } else {
        let (hits, chain) = choose|hits: Seq<int>, chain: Seq<Cluster>|
            #[trigger] all_hits(state, row, hits) && #[trigger] merge_chain(state, hits, chain) && {
                let t = hits[0];
                let last = chain.last();
                &&& next.len() == state.len()
                &&& next[t] is Some
                &&& next[t]->0 == (Cluster { names: next[t]->0.names, ..last })
                &&& views(next[t]->0.names@) == seq![row[0]@] + without(views(last.names@), row[0]@)
                &&& forall|q: int| 1 <= q < hits.len() ==> next[#[trigger] hits[q]] is None
                &&& forall|i: int| 0 <= i < state.len() && !hits.contains(i) ==> #[trigger] next[i] == state[i]
            };
        let i0 = choose|i: int| #[trigger] row_hit(state, row, i);
        assert(hits.contains(i0));
        assert(hits.len() > 0);
        lemma_chain_within(state, row, hits, chain, n, chain.len() - 1);
        let t = hits[0];
        assert forall|i: int| 0 <= i < next.len() implies match #[trigger] next[i] {
            Some(c) => cluster_within(c, n),
            None => true,
        } by {
            if hits.contains(i) {
                let q = choose|q: int| 0 <= q < hits.len() && hits[q] == i;
                if q == 0 {
                    assert(next[t]->0.commit_idxs == chain.last().commit_idxs);
                    assert(next[t]->0.coauthored_idxs == chain.last().coauthored_idxs);
                } else {
                    assert(next[hits[q]] is None);
                }
            } else {
                assert(next[i] == state[i]);
            }
        }
    }
}

proof fn lemma_live_within(state: Seq<Option<Cluster>>, n: int)
    requires
        state_within(state, n),
    ensures
        all_within(live(state), n),
    decreases state.len(),
{
    if state.len() > 0 {
        let p = state.drop_last();
        assert forall|i: int| 0 <= i < p.len() implies match #[trigger] p[i] {
            Some(c) => cluster_within(c, n),
            None => true,
        } by {
            assert(p[i] == state[i]);
        }
        lemma_live_within(p, n);
        let l = state.len() - 1;
        assert(match state[l] {
            Some(c) => cluster_within(c, n),
            None => true,
        });
        let lp = live(p);
        assert forall|i: int| 0 <= i < live(state).len() implies cluster_within(#[trigger] live(state)[i], n) by {
            if i < lp.len() {
                assert(live(state)[i] == lp[i]);
            }
        }
    }
}

proof fn lemma_identity_steps_within(input: Seq<Cluster>, rows: Seq<Vec<String>>, steps: Seq<Seq<Option<Cluster>>>, n: int, k: int)
    requires
        identity_trace(input, rows, steps),
        all_within(input, n),
        0 <= k <= rows.len(),
    ensures
        state_within(steps[k], n),
    decreases k,
{
    if k == 0 {
        assert forall|i: int| 0 <= i < steps[0].len() implies match #[trigger] steps[0][i] {
            Some(c) => cluster_within(c, n),
            None => true,
        } by {
            assert(steps[0][i] == Some(input[i]));
        }
    } else {
        lemma_identity_steps_within(input, rows, steps, n, k - 1);
        assert(identity_step(steps[k - 1], rows[k - 1]@, steps[k]));
        lemma_identity_step_within(steps[k - 1], rows[k - 1]@, steps[k], n);
    }
}

/// Applying identity overrides refers only to commits that the input
/// clusters referred to: when those are all below `n`, so are the clusters
/// left afterwards.
pub proof fn law_overrides_within(input: Seq<Cluster>, rows: Seq<Vec<String>>, steps: Seq<Seq<Option<Cluster>>>, n: int)
    requires
        identity_trace(input, rows, steps),
        all_within(input, n),
    ensures
        all_within(live(steps.last()), n),
{
    lemma_identity_steps_within(input, rows, steps, n, rows.len() as int);
    lemma_live_within(steps.last(), n);
}

} // verus!
