//! What clustering and merging promise: every commit has exactly one author
//! cluster, and after merging by login no two clusters share a login.
use vstd::prelude::*;
use crate::identity::{
    cluster_content, clustering, commit_idents, idents, login_merge_trace, login_step, merged, offset, or_else, Cluster,
};
use crate::model::Commit;
use crate::text::unicode_lowercase;
use vstd::multiset::Multiset;
use vstd::seq_lib::lemma_multiset_commutative;

verus! {

/// The identities of a prefix of the commits are no more than those of all.
pub proof fn lemma_idents_prefix(s: Seq<Commit>, i: int)
    requires
        0 <= i <= s.len(),
    ensures
        idents(s.take(i)).len() <= idents(s).len(),
    decreases s.len() - i,
{
    if i < s.len() {
        lemma_idents_prefix(s, i + 1);
        assert(s.take(i + 1).drop_last() =~= s.take(i));
    } else {
        assert(s.take(i) =~= s);
    }
}

/// Every commit is authored in exactly one cluster: clustering splits the
/// commits among the people who wrote them.
pub proof fn law_one_author_cluster(commits: Seq<Commit>, mn: bool, cs: Seq<Cluster>, cls: Seq<int>, i: usize)
    requires
        clustering(commits, mn, cs, cls),
        (i as int) < commits.len(),
    ensures
        exists|c: int| 0 <= c < cs.len() && (#[trigger] cs[c]).commit_idxs@.contains(i),
        forall|c1: int, c2: int|
            0 <= c1 < cs.len() && 0 <= c2 < cs.len() && (#[trigger] cs[c1]).commit_idxs@.contains(i)
                && (#[trigger] cs[c2]).commit_idxs@.contains(i) ==> c1 == c2,
{
    let n = idents(commits).len() as int;
    let o = offset(commits, i as int);
    lemma_idents_prefix(commits, i + 1);
    assert(commits.take(i + 1).drop_last() =~= commits.take(i as int));
    assert(commits.take(i + 1).last() == commits[i as int]);
    assert(commit_idents(commits[i as int]).len() >= 1);
    assert(0 <= o < n);
    let c = cls[o];
    assert(0 <= c < cs.len());
    assert(cluster_content(commits, cls, c, cs[c], n));
    assert(cs[c].commit_idxs@.contains(i));
    assert forall|c1: int, c2: int|
        0 <= c1 < cs.len() && 0 <= c2 < cs.len() && (#[trigger] cs[c1]).commit_idxs@.contains(i)
            && (#[trigger] cs[c2]).commit_idxs@.contains(i) implies c1 == c2 by {
        assert(cluster_content(commits, cls, c1, cs[c1], n));
        assert(cluster_content(commits, cls, c2, cs[c2], n));
    }
}

/// No two clusters have the same login, ignoring case.
pub open spec fn logins_distinct(cs: Seq<Cluster>) -> bool {
    forall|a: int, b: int|
        0 <= a < b < cs.len() && (#[trigger] cs[a]).login is Some && (#[trigger] cs[b]).login is Some
            ==> unicode_lowercase(cs[a].login->0@) != unicode_lowercase(cs[b].login->0@)
}

proof fn lemma_login_steps_distinct(input: Seq<Cluster>, steps: Seq<Seq<Cluster>>, j: int)
    requires
        login_merge_trace(input, steps),
        0 <= j <= input.len(),
    ensures
        logins_distinct(steps[j]),
    decreases j,
{
    if j > 0 {
        lemma_login_steps_distinct(input, steps, j - 1);
        let out = steps[j - 1];
        let cl = input[j - 1];
        let r = steps[j];
        assert(login_step(out, cl, r));
        if cl.login is Some && exists|i: int|
            0 <= i < out.len() && (#[trigger] out[i]).login is Some && unicode_lowercase(out[i].login->0@)
                == unicode_lowercase(cl.login->0@) {
            let i = choose|i: int|
                0 <= i < out.len() && (#[trigger] out[i]).login is Some && unicode_lowercase(out[i].login->0@)
                    == unicode_lowercase(cl.login->0@) && r.len() == out.len() && merged(out[i], cl, r[i])
                    && forall|q: int| 0 <= q < out.len() && q != i ==> r[q] == out[q];
            assert(r[i].login == or_else(out[i].login, cl.login));
            assert(r[i].login == out[i].login);
            assert forall|a: int, b: int|
                0 <= a < b < r.len() && (#[trigger] r[a]).login is Some && (#[trigger] r[b]).login is Some
                    implies unicode_lowercase(r[a].login->0@) != unicode_lowercase(r[b].login->0@) by {
                assert(r[a].login == out[a].login);
                assert(r[b].login == out[b].login);
                assert(out[a].login is Some && out[b].login is Some);
            }
        } else {
            assert forall|a: int, b: int|
                0 <= a < b < r.len() && (#[trigger] r[a]).login is Some && (#[trigger] r[b]).login is Some
                    implies unicode_lowercase(r[a].login->0@) != unicode_lowercase(r[b].login->0@) by {
                if b < out.len() {
                    assert(r[a] == out[a] && r[b] == out[b]);
                } else {
                    assert(r[a] == out[a] && r[b] == cl);
                    assert(out[a].login is Some);
                }
            }
        }
    }
}

/// After merging by login, no two clusters share a login (ignoring case):
/// every account ends up as one person.
pub proof fn law_merged_logins_distinct(input: Seq<Cluster>, steps: Seq<Seq<Cluster>>)
    requires
        login_merge_trace(input, steps),
    ensures
        logins_distinct(steps.last()),
{
    lemma_login_steps_distinct(input, steps, input.len() as int);
}

/// All the co-authored commit indices of some clusters, with repeats.
pub open spec fn coauthored_bag(cs: Seq<Cluster>) -> Multiset<usize>
    decreases cs.len(),
{
    if cs.len() == 0 {
        Multiset::empty()
    } else {
        coauthored_bag(cs.drop_last()).add(cs.last().coauthored_idxs@.to_multiset())
    }
}

/// All the authored commit indices of some clusters, with repeats.
pub open spec fn authored_bag(cs: Seq<Cluster>) -> Multiset<usize>
    decreases cs.len(),
{
    if cs.len() == 0 {
        Multiset::empty()
    } else {
        authored_bag(cs.drop_last()).add(cs.last().commit_idxs@.to_multiset())
    }
}

/// Replacing one cluster changes the bags by that cluster's lists.
proof fn lemma_bags_replace(out: Seq<Cluster>, r: Seq<Cluster>, i: int)
    requires
        r.len() == out.len(),
        0 <= i < out.len(),
        forall|j: int| 0 <= j < out.len() && j != i ==> r[j] == out[j],
    ensures
        coauthored_bag(r).add(out[i].coauthored_idxs@.to_multiset()) =~= coauthored_bag(out).add(
            r[i].coauthored_idxs@.to_multiset(),
        ),
        authored_bag(r).add(out[i].commit_idxs@.to_multiset()) =~= authored_bag(out).add(r[i].commit_idxs@.to_multiset()),
    decreases out.len(),
{
    broadcast use vstd::multiset::group_multiset_axioms;

    if i == out.len() - 1 {
        assert(r.drop_last() =~= out.drop_last());
        assert(coauthored_bag(r.drop_last()) == coauthored_bag(out.drop_last()));
        assert(authored_bag(r.drop_last()) == authored_bag(out.drop_last()));
        assert(r[i] == r.last() && out[i] == out.last());
        let b = coauthored_bag(r.drop_last());
        let xr = r[i].coauthored_idxs@.to_multiset();
        let xo = out[i].coauthored_idxs@.to_multiset();
        assert(coauthored_bag(r) == b.add(xr));
        assert(coauthored_bag(out) == b.add(xo));
        assert(b.add(xr).add(xo) =~= b.add(xo).add(xr));
        let a = authored_bag(r.drop_last());
        let yr = r[i].commit_idxs@.to_multiset();
        let yo = out[i].commit_idxs@.to_multiset();
        assert(authored_bag(r) == a.add(yr));
        assert(authored_bag(out) == a.add(yo));
        assert(a.add(yr).add(yo) =~= a.add(yo).add(yr));
    } else {
        lemma_bags_replace(out.drop_last(), r.drop_last(), i);
        assert(r.last() == out.last());
        assert(r.drop_last()[i] == r[i] && out.drop_last()[i] == out[i]);
        let l = r.last().coauthored_idxs@.to_multiset();
        let xr = r[i].coauthored_idxs@.to_multiset();
        let xo = out[i].coauthored_idxs@.to_multiset();
        let br = coauthored_bag(r.drop_last());
        let bo = coauthored_bag(out.drop_last());
        assert(br.add(xo) =~= bo.add(xr));
        assert(coauthored_bag(r) == br.add(l));
        assert(coauthored_bag(out) == bo.add(l));
        assert(br.add(xo) == bo.add(xr));
        assert forall|x: usize| #[trigger] br.add(l).add(xo).count(x) == bo.add(l).add(xr).count(x) by {
            assert(br.add(xo).count(x) == bo.add(xr).count(x));
        }
        assert(br.add(l).add(xo) =~= bo.add(l).add(xr));
        let m = r.last().commit_idxs@.to_multiset();
        let yr = r[i].commit_idxs@.to_multiset();
        let yo = out[i].commit_idxs@.to_multiset();
        let ar = authored_bag(r.drop_last());
        let ao = authored_bag(out.drop_last());
        assert(ar.add(yo) =~= ao.add(yr));
        assert(authored_bag(r) == ar.add(m));
        assert(authored_bag(out) == ao.add(m));
        assert(ar.add(yo) == ao.add(yr));
        assert forall|x: usize| #[trigger] ar.add(m).add(yo).count(x) == ao.add(m).add(yr).count(x) by {
            assert(ar.add(yo).count(x) == ao.add(yr).count(x));
        }
        assert(ar.add(m).add(yo) =~= ao.add(m).add(yr));
    }
}

/// One step of a login merge adds exactly the joining cluster's commits.
proof fn lemma_login_step_bags(out: Seq<Cluster>, cl: Cluster, r: Seq<Cluster>)
    requires
        login_step(out, cl, r),
    ensures
        coauthored_bag(r) =~= coauthored_bag(out).add(cl.coauthored_idxs@.to_multiset()),
        authored_bag(r) =~= authored_bag(out).add(cl.commit_idxs@.to_multiset()),
{
    broadcast use vstd::multiset::group_multiset_axioms;

    if cl.login is Some && exists|i: int| 0 <= i < out.len() && (#[trigger] out[i]).login is Some
        && unicode_lowercase(out[i].login->0@) == unicode_lowercase(cl.login->0@) {
        let i = choose|i: int| 0 <= i < out.len() && (#[trigger] out[i]).login is Some
            && unicode_lowercase(out[i].login->0@) == unicode_lowercase(cl.login->0@)
            && r.len() == out.len() && merged(out[i], cl, r[i])
            && forall|j: int| 0 <= j < out.len() && j != i ==> r[j] == out[j];
        lemma_bags_replace(out, r, i);
        lemma_multiset_commutative(out[i].coauthored_idxs@, cl.coauthored_idxs@);
        lemma_multiset_commutative(out[i].commit_idxs@, cl.commit_idxs@);
        assert(r[i].coauthored_idxs@ == out[i].coauthored_idxs@ + cl.coauthored_idxs@);
        assert(r[i].commit_idxs@ == out[i].commit_idxs@ + cl.commit_idxs@);
        let xo = out[i].coauthored_idxs@.to_multiset();
        let xc = cl.coauthored_idxs@.to_multiset();
        let xr = r[i].coauthored_idxs@.to_multiset();
        assert(xr == xo.add(xc));
        assert(coauthored_bag(r).add(xo) == coauthored_bag(out).add(xr));
        assert forall|x: usize| #[trigger] coauthored_bag(r).count(x) == coauthored_bag(out).add(xc).count(x) by {
            assert(coauthored_bag(r).add(xo).count(x) == coauthored_bag(out).add(xr).count(x));
        }
        let yo = out[i].commit_idxs@.to_multiset();
        let yc = cl.commit_idxs@.to_multiset();
        let yr = r[i].commit_idxs@.to_multiset();
        assert(yr == yo.add(yc));
        assert(authored_bag(r).add(yo) == authored_bag(out).add(yr));
        assert forall|x: usize| #[trigger] authored_bag(r).count(x) == authored_bag(out).add(yc).count(x) by {
            assert(authored_bag(r).add(yo).count(x) == authored_bag(out).add(yr).count(x));
        }
    } else {
        assert(r.drop_last() =~= out);
        assert(r.last() == cl);
    }
}

/// Merging by login loses and invents no credit: the authored and the
/// co-authored commit indices over all the resulting clusters are those
/// over all the input clusters, with the same repeats.
pub proof fn law_login_merge_keeps_credit(input: Seq<Cluster>, steps: Seq<Seq<Cluster>>)
    requires
        login_merge_trace(input, steps),
    ensures
        coauthored_bag(steps.last()) =~= coauthored_bag(input),
        authored_bag(steps.last()) =~= authored_bag(input),
{
    lemma_trace_bags(input, steps, input.len() as int);
    assert(input.take(input.len() as int) =~= input);
}

/// After the first `n` clusters, the merge holds exactly their commits.
proof fn lemma_trace_bags(input: Seq<Cluster>, steps: Seq<Seq<Cluster>>, n: int)
    requires
        login_merge_trace(input, steps),
        0 <= n <= input.len(),
    ensures
        coauthored_bag(steps[n]) =~= coauthored_bag(input.take(n)),
        authored_bag(steps[n]) =~= authored_bag(input.take(n)),
    decreases n,
{
    broadcast use vstd::multiset::group_multiset_axioms;

    if n > 0 {
        lemma_trace_bags(input, steps, n - 1);
        assert(login_step(steps[n - 1], input[n - 1], steps[n]));
        lemma_login_step_bags(steps[n - 1], input[n - 1], steps[n]);
        assert(input.take(n).drop_last() =~= input.take(n - 1));
    } else {
        assert(input.take(0) =~= Seq::<Cluster>::empty());
    }
}

} // verus!
