//! Deciding what to ask GitHub and applying what it answers: noreply
//! addresses, representative commits, cached and looked-up authors.
use vstd::prelude::*;
use crate::cache::{author_answer, profile_answer, same_except, Author, CacheFile, Caches, ProfileRec};
use crate::github::{noreply_avatar, noreply_avatar_exec, noreply_of, parse_noreply};
use crate::identity::{views, Cluster};
use crate::model::{clone_opt, opt_view, Commit};
use crate::text::{chars_of, seq_lt, seq_lt_exec, str_eq};

verus! {

// ---------------------------------------------------------------------------
// Noreply addresses and representative commits
// ---------------------------------------------------------------------------
/// The first of `emails` that is a GitHub noreply address, parsed.
pub open spec fn first_noreply(emails: Seq<Seq<char>>) -> Option<(Option<u64>, Seq<char>)>
    decreases emails.len(),
{
    if emails.len() == 0 {
        None
    } else if noreply_of(emails[0]) is Some {
        noreply_of(emails[0])
    } else {
        first_noreply(emails.drop_first())
    }
}

/// The `(login, avatar URL)` that a cluster's noreply addresses give it.
pub open spec fn noreply_identity(c: Cluster) -> Option<(Seq<char>, Seq<char>)> {
    match first_noreply(views(c.emails@)) {
        Some(p) => Some((p.1, noreply_avatar(p.0, p.1))),
        None => None,
    }
}

fn first_noreply_exec(emails: &Vec<String>) -> (r: Option<(Option<u64>, String)>)
    ensures
        match r {
            Some((id, login)) => first_noreply(views(emails@)) == Some((id, login@)),
            None => first_noreply(views(emails@)) is None,
        },
{
    let mut k: usize = 0;
    assert(views(emails@).skip(0) =~= views(emails@));
    while k < emails.len()
        invariant
            k <= emails@.len(),
            first_noreply(views(emails@)) == first_noreply(views(emails@).skip(k as int)),
        decreases emails@.len() - k,
    {
        let ghost rest = views(emails@).skip(k as int);
        proof {
            assert(rest[0] == emails@[k as int]@);
            assert(rest.drop_first() =~= views(emails@).skip(k + 1));
        }
        match parse_noreply(emails[k].as_str()) {
            Some(p) => {
                return Some(p);
            },
            None => {},
        }
        k += 1;
    }
    assert(views(emails@).skip(k as int).len() == 0);
    None
}

/// The `owner/repo` slug of source `src`, when that source is on GitHub.
pub open spec fn slug_at(slugs: Seq<Option<String>>, src: u32) -> Option<Seq<char>> {
    if (src as int) < slugs.len() {
        opt_view(slugs[src as int])
    } else {
        None
    }
}

/// The commit that stands for a cluster in a lookup: of its commits from a
/// GitHub source the most recent, and of equally recent ones the last listed.
pub open spec fn representative(idxs: Seq<usize>, commits: Seq<Commit>, slugs: Seq<Option<String>>) -> Option<usize>
    decreases idxs.len(),
{
    if idxs.len() == 0 {
        None
    } else {
        let prev = representative(idxs.drop_last(), commits, slugs);
        let i = idxs.last();
        if slug_at(slugs, commits[i as int].src) is None {
            prev
        } else {
            match prev {
                Some(p) => if commits[i as int].ts >= commits[p as int].ts {
                    Some(i)
                } else {
                    prev
                },
                None => Some(i),
            }
        }
    }
}

fn slug_exec(slugs: &[Option<String>], src: u32) -> (r: Option<String>)
    ensures
        opt_view(r) == slug_at(slugs@, src),
{
    let s = src as usize;
    if s < slugs.len() {
        match &slugs[s] {
            Some(x) => Some(x.clone()),
            None => None,
        }
    } else {
        None
    }
}

fn representative_exec(idxs: &Vec<usize>, commits: &[Commit], slugs: &[Option<String>]) -> (r: Option<usize>)
    requires
        forall|k: int| 0 <= k < idxs@.len() ==> (idxs@[k] as int) < commits@.len(),
    ensures
        r == representative(idxs@, commits@, slugs@),
        match r {
            Some(p) => (p as int) < commits@.len(),
            None => true,
        },
{
    let mut best: Option<usize> = None;
    let mut k: usize = 0;
    while k < idxs.len()
        invariant
            k <= idxs@.len(),
            forall|k2: int| 0 <= k2 < idxs@.len() ==> (idxs@[k2] as int) < commits@.len(),
            best == representative(idxs@.take(k as int), commits@, slugs@),
            match best {
                Some(p) => (p as int) < commits@.len(),
                None => true,
            },
        decreases idxs@.len() - k,
    {
        let i = idxs[k];
        assert(idxs@.take(k + 1).drop_last() =~= idxs@.take(k as int));
        if slug_exec(slugs, commits[i].src).is_some() {
            match best {
                Some(p) => {
                    if commits[i].ts >= commits[p].ts {
                        best = Some(i);
                    }
                },
                None => {
                    best = Some(i);
                },
            }
        }
        k += 1;
    }
    assert(idxs@.take(k as int) =~= idxs@);
    best
}

// ---------------------------------------------------------------------------
// Enrichment before the lookups
// ---------------------------------------------------------------------------
/// The author a cluster gets from the cache: that of its representative
/// commit, when it has neither a noreply address nor a login.
pub open spec fn cached_author(c: Cluster, commits: Seq<Commit>, slugs: Seq<Option<String>>, caches: Caches) -> Option<
    (Seq<char>, Seq<char>),
> {
    if noreply_identity(c) is Some || c.login is Some {
        None
    } else {
        match representative(c.commit_idxs@, commits, slugs) {
            Some(r) => author_answer(caches, commits[r as int].sha@),
            None => None,
        }
    }
}

/// The `(login, avatar URL)` a cluster has after enrichment from noreply
/// addresses and the cache.
pub open spec fn known_identity(c: Cluster, commits: Seq<Commit>, slugs: Seq<Option<String>>, caches: Caches) -> Option<
    (Seq<char>, Seq<char>),
> {
    match noreply_identity(c) {
        Some(x) => Some(x),
        None => cached_author(c, commits, slugs, caches),
    }
}

/// The `(slug, SHA)` still to ask the commits API about for a cluster: its
/// representative commit, when nothing else gave it a login.
pub open spec fn lookup_of(c: Cluster, commits: Seq<Commit>, slugs: Seq<Option<String>>, caches: Caches) -> Option<
    (Seq<char>, Seq<char>),
> {
    if noreply_identity(c) is Some || c.login is Some {
        None
    } else {
        match representative(c.commit_idxs@, commits, slugs) {
            Some(r) => if author_answer(caches, commits[r as int].sha@) is Some {
                None
            } else {
                match slug_at(slugs, commits[r as int].src) {
                    Some(s) => Some((s, commits[r as int].sha@)),
                    None => None,
                }
            },
            None => None,
        }
    }
}

/// The lookups still to make, as `(cluster index, slug, SHA)`, in cluster order.
pub open spec fn pending(cs: Seq<Cluster>, commits: Seq<Commit>, slugs: Seq<Option<String>>, caches: Caches) -> Seq<
    (int, Seq<char>, Seq<char>),
>
    decreases cs.len(),
{
    if cs.len() == 0 {
        Seq::empty()
    } else {
        let prev = pending(cs.drop_last(), commits, slugs, caches);
        match lookup_of(cs.last(), commits, slugs, caches) {
            Some(x) => prev.push(((cs.len() - 1) as int, x.0, x.1)),
            None => prev,
        }
    }
}

/// How many clusters the cache resolved.
pub open spec fn cache_hits(cs: Seq<Cluster>, commits: Seq<Commit>, slugs: Seq<Option<String>>, caches: Caches) -> nat
    decreases cs.len(),
{
    if cs.len() == 0 {
        0
    } else {
        cache_hits(cs.drop_last(), commits, slugs, caches) + (if cached_author(cs.last(), commits, slugs, caches) is Some {
            1nat
        } else {
            0nat
        })
    }
}

/// The view of a list of lookups.
pub open spec fn lookups_view(v: Seq<(usize, String, String)>) -> Seq<(int, Seq<char>, Seq<char>)> {
    v.map_values(|t: (usize, String, String)| (t.0 as int, t.1@, t.2@))
}

/// `b` is `a` with at most its login and avatar changed.
pub open spec fn same_but_identity(a: Cluster, b: Cluster) -> bool {
    &&& b.emails == a.emails
    &&& b.names == a.names
    &&& b.commit_idxs == a.commit_idxs
    &&& b.coauthored_idxs == a.coauthored_idxs
    &&& b.profile_name == a.profile_name
    &&& b.affiliation == a.affiliation
}

/// A cluster after enrichment from noreply addresses and the cache.
pub open spec fn enriched(o: Cluster, n: Cluster, commits: Seq<Commit>, slugs: Seq<Option<String>>, caches: Caches) -> bool {
    &&& same_but_identity(o, n)
    &&& match known_identity(o, commits, slugs, caches) {
        Some(x) => opt_view(n.login) == Some(x.0) && opt_view(n.avatar_url) == Some(x.1),
        None => n.login == o.login && n.avatar_url == o.avatar_url,
    }
}

/// Every commit index of every cluster names a commit.
pub open spec fn indexes_commits(cs: Seq<Cluster>, n: int) -> bool {
    forall|i: int, k: int|
        0 <= i < cs.len() && 0 <= k < cs[i].commit_idxs@.len() ==> (#[trigger] cs[i].commit_idxs@[k] as int) < n
}

/// Fill in `login` / `avatar_url` on clusters from what needs no network:
/// noreply addresses resolve offline, and a cluster's representative commit
/// (see `representative`; `source_slugs` maps a commit's `src` to its
/// `owner/repo`, `None` off GitHub) may have a cached author. Returns the
/// lookups still to make, as `(cluster index, slug, SHA)`, and how many
/// clusters the cache resolved.
pub fn enrich_clusters(
    clusters: &mut [Cluster],
    commits: &[Commit],
    source_slugs: &[Option<String>],
    caches: &Caches,
) -> (r: (Vec<(usize, String, String)>, usize))
    requires
        indexes_commits(old(clusters)@, commits@.len() as int),
    ensures
        final(clusters)@.len() == old(clusters)@.len(),
        forall|i: int|
            0 <= i < old(clusters)@.len() ==> enriched(
                #[trigger] old(clusters)@[i],
                final(clusters)@[i],
                commits@,
                source_slugs@,
                *caches,
            ),
        lookups_view(r.0@) == pending(old(clusters)@, commits@, source_slugs@, *caches),
        r.1 == cache_hits(old(clusters)@, commits@, source_slugs@, *caches),
{
    let ghost cs0 = clusters@;
    let n = clusters.len();
    let mut need: Vec<(usize, String, String)> = Vec::new();
    let mut from_cache: usize = 0;
    let mut i: usize = 0;
    while i < n
        invariant
            n == clusters@.len(),
            cs0 == old(clusters)@,
            n == cs0.len(),
            i <= n,
            indexes_commits(cs0, commits@.len() as int),
            forall|j: int| i <= j < n ==> clusters@[j] == cs0[j],
            forall|j: int|
                0 <= j < i ==> enriched(#[trigger] cs0[j], clusters@[j], commits@, source_slugs@, *caches),
            lookups_view(need@) == pending(cs0.take(i as int), commits@, source_slugs@, *caches),
            from_cache == cache_hits(cs0.take(i as int), commits@, source_slugs@, *caches),
            from_cache <= i,
        decreases n - i,
    {
        let ghost c = cs0[i as int];
        let ghost need0 = need@;
        assert(cs0.take(i + 1).drop_last() =~= cs0.take(i as int));
        assert(cs0.take(i + 1).last() == c);
        assert(forall|k: int| 0 <= k < c.commit_idxs@.len() ==> (c.commit_idxs@[k] as int) < commits@.len()) by {
            assert forall|k: int| 0 <= k < c.commit_idxs@.len() implies (c.commit_idxs@[k] as int) < commits@.len() by {
                assert(cs0[i as int].commit_idxs@[k] == c.commit_idxs@[k]);
            }
        }
        match first_noreply_exec(&clusters[i].emails) {
            Some((id, login)) => {
                let avatar = noreply_avatar_exec(id, login.as_str());
                clusters[i].avatar_url = Some(avatar);
                clusters[i].login = Some(login);
                assert(lookups_view(need@) =~= pending(cs0.take(i + 1), commits@, source_slugs@, *caches));
            },
            None => {
                if clusters[i].login.is_none() {
                    match representative_exec(&clusters[i].commit_idxs, commits, source_slugs) {
                        Some(r) => {
                            match caches.author(commits[r].sha.as_str()) {
                                Some(a) => {
                                    clusters[i].login = Some(a.login);
                                    clusters[i].avatar_url = Some(a.avatar_url);
                                    from_cache += 1;
                                    assert(lookups_view(need@) =~= pending(cs0.take(i + 1), commits@, source_slugs@, *caches));
                                },
                                None => {
                                    match slug_exec(source_slugs, commits[r].src) {
                                        Some(s) => {
                                            need.push((i, s, commits[r].sha.clone()));
                                            assert(lookups_view(need@) =~= lookups_view(need0).push(
                                                (i as int, s@, commits@[r as int].sha@),
                                            ));
                                        },
                                        None => {
                                            assert(lookups_view(need@) =~= pending(cs0.take(i + 1), commits@, source_slugs@, *caches));
                                        },
                                    }
                                },
                            }
                        },
                        None => {
                            assert(lookups_view(need@) =~= pending(cs0.take(i + 1), commits@, source_slugs@, *caches));
                        },
                    }
                } else {
                    assert(lookups_view(need@) =~= pending(cs0.take(i + 1), commits@, source_slugs@, *caches));
                }
            },
        }
        i += 1;
    }
    assert(cs0.take(n as int) =~= cs0);
    (need, from_cache)
}

// ---------------------------------------------------------------------------
// Applying the lookups
// ---------------------------------------------------------------------------
/// The SHA that was looked up for cluster `idx`: that of its last entry in
/// `need`.
pub open spec fn sha_for(need: Seq<(usize, String, String)>, idx: usize) -> Option<String>
    decreases need.len(),
{
    if need.len() == 0 {
        None
    } else if need.last().0 == idx {
        Some(need.last().2)
    } else {
        sha_for(need.drop_last(), idx)
    }
}

/// The `(login, avatar URL)` found for cluster `idx`: its last entry in `found`.
pub open spec fn found_for(found: Seq<(usize, String, String)>, idx: int) -> Option<(String, String)>
    decreases found.len(),
{
    if found.len() == 0 {
        None
    } else if found.last().0 as int == idx {
        Some((found.last().1, found.last().2))
    } else {
        found_for(found.drop_last(), idx)
    }
}

/// The author cache after recording each answer in `found` against the SHA
/// that was looked up for its cluster, in order.
pub open spec fn authors_after(
    m: Map<Seq<char>, Author>,
    need: Seq<(usize, String, String)>,
    found: Seq<(usize, String, String)>,
) -> Map<Seq<char>, Author>
    decreases found.len(),
{
    if found.len() == 0 {
        m
    } else {
        let prev = authors_after(m, need, found.drop_last());
        let f = found.last();
        match sha_for(need, f.0) {
            Some(s) => prev.insert(s@, Author { login: f.1, avatar_url: f.2 }),
            None => prev,
        }
    }
}

/// Some answer in `found` is recorded in the cache.
pub open spec fn any_recorded(need: Seq<(usize, String, String)>, found: Seq<(usize, String, String)>) -> bool {
    exists|k: int| 0 <= k < found.len() && sha_for(need, (#[trigger] found[k]).0) is Some
}

fn sha_for_exec(need: &[(usize, String, String)], idx: usize) -> (r: Option<String>)
    ensures
        r == sha_for(need@, idx),
{
    let mut k: usize = need.len();
    assert(need@.take(k as int) =~= need@);
    while k > 0
        invariant
            k <= need@.len(),
            sha_for(need@, idx) == sha_for(need@.take(k as int), idx),
        decreases k,
    {
        assert(need@.take(k as int).drop_last() =~= need@.take(k - 1));
        if need[k - 1].0 == idx {
            return Some(need[k - 1].2.clone());
        }
        k -= 1;
    }
    None
}

/// Record what the commits API answered. `need` is what was asked, as
/// `(cluster index, slug, SHA)`; `found` holds `(cluster index, login,
/// avatar URL)` for each answer. Each answer is cached against its SHA (a
/// commit's author never changes) and set on its cluster.
pub fn apply_lookups(
    clusters: &mut [Cluster],
    caches: &mut Caches,
    need: &[(usize, String, String)],
    found: &[(usize, String, String)],
)
    requires
        forall|k: int| 0 <= k < found@.len() ==> ((#[trigger] found@[k]).0 as int) < old(clusters)@.len(),
    ensures
        final(clusters)@.len() == old(clusters)@.len(),
        forall|i: int|
            0 <= i < old(clusters)@.len() ==> {
                &&& same_but_identity(#[trigger] old(clusters)@[i], final(clusters)@[i])
                &&& match found_for(found@, i) {
                    Some(x) => final(clusters)@[i].login == Some(x.0) && final(clusters)@[i].avatar_url == Some(x.1),
                    None => final(clusters)@[i].login == old(clusters)@[i].login && final(clusters)@[i].avatar_url
                        == old(clusters)@[i].avatar_url,
                }
            },
        final(caches).author_map() == authors_after(old(caches).author_map(), need@, found@),
        any_recorded(need@, found@) ==> same_except(*old(caches), *final(caches), CacheFile::Authors),
        !any_recorded(need@, found@) ==> *final(caches) == *old(caches),
{
    let ghost cs0 = clusters@;
    let ghost c0 = *caches;
    let mut k: usize = 0;
    while k < found.len()
        invariant
            k <= found@.len(),
            cs0 == old(clusters)@,
            c0 == *old(caches),
            clusters@.len() == cs0.len(),
            forall|k2: int| 0 <= k2 < found@.len() ==> ((#[trigger] found@[k2]).0 as int) < cs0.len(),
            forall|i: int|
                0 <= i < cs0.len() ==> {
                    &&& same_but_identity(#[trigger] cs0[i], clusters@[i])
                    &&& match found_for(found@.take(k as int), i) {
                        Some(x) => clusters@[i].login == Some(x.0) && clusters@[i].avatar_url == Some(x.1),
                        None => clusters@[i].login == cs0[i].login && clusters@[i].avatar_url == cs0[i].avatar_url,
                    }
                },
            caches.author_map() == authors_after(c0.author_map(), need@, found@.take(k as int)),
            any_recorded(need@, found@.take(k as int)) ==> same_except(c0, *caches, CacheFile::Authors),
            !any_recorded(need@, found@.take(k as int)) ==> *caches == c0,
        decreases found@.len() - k,
    {
        let ghost pre = found@.take(k as int);
        let ghost post = found@.take(k + 1);
        let ghost before = *caches;
        assert(post.drop_last() =~= pre);
        assert(post.last() == found@[k as int]);
        let idx = found[k].0;
        let login = found[k].1.clone();
        let avatar = found[k].2.clone();
        match sha_for_exec(need, idx) {
            Some(s) => {
                caches.put_author(s, login.clone(), avatar.clone());
                assert(any_recorded(need@, post)) by {
                    assert(sha_for(need@, post[k as int].0) is Some);
                }
            },
            None => {
                assert(any_recorded(need@, post) == any_recorded(need@, pre)) by {
                    if any_recorded(need@, post) {
                        let k2 = choose|k2: int| 0 <= k2 < post.len() && sha_for(need@, (#[trigger] post[k2]).0) is Some;
                        assert(k2 != k);
                        assert(pre[k2] == post[k2]);
                    }
                    if any_recorded(need@, pre) {
                        let k2 = choose|k2: int| 0 <= k2 < pre.len() && sha_for(need@, (#[trigger] pre[k2]).0) is Some;
                        assert(pre[k2] == post[k2]);
                    }
                }
            },
        }
        assert(any_recorded(need@, pre) ==> any_recorded(need@, post)) by {
            if any_recorded(need@, pre) {
                let k2 = choose|k2: int| 0 <= k2 < pre.len() && sha_for(need@, (#[trigger] pre[k2]).0) is Some;
                assert(pre[k2] == post[k2]);
            }
        }
        clusters[idx].login = Some(login);
        clusters[idx].avatar_url = Some(avatar);
        k += 1;
    }
    assert(found@.take(k as int) =~= found@);
}

// ---------------------------------------------------------------------------
// Profiles
// ---------------------------------------------------------------------------
/// `v` holds distinct strings in increasing order.
pub open spec fn strictly_sorted(v: Seq<Seq<char>>) -> bool {
    forall|a: int, b: int| 0 <= a < b < v.len() ==> seq_lt(#[trigger] v[a], #[trigger] v[b])
}

/// Add `s` to a strictly sorted list of strings, unless it holds it already.
fn insert_sorted(v: &mut Vec<String>, s: String)
    requires
        strictly_sorted(views(old(v)@)),
    ensures
        strictly_sorted(views(final(v)@)),
        forall|x: Seq<char>| #[trigger] views(final(v)@).contains(x) <==> (views(old(v)@).contains(x) || x == s@),
{
    let ghost v0 = views(v@);
    let ghost sv = s@;
    let mut q: usize = 0;
    while q < v.len() && seq_lt_exec(&chars_of(v[q].as_str()), &chars_of(s.as_str()))
        invariant
            q <= v@.len(),
            v0 == views(v@),
            sv == s@,
            forall|q2: int| 0 <= q2 < q ==> seq_lt(#[trigger] v0[q2], sv),
        decreases v@.len() - q,
    {
        assert(v0[q as int] == v@[q as int]@);
        q += 1;
    }
    if q < v.len() {
        assert(v0[q as int] == v@[q as int]@);
        if str_eq(v[q].as_str(), s.as_str()) {
            assert(v0.contains(sv));
            return;
        }
        proof {
            crate::text::lemma_seq_lt_total(v0[q as int], sv);
        }
        assert(seq_lt(sv, v0[q as int]));
    }
    v.insert(q, s);
    proof {
        let nv = views(v@);
        assert(nv =~= v0.insert(q as int, sv));
        assert forall|a: int, b: int| 0 <= a < b < nv.len() implies seq_lt(#[trigger] nv[a], #[trigger] nv[b]) by {
            if b < q {
                assert(nv[a] == v0[a] && nv[b] == v0[b]);
            } else if b == q {
                assert(nv[a] == v0[a]);
            } else if a < q {
                assert(nv[a] == v0[a] && nv[b] == v0[b - 1]);
                if b - 1 > q {
                    crate::text::lemma_seq_lt_trans(sv, v0[q as int], v0[b - 1]);
                }
                crate::text::lemma_seq_lt_trans(v0[a], sv, v0[b - 1]);
            } else if a == q {
                assert(nv[b] == v0[b - 1]);
                if b - 1 > q {
                    crate::text::lemma_seq_lt_trans(sv, v0[q as int], v0[b - 1]);
                }
            } else {
                assert(nv[a] == v0[a - 1] && nv[b] == v0[b - 1]);
            }
        }
        assert forall|x: Seq<char>| #[trigger] nv.contains(x) <==> (v0.contains(x) || x == sv) by {
            if nv.contains(x) {
                let t = choose|t: int| 0 <= t < nv.len() && nv[t] == x;
                if t < q {
                    assert(v0[t] == x);
                } else if t > q {
                    assert(v0[t - 1] == x);
                }
            }
            if v0.contains(x) {
                let t = choose|t: int| 0 <= t < v0.len() && v0[t] == x;
                if t < q {
                    assert(nv[t] == x);
                } else {
                    assert(nv[t + 1] == x);
                }
            }
            if x == sv {
                assert(nv[q as int] == x);
            }
        }
    }
}

/// Some cluster has the login `x`.
pub open spec fn has_login(cs: Seq<Cluster>, x: Seq<char>) -> bool {
    exists|i: int| 0 <= i < cs.len() && opt_view(#[trigger] cs[i].login) == Some(x)
}

/// Every login that some cluster has, once each, in increasing order.
pub fn profile_logins(clusters: &[Cluster]) -> (r: Vec<String>)
    ensures
        strictly_sorted(views(r@)),
        forall|x: Seq<char>| #[trigger] views(r@).contains(x) <==> has_login(clusters@, x),
{
    let mut out: Vec<String> = Vec::new();
    let mut i: usize = 0;
    while i < clusters.len()
        invariant
            i <= clusters@.len(),
            strictly_sorted(views(out@)),
            forall|x: Seq<char>| #[trigger] views(out@).contains(x) <==> has_login(clusters@.take(i as int), x),
        decreases clusters@.len() - i,
    {
        let ghost pre = clusters@.take(i as int);
        let ghost post = clusters@.take(i + 1);
        assert forall|x: Seq<char>| has_login(post, x) <==> (has_login(pre, x) || opt_view(clusters@[i as int].login) == Some(x)) by {
            if has_login(post, x) {
                let t = choose|t: int| 0 <= t < post.len() && opt_view(#[trigger] post[t].login) == Some(x);
                if t < i {
                    assert(pre[t] == post[t]);
                }
            }
            if has_login(pre, x) {
                let t = choose|t: int| 0 <= t < pre.len() && opt_view(#[trigger] pre[t].login) == Some(x);
                assert(pre[t] == post[t]);
            }
            if opt_view(clusters@[i as int].login) == Some(x) {
                assert(post[i as int] == clusters@[i as int]);
            }
        }
        match &clusters[i].login {
            Some(l) => {
                insert_sorted(&mut out, l.clone());
            },
            None => {},
        }
        i += 1;
    }
    assert(clusters@.take(i as int) =~= clusters@);
    out
}

/// The view of a list of `(login, name, company)` profiles.
pub open spec fn profile_views(v: Seq<(String, Option<String>, Option<String>)>) -> Seq<
    (Seq<char>, Option<Seq<char>>, Option<Seq<char>>),
> {
    v.map_values(|t: (String, Option<String>, Option<String>)| (t.0@, opt_view(t.1), opt_view(t.2)))
}

/// The fresh cached profiles of `logins`, in order, as `(login, name, company)`.
pub open spec fn cached_profiles_of(c: Caches, logins: Seq<Seq<char>>) -> Seq<
    (Seq<char>, Option<Seq<char>>, Option<Seq<char>>),
>
    decreases logins.len(),
{
    if logins.len() == 0 {
        Seq::empty()
    } else {
        let prev = cached_profiles_of(c, logins.drop_last());
        match profile_answer(c, logins.last()) {
            Some(p) => prev.push((logins.last(), p.0, p.1)),
            None => prev,
        }
    }
}

/// The logins without a fresh cached profile, in order.
pub open spec fn uncached_logins(c: Caches, logins: Seq<Seq<char>>) -> Seq<Seq<char>>
    decreases logins.len(),
{
    if logins.len() == 0 {
        Seq::empty()
    } else {
        let prev = uncached_logins(c, logins.drop_last());
        if profile_answer(c, logins.last()) is Some {
            prev
        } else {
            prev.push(logins.last())
        }
    }
}

/// Split `logins` into those whose profile is cached, with that profile as
/// `(login, name, company)`, and those to fetch.
pub fn cached_profiles(caches: &Caches, logins: &[String]) -> (r: (
    Vec<(String, Option<String>, Option<String>)>,
    Vec<String>,
))
    ensures
        profile_views(r.0@) == cached_profiles_of(*caches, views(logins@)),
        views(r.1@) == uncached_logins(*caches, views(logins@)),
{
    let ghost lv = views(logins@);
    let mut hit: Vec<(String, Option<String>, Option<String>)> = Vec::new();
    let mut miss: Vec<String> = Vec::new();
    let mut i: usize = 0;
    while i < logins.len()
        invariant
            i <= logins@.len(),
            lv == views(logins@),
            profile_views(hit@) == cached_profiles_of(*caches, lv.take(i as int)),
            views(miss@) == uncached_logins(*caches, lv.take(i as int)),
        decreases logins@.len() - i,
    {
        assert(lv.take(i + 1).drop_last() =~= lv.take(i as int));
        assert(lv.take(i + 1).last() == logins@[i as int]@);
        match caches.profile(logins[i].as_str()) {
            Some((n, c)) => {
                let ghost h0 = hit@;
                hit.push((logins[i].clone(), n, c));
                assert(profile_views(hit@) =~= profile_views(h0).push((logins@[i as int]@, opt_view(n), opt_view(c))));
            },
            None => {
                let ghost m0 = miss@;
                miss.push(logins[i].clone());
                assert(views(miss@) =~= views(m0).push(logins@[i as int]@));
            },
        }
        i += 1;
    }
    assert(lv.take(i as int) =~= lv);
    (hit, miss)
}

/// The profile `v` lists for `login`, as `(name, company)`: its last entry.
pub open spec fn profile_in(v: Seq<(String, Option<String>, Option<String>)>, login: Seq<char>) -> Option<
    (Option<String>, Option<String>),
>
    decreases v.len(),
{
    if v.len() == 0 {
        None
    } else if v.last().0@ == login {
        Some((v.last().1, v.last().2))
    } else {
        profile_in(v.drop_last(), login)
    }
}

/// The profile of a cluster: a fetched one of its login, else a cached one.
pub open spec fn profile_of(
    c: Cluster,
    cached: Seq<(String, Option<String>, Option<String>)>,
    fetched: Seq<(String, Option<String>, Option<String>)>,
) -> Option<(Option<String>, Option<String>)> {
    match c.login {
        Some(l) => match profile_in(fetched, l@) {
            Some(p) => Some(p),
            None => profile_in(cached, l@),
        },
        None => None,
    }
}

/// The profile cache after recording each fetched profile, in order, as
/// fetched at `now`.
pub open spec fn profiles_after(
    m: Map<Seq<char>, ProfileRec>,
    fetched: Seq<(String, Option<String>, Option<String>)>,
    now: i64,
) -> Map<Seq<char>, ProfileRec>
    decreases fetched.len(),
{
    if fetched.len() == 0 {
        m
    } else {
        profiles_after(m, fetched.drop_last(), now).insert(
            fetched.last().0@,
            ProfileRec { name: fetched.last().1, company: fetched.last().2, ts: now },
        )
    }
}

/// `b` is `a` with at most its profile name and affiliation changed.
pub open spec fn same_but_profile(a: Cluster, b: Cluster) -> bool {
    &&& b.emails == a.emails
    &&& b.names == a.names
    &&& b.commit_idxs == a.commit_idxs
    &&& b.coauthored_idxs == a.coauthored_idxs
    &&& b.login == a.login
    &&& b.avatar_url == a.avatar_url
}

fn profile_in_exec(v: &[(String, Option<String>, Option<String>)], login: &str) -> (r: Option<(Option<String>, Option<String>)>)
    ensures
        r == profile_in(v@, login@),
{
    let mut k: usize = v.len();
    assert(v@.take(k as int) =~= v@);
    while k > 0
        invariant
            k <= v@.len(),
            profile_in(v@, login@) == profile_in(v@.take(k as int), login@),
        decreases k,
    {
        assert(v@.take(k as int).drop_last() =~= v@.take(k - 1));
        if str_eq(v[k - 1].0.as_str(), login) {
            return Some((clone_opt(&v[k - 1].1), clone_opt(&v[k - 1].2)));
        }
        k -= 1;
    }
    None
}

/// Record the fetched profiles in the cache, and give every cluster with a
/// login the profile of that login, fetched (`fetched`) or cached
/// (`cached`), each as `(login, name, company)`.
pub fn apply_profiles(
    clusters: &mut [Cluster],
    caches: &mut Caches,
    cached: &[(String, Option<String>, Option<String>)],
    fetched: &[(String, Option<String>, Option<String>)],
)
    ensures
        final(clusters)@.len() == old(clusters)@.len(),
        forall|i: int|
            0 <= i < old(clusters)@.len() ==> {
                &&& same_but_profile(#[trigger] old(clusters)@[i], final(clusters)@[i])
                &&& match profile_of(old(clusters)@[i], cached@, fetched@) {
                    Some(p) => final(clusters)@[i].profile_name == p.0 && final(clusters)@[i].affiliation == p.1,
                    None => final(clusters)@[i].profile_name == old(clusters)@[i].profile_name
                        && final(clusters)@[i].affiliation == old(clusters)@[i].affiliation,
                }
            },
        final(caches).profile_map() == profiles_after(old(caches).profile_map(), fetched@, old(caches).now_of()),
        fetched@.len() > 0 ==> same_except(*old(caches), *final(caches), CacheFile::Profiles),
        fetched@.len() == 0 ==> *final(caches) == *old(caches),
{
    let ghost c0 = *caches;
    let mut k: usize = 0;
    while k < fetched.len()
        invariant
            k <= fetched@.len(),
            c0 == *old(caches),
            caches.profile_map() == profiles_after(c0.profile_map(), fetched@.take(k as int), c0.now_of()),
            k > 0 ==> same_except(c0, *caches, CacheFile::Profiles),
            k == 0 ==> *caches == c0,
        decreases fetched@.len() - k,
    {
        assert(fetched@.take(k + 1).drop_last() =~= fetched@.take(k as int));
        assert(fetched@.take(k + 1).last() == fetched@[k as int]);
        caches.put_profile(fetched[k].0.clone(), clone_opt(&fetched[k].1), clone_opt(&fetched[k].2));
        k += 1;
    }
    assert(fetched@.take(k as int) =~= fetched@);
    let ghost cs0 = clusters@;
    let mut i: usize = 0;
    while i < clusters.len()
        invariant
            i <= clusters@.len(),
            cs0 == old(clusters)@,
            clusters@.len() == cs0.len(),
            forall|j: int| i <= j < cs0.len() ==> clusters@[j] == cs0[j],
            forall|j: int|
                0 <= j < i ==> {
                    &&& same_but_profile(#[trigger] cs0[j], clusters@[j])
                    &&& match profile_of(cs0[j], cached@, fetched@) {
                        Some(p) => clusters@[j].profile_name == p.0 && clusters@[j].affiliation == p.1,
                        None => clusters@[j].profile_name == cs0[j].profile_name && clusters@[j].affiliation
                            == cs0[j].affiliation,
                    }
                },
        decreases cs0.len() - i,
    {
        let found = match &clusters[i].login {
            Some(l) => match profile_in_exec(fetched, l.as_str()) {
                Some(p) => Some(p),
                None => profile_in_exec(cached, l.as_str()),
            },
            None => None,
        };
        match found {
            Some((n, c)) => {
                clusters[i].profile_name = n;
                clusters[i].affiliation = c;
            },
            None => {},
        }
        i += 1;
    }
}

} // verus!
