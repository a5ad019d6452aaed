//! Per-contributor statistics: activity span, monthly bins, display name,
//! group affiliation over time, and profile links.
use vstd::prelude::*;
use crate::identity::{
    authored_names, best_name, lemma_occ_first, name_score, occ, ranks_above, Cluster, cluster_matches, display_name, display_name_spec, github_username_spec, is_bot,
    is_bot_spec, is_github_username, matches_needle,
};
use crate::model::{Commit, Contributor, GroupRule, utc_year_month0, month_index, month_of, month_start_of, month_start_ts, opt_view, window_covers};
use crate::text::{chars_of, push_str, trim, trim_chars, unicode_uppercase};

verus! {

// ---------------------------------------------------------------------------
// Which commits count, and when
// ---------------------------------------------------------------------------
/// The co-authored commits that are credited: all of them when co-authors
/// count, none otherwise.
pub open spec fn coauthored_of(cl: Cluster, co: bool) -> Seq<usize> {
    if co {
        cl.coauthored_idxs@
    } else {
        Seq::empty()
    }
}

/// The commits credited to a cluster: those it authored, then the credited
/// co-authored ones.
pub open spec fn credited(cl: Cluster, co: bool) -> Seq<usize> {
    cl.commit_idxs@ + coauthored_of(cl, co)
}

/// The timestamp of commit `i`.
pub open spec fn ts_of(commits: Seq<Commit>, i: usize) -> i64 {
    commits[i as int].ts
}

/// `t` is the earliest timestamp of the commits `idxs`.
pub open spec fn is_first_ts(commits: Seq<Commit>, idxs: Seq<usize>, t: i64) -> bool {
    &&& exists|q: int| 0 <= q < idxs.len() && ts_of(commits, #[trigger] idxs[q]) == t
    &&& forall|q: int| 0 <= q < idxs.len() ==> t <= ts_of(commits, #[trigger] idxs[q])
}

/// `t` is the latest timestamp of the commits `idxs`.
pub open spec fn is_last_ts(commits: Seq<Commit>, idxs: Seq<usize>, t: i64) -> bool {
    &&& exists|q: int| 0 <= q < idxs.len() && ts_of(commits, #[trigger] idxs[q]) == t
    &&& forall|q: int| 0 <= q < idxs.len() ==> ts_of(commits, #[trigger] idxs[q]) <= t
}

/// How many of the commits `idxs` fall in month `m`.
pub open spec fn month_count(commits: Seq<Commit>, idxs: Seq<usize>, m: int) -> nat
    decreases idxs.len(),
{
    if idxs.len() == 0 {
        0
    } else {
        month_count(commits, idxs.drop_last(), m) + (if month_of(ts_of(commits, idxs.last())) == m {
            1nat
        } else {
            0nat
        })
    }
}

/// Number of monthly bins for a span from month `m0` to month `m1`: the
/// months in between, at least one and at most 6000 (so one corrupt date
/// cannot blow up the allocation).
pub open spec fn span_len(m0: int, m1: int) -> int {
    let d = m1 - m0 + 1;
    if d < 1 {
        1
    } else if d > 6000 {
        6000
    } else {
        d
    }
}

/// The sum of some monthly counts.
pub open spec fn bins_total(bins: Seq<u32>) -> int
    decreases bins.len(),
{
    if bins.len() == 0 {
        0
    } else {
        bins_total(bins.drop_last()) + bins.last()
    }
}

/// How many of the commits `idxs` fall in the `len` months from `m0`.
pub open spec fn in_span_count(commits: Seq<Commit>, idxs: Seq<usize>, m0: int, len: int) -> nat
    decreases idxs.len(),
{
    if idxs.len() == 0 {
        0
    } else {
        in_span_count(commits, idxs.drop_last(), m0, len) + (if m0 <= month_of(ts_of(commits, idxs.last())) < m0 + len {
            1nat
        } else {
            0nat
        })
    }
}

/// Every commit of `idxs` has a timestamp that chrono can place in a month.
pub open spec fn datable(commits: Seq<Commit>, idxs: Seq<usize>) -> bool {
    forall|q: int| 0 <= q < idxs.len() ==> (#[trigger] utc_year_month0(ts_of(commits, idxs[q]))) is Some
}

/// A contributor's monthly bins add up to its commit counts, when chrono
/// can date all its commits and its span fits the 6000 bins kept.
pub open spec fn months_add_up(cl: Cluster, commits: Seq<Commit>, co: bool, c: Contributor) -> bool {
    datable(commits, credited(cl, co)) && month_of(c.last) - month_of(c.first) < 6000 ==> {
        &&& bins_total(c.months@) == c.commits
        &&& bins_total(c.co_months@) == c.co_commits
    }
}

/// Raising one count by `d` raises the sum by `d`.
proof fn lemma_total_update(s: Seq<u32>, i: int, v: u32)
    requires
        0 <= i < s.len(),
    ensures
        bins_total(s.update(i, v)) == bins_total(s) - s[i] + v,
    decreases s.len(),
{
    if i == s.len() - 1 {
        assert(s.update(i, v).drop_last() =~= s.drop_last());
    } else {
        lemma_total_update(s.drop_last(), i, v);
        assert(s.update(i, v).drop_last() =~= s.drop_last().update(i, v));
    }
}

/// All-zero counts sum to zero.
proof fn lemma_total_zero(s: Seq<u32>)
    requires
        forall|j: int| 0 <= j < s.len() ==> #[trigger] s[j] == 0,
    ensures
        bins_total(s) == 0,
    decreases s.len(),
{
    if s.len() > 0 {
        lemma_total_zero(s.drop_last());
    }
}

/// When every commit falls in the span, all of them are counted.
proof fn lemma_all_in_span(commits: Seq<Commit>, idxs: Seq<usize>, m0: int, len: int)
    requires
        forall|q: int| 0 <= q < idxs.len() ==> m0 <= #[trigger] month_of(ts_of(commits, idxs[q])) < m0 + len,
    ensures
        in_span_count(commits, idxs, m0, len) == idxs.len(),
    decreases idxs.len(),
{
    if idxs.len() > 0 {
        let p = idxs.drop_last();
        assert forall|q: int| 0 <= q < p.len() implies m0 <= #[trigger] month_of(ts_of(commits, p[q])) < m0 + len by {
            assert(p[q] == idxs[q]);
        }
        lemma_all_in_span(commits, p, m0, len);
        assert(month_of(ts_of(commits, idxs[idxs.len() - 1])) < m0 + len);
    }
}

/// `bins` counts the commits `idxs` per month, bin `k` being month `m0 + k`.
pub open spec fn binned(commits: Seq<Commit>, idxs: Seq<usize>, m0: int, len: int, bins: Seq<u32>) -> bool {
    &&& bins.len() == len
    &&& forall|k: int| 0 <= k < len ==> #[trigger] bins[k] == month_count(commits, idxs, m0 + k)
}

// ---------------------------------------------------------------------------
// Names
// ---------------------------------------------------------------------------
/// `j` is the first curated `(matcher, name)` pair whose matcher the
/// cluster answers to.
pub open spec fn first_forced(cl: Cluster, forced: Seq<(String, String)>, j: int) -> bool {
    &&& 0 <= j < forced.len()
    &&& matches_needle(cl, forced[j].0@)
    &&& forall|j2: int| 0 <= j2 < j ==> !matches_needle(cl, (#[trigger] forced[j2]).0@)
}

/// The name shown for a cluster: a curated name wins, then a nonblank
/// profile name, then the best name from its commits.
pub open spec fn contributor_name(cl: Cluster, commits: Seq<Commit>, forced: Seq<(String, String)>, r: Seq<char>) -> bool {
    if exists|j: int| first_forced(cl, forced, j) {
        exists|j: int| first_forced(cl, forced, j) && r == forced[j].1@
    } else if cl.profile_name is Some && trim(cl.profile_name->0@).len() > 0 {
        r == cl.profile_name->0@
    } else {
        display_name_spec(cl, commits, r)
    }
}

// ---------------------------------------------------------------------------
// Group rules
// ---------------------------------------------------------------------------
/// The rules, in order, whose matcher the cluster answers to.
pub open spec fn matching_rules(cl: Cluster, rules: Seq<GroupRule>) -> Seq<GroupRule>
    decreases rules.len(),
{
    if rules.len() == 0 {
        Seq::empty()
    } else {
        let p = matching_rules(cl, rules.drop_last());
        if matches_needle(cl, rules.last().matcher@) {
            p.push(rules.last())
        } else {
            p
        }
    }
}

/// The start a rule is ranked by (an open start ranks lowest).
pub open spec fn since_key(r: GroupRule) -> i64 {
    match r.since {
        Some(s) => s,
        None => i64::MIN,
    }
}

/// Whether a rule takes part in a choice: at a time `Some(ts)` only the
/// rules covering `ts` do; with `None` all of them.
pub open spec fn eligible(r: GroupRule, at: Option<i64>) -> bool {
    match at {
        Some(ts) => window_covers(r.since, r.until, ts),
        None => true,
    }
}

/// Among the first `n` rules of `rs` eligible at `at`, `j` is the last one
/// with the greatest start.
pub open spec fn last_max(rs: Seq<GroupRule>, at: Option<i64>, n: int, j: int) -> bool {
    &&& 0 <= j < n <= rs.len()
    &&& eligible(rs[j], at)
    &&& forall|k: int| 0 <= k < n && eligible(#[trigger] rs[k], at) ==> since_key(rs[k]) <= since_key(rs[j])
    &&& forall|k: int| j < k < n && eligible(#[trigger] rs[k], at) ==> since_key(rs[k]) < since_key(rs[j])
}

/// Some rule of `rs` covers `ts`.
pub open spec fn covered(rs: Seq<GroupRule>, ts: i64) -> bool {
    exists|k: int| 0 <= k < rs.len() && eligible(#[trigger] rs[k], Some(ts))
}

/// `g` is the group active at `ts`: that of the covering rule with the
/// latest start (the last such on ties), or none when no rule covers `ts`.
pub open spec fn active_group(rs: Seq<GroupRule>, ts: i64, g: Option<Seq<char>>) -> bool {
    match g {
        Some(s) => exists|j: int| last_max(rs, Some(ts), rs.len() as int, j) && s == rs[j].group@,
        None => !covered(rs, ts),
    }
}

/// Month `mi` of the span starting at `m0` is the last one that a rule covers.
pub open spec fn last_covered(rs: Seq<GroupRule>, m0: int, len: int, mi: int) -> bool {
    &&& 0 <= mi < len
    &&& covered(rs, month_start_of(m0 + mi))
    &&& forall|m2: int| mi < m2 < len ==> !covered(rs, #[trigger] month_start_of(m0 + m2))
}

/// The view of a list of optional strings.
pub open spec fn opt_views(v: Seq<Option<String>>) -> Seq<Option<Seq<char>>> {
    v.map_values(|o: Option<String>| opt_view(o))
}

/// Group and per-month groups of a cluster whose matching rules `rs` include
/// dated ones, over `len` months from `m0`: each month gets the group active
/// at its first second; the per-month list is kept only if some month has
/// one; the primary group is that of the last such month, or else that of the
/// rule with the latest start.
pub open spec fn dated_grouping(
    rs: Seq<GroupRule>,
    m0: int,
    len: int,
    group: Option<String>,
    mgs: Option<Vec<Option<String>>>,
) -> bool {
    &&& (mgs is Some <==> exists|mi: int| 0 <= mi < len && covered(rs, #[trigger] month_start_of(m0 + mi)))
    &&& (mgs matches Some(v) ==> v@.len() == len && forall|mi: int|
        0 <= mi < len ==> active_group(rs, month_start_of(m0 + mi), #[trigger] opt_views(v@)[mi]))
    &&& if exists|mi: int| 0 <= mi < len && covered(rs, #[trigger] month_start_of(m0 + mi)) {
        exists|mi: int| last_covered(rs, m0, len, mi) && active_group(rs, month_start_of(m0 + mi), opt_view(group))
    } else {
        exists|j: int| last_max(rs, None, rs.len() as int, j) && opt_view(group) == Some(rs[j].group@)
    }
}

/// The group and per-month groups of a cluster: manual rules win over the
/// profile affiliation; undated rules give the first matching rule's group
/// throughout.
pub open spec fn grouping(
    cl: Cluster,
    rules: Seq<GroupRule>,
    m0: int,
    len: int,
    group: Option<String>,
    mgs: Option<Vec<Option<String>>>,
) -> bool {
    let rs = matching_rules(cl, rules);
    if rs.len() == 0 {
        opt_view(group) == opt_view(cl.affiliation) && mgs is None
    } else if forall|k: int| 0 <= k < rs.len() ==> !((#[trigger] rs[k]).since is Some || rs[k].until is Some) {
        opt_view(group) == Some(rs[0].group@) && mgs is None
    } else {
        dated_grouping(rs, m0, len, group, mgs)
    }
}

// ---------------------------------------------------------------------------
// Profile links
// ---------------------------------------------------------------------------
/// `j` is the first matching rule whose matcher is a plausible GitHub username.
pub open spec fn first_username(rs: Seq<GroupRule>, j: int) -> bool {
    &&& 0 <= j < rs.len()
    &&& github_username_spec(rs[j].matcher@)
    &&& forall|k: int| 0 <= k < j ==> !github_username_spec((#[trigger] rs[k]).matcher@)
}

/// Where GitHub serves the avatar of a user.
pub open spec fn avatar_link(user: Seq<char>) -> Seq<char> {
    "https://avatars.githubusercontent.com/"@ + user
}

/// A user's GitHub profile page.
pub open spec fn profile_link(user: Seq<char>) -> Seq<char> {
    "https://github.com/"@ + user
}

/// Login and avatar of a contributor: the cluster's own; for a cluster with
/// no login, the first username-like matcher of its matching rules, whose
/// avatar GitHub serves by name.
pub open spec fn links(cl: Cluster, rs: Seq<GroupRule>, login: Option<String>, avatar: Option<String>) -> bool {
    if cl.login is Some || !(exists|j: int| first_username(rs, j)) {
        opt_view(login) == opt_view(cl.login) && opt_view(avatar) == opt_view(cl.avatar_url)
    } else {
        exists|j: int|
            first_username(rs, j) && opt_view(login) == Some(rs[j].matcher@) && opt_view(avatar) == (match cl.avatar_url {
                Some(a) => Some(a@),
                None => Some(avatar_link(rs[j].matcher@)),
            })
    }
}

// ---------------------------------------------------------------------------
// The contributor
// ---------------------------------------------------------------------------
/// `c` is the contributor row built from cluster `cl`.
pub open spec fn contributor_of(
    cl: Cluster,
    commits: Seq<Commit>,
    rules: Seq<GroupRule>,
    forced: Seq<(String, String)>,
    co: bool,
    c: Contributor,
) -> bool {
    let idxs = credited(cl, co);
    let coa = coauthored_of(cl, co);
    let m0 = month_of(c.first);
    let len = span_len(m0, month_of(c.last));
    &&& is_first_ts(commits, idxs, c.first)
    &&& is_last_ts(commits, idxs, c.last)
    &&& c.m0 == m0
    &&& binned(commits, idxs, m0, len, c.months@)
    &&& (if coa.len() == 0 {
        c.co_months@.len() == 0
    } else {
        binned(commits, coa, m0, len, c.co_months@)
    })
    &&& c.commits == idxs.len()
    &&& c.co_commits == coa.len()
    &&& contributor_name(cl, commits, forced, c.name@)
    &&& grouping(cl, rules, m0, len, c.group, c.month_groups)
    &&& links(cl, matching_rules(cl, rules), c.login, c.avatar)
    &&& opt_view(c.url) == (match c.login {
        Some(l) => Some(profile_link(l@)),
        None => None,
    })
    &&& c.bot == is_bot_spec(cl)
    &&& c.members == 1
    &&& c.member_names@.len() == 0
}

/// The clusters that get a row: those with at least one credited commit.
pub open spec fn kept(clusters: Seq<Cluster>, co: bool) -> Seq<Cluster>
    decreases clusters.len(),
{
    if clusters.len() == 0 {
        Seq::empty()
    } else {
        let p = kept(clusters.drop_last(), co);
        if credited(clusters.last(), co).len() > 0 {
            p.push(clusters.last())
        } else {
            p
        }
    }
}

/// The commits that `cl` is credited with all exist, and there are at most
/// `u32::MAX` of them.
pub open spec fn credits_ok(cl: Cluster, commits: Seq<Commit>, co: bool) -> bool {
    &&& forall|q: int| 0 <= q < credited(cl, co).len() ==> (#[trigger] credited(cl, co)[q]) < commits.len()
    &&& credited(cl, co).len() <= u32::MAX
}

// ---------------------------------------------------------------------------
// Implementation
// ---------------------------------------------------------------------------
/// The credited commit indices of a cluster.
fn credited_idxs(cl: &Cluster, co: bool) -> (r: Vec<usize>)
    ensures
        r@ == credited(*cl, co),
{
    let mut r: Vec<usize> = Vec::new();
    let mut k: usize = 0;
    while k < cl.commit_idxs.len()
        invariant
            k <= cl.commit_idxs@.len(),
            r@ == cl.commit_idxs@.take(k as int),
        decreases cl.commit_idxs@.len() - k,
    {
        r.push(cl.commit_idxs[k]);
        k += 1;
        assert(r@ =~= cl.commit_idxs@.take(k as int));
    }
    assert(cl.commit_idxs@.take(k as int) =~= cl.commit_idxs@);
    if co {
        let mut k: usize = 0;
        while k < cl.coauthored_idxs.len()
            invariant
                k <= cl.coauthored_idxs@.len(),
                r@ == cl.commit_idxs@ + cl.coauthored_idxs@.take(k as int),
            decreases cl.coauthored_idxs@.len() - k,
        {
            r.push(cl.coauthored_idxs[k]);
            k += 1;
            assert(r@ =~= cl.commit_idxs@ + cl.coauthored_idxs@.take(k as int));
        }
        assert(cl.coauthored_idxs@.take(k as int) =~= cl.coauthored_idxs@);
    }
    assert(r@ =~= credited(*cl, co));
    r
}

/// Earliest and latest timestamps of a nonempty list of commits.
fn time_span(commits: &[Commit], idxs: &Vec<usize>) -> (r: (i64, i64))
    requires
        idxs@.len() > 0,
        forall|q: int| 0 <= q < idxs@.len() ==> #[trigger] idxs@[q] < commits@.len(),
    ensures
        is_first_ts(commits@, idxs@, r.0),
        is_last_ts(commits@, idxs@, r.1),
{
    let mut first = commits[idxs[0]].ts;
    let mut last = commits[idxs[0]].ts;
    let mut k: usize = 1;
    assert(ts_of(commits@, idxs@[0]) == first);
    while k < idxs.len()
        invariant
            1 <= k <= idxs@.len(),
            forall|q: int| 0 <= q < idxs@.len() ==> #[trigger] idxs@[q] < commits@.len(),
            exists|q: int| 0 <= q < k && ts_of(commits@, #[trigger] idxs@[q]) == first,
            exists|q: int| 0 <= q < k && ts_of(commits@, #[trigger] idxs@[q]) == last,
            forall|q: int| 0 <= q < k ==> first <= ts_of(commits@, #[trigger] idxs@[q]) <= last,
        decreases idxs@.len() - k,
    {
        let t = commits[idxs[k]].ts;
        assert(ts_of(commits@, idxs@[k as int]) == t);
        if t < first {
            first = t;
        }
        if t > last {
            last = t;
        }
        k += 1;
    }
    (first, last)
}

/// Count the commits `idxs` into `len` monthly bins starting at month `m0`;
/// commits outside the span are not counted.
fn bin_by_month(commits: &[Commit], idxs: &Vec<usize>, m0: i32, len: usize) -> (bins: Vec<u32>)
    requires
        forall|q: int| 0 <= q < idxs@.len() ==> #[trigger] idxs@[q] < commits@.len(),
        idxs@.len() <= u32::MAX,
        -3_200_000 <= m0 <= 3_200_000,
    ensures
        binned(commits@, idxs@, m0 as int, len as int, bins@),
        bins_total(bins@) == in_span_count(commits@, idxs@, m0 as int, len as int),
{
    let mut bins: Vec<u32> = Vec::new();
    let mut k: usize = 0;
    while k < len
        invariant
            k <= len,
            bins@.len() == k,
            forall|j: int| 0 <= j < k ==> #[trigger] bins@[j] == 0,
        decreases len - k,
    {
        bins.push(0);
        k += 1;
    }
    proof {
        lemma_total_zero(bins@);
        assert(idxs@.take(0) =~= Seq::<usize>::empty());
    }
    let mut q: usize = 0;
    while q < idxs.len()
        invariant
            q <= idxs@.len(),
            idxs@.len() <= u32::MAX,
            -3_200_000 <= m0 <= 3_200_000,
            forall|q2: int| 0 <= q2 < idxs@.len() ==> #[trigger] idxs@[q2] < commits@.len(),
            bins@.len() == len,
            forall|j: int| 0 <= j < len ==> #[trigger] bins@[j] == month_count(commits@, idxs@.take(q as int), m0 + j),
            forall|j: int| 0 <= j < len ==> #[trigger] bins@[j] <= q,
            bins_total(bins@) == in_span_count(commits@, idxs@.take(q as int), m0 as int, len as int),
        decreases idxs@.len() - q,
    {
        let mi = month_index(commits[idxs[q]].ts);
        let d: i32 = mi - m0;
        let ghost pre = idxs@.take(q as int);
        let ghost post = idxs@.take(q + 1);
        proof {
            assert(post.drop_last() =~= pre);
            assert(post.last() == idxs@[q as int]);
        }
        if d >= 0 && (d as usize) < len {
            let slot = d as usize;
            let cur = bins[slot];
            proof {
                lemma_total_update(bins@, slot as int, (cur + 1) as u32);
            }
            bins.set(slot, cur + 1);
        }
        proof {
            assert forall|j: int| 0 <= j < len implies #[trigger] bins@[j] == month_count(commits@, post, m0 + j) by {
                assert(month_count(commits@, post, m0 + j) == month_count(commits@, pre, m0 + j) + (if month_of(
                    ts_of(commits@, idxs@[q as int]),
                ) == m0 + j {
                    1nat
                } else {
                    0nat
                }));
            }
        }
        q += 1;
    }
    assert(idxs@.take(q as int) =~= idxs@);
    bins
}

/// The name shown for a cluster.
fn name_for(cl: &Cluster, commits: &[Commit], forced_names: &[(String, String)]) -> (r: String)
    requires
        forall|q: int| 0 <= q < cl.commit_idxs@.len() ==> #[trigger] cl.commit_idxs@[q] < commits@.len(),
        cl.commit_idxs@.len() <= u32::MAX,
    ensures
        contributor_name(*cl, commits@, forced_names@, r@),
{
    let mut j: usize = 0;
    while j < forced_names.len()
        invariant
            j <= forced_names@.len(),
            forall|j2: int| 0 <= j2 < j ==> !matches_needle(*cl, (#[trigger] forced_names@[j2]).0@),
        decreases forced_names@.len() - j,
    {
        if cluster_matches(cl, forced_names[j].0.as_str()) {
            assert(first_forced(*cl, forced_names@, j as int));
            return forced_names[j].1.clone();
        }
        j += 1;
    }
    assert forall|j2: int| !first_forced(*cl, forced_names@, j2) by {}
    if let Some(p) = &cl.profile_name {
        if trim_chars(&chars_of(p.as_str())).len() > 0 {
            return p.clone();
        }
    }
    display_name(cl, commits)
}

/// The indices into `rules` of the rules a cluster answers to.
fn matching_idxs(cl: &Cluster, rules: &[GroupRule]) -> (r: Vec<usize>)
    ensures
        forall|t: int| 0 <= t < r@.len() ==> #[trigger] r@[t] < rules@.len(),
        picked(rules@, r@) == matching_rules(*cl, rules@),
{
    let mut r: Vec<usize> = Vec::new();
    let mut i: usize = 0;
    while i < rules.len()
        invariant
            i <= rules@.len(),
            forall|t: int| 0 <= t < r@.len() ==> #[trigger] r@[t] < rules@.len(),
            picked(rules@, r@) == matching_rules(*cl, rules@.take(i as int)),
        decreases rules@.len() - i,
    {
        let ghost pre = rules@.take(i as int);
        let ghost post = rules@.take(i + 1);
        proof {
            assert(post.drop_last() =~= pre);
        }
        if cluster_matches(cl, rules[i].matcher.as_str()) {
            r.push(i);
            assert(picked(rules@, r@) =~= matching_rules(*cl, pre).push(rules@[i as int]));
        }
        i += 1;
    }
    assert(rules@.take(i as int) =~= rules@);
    r
}

/// The rules at the indices `idx`, in order.
pub open spec fn picked(rules: Seq<GroupRule>, idx: Seq<usize>) -> Seq<GroupRule> {
    idx.map_values(|k: usize| rules[k as int])
}

/// The position in `idx` of the last rule with the greatest start among those
/// eligible at `at`, if any is.
fn pick_rule(rules: &[GroupRule], idx: &Vec<usize>, at: Option<i64>) -> (r: Option<usize>)
    requires
        forall|t: int| 0 <= t < idx@.len() ==> #[trigger] idx@[t] < rules@.len(),
    ensures
        match r {
            Some(j) => last_max(picked(rules@, idx@), at, idx@.len() as int, j as int),
            None => forall|k: int| 0 <= k < idx@.len() ==> !eligible(#[trigger] picked(rules@, idx@)[k], at),
        },
{
    let ghost rs = picked(rules@, idx@);
    let mut best: Option<usize> = None;
    let mut best_key: i64 = i64::MIN;
    let mut t: usize = 0;
    while t < idx.len()
        invariant
            t <= idx@.len(),
            rs == picked(rules@, idx@),
            forall|t2: int| 0 <= t2 < idx@.len() ==> #[trigger] idx@[t2] < rules@.len(),
            match best {
                Some(j) => last_max(rs, at, t as int, j as int) && best_key == since_key(rs[j as int]),
                None => forall|k: int| 0 <= k < t ==> !eligible(#[trigger] rs[k], at),
            },
        decreases idx@.len() - t,
    {
        let rule = &rules[idx[t]];
        assert(rs[t as int] == *rule);
        let ok = match at {
            Some(ts) => rule.covers(ts),
            None => true,
        };
        if ok {
            let key = match rule.since {
                Some(s) => s,
                None => i64::MIN,
            };
            match best {
                Some(j) => {
                    if key >= best_key {
                        best = Some(t);
                        best_key = key;
                    }
                },
                None => {
                    best = Some(t);
                    best_key = key;
                },
            }
        }
        t += 1;
    }
    best
}

/// An owned copy of an optional string.
fn copy_opt(o: &Option<String>) -> (r: Option<String>)
    ensures
        opt_view(r) == opt_view(*o),
{
    match o {
        Some(s) => Some(s.clone()),
        None => None,
    }
}

/// The group of the rule at position `j` of `idx`.
fn group_at(rules: &[GroupRule], idx: &Vec<usize>, j: Option<usize>) -> (r: Option<String>)
    requires
        forall|t: int| 0 <= t < idx@.len() ==> #[trigger] idx@[t] < rules@.len(),
        j matches Some(j) ==> j < idx@.len(),
    ensures
        opt_view(r) == match j {
            Some(j) => Some(picked(rules@, idx@)[j as int].group@),
            None => None,
        },
{
    match j {
        Some(j) => Some(rules[idx[j]].group.clone()),
        None => None,
    }
}

/// Group and per-month groups for a cluster with dated rules.
fn dated_groups(rules: &[GroupRule], idx: &Vec<usize>, m0: i32, len: usize) -> (r: (
    Option<String>,
    Option<Vec<Option<String>>>,
))
    requires
        forall|t: int| 0 <= t < idx@.len() ==> #[trigger] idx@[t] < rules@.len(),
        idx@.len() > 0,
        -3_200_000 <= m0 <= 3_200_000,
        len <= 6000,
    ensures
        dated_grouping(picked(rules@, idx@), m0 as int, len as int, r.0, r.1),
{
    let ghost rs = picked(rules@, idx@);
    let mut mg: Vec<Option<String>> = Vec::new();
    let mut last_some: Option<usize> = None;
    let mut mi: usize = 0;
    while mi < len
        invariant
            mi <= len <= 6000,
            -3_200_000 <= m0 <= 3_200_000,
            rs == picked(rules@, idx@),
            forall|t: int| 0 <= t < idx@.len() ==> #[trigger] idx@[t] < rules@.len(),
            mg@.len() == mi,
            forall|m: int| 0 <= m < mi ==> active_group(rs, month_start_of(m0 + m), #[trigger] opt_views(mg@)[m]),
            match last_some {
                Some(m) => last_covered(rs, m0 as int, mi as int, m as int),
                None => forall|m: int| 0 <= m < mi ==> !covered(rs, #[trigger] month_start_of(m0 + m)),
            },
        decreases len - mi,
    {
        let ts = month_start_ts(m0 + mi as i32);
        let j = pick_rule(rules, idx, Some(ts));
        let g = group_at(rules, idx, j);
        let ghost old_mg = mg@;
        proof {
            match j {
                Some(jj) => {
                    assert(covered(rs, ts)) by {
                        assert(eligible(rs[jj as int], Some(ts)));
                    }
                },
                None => {},
            }
        }
        if j.is_some() {
            last_some = Some(mi);
        }
        mg.push(g);
        proof {
            assert forall|m: int| 0 <= m < mi + 1 implies active_group(rs, month_start_of(m0 + m), #[trigger] opt_views(mg@)[m]) by {
                if m < mi {
                    assert(opt_views(mg@)[m] == opt_views(old_mg)[m]);
                }
            }
        }
        mi += 1;
    }
    let primary = match last_some {
        Some(m) => copy_opt(&mg[m]),
        None => group_at(rules, idx, pick_rule(rules, idx, None)),
    };
    proof {
        match last_some {
            Some(m) => {
                assert(opt_views(mg@)[m as int] == opt_view(mg@[m as int]));
            },
            None => {
                assert(rs.len() > 0);
                assert(eligible(rs[0], None));
            },
        }
    }
    if last_some.is_some() {
        (primary, Some(mg))
    } else {
        (primary, None)
    }
}

/// The position in `idx` of the first rule whose matcher is a plausible
/// GitHub username.
fn username_pos(rules: &[GroupRule], idx: &Vec<usize>) -> (r: Option<usize>)
    requires
        forall|t: int| 0 <= t < idx@.len() ==> #[trigger] idx@[t] < rules@.len(),
    ensures
        match r {
            Some(j) => first_username(picked(rules@, idx@), j as int),
            None => forall|j: int| !first_username(picked(rules@, idx@), j),
        },
{
    let ghost rs = picked(rules@, idx@);
    let mut t: usize = 0;
    while t < idx.len()
        invariant
            t <= idx@.len(),
            forall|t2: int| 0 <= t2 < idx@.len() ==> #[trigger] idx@[t2] < rules@.len(),
            rs == picked(rules@, idx@),
            forall|k: int| 0 <= k < t ==> !github_username_spec((#[trigger] rs[k]).matcher@),
        decreases idx@.len() - t,
    {
        let rule = &rules[idx[t]];
        assert(rs[t as int] == *rule);
        if is_github_username(rule.matcher.as_str()) {
            assert(first_username(rs, t as int));
            return Some(t);
        }
        t += 1;
    }
    assert forall|j: int| !first_username(rs, j) by {
        if 0 <= j < rs.len() {
            assert(!github_username_spec(rs[j].matcher@));
        }
    }
    None
}

/// The row for one cluster with at least one credited commit.
fn contributor_for(
    cl: &Cluster,
    commits: &[Commit],
    groups: &[GroupRule],
    forced_names: &[(String, String)],
    count_coauthors: bool,
) -> (c: Contributor)
    requires
        credits_ok(*cl, commits@, count_coauthors),
        credited(*cl, count_coauthors).len() > 0,
    ensures
        contributor_of(*cl, commits@, groups@, forced_names@, count_coauthors, c),
        months_add_up(*cl, commits@, count_coauthors, c),
{
    let ghost co = count_coauthors;
    let all = credited_idxs(cl, count_coauthors);
    let empty: Vec<usize> = Vec::new();
    let coa: &Vec<usize> = if count_coauthors {
        &cl.coauthored_idxs
    } else {
        &empty
    };
    assert(coa@ == coauthored_of(*cl, co));
    proof {
        assert forall|q: int| 0 <= q < cl.commit_idxs@.len() implies #[trigger] cl.commit_idxs@[q] < commits@.len() by {
            assert(credited(*cl, co)[q] == cl.commit_idxs@[q]);
        }
        assert forall|q: int| 0 <= q < coa@.len() implies #[trigger] coa@[q] < commits@.len() by {
            assert(credited(*cl, co)[cl.commit_idxs@.len() + q] == coa@[q]);
        }
    }
    let (first, last) = time_span(commits, &all);
    let m0 = month_index(first);
    let m1 = month_index(last);
    let d: i32 = m1 - m0 + 1;
    let len: usize = if d < 1 {
        1
    } else if d > 6000 {
        6000
    } else {
        d as usize
    };
    let months = bin_by_month(commits, &all, m0, len);
    let co_months = if coa.len() == 0 {
        Vec::new()
    } else {
        bin_by_month(commits, coa, m0, len)
    };
    proof {
        let idxs = all@;
        if datable(commits@, idxs) && m1 - m0 < 6000 {
            let q0 = choose|q: int| 0 <= q < idxs.len() && ts_of(commits@, #[trigger] idxs[q]) == first;
            assert(utc_year_month0(ts_of(commits@, idxs[q0])) is Some);
            let q1 = choose|q: int| 0 <= q < idxs.len() && ts_of(commits@, #[trigger] idxs[q]) == last;
            assert(utc_year_month0(ts_of(commits@, idxs[q1])) is Some);
            assert forall|q: int| 0 <= q < idxs.len() implies m0 <= #[trigger] month_of(ts_of(commits@, idxs[q])) < m0 + len by {
                let t = ts_of(commits@, idxs[q]);
                assert(utc_year_month0(t) is Some);
                assert(first <= t <= last);
            }
            lemma_all_in_span(commits@, idxs, m0 as int, len as int);
            let cv = coa@;
            assert forall|q: int| 0 <= q < cv.len() implies m0 <= #[trigger] month_of(ts_of(commits@, cv[q])) < m0 + len by {
                let i = cl.commit_idxs@.len() + q;
                assert(idxs[i] == cv[q]);
                let t = ts_of(commits@, idxs[i]);
                assert(m0 <= month_of(t) < m0 + len);
            }
            lemma_all_in_span(commits@, cv, m0 as int, len as int);
            if cv.len() == 0 {
                assert(co_months@.len() == 0);
            }
        }
    }
    let name = name_for(cl, commits, forced_names);
    let idx = matching_idxs(cl, groups);
    let ghost rs = matching_rules(*cl, groups@);
    // any dated rule among the matching ones?
    let mut any_dated = false;
    let mut t: usize = 0;
    while t < idx.len()
        invariant
            t <= idx@.len(),
            forall|t2: int| 0 <= t2 < idx@.len() ==> #[trigger] idx@[t2] < groups@.len(),
            rs == picked(groups@, idx@),
            any_dated == exists|k: int| 0 <= k < t && ((#[trigger] rs[k]).since is Some || rs[k].until is Some),
        decreases idx@.len() - t,
    {
        let rule = &groups[idx[t]];
        assert(rs[t as int] == *rule);
        if rule.dated() {
            any_dated = true;
        }
        t += 1;
    }
    let (group, month_groups) = if idx.len() == 0 {
        (copy_opt(&cl.affiliation), None)
    } else if !any_dated {
        (Some(groups[idx[0]].group.clone()), None)
    } else {
        dated_groups(groups, &idx, m0, len)
    };
    // no login from the commits: adopt the first username-like matcher
    let backfill: Option<usize> = if cl.login.is_none() {
        username_pos(groups, &idx)
    } else {
        None
    };
    let login = match &cl.login {
        Some(l) => Some(l.clone()),
        None => match backfill {
            Some(t) => Some(groups[idx[t]].matcher.clone()),
            None => None,
        },
    };
    let avatar = match &cl.avatar_url {
        Some(a) => Some(a.clone()),
        None => match backfill {
            Some(t) => {
                let mut s = "https://avatars.githubusercontent.com/".to_string();
                push_str(&mut s, groups[idx[t]].matcher.as_str());
                Some(s)
            },
            None => None,
        },
    };
    let url = match &login {
        Some(l) => {
            let mut s = "https://github.com/".to_string();
            push_str(&mut s, l.as_str());
            Some(s)
        },
        None => None,
    };
    let n_commits = all.len() as u32;
    let n_co = coa.len() as u32;
    Contributor {
        name,
        login,
        avatar,
        url,
        first,
        last,
        commits: n_commits,
        bot: is_bot(cl),
        group,
        members: 1,
        member_names: Vec::new(),
        m0,
        months,
        co_months,
        co_commits: n_co,
        month_groups,
    }
}

/// Build final contributors with stats and monthly activity bins. With
/// `count_coauthors`, each `Co-authored-by` credit is counted alongside the
/// authored commits (and tracked separately in `co_months` / `co_commits`).
/// Clusters with nothing credited get no row.
pub fn build_contributors(
    clusters: &[Cluster],
    commits: &[Commit],
    groups: &[GroupRule],
    forced_names: &[(String, String)],
    count_coauthors: bool,
) -> (out: Vec<Contributor>)
    requires
        forall|i: int| 0 <= i < clusters@.len() ==> credits_ok(#[trigger] clusters@[i], commits@, count_coauthors),
    ensures
        out@.len() == kept(clusters@, count_coauthors).len(),
        forall|k: int| 0 <= k < out@.len() ==> contributor_of(
            kept(clusters@, count_coauthors)[k],
            commits@,
            groups@,
            forced_names@,
            count_coauthors,
            #[trigger] out@[k],
        ),
        forall|k: int| 0 <= k < out@.len() ==> months_add_up(kept(clusters@, count_coauthors)[k], commits@, count_coauthors, #[trigger] out@[k]),
{
    let mut out: Vec<Contributor> = Vec::new();
    let mut i: usize = 0;
    while i < clusters.len()
        invariant
            i <= clusters@.len(),
            forall|i2: int| 0 <= i2 < clusters@.len() ==> credits_ok(#[trigger] clusters@[i2], commits@, count_coauthors),
            out@.len() == kept(clusters@.take(i as int), count_coauthors).len(),
            forall|k: int| 0 <= k < out@.len() ==> contributor_of(
                kept(clusters@.take(i as int), count_coauthors)[k],
                commits@,
                groups@,
                forced_names@,
                count_coauthors,
                #[trigger] out@[k],
            ),
            forall|k: int| 0 <= k < out@.len() ==> months_add_up(
                kept(clusters@.take(i as int), count_coauthors)[k],
                commits@,
                count_coauthors,
                #[trigger] out@[k],
            ),
        decreases clusters@.len() - i,
    {
        let ghost pre = clusters@.take(i as int);
        let ghost post = clusters@.take(i + 1);
        proof {
            assert(post.drop_last() =~= pre);
            assert(post.last() == clusters@[i as int]);
        }
        let cl = &clusters[i];
        let n_co: usize = if count_coauthors {
            cl.coauthored_idxs.len()
        } else {
            0
        };
        if cl.commit_idxs.len() > 0 || n_co > 0 {
            assert(credited(*cl, count_coauthors).len() > 0);
            let c = contributor_for(cl, commits, groups, forced_names, count_coauthors);
            out.push(c);
        } else {
            assert(credited(*cl, count_coauthors).len() == 0);
        }
        i += 1;
    }
    assert(clusters@.take(i as int) =~= clusters@);
    out
}

/// A "Firstname Lastname" style name (with a space) is shown over a
/// handle used no more often: when a contributor with no curated or profile
/// name shows a name without a space, none of its authored names with a
/// space was used at least as often.
pub proof fn law_full_names_preferred(
    cl: Cluster,
    commits: Seq<Commit>,
    rules: Seq<GroupRule>,
    co: bool,
    c: Contributor,
    m: Seq<char>,
)
    requires
        contributor_of(cl, commits, rules, Seq::empty(), co, c),
        cl.profile_name is None,
        authored_names(commits, cl.commit_idxs@).contains(m),
        m.contains(' '),
        occ(authored_names(commits, cl.commit_idxs@), m) >= occ(authored_names(commits, cl.commit_idxs@), c.name@),
    ensures
        c.name@.contains(' '),
{
    let ns = authored_names(commits, cl.commit_idxs@);
    let w = c.name@;
    let q = choose|q: int| 0 <= q < ns.len() && ns[q] == m;
    assert(ns[q].len() > 0);
    assert(!exists|j: int| first_forced(cl, Seq::<(String, String)>::empty(), j));
    assert(best_name(ns, w));
    if !w.contains(' ') {
        lemma_occ_first(ns, w);
        assert(ns.contains(m));
        assert(ranks_above(ns, w, m));
        let ow = occ(ns, w);
        let om = occ(ns, m);
        assert(name_score(w, ow) <= 3 * ow) by (nonlinear_arith)
            requires
                !w.contains(' '),
                name_score(w, ow) == ow * 1int * (if w.len() > 0 && unicode_uppercase(w[0]) { 3int } else { 2int }),
        ;
        assert(name_score(m, om) >= 6 * om) by (nonlinear_arith)
            requires
                m.contains(' '),
                name_score(m, om) == om * 3int * (if m.len() > 0 && unicode_uppercase(m[0]) { 3int } else { 2int }),
        ;
        assert(false);
    }
}

/// Every matching rule is one of the rules.
proof fn lemma_matching_from(cl: Cluster, rules: Seq<GroupRule>)
    ensures
        forall|k: int| 0 <= k < matching_rules(cl, rules).len() ==> rules.contains(#[trigger] matching_rules(cl, rules)[k]),
    decreases rules.len(),
{
    if rules.len() > 0 {
        let d = rules.drop_last();
        lemma_matching_from(cl, d);
        let rs = matching_rules(cl, rules);
        assert forall|k: int| 0 <= k < rs.len() implies rules.contains(#[trigger] rs[k]) by {
            if k < matching_rules(cl, d).len() {
                let x = matching_rules(cl, d)[k];
                assert(rs[k] == x);
                let i = choose|i: int| 0 <= i < d.len() && d[i] == x;
                assert(rules[i] == x);
            } else {
                assert(rules[rules.len() - 1] == rs[k]);
            }
        }
    }
}

/// Where dated rules overlap, the later start wins: a month's group is that
/// of a matching rule covering the month's first second that starts no
/// earlier than any other rule covering it (an open start counting as
/// earliest).
pub proof fn law_later_since_wins(
    cl: Cluster,
    commits: Seq<Commit>,
    rules: Seq<GroupRule>,
    forced: Seq<(String, String)>,
    co: bool,
    c: Contributor,
    mi: int,
)
    requires
        contributor_of(cl, commits, rules, forced, co, c),
        forall|k: int| 0 <= k < rules.len() ==> (#[trigger] rules[k]).since != Some(i64::MIN),
        c.month_groups matches Some(v) && 0 <= mi < v@.len() && v@[mi] is Some,
    ensures
        ({
            let rs = matching_rules(cl, rules);
            let ts = month_start_of(c.m0 + mi);
            exists|k: int|
                0 <= k < rs.len() && window_covers(rs[k].since, rs[k].until, ts) && rs[k].group@ == c.month_groups->0@[mi]->0@
                    && forall|k2: int|
                    0 <= k2 < rs.len() && window_covers((#[trigger] rs[k2]).since, rs[k2].until, ts) && rs[k2].since is Some
                        ==> rs[k].since is Some && rs[k2].since->0 <= rs[k].since->0
        }),
{
    let rs = matching_rules(cl, rules);
    let ts = month_start_of(c.m0 + mi);
    let v = c.month_groups->0;
    let m0 = month_of(c.first);
    let len = span_len(m0, month_of(c.last));
    assert(grouping(cl, rules, m0, len, c.group, c.month_groups));
    assert(dated_grouping(rs, m0, len, c.group, c.month_groups));
    assert(active_group(rs, month_start_of(m0 + mi), opt_views(v@)[mi]));
    let j = choose|j: int| last_max(rs, Some(ts), rs.len() as int, j) && opt_views(v@)[mi]->0 == rs[j].group@;
    lemma_matching_from(cl, rules);
    assert forall|k2: int|
        0 <= k2 < rs.len() && window_covers((#[trigger] rs[k2]).since, rs[k2].until, ts) && rs[k2].since is Some
            implies rs[j].since is Some && rs[k2].since->0 <= rs[j].since->0 by {
        assert(eligible(rs[k2], Some(ts)));
        assert(rules.contains(rs[k2]));
        let i = choose|i: int| 0 <= i < rules.len() && rules[i] == rs[k2];
        assert(rules[i].since != Some(i64::MIN));
    }
}

} // verus!
