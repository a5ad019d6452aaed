//! Identity resolution: clustering commit identities into people, merging
//! clusters, manual overrides, bot detection, and per-contributor statistics.
use vstd::prelude::*;
pub mod bounds;
pub mod contributors;
pub mod laws;
pub use contributors::build_contributors;
use crate::dsu::Dsu;
use crate::model::{opt_view, Commit, Contributor, GroupRule};
use crate::strmap::StrMap;
use crate::text::{
    ascii_alnum, chars_of, position_of, contains_char, is_uppercase, unicode_uppercase, contains_seq, has_sub, is_whitespace, lower_chars, push_char, seq_eq, str_eq,
    string_of, to_lowercase, trim, trim_chars, unicode_lowercase, unicode_whitespace,
};

verus! {

/// A cluster of commit identities believed to be one person.
#[derive(Debug, Clone)]
pub struct Cluster {
    pub emails: Vec<String>,
    pub names: Vec<String>,
    /// Commits this person authored.
    pub commit_idxs: Vec<usize>,
    /// Commits this person was a `Co-authored-by` on (and did not author).
    pub coauthored_idxs: Vec<usize>,
    pub login: Option<String>,
    pub avatar_url: Option<String>,
    /// Display name from the GitHub user profile.
    pub profile_name: Option<String>,
    /// Affiliation from the GitHub profile `company` field.
    pub affiliation: Option<String>,
}

impl Default for Cluster {
    fn default() -> (c: Self)
        ensures
            c.emails@.len() == 0,
            c.names@.len() == 0,
            c.commit_idxs@.len() == 0,
            c.coauthored_idxs@.len() == 0,
            c.login is None,
            c.avatar_url is None,
            c.profile_name is None,
            c.affiliation is None,
    {
        Cluster {
            emails: Vec::new(),
            names: Vec::new(),
            commit_idxs: Vec::new(),
            coauthored_idxs: Vec::new(),
            login: None,
            avatar_url: None,
            profile_name: None,
            affiliation: None,
        }
    }
}

// ---------------------------------------------------------------------------
// Identities and how they link
// ---------------------------------------------------------------------------
/// An identity as written on a commit: `(name, email)`.
pub type Ident = (Seq<char>, Seq<char>);

/// The view of a list of strings.
pub open spec fn views(v: Seq<String>) -> Seq<Seq<char>> {
    v.map_values(|s: String| s@)
}

/// The identities a commit carries: its author, then each co-author.
pub open spec fn commit_idents(c: Commit) -> Seq<Ident> {
    seq![(c.name@, c.email@)] + c.coauthors@.map_values(|p: (String, String)| (p.0@, p.1@))
}

/// Every identity of a commit list, in order: for each commit its author,
/// then its co-authors.
pub open spec fn idents(commits: Seq<Commit>) -> Seq<Ident>
    decreases commits.len(),
{
    if commits.len() == 0 {
        Seq::empty()
    } else {
        idents(commits.drop_last()) + commit_idents(commits.last())
    }
}

/// Position in `idents(commits)` of the author of commit `i`.
pub open spec fn offset(commits: Seq<Commit>, i: int) -> int {
    idents(commits.take(i)).len() as int
}

/// The graph key of an identity: its email, or its name when email-less.
pub open spec fn ident_key(id: Ident) -> Seq<char> {
    if id.1.len() == 0 {
        id.0
    } else {
        id.1
    }
}

/// Scanning `s` left to right: the words so far joined by single spaces, and
/// whether whitespace followed the last word.
pub open spec fn squash_ws(s: Seq<char>) -> (Seq<char>, bool)
    decreases s.len(),
{
    if s.len() == 0 {
        (Seq::empty(), false)
    } else {
        let (o, pending) = squash_ws(s.drop_last());
        let c = s.last();
        if unicode_whitespace(c) {
            (o, o.len() > 0)
        } else if pending {
            (o + seq![' ', c], false)
        } else {
            (o.push(c), false)
        }
    }
}

/// The whitespace-separated words of `s` joined by single spaces.
pub open spec fn collapse_ws(s: Seq<char>) -> Seq<char> {
    squash_ws(s).0
}

/// The normalised form of an author name used to merge identities: words
/// joined by single spaces, lowercased.
pub open spec fn norm_name_spec(s: Seq<char>) -> Seq<char> {
    unicode_lowercase(collapse_ws(s))
}

/// Two identities are linked when they share a key, or (with name merging)
/// the same nonempty normalised name.
pub open spec fn linked(mn: bool, a: Ident, b: Ident) -> bool {
    ident_key(a) == ident_key(b) || (mn && norm_name_spec(a.0).len() > 0 && norm_name_spec(a.0)
        == norm_name_spec(b.0))
}

/// `p` is a chain of linked identities among the first `bound` of `ids`.
pub open spec fn is_path(ids: Seq<Ident>, mn: bool, p: Seq<int>, bound: int) -> bool {
    &&& p.len() > 0
    &&& bound <= ids.len()
    &&& forall|j: int| 0 <= j < p.len() ==> 0 <= #[trigger] p[j] < bound
    &&& forall|j: int| 0 <= j < p.len() - 1 ==> linked(mn, ids[#[trigger] p[j]], ids[p[j + 1]])
}

/// Identities `a` and `b` are joined by a chain of links among the first
/// `bound` identities.
pub open spec fn connected(ids: Seq<Ident>, mn: bool, a: int, b: int, bound: int) -> bool {
    exists|p: Seq<int>| #[trigger] is_path(ids, mn, p, bound) && p[0] == a && p.last() == b
}

proof fn lemma_connected_refl(ids: Seq<Ident>, mn: bool, a: int, bound: int)
    requires
        0 <= a < bound <= ids.len(),
    ensures
        connected(ids, mn, a, a, bound),
{
    let p = seq![a];
    assert(is_path(ids, mn, p, bound));
}

proof fn lemma_connected_link(ids: Seq<Ident>, mn: bool, a: int, b: int, bound: int)
    requires
        0 <= a < bound <= ids.len(),
        0 <= b < bound,
        linked(mn, ids[a], ids[b]),
    ensures
        connected(ids, mn, a, b, bound),
{
    let p = seq![a, b];
    assert(is_path(ids, mn, p, bound));
}

proof fn lemma_connected_sym(ids: Seq<Ident>, mn: bool, a: int, b: int, bound: int)
    requires
        connected(ids, mn, a, b, bound),
    ensures
        connected(ids, mn, b, a, bound),
{
    let p = choose|p: Seq<int>| #[trigger] is_path(ids, mn, p, bound) && p[0] == a && p.last() == b;
    let q = p.reverse();
    assert forall|j: int| 0 <= j < q.len() - 1 implies linked(mn, ids[#[trigger] q[j]], ids[q[j + 1]]) by {
        let k = p.len() - 2 - j;
        assert(q[j] == p[k + 1]);
        assert(q[j + 1] == p[k]);
        assert(linked(mn, ids[p[k]], ids[p[k + 1]]));
    }
    assert forall|j: int| 0 <= j < q.len() implies 0 <= #[trigger] q[j] < bound by {
        assert(q[j] == p[p.len() - 1 - j]);
    }
    assert(is_path(ids, mn, q, bound));
}

proof fn lemma_connected_trans(ids: Seq<Ident>, mn: bool, a: int, b: int, c: int, bound: int)
    requires
        connected(ids, mn, a, b, bound),
        connected(ids, mn, b, c, bound),
    ensures
        connected(ids, mn, a, c, bound),
{
    let p = choose|p: Seq<int>| #[trigger] is_path(ids, mn, p, bound) && p[0] == a && p.last() == b;
    let q = choose|q: Seq<int>| #[trigger] is_path(ids, mn, q, bound) && q[0] == b && q.last() == c;
    let r = p + q.drop_first();
    assert forall|j: int| 0 <= j < r.len() implies 0 <= #[trigger] r[j] < bound by {
        if j >= p.len() {
            assert(r[j] == q[j - p.len() + 1]);
        }
    }
    assert forall|j: int| 0 <= j < r.len() - 1 implies linked(mn, ids[#[trigger] r[j]], ids[r[j + 1]]) by {
        if j < p.len() - 1 {
            assert(r[j] == p[j] && r[j + 1] == p[j + 1]);
        } else if j == p.len() - 1 {
            assert(r[j] == q[0]);
            assert(r[j + 1] == q[1]);
        } else {
            let k = j - p.len() + 1;
            assert(r[j] == q[k] && r[j + 1] == q[k + 1]);
        }
    }
    assert(is_path(ids, mn, r, bound));
    if q.len() == 1 {
        assert(r.last() == p.last());
    } else {
        assert(r.last() == q.last());
    }
}

proof fn lemma_connected_mono(ids: Seq<Ident>, mn: bool, a: int, b: int, bound: int, bound2: int)
    requires
        connected(ids, mn, a, b, bound),
        bound <= bound2 <= ids.len(),
    ensures
        connected(ids, mn, a, b, bound2),
{
    let p = choose|p: Seq<int>| #[trigger] is_path(ids, mn, p, bound) && p[0] == a && p.last() == b;
    assert(is_path(ids, mn, p, bound2));
}

/// Connections among a prefix of identities depend only on that prefix.
proof fn lemma_connected_prefix(ids: Seq<Ident>, ids2: Seq<Ident>, mn: bool, a: int, b: int, bound: int)
    requires
        connected(ids, mn, a, b, bound),
        bound <= ids2.len(),
        ids.take(bound) == ids2.take(bound),
    ensures
        connected(ids2, mn, a, b, bound),
{
    let p = choose|p: Seq<int>| #[trigger] is_path(ids, mn, p, bound) && p[0] == a && p.last() == b;
    assert forall|j: int| 0 <= j < p.len() - 1 implies linked(mn, ids2[#[trigger] p[j]], ids2[p[j + 1]]) by {
        assert(ids[p[j]] == ids.take(bound)[p[j]]);
        assert(ids[p[j + 1]] == ids.take(bound)[p[j + 1]]);
        assert(ids2[p[j]] == ids2.take(bound)[p[j]]);
        assert(ids2[p[j + 1]] == ids2.take(bound)[p[j + 1]]);
    }
    assert(is_path(ids2, mn, p, bound));
}

// ---------------------------------------------------------------------------
// Name normalisation
// ---------------------------------------------------------------------------
/// Whitespace-separated words of `name`, joined by single spaces, lowercased.
fn norm_name(name: &str) -> (r: Vec<char>)
    ensures
        r@ == norm_name_spec(name@),
{
    let cs = chars_of(name);
    let mut out: Vec<char> = Vec::new();
    let mut pending = false;
    let mut i: usize = 0;
    while i < cs.len()
        invariant
            i <= cs@.len(),
            cs@ == name@,
            squash_ws(cs@.take(i as int)) == (out@, pending),
        decreases cs@.len() - i,
    {
        let c = cs[i];
        proof {
            assert(cs@.take(i + 1).drop_last() =~= cs@.take(i as int));
        }
        if is_whitespace(c) {
            pending = out.len() > 0;
        } else {
            if pending {
                out.push(' ');
            }
            out.push(c);
            pending = false;
        }
        i += 1;
        proof {
            let s = cs@.take(i as int);
            assert(s.last() == c);
            assert(squash_ws(s).0 =~= out@);
        }
    }
    assert(cs@.take(i as int) =~= cs@);
    lower_chars(&out)
}


// ---------------------------------------------------------------------------
// Clustering, phase one: identities to union-find nodes
// ---------------------------------------------------------------------------
/// What holds after the identities `ids` have been given nodes `node_of`,
/// except for the name links.
spec fn nodes_core(
    dsu: &Dsu,
    by_email: &StrMap,
    by_name: &StrMap,
    mn: bool,
    ids: Seq<Ident>,
    node_of: Seq<usize>,
) -> bool {
    let t = ids.len() as int;
    &&& dsu.wf()
    &&& by_email.wf()
    &&& by_name.wf()
    &&& node_of.len() == t
    &&& dsu.len() <= t
    &&& forall|a: int| 0 <= a < t ==> #[trigger] node_of[a] < dsu.len()
    &&& forall|a: int| 0 <= a < t ==> by_email@.contains_key(ident_key(#[trigger] ids[a]))
        && by_email@[ident_key(ids[a])] == node_of[a]
    &&& forall|k: Seq<char>| #[trigger] by_email@.contains_key(k) ==> exists|a: int| 0 <= a < t
        && ident_key(#[trigger] ids[a]) == k
    &&& forall|nn: Seq<char>| #[trigger] by_name@.contains_key(nn) ==> exists|f: int| 0 <= f < t
        && norm_name_spec((#[trigger] ids[f]).0) == nn && by_name@[nn] == node_of[f]
    &&& forall|a: int, b: int|
        0 <= a < t && 0 <= b < t && dsu.rep(#[trigger] node_of[a] as int) == dsu.rep(
            #[trigger] node_of[b] as int,
        ) ==> connected(ids, mn, a, b, t)
}

/// Every identity below `upto` with a nonempty normalised name shares its
/// representative with the first identity of that name.
spec fn names_ok(dsu: &Dsu, by_name: &StrMap, mn: bool, ids: Seq<Ident>, node_of: Seq<usize>, upto: int) -> bool {
    forall|a: int| 0 <= a < upto && mn && norm_name_spec((#[trigger] ids[a]).0).len() > 0 ==> {
        &&& by_name@.contains_key(norm_name_spec(ids[a].0))
        &&& dsu.rep(node_of[a] as int) == dsu.rep(by_name@[norm_name_spec(ids[a].0)] as int)
    }
}

/// What holds after the identities `ids` have been given nodes `node_of`.
spec fn nodes_inv(
    dsu: &Dsu,
    by_email: &StrMap,
    by_name: &StrMap,
    mn: bool,
    ids: Seq<Ident>,
    node_of: Seq<usize>,
) -> bool {
    nodes_core(dsu, by_email, by_name, mn, ids, node_of) && names_ok(dsu, by_name, mn, ids, node_of, ids.len() as int)
}

proof fn lemma_key_step_conn(
    dsu0: Dsu, dsu1: Dsu, mn: bool, ids: Seq<Ident>, node_of: Seq<usize>, id: Ident, node: usize,
    found: bool, e: int,
)
    requires
        dsu0.wf(),
        node_of.len() == ids.len(),
        forall|a: int| 0 <= a < ids.len() ==> #[trigger] node_of[a] < dsu0.len(),
        forall|a: int, b: int|
            0 <= a < ids.len() && 0 <= b < ids.len() && dsu0.rep(#[trigger] node_of[a] as int) == dsu0.rep(
                #[trigger] node_of[b] as int,
            ) ==> connected(ids, mn, a, b, ids.len() as int),
        found ==> dsu1 == dsu0 && 0 <= e < ids.len() && node_of[e] == node && ident_key(ids[e]) == ident_key(id),
        !found ==> node == dsu0.len() && dsu1.rep(node as int) == node
            && (forall|y: int| 0 <= y < dsu0.len() ==> dsu1.rep(y) == dsu0.rep(y)),
    ensures
        forall|a: int, b: int|
            0 <= a < ids.len() + 1 && 0 <= b < ids.len() + 1 && dsu1.rep(#[trigger] node_of.push(node)[a] as int)
                == dsu1.rep(#[trigger] node_of.push(node)[b] as int)
            ==> connected(ids.push(id), mn, a, b, ids.len() + 1 as int),
{
    let t = ids.len() as int;
    let ids2 = ids.push(id);
    let no2 = node_of.push(node);
    assert(ids2.take(t) =~= ids);
    assert(ids.take(t) =~= ids);
    assert forall|a: int, b: int|
        0 <= a < t + 1 && 0 <= b < t + 1 && dsu1.rep(#[trigger] no2[a] as int) == dsu1.rep(#[trigger] no2[b] as int)
        implies connected(ids2, mn, a, b, t + 1) by {
        if a < t {
            assert(no2[a] == node_of[a]);
            assert(node_of[a] < dsu0.len());
        }
        if b < t {
            assert(no2[b] == node_of[b]);
            assert(node_of[b] < dsu0.len());
        }
        if a < t && b < t {
            assert(connected(ids, mn, a, b, t));
            lemma_connected_prefix(ids, ids2, mn, a, b, t);
            lemma_connected_mono(ids2, mn, a, b, t, t + 1);
        } else if a == t && b == t {
            lemma_connected_refl(ids2, mn, t, t + 1);
        } else {
            let o = if a == t { b } else { a };
            assert(no2[o] == node_of[o]);
            assert(dsu1.rep(node_of[o] as int) == dsu1.rep(node as int));
            if found {
                assert(connected(ids, mn, o, e, t));
                lemma_connected_prefix(ids, ids2, mn, o, e, t);
                lemma_connected_mono(ids2, mn, o, e, t, t + 1);
                assert(ids2[e] == ids[e]);
                assert(ids2[t] == id);
                lemma_connected_link(ids2, mn, e, t, t + 1);
                lemma_connected_trans(ids2, mn, o, e, t, t + 1);
                if a == t {
                    lemma_connected_sym(ids2, mn, o, t, t + 1);
                }
            } else {
                dsu0.lemma_rep(node_of[o] as int);
                assert(dsu1.rep(node_of[o] as int) == dsu0.rep(node_of[o] as int));
                assert(false);
            }
        }
    }
}

proof fn lemma_key_step(
    dsu0: Dsu, dsu1: Dsu, be0: StrMap, be1: StrMap, bn: StrMap, mn: bool,
    ids: Seq<Ident>, node_of: Seq<usize>, id: Ident, node: usize, found: bool,
)
    requires
        nodes_inv(&dsu0, &be0, &bn, mn, ids, node_of),
        found ==> dsu1 == dsu0 && be1@ == be0@ && be1.wf() && be0@.contains_key(ident_key(id))
            && be0@[ident_key(id)] == node,
        !found ==> !be0@.contains_key(ident_key(id)) && dsu1.wf() && dsu1.len() == dsu0.len() + 1
            && node == dsu0.len() && dsu1.rep(node as int) == node && be1.wf()
            && be1@ == be0@.insert(ident_key(id), node)
            && (forall|y: int| 0 <= y < dsu0.len() ==> dsu1.rep(y) == dsu0.rep(y)),
    ensures
        nodes_core(&dsu1, &be1, &bn, mn, ids.push(id), node_of.push(node)),
        names_ok(&dsu1, &bn, mn, ids.push(id), node_of.push(node), ids.len() as int),
{
    let t = ids.len() as int;
    let ids2 = ids.push(id);
    let no2 = node_of.push(node);
    let e = if found {
        choose|e: int| 0 <= e < t && ident_key(#[trigger] ids[e]) == ident_key(id)
    } else {
        0
    };
    if found {
        assert(node_of[e] == node);
    }
    lemma_key_step_conn(dsu0, dsu1, mn, ids, node_of, id, node, found, e);
    assert forall|a: int| 0 <= a < t + 1 implies #[trigger] no2[a] < dsu1.len() by {
        if a < t {
            assert(node_of[a] < dsu0.len());
        }
    }
    // by_email
    assert forall|a: int| 0 <= a < t + 1 implies be1@.contains_key(ident_key(#[trigger] ids2[a]))
        && be1@[ident_key(ids2[a])] == no2[a] by {
        if a < t {
            assert(ids2[a] == ids[a]);
            assert(be0@.contains_key(ident_key(ids[a])));
        }
    }
    assert forall|k: Seq<char>| #[trigger] be1@.contains_key(k) implies exists|a: int| 0 <= a < t + 1
        && ident_key(#[trigger] ids2[a]) == k by {
        if k == ident_key(id) {
            assert(ident_key(ids2[t]) == k);
        } else {
            assert(be0@.contains_key(k));
            let a = choose|a: int| 0 <= a < t && ident_key(#[trigger] ids[a]) == k;
            assert(ident_key(ids2[a]) == k);
        }
    }
    assert forall|nn: Seq<char>| #[trigger] bn@.contains_key(nn) implies exists|f: int| 0 <= f < t + 1
        && norm_name_spec((#[trigger] ids2[f]).0) == nn && bn@[nn] == no2[f] by {
        let f = choose|f: int| 0 <= f < t && norm_name_spec((#[trigger] ids[f]).0) == nn && bn@[nn] == node_of[f];
        assert(ids2[f] == ids[f]);
    }
    // names of older identities
    assert forall|a: int| 0 <= a < t && mn && norm_name_spec((#[trigger] ids2[a]).0).len() > 0 implies {
        &&& bn@.contains_key(norm_name_spec(ids2[a].0))
        &&& dsu1.rep(no2[a] as int) == dsu1.rep(bn@[norm_name_spec(ids2[a].0)] as int)
    } by {
        assert(ids2[a] == ids[a]);
        let nn = norm_name_spec(ids[a].0);
        assert(bn@.contains_key(nn));
        let f = choose|f: int| 0 <= f < t && norm_name_spec((#[trigger] ids[f]).0) == nn && bn@[nn] == node_of[f];
        assert(node_of[f] < dsu0.len());
        assert(node_of[a] < dsu0.len());
    }
}

proof fn lemma_names_vacuous(dsu: Dsu, bn: StrMap, mn: bool, ids: Seq<Ident>, node_of: Seq<usize>)
    requires
        ids.len() > 0,
        names_ok(&dsu, &bn, mn, ids, node_of, ids.len() - 1),
        !(mn && norm_name_spec(ids.last().0).len() > 0),
    ensures
        names_ok(&dsu, &bn, mn, ids, node_of, ids.len() as int),
{
}

proof fn lemma_name_union(
    dsu1: Dsu, dsu2: Dsu, be: StrMap, bn: StrMap, mn: bool,
    ids2: Seq<Ident>, no2: Seq<usize>, node: usize, other: usize,
)
    requires
        ids2.len() > 0,
        nodes_core(&dsu1, &be, &bn, mn, ids2, no2),
        names_ok(&dsu1, &bn, mn, ids2, no2, ids2.len() - 1),
        mn,
        norm_name_spec(ids2.last().0).len() > 0,
        no2.last() == node,
        bn@.contains_key(norm_name_spec(ids2.last().0)),
        bn@[norm_name_spec(ids2.last().0)] == other,
        dsu2.wf(),
        dsu2.len() == dsu1.len(),
        forall|y: int| 0 <= y < dsu1.len() ==> #[trigger] dsu2.rep(y) == (if dsu1.rep(y) == dsu1.rep(other as int) {
            dsu1.rep(node as int)
        } else {
            dsu1.rep(y)
        }),
    ensures
        nodes_inv(&dsu2, &be, &bn, mn, ids2, no2),
{
    let t = ids2.len() - 1;
    let nn = norm_name_spec(ids2[t].0);
    let f = choose|f: int| 0 <= f < t + 1 && norm_name_spec((#[trigger] ids2[f]).0) == nn && bn@[nn] == no2[f];
    assert(no2[f] == other);
    assert(no2[t] == node);
    let ro = dsu1.rep(other as int);
    let rn = dsu1.rep(node as int);
    // connectivity
    assert forall|a: int, b: int|
        0 <= a < t + 1 && 0 <= b < t + 1 && dsu2.rep(#[trigger] no2[a] as int) == dsu2.rep(#[trigger] no2[b] as int)
        implies connected(ids2, mn, a, b, t + 1) by {
        assert(no2[a] < dsu1.len() && no2[b] < dsu1.len());
        let ua = dsu1.rep(no2[a] as int);
        let ub = dsu1.rep(no2[b] as int);
        if ua == ub {
        } else {
            // one lies with `other`, the other with `node`
            let (x, y) = if ua == ro { (a, b) } else { (b, a) };
            assert(dsu1.rep(no2[x] as int) == ro);
            assert(dsu1.rep(no2[y] as int) == rn);
            assert(connected(ids2, mn, x, f, t + 1));
            assert(linked(mn, ids2[f], ids2[t]));
            lemma_connected_link(ids2, mn, f, t, t + 1);
            assert(connected(ids2, mn, y, t, t + 1));
            lemma_connected_sym(ids2, mn, y, t, t + 1);
            lemma_connected_trans(ids2, mn, x, f, t, t + 1);
            lemma_connected_trans(ids2, mn, x, t, y, t + 1);
            if x == b {
                lemma_connected_sym(ids2, mn, b, a, t + 1);
            }
        }
    }
    assert forall|a: int| 0 <= a < t + 1 && mn && norm_name_spec((#[trigger] ids2[a]).0).len() > 0 implies {
        &&& bn@.contains_key(norm_name_spec(ids2[a].0))
        &&& dsu2.rep(no2[a] as int) == dsu2.rep(bn@[norm_name_spec(ids2[a].0)] as int)
    } by {
        assert(no2[a] < dsu1.len());
        let na = norm_name_spec(ids2[a].0);
        let g = choose|g: int| 0 <= g < t + 1 && norm_name_spec((#[trigger] ids2[g]).0) == na && bn@[na] == no2[g];
        assert(no2[g] < dsu1.len());
        if a == t {
            assert(dsu2.rep(node as int) == rn);
            assert(dsu2.rep(other as int) == rn);
        }
    }
}

proof fn lemma_name_insert(
    dsu: Dsu, be: StrMap, bn1: StrMap, bn2: StrMap, mn: bool,
    ids2: Seq<Ident>, no2: Seq<usize>, node: usize,
)
    requires
        ids2.len() > 0,
        nodes_core(&dsu, &be, &bn1, mn, ids2, no2),
        names_ok(&dsu, &bn1, mn, ids2, no2, ids2.len() - 1),
        mn,
        norm_name_spec(ids2.last().0).len() > 0,
        no2.last() == node,
        !bn1@.contains_key(norm_name_spec(ids2.last().0)),
        bn2.wf(),
        bn2@ == bn1@.insert(norm_name_spec(ids2.last().0), node),
    ensures
        nodes_inv(&dsu, &be, &bn2, mn, ids2, no2),
{
    let t = ids2.len() - 1;
    let nn = norm_name_spec(ids2[t].0);
    assert forall|k: Seq<char>| #[trigger] bn2@.contains_key(k) implies exists|f: int| 0 <= f < t + 1
        && norm_name_spec((#[trigger] ids2[f]).0) == k && bn2@[k] == no2[f] by {
        if k == nn {
            assert(norm_name_spec(ids2[t].0) == k);
        } else {
            assert(bn1@.contains_key(k));
        }
    }
    assert forall|a: int| 0 <= a < t + 1 && mn && norm_name_spec((#[trigger] ids2[a]).0).len() > 0 implies {
        &&& bn2@.contains_key(norm_name_spec(ids2[a].0))
        &&& dsu.rep(no2[a] as int) == dsu.rep(bn2@[norm_name_spec(ids2[a].0)] as int)
    } by {
        if a < t {
            assert(bn1@.contains_key(norm_name_spec(ids2[a].0)));
        }
    }
}

/// The graph node for an identity: keyed by email (or name when email-less),
/// unioned with any prior identity sharing a normalised name.
fn node_for(
    dsu: &mut Dsu,
    by_email: &mut StrMap,
    by_name: &mut StrMap,
    merge_names: bool,
    name: &str,
    email: &str,
    Ghost(ids): Ghost<Seq<Ident>>,
    Ghost(node_of): Ghost<Seq<usize>>,
) -> (node: usize)
    requires
        nodes_inv(old(dsu), old(by_email), old(by_name), merge_names, ids, node_of),
        ids.len() + 1 < usize::MAX,
    ensures
        nodes_inv(final(dsu), final(by_email), final(by_name), merge_names, ids.push((name@, email@)), node_of.push(node)),
{
    let ghost id: Ident = (name@, email@);
    let key: &str = if email.is_empty() { name } else { email };
    assert(key@ == ident_key(id));
    let kc = chars_of(key);
    let ghost dsu0 = *dsu;
    let ghost be0 = *by_email;
    let mut found = false;
    let node = match by_email.get(&kc) {
        Some(n) => {
            found = true;
            n
        },
        None => {
            let n = dsu.make();
            by_email.insert_new(kc, n);
            n
        },
    };
    proof {
        lemma_key_step(dsu0, *dsu, be0, *by_email, *by_name, merge_names, ids, node_of, id, node, found);
    }
    if merge_names {
        let nn = norm_name(name);
        if nn.len() > 0 {
            match by_name.get(&nn) {
                Some(other) => {
                    let ghost dsu1 = *dsu;
                    dsu.union(node, other);
                    proof {
                        lemma_name_union(dsu1, *dsu, *by_email, *by_name, merge_names, ids.push(id), node_of.push(node), node, other);
                    }
                },
                None => {
                    let ghost bn1 = *by_name;
                    by_name.insert_new(nn, node);
                    proof {
                        lemma_name_insert(*dsu, *by_email, bn1, *by_name, merge_names, ids.push(id), node_of.push(node), node);
                    }
                },
            }
        } else {
            proof {
                lemma_names_vacuous(*dsu, *by_name, merge_names, ids.push(id), node_of.push(node));
            }
        }
    } else {
        proof {
            lemma_names_vacuous(*dsu, *by_name, merge_names, ids.push(id), node_of.push(node));
        }
    }
    node
}

// ---------------------------------------------------------------------------
// Layout of the identity sequence
// ---------------------------------------------------------------------------
proof fn lemma_idents_prefix(s: Seq<Commit>, j: int)
    requires
        0 <= j <= s.len(),
    ensures
        idents(s.take(j)).len() <= idents(s).len(),
        forall|q: int| 0 <= q < idents(s.take(j)).len() ==> #[trigger] idents(s)[q] == idents(s.take(j))[q],
    decreases s.len(),
{
    if j == s.len() {
        assert(s.take(j) =~= s);
    } else {
        let d = s.drop_last();
        lemma_idents_prefix(d, j);
        assert(d.take(j) =~= s.take(j));
        assert(idents(s) == idents(d) + commit_idents(s.last()));
    }
}

proof fn lemma_idents_layout(s: Seq<Commit>, i: int)
    requires
        0 <= i < s.len(),
    ensures
        offset(s, i + 1) == offset(s, i) + 1 + s[i].coauthors@.len(),
        offset(s, i + 1) <= idents(s).len(),
        0 <= offset(s, i),
        idents(s)[offset(s, i)] == (s[i].name@, s[i].email@),
        forall|k: int| 0 <= k < s[i].coauthors@.len() ==> #[trigger] idents(s)[offset(s, i) + 1 + k] == (
            s[i].coauthors@[k].0@, s[i].coauthors@[k].1@),
        idents(s).take(offset(s, i + 1)) == idents(s.take(i + 1)),
        idents(s).take(offset(s, i)) == idents(s.take(i)),
{
    let t1 = s.take(i + 1);
    assert(t1.drop_last() =~= s.take(i));
    assert(t1.last() == s[i]);
    assert(idents(t1) == idents(s.take(i)) + commit_idents(s[i]));
    lemma_idents_prefix(s, i + 1);
    lemma_idents_prefix(s, i);
    let o = offset(s, i);
    assert(idents(t1)[o] == commit_idents(s[i])[0]);
    assert forall|k: int| 0 <= k < s[i].coauthors@.len() implies #[trigger] idents(s)[o + 1 + k] == (
        s[i].coauthors@[k].0@, s[i].coauthors@[k].1@) by {
        assert(idents(t1)[o + 1 + k] == commit_idents(s[i])[1 + k]);
    }
    assert(idents(s).take(offset(s, i + 1)) =~= idents(t1));
    assert(idents(s).take(o) =~= idents(s.take(i)));
}

proof fn lemma_offset_full(s: Seq<Commit>)
    ensures
        offset(s, s.len() as int) == idents(s).len(),
        offset(s, 0) == 0,
{
    assert(s.take(s.len() as int) =~= s);
    assert(s.take(0) =~= Seq::<Commit>::empty());
}

proof fn lemma_offset_mono(s: Seq<Commit>, i: int, j: int)
    requires
        0 <= i <= j <= s.len(),
    ensures
        offset(s, i) <= offset(s, j),
    decreases j - i,
{
    if i < j {
        lemma_offset_mono(s, i, j - 1);
        lemma_idents_layout(s, j - 1);
    }
}

proof fn lemma_path_rep(dsu: Dsu, mn: bool, ids: Seq<Ident>, node_of: Seq<usize>, p: Seq<int>, j: int)
    requires
        is_path(ids, mn, p, ids.len() as int),
        0 <= j < p.len(),
        forall|u: int, v: int| 0 <= u < ids.len() && 0 <= v < ids.len() && linked(mn, ids[u], ids[v]) ==> dsu.rep(
            node_of[u] as int) == dsu.rep(node_of[v] as int),
    ensures
        dsu.rep(node_of[p[0]] as int) == dsu.rep(node_of[p[j]] as int),
    decreases j,
{
    if j > 0 {
        lemma_path_rep(dsu, mn, ids, node_of, p, j - 1);
        assert(linked(mn, ids[p[j - 1]], ids[p[j]]));
        assert(0 <= p[j - 1] < ids.len() && 0 <= p[j] < ids.len());
    }
}

/// Identities linked directly share a representative, hence so do connected
/// ones; and only connected ones do.
proof fn lemma_conn_iff(dsu: Dsu, be: StrMap, bn: StrMap, mn: bool, ids: Seq<Ident>, node_of: Seq<usize>)
    requires
        nodes_inv(&dsu, &be, &bn, mn, ids, node_of),
    ensures
        forall|a: int, b: int| 0 <= a < ids.len() && 0 <= b < ids.len() ==> (dsu.rep(#[trigger] node_of[a] as int)
            == dsu.rep(#[trigger] node_of[b] as int) <==> connected(ids, mn, a, b, ids.len() as int)),
{
    let t = ids.len() as int;
    assert forall|u: int, v: int| 0 <= u < t && 0 <= v < t && linked(mn, ids[u], ids[v]) implies dsu.rep(
        node_of[u] as int) == dsu.rep(node_of[v] as int) by {
        if ident_key(ids[u]) == ident_key(ids[v]) {
            assert(be@[ident_key(ids[u])] == node_of[u]);
            assert(be@[ident_key(ids[v])] == node_of[v]);
        } else {
            assert(norm_name_spec(ids[u].0).len() > 0);
        }
    }
    assert forall|a: int, b: int| 0 <= a < t && 0 <= b < t && connected(ids, mn, a, b, t) implies dsu.rep(
        #[trigger] node_of[a] as int) == dsu.rep(#[trigger] node_of[b] as int) by {
        let p = choose|p: Seq<int>| #[trigger] is_path(ids, mn, p, t) && p[0] == a && p.last() == b;
        lemma_path_rep(dsu, mn, ids, node_of, p, p.len() - 1);
    }
}

/// Phase one of clustering: a union-find node for every identity, with the
/// nodes of connected identities sharing a representative.
fn assign_nodes(commits: &[Commit], merge_names: bool) -> (r: (Dsu, Vec<usize>, Vec<Vec<usize>>, Ghost<Seq<usize>>))
    requires
        idents(commits@).len() < usize::MAX,
    ensures
        ({
            let (dsu, author_node, coauthor_nodes, node_of) = r;
            let ids = idents(commits@);
            &&& dsu.wf()
            &&& node_of@.len() == ids.len()
            &&& forall|j: int| 0 <= j < ids.len() ==> #[trigger] node_of@[j] < dsu.len()
            &&& author_node@.len() == commits@.len()
            &&& coauthor_nodes@.len() == commits@.len()
            &&& forall|i: int| 0 <= i < commits@.len() ==> #[trigger] author_node@[i] == node_of@[offset(commits@, i)]
            &&& forall|i: int| 0 <= i < commits@.len() ==> (#[trigger] coauthor_nodes@[i])@.len() == commits@[i].coauthors@.len()
            &&& forall|i: int, k: int| 0 <= i < commits@.len() && 0 <= k < commits@[i].coauthors@.len()
                ==> #[trigger] coauthor_nodes@[i]@[k] == node_of@[offset(commits@, i) + 1 + k]
            &&& forall|a: int, b: int| 0 <= a < ids.len() && 0 <= b < ids.len() ==> (dsu.rep(#[trigger] node_of@[a] as int)
                == dsu.rep(#[trigger] node_of@[b] as int) <==> connected(ids, merge_names, a, b, ids.len() as int))
        }),
{
    let ghost ids = idents(commits@);
    let mut dsu = Dsu::new();
    let mut by_email = StrMap::new();
    let mut by_name = StrMap::new();
    let mut author_node: Vec<usize> = Vec::new();
    let mut coauthor_nodes: Vec<Vec<usize>> = Vec::new();
    let ghost mut node_of: Seq<usize> = Seq::empty();
    proof {
        lemma_offset_full(commits@);
        assert(ids.take(0) =~= Seq::<Ident>::empty());
    }
    let mut i: usize = 0;
    while i < commits.len()
        invariant
            i <= commits@.len(),
            ids == idents(commits@),
            ids.len() < usize::MAX,
            nodes_inv(&dsu, &by_email, &by_name, merge_names, ids.take(offset(commits@, i as int)), node_of),
            author_node@.len() == i,
            coauthor_nodes@.len() == i,
            forall|i2: int| 0 <= i2 < i ==> #[trigger] author_node@[i2] == node_of[offset(commits@, i2)],
            forall|i2: int| 0 <= i2 < i ==> (#[trigger] coauthor_nodes@[i2])@.len() == commits@[i2].coauthors@.len(),
            forall|i2: int, k: int| 0 <= i2 < i && 0 <= k < commits@[i2].coauthors@.len()
                ==> #[trigger] coauthor_nodes@[i2]@[k] == node_of[offset(commits@, i2) + 1 + k],
        decreases commits@.len() - i,
    {
        let c = &commits[i];
        let ghost o = offset(commits@, i as int);
        proof {
            lemma_idents_layout(commits@, i as int);
            lemma_offset_mono(commits@, i as int + 1, commits@.len() as int);
            lemma_offset_full(commits@);
            assert(ids.take(o).push(ids[o]) =~= ids.take(o + 1));
        }
        let an = node_for(&mut dsu, &mut by_email, &mut by_name, merge_names, c.name.as_str(), c.email.as_str(),
            Ghost(ids.take(o)), Ghost(node_of));
        proof {
            node_of = node_of.push(an);
        }
        proof {
            assert forall|i2: int| 0 <= i2 < i implies #[trigger] offset(commits@, i2) + 1
                + commits@[i2].coauthors@.len() <= o by {
                lemma_idents_layout(commits@, i2);
                lemma_offset_mono(commits@, i2 + 1, i as int);
            }
        }
        let mut cns: Vec<usize> = Vec::new();
        let mut k: usize = 0;
        while k < c.coauthors.len()
            invariant
                k <= c.coauthors@.len(),
                c == commits@[i as int],
                ids == idents(commits@),
                o == offset(commits@, i as int),
                o + 1 + c.coauthors@.len() == offset(commits@, i + 1),
                offset(commits@, i + 1) <= ids.len() < usize::MAX,
                forall|k2: int| 0 <= k2 < c.coauthors@.len() ==> #[trigger] ids[o + 1 + k2] == (
                    c.coauthors@[k2].0@, c.coauthors@[k2].1@),
                nodes_inv(&dsu, &by_email, &by_name, merge_names, ids.take(o + 1 + k), node_of),
                node_of.len() == o + 1 + k,
                node_of[o] == an,
                cns@.len() == k,
                forall|k2: int| 0 <= k2 < k ==> #[trigger] cns@[k2] == node_of[o + 1 + k2],
                author_node@.len() == i,
                forall|i2: int| 0 <= i2 < i ==> #[trigger] offset(commits@, i2) + 1
                    + commits@[i2].coauthors@.len() <= o,
                forall|i2: int| 0 <= i2 < i ==> #[trigger] author_node@[i2] == node_of[offset(commits@, i2)],
                forall|i2: int, k3: int| 0 <= i2 < i && 0 <= k3 < commits@[i2].coauthors@.len()
                    ==> #[trigger] coauthor_nodes@[i2]@[k3] == node_of[offset(commits@, i2) + 1 + k3],
            decreases c.coauthors@.len() - k,
        {
            let pair = &c.coauthors[k];
            proof {
                assert(ids.take(o + 1 + k).push(ids[o + 1 + k]) =~= ids.take(o + 1 + k + 1));
                assert(ids[o + 1 + k] == (pair.0@, pair.1@));
            }
            let cn = node_for(&mut dsu, &mut by_email, &mut by_name, merge_names, pair.0.as_str(), pair.1.as_str(),
                Ghost(ids.take(o + 1 + k)), Ghost(node_of));
            proof {
                node_of = node_of.push(cn);
            }
            cns.push(cn);
            k += 1;
        }
        author_node.push(an);
        coauthor_nodes.push(cns);
        i += 1;
        proof {
            assert forall|i2: int| 0 <= i2 < i implies (#[trigger] coauthor_nodes@[i2])@.len() == commits@[i2].coauthors@.len() by {
            }
        }
    }
    proof {
        lemma_offset_full(commits@);
        assert(ids.take(ids.len() as int) =~= ids);
        lemma_conn_iff(dsu, by_email, by_name, merge_names, ids, node_of);
    }
    (dsu, author_node, coauthor_nodes, Ghost(node_of))
}

// ---------------------------------------------------------------------------
// Clustering, phase two: representatives to clusters
// ---------------------------------------------------------------------------
/// The distinct nonempty emails of the identities labelled `c` among the
/// first `t`, in order of first appearance.
pub open spec fn dist_emails(ids: Seq<Ident>, cls: Seq<int>, c: int, t: int) -> Seq<Seq<char>>
    decreases t,
{
    if t <= 0 {
        Seq::empty()
    } else {
        let prev = dist_emails(ids, cls, c, t - 1);
        let e = ids[t - 1].1;
        if cls[t - 1] == c && e.len() > 0 && !prev.contains(e) {
            prev.push(e)
        } else {
            prev
        }
    }
}

/// The distinct nonempty names of the identities labelled `c` among the first
/// `t`, in order of first appearance.
pub open spec fn dist_names(ids: Seq<Ident>, cls: Seq<int>, c: int, t: int) -> Seq<Seq<char>>
    decreases t,
{
    if t <= 0 {
        Seq::empty()
    } else {
        let prev = dist_names(ids, cls, c, t - 1);
        let n = ids[t - 1].0;
        if cls[t - 1] == c && n.len() > 0 && !prev.contains(n) {
            prev.push(n)
        } else {
            prev
        }
    }
}

/// Each element is smaller than the next.
pub open spec fn strictly_increasing(s: Seq<usize>) -> bool {
    forall|a: int, b: int| 0 <= a < b < s.len() ==> s[a] < s[b]
}

/// A cluster with no identities and no commits.
pub open spec fn cluster_empty(cl: Cluster) -> bool {
    &&& cl.emails@.len() == 0
    &&& cl.names@.len() == 0
    &&& cl.commit_idxs@.len() == 0
    &&& cl.coauthored_idxs@.len() == 0
    &&& cl.login is None
    &&& cl.avatar_url is None
    &&& cl.profile_name is None
    &&& cl.affiliation is None
}

/// Cluster `cl` holds exactly what the identities labelled `c` among the
/// first `t` give it.
pub open spec fn cluster_content(commits: Seq<Commit>, cls: Seq<int>, c: int, cl: Cluster, t: int) -> bool {
    let ids = idents(commits);
    &&& views(cl.emails@) == dist_emails(ids, cls, c, t)
    &&& views(cl.names@) == dist_names(ids, cls, c, t)
    &&& strictly_increasing(cl.commit_idxs@)
    &&& forall|i: usize| #[trigger] cl.commit_idxs@.contains(i) <==> (i < commits.len() && offset(commits, i as int)
        < t && cls[offset(commits, i as int)] == c)
    &&& strictly_increasing(cl.coauthored_idxs@)
    &&& forall|i: usize| #[trigger] cl.coauthored_idxs@.contains(i) <==> (i < commits.len() && offset(
        commits,
        i as int,
    ) < t && cls[offset(commits, i as int)] != c && exists|k: int|
        0 <= k < commits[i as int].coauthors@.len() && offset(commits, i as int) + 1 + k < t
            && #[trigger] cls[offset(commits, i as int) + 1 + k] == c)
    &&& cl.login is None
    &&& cl.avatar_url is None
    &&& cl.profile_name is None
    &&& cl.affiliation is None
}

/// Label `c` occurs among the first `j` labels.
pub open spec fn label_seen(cls: Seq<int>, j: int, c: int) -> bool {
    exists|a: int| 0 <= a < j && #[trigger] cls[a] == c
}

/// `cls` labels the identities by cluster, numbering clusters in order of
/// first appearance, and `clusters` are exactly the connected classes of
/// identities, each with its commits, co-authored commits, emails and names.
pub open spec fn clustering(commits: Seq<Commit>, mn: bool, clusters: Seq<Cluster>, cls: Seq<int>) -> bool {
    let ids = idents(commits);
    let n = ids.len() as int;
    &&& cls.len() == n
    &&& forall|a: int, b: int| 0 <= a < n && 0 <= b < n ==> (#[trigger] cls[a] == #[trigger] cls[b] <==> connected(
        ids,
        mn,
        a,
        b,
        n,
    ))
    &&& forall|j: int| 0 <= j < n ==> 0 <= #[trigger] cls[j] < clusters.len()
    &&& forall|c: int| 0 <= c < clusters.len() ==> #[trigger] label_seen(cls, n, c)
    &&& forall|j: int, c: int| 0 <= j < n && 0 <= c < cls[j] ==> #[trigger] label_seen(cls, j, c)
    &&& forall|c: int| 0 <= c < clusters.len() ==> cluster_content(commits, cls, c, #[trigger] clusters[c], n)
}

proof fn lemma_dist_prefix(ids: Seq<Ident>, cls1: Seq<int>, cls2: Seq<int>, c: int, t: int)
    requires
        t <= cls1.len(),
        t <= cls2.len(),
        forall|j: int| 0 <= j < t ==> cls1[j] == cls2[j],
    ensures
        dist_emails(ids, cls1, c, t) == dist_emails(ids, cls2, c, t),
        dist_names(ids, cls1, c, t) == dist_names(ids, cls2, c, t),
    decreases t,
{
    if t > 0 {
        lemma_dist_prefix(ids, cls1, cls2, c, t - 1);
    }
}

/// Records an identity on a cluster: its email and name, when nonempty and
/// not yet known.
fn add_identity(cl: &mut Cluster, name: &str, email: &str)
    ensures
        views(final(cl).emails@) == (if email@.len() > 0 && !views(old(cl).emails@).contains(email@) {
            views(old(cl).emails@).push(email@)
        } else {
            views(old(cl).emails@)
        }),
        views(final(cl).names@) == (if name@.len() > 0 && !views(old(cl).names@).contains(name@) {
            views(old(cl).names@).push(name@)
        } else {
            views(old(cl).names@)
        }),
        final(cl).commit_idxs == old(cl).commit_idxs,
        final(cl).coauthored_idxs == old(cl).coauthored_idxs,
        final(cl).login == old(cl).login,
        final(cl).avatar_url == old(cl).avatar_url,
        final(cl).profile_name == old(cl).profile_name,
        final(cl).affiliation == old(cl).affiliation,
{
    if !email.is_empty() && !contains_str(&cl.emails, email) {
        let ghost before = views(cl.emails@);
        cl.emails.push(email.to_string());
        proof {
            assert(views(cl.emails@) =~= before.push(email@));
        }
    }
    if !name.is_empty() && !contains_str(&cl.names, name) {
        let ghost before = views(cl.names@);
        cl.names.push(name.to_string());
        proof {
            assert(views(cl.names@) =~= before.push(name@));
        }
    }
}

/// Whether `v` holds a string equal to `s`.
pub fn contains_str(v: &Vec<String>, s: &str) -> (r: bool)
    ensures
        r == views(v@).contains(s@),
{
    let mut i: usize = 0;
    while i < v.len()
        invariant
            i <= v@.len(),
            forall|j: int| 0 <= j < i ==> v@[j]@ != s@,
        decreases v@.len() - i,
    {
        if str_eq(v[i].as_str(), s) {
            assert(views(v@)[i as int] == s@);
            return true;
        }
        i += 1;
    }
    assert forall|j: int| 0 <= j < views(v@).len() implies views(v@)[j] != s@ by {
        assert(views(v@)[j] == v@[j]@);
    }
    false
}

/// The cluster for a node's representative, creating an empty cluster the
/// first time a representative is seen.
fn cluster_index(
    dsu: &mut Dsu,
    map: &mut Vec<Option<usize>>,
    clusters: &mut Vec<Cluster>,
    node: usize,
) -> (ci: usize)
    requires
        old(dsu).wf(),
        node < old(dsu).len(),
        old(map)@.len() == old(dsu).len(),
        old(clusters)@.len() < usize::MAX,
    ensures
        final(dsu).wf(),
        final(dsu).len() == old(dsu).len(),
        forall|y: int| 0 <= y < old(dsu).len() ==> final(dsu).rep(y) == old(dsu).rep(y),
        match old(map)@[old(dsu).rep(node as int) as int] {
            Some(c) => ci == c && final(clusters)@ == old(clusters)@ && final(map)@ == old(map)@,
            None => ci == old(clusters)@.len() && final(clusters)@.len() == old(clusters)@.len() + 1
                && (forall|c: int| 0 <= c < ci ==> final(clusters)@[c] == old(clusters)@[c])
                && cluster_empty(final(clusters)@[ci as int])
                && final(map)@ == old(map)@.update(old(dsu).rep(node as int) as int, Some(ci)),
        },
{
    let root = dsu.find(node);
    proof {
        old(dsu).lemma_rep(node as int);
    }
    match map[root] {
        Some(c) => c,
        None => {
            let ci = clusters.len();
            clusters.push(Cluster::default());
            map.set(root, Some(ci));
            ci
        },
    }
}

proof fn lemma_offset_strict(s: Seq<Commit>, i: int, j: int)
    requires
        0 <= i < j <= s.len(),
    ensures
        offset(s, i) < offset(s, j),
{
    lemma_idents_layout(s, i);
    lemma_offset_mono(s, i + 1, j);
}

proof fn lemma_content_relabel(commits: Seq<Commit>, cls: Seq<int>, cls2: Seq<int>, c: int, cl: Cluster, t: int)
    requires
        0 <= t <= cls.len(),
        t <= cls2.len(),
        forall|j: int| 0 <= j < t ==> cls[j] == cls2[j],
        cluster_content(commits, cls, c, cl, t),
    ensures
        cluster_content(commits, cls2, c, cl, t),
{
    lemma_dist_prefix(idents(commits), cls, cls2, c, t);
    assert forall|i: usize| #[trigger] cl.coauthored_idxs@.contains(i) <==> (i < commits.len() && offset(commits, i as int)
        < t && cls2[offset(commits, i as int)] != c && exists|k: int|
        0 <= k < commits[i as int].coauthors@.len() && offset(commits, i as int) + 1 + k < t
            && #[trigger] cls2[offset(commits, i as int) + 1 + k] == c) by {
        if i < commits.len() && offset(commits, i as int) < t {
            let o = offset(commits, i as int);
            if exists|k: int| 0 <= k < commits[i as int].coauthors@.len() && o + 1 + k < t && #[trigger] cls[o + 1 + k] == c {
                let k = choose|k: int| 0 <= k < commits[i as int].coauthors@.len() && o + 1 + k < t && #[trigger] cls[o + 1 + k] == c;
                assert(cls2[o + 1 + k] == c);
            }
            if exists|k: int| 0 <= k < commits[i as int].coauthors@.len() && o + 1 + k < t && #[trigger] cls2[o + 1 + k] == c {
                let k = choose|k: int| 0 <= k < commits[i as int].coauthors@.len() && o + 1 + k < t && #[trigger] cls2[o + 1 + k] == c;
                assert(cls[o + 1 + k] == c);
            }
        }
    }
}

proof fn lemma_dist_absent(ids: Seq<Ident>, cls: Seq<int>, c: int, t: int)
    requires
        t <= cls.len(),
        forall|j: int| 0 <= j < t ==> cls[j] != c,
    ensures
        dist_emails(ids, cls, c, t) == Seq::<Seq<char>>::empty(),
        dist_names(ids, cls, c, t) == Seq::<Seq<char>>::empty(),
    decreases t,
{
    if t > 0 {
        lemma_dist_absent(ids, cls, c, t - 1);
    }
}

proof fn lemma_content_new(commits: Seq<Commit>, cls: Seq<int>, c: int, cl: Cluster, t: int)
    requires
        0 <= t <= cls.len(),
        forall|j: int| 0 <= j < t ==> cls[j] != c,
        cluster_empty(cl),
    ensures
        cluster_content(commits, cls, c, cl, t),
{
    lemma_dist_absent(idents(commits), cls, c, t);
    assert(views(cl.emails@) =~= Seq::<Seq<char>>::empty());
    assert(views(cl.names@) =~= Seq::<Seq<char>>::empty());
}

proof fn lemma_content_other(commits: Seq<Commit>, cls: Seq<int>, c: int, cl: Cluster, t: int)
    requires
        0 <= t < cls.len(),
        cls[t] != c,
        cluster_content(commits, cls, c, cl, t),
    ensures
        cluster_content(commits, cls, c, cl, t + 1),
{
    assert forall|i: usize| #[trigger] cl.commit_idxs@.contains(i) <==> (i < commits.len() && offset(commits, i as int)
        < t + 1 && cls[offset(commits, i as int)] == c) by {
    }
    assert forall|i: usize| #[trigger] cl.coauthored_idxs@.contains(i) <==> (i < commits.len() && offset(commits, i as int)
        < t + 1 && cls[offset(commits, i as int)] != c && exists|k: int|
        0 <= k < commits[i as int].coauthors@.len() && offset(commits, i as int) + 1 + k < t + 1
            && #[trigger] cls[offset(commits, i as int) + 1 + k] == c) by {
        if i < commits.len() && offset(commits, i as int) < t + 1 {
            let o = offset(commits, i as int);
            if exists|k: int| 0 <= k < commits[i as int].coauthors@.len() && o + 1 + k < t + 1 && #[trigger] cls[o + 1 + k] == c {
                let k = choose|k: int| 0 <= k < commits[i as int].coauthors@.len() && o + 1 + k < t + 1 && #[trigger] cls[o + 1 + k] == c;
                assert(o + 1 + k < t);
            }
        }
    }
}

proof fn lemma_content_author(commits: Seq<Commit>, cls: Seq<int>, c: int, cl: Cluster, cl2: Cluster, i: usize)
    requires
        i < commits.len(),
        offset(commits, i as int) < cls.len(),
        cls[offset(commits, i as int)] == c,
        cluster_content(commits, cls, c, cl, offset(commits, i as int)),
        views(cl2.emails@) == (if commits[i as int].email@.len() > 0 && !views(cl.emails@).contains(commits[i as int].email@) {
            views(cl.emails@).push(commits[i as int].email@)
        } else {
            views(cl.emails@)
        }),
        views(cl2.names@) == (if commits[i as int].name@.len() > 0 && !views(cl.names@).contains(commits[i as int].name@) {
            views(cl.names@).push(commits[i as int].name@)
        } else {
            views(cl.names@)
        }),
        cl2.commit_idxs@ == cl.commit_idxs@.push(i),
        cl2.coauthored_idxs == cl.coauthored_idxs,
        cl2.login == cl.login,
        cl2.avatar_url == cl.avatar_url,
        cl2.profile_name == cl.profile_name,
        cl2.affiliation == cl.affiliation,
    ensures
        cluster_content(commits, cls, c, cl2, offset(commits, i as int) + 1),
{
    let t = offset(commits, i as int);
    let ids = idents(commits);
    lemma_idents_layout(commits, i as int);
    assert(ids[t] == (commits[i as int].name@, commits[i as int].email@));
    assert(dist_emails(ids, cls, c, t + 1) == views(cl2.emails@));
    assert(dist_names(ids, cls, c, t + 1) == views(cl2.names@));
    assert forall|a: int, b: int| 0 <= a < b < cl2.commit_idxs@.len() implies cl2.commit_idxs@[a] < cl2.commit_idxs@[b] by {
        if b == cl.commit_idxs@.len() {
            let x = cl.commit_idxs@[a];
            assert(cl.commit_idxs@.contains(x));
            if x >= i {
                lemma_offset_mono(commits, i as int, x as int);
            }
        }
    }
    assert forall|x: usize| #[trigger] cl2.commit_idxs@.contains(x) <==> (x < commits.len() && offset(commits, x as int)
        < t + 1 && cls[offset(commits, x as int)] == c) by {
        if x < commits.len() && offset(commits, x as int) == t && x != i {
            if x < i {
                lemma_offset_strict(commits, x as int, i as int);
            } else {
                lemma_offset_strict(commits, i as int, x as int);
            }
        }
        if cl2.commit_idxs@.contains(x) && x != i {
            let q = choose|q: int| 0 <= q < cl2.commit_idxs@.len() && cl2.commit_idxs@[q] == x;
            assert(cl.commit_idxs@[q] == x);
        }
        if cl.commit_idxs@.contains(x) {
            let q = choose|q: int| 0 <= q < cl.commit_idxs@.len() && cl.commit_idxs@[q] == x;
            assert(cl2.commit_idxs@[q] == x);
        }
        if x == i {
            assert(cl2.commit_idxs@[cl.commit_idxs@.len() as int] == i);
        }
    }
    assert forall|x: usize| #[trigger] cl2.coauthored_idxs@.contains(x) <==> (x < commits.len() && offset(commits, x as int)
        < t + 1 && cls[offset(commits, x as int)] != c && exists|k: int|
        0 <= k < commits[x as int].coauthors@.len() && offset(commits, x as int) + 1 + k < t + 1
            && #[trigger] cls[offset(commits, x as int) + 1 + k] == c) by {
        if x < commits.len() && offset(commits, x as int) < t + 1 {
            let o = offset(commits, x as int);
            if exists|k: int| 0 <= k < commits[x as int].coauthors@.len() && o + 1 + k < t + 1 && #[trigger] cls[o + 1 + k] == c {
                let k = choose|k: int| 0 <= k < commits[x as int].coauthors@.len() && o + 1 + k < t + 1 && #[trigger] cls[o + 1 + k] == c;
                lemma_idents_layout(commits, x as int);
                if x < i {
                    lemma_offset_mono(commits, x as int + 1, i as int);
                } else {
                    lemma_offset_mono(commits, i as int, x as int);
                }
                assert(o + 1 + k < t);
            }
        }
    }
}

proof fn lemma_content_coauthor(
    commits: Seq<Commit>, cls: Seq<int>, c: int, cl: Cluster, cl2: Cluster, i: usize, k: int, pushed: bool,
)
    requires
        i < commits.len(),
        0 <= k < commits[i as int].coauthors@.len(),
        offset(commits, i as int) + 1 + k < cls.len(),
        cls[offset(commits, i as int) + 1 + k] == c,
        cluster_content(commits, cls, c, cl, offset(commits, i as int) + 1 + k),
        views(cl2.emails@) == (if commits[i as int].coauthors@[k].1@.len() > 0 && !views(cl.emails@).contains(
            commits[i as int].coauthors@[k].1@,
        ) {
            views(cl.emails@).push(commits[i as int].coauthors@[k].1@)
        } else {
            views(cl.emails@)
        }),
        views(cl2.names@) == (if commits[i as int].coauthors@[k].0@.len() > 0 && !views(cl.names@).contains(
            commits[i as int].coauthors@[k].0@,
        ) {
            views(cl.names@).push(commits[i as int].coauthors@[k].0@)
        } else {
            views(cl.names@)
        }),
        cl2.commit_idxs == cl.commit_idxs,
        pushed == (c != cls[offset(commits, i as int)] && !cl.coauthored_idxs@.contains(i)),
        pushed ==> cl2.coauthored_idxs@ == cl.coauthored_idxs@.push(i),
        !pushed ==> cl2.coauthored_idxs@ == cl.coauthored_idxs@,
        cl2.login == cl.login,
        cl2.avatar_url == cl.avatar_url,
        cl2.profile_name == cl.profile_name,
        cl2.affiliation == cl.affiliation,
    ensures
        cluster_content(commits, cls, c, cl2, offset(commits, i as int) + 1 + k + 1),
{
    let o = offset(commits, i as int);
    let t = o + 1 + k;
    let ids = idents(commits);
    lemma_idents_layout(commits, i as int);
    assert(ids[t] == (commits[i as int].coauthors@[k].0@, commits[i as int].coauthors@[k].1@));
    assert(dist_emails(ids, cls, c, t + 1) == views(cl2.emails@));
    assert(dist_names(ids, cls, c, t + 1) == views(cl2.names@));
    // positions of other commits never equal t
    assert forall|x: usize| x < commits.len() && x != i implies #[trigger] offset(commits, x as int) != t
        && (offset(commits, x as int) < t ==> offset(commits, x as int) + 1 + commits[x as int].coauthors@.len() <= t)
        && (offset(commits, x as int) > t ==> x > i) by {
        lemma_idents_layout(commits, x as int);
        if x < i {
            lemma_offset_mono(commits, x as int + 1, i as int);
        } else {
            lemma_offset_mono(commits, i as int + 1, x as int);
        }
    }
    assert forall|x: usize| #[trigger] cl2.commit_idxs@.contains(x) <==> (x < commits.len() && offset(commits, x as int)
        < t + 1 && cls[offset(commits, x as int)] == c) by {
        if x == i {
        }
    }
    // every recorded co-authored commit is at most i
    assert forall|q: int| 0 <= q < cl.coauthored_idxs@.len() implies cl.coauthored_idxs@[q] <= i by {
        let x = cl.coauthored_idxs@[q];
        assert(cl.coauthored_idxs@.contains(x));
        if x > i {
            lemma_offset_mono(commits, i as int + 1, x as int);
        }
    }
    assert forall|a: int, b: int| 0 <= a < b < cl2.coauthored_idxs@.len() implies cl2.coauthored_idxs@[a]
        < cl2.coauthored_idxs@[b] by {
        if pushed && b == cl.coauthored_idxs@.len() {
            let x = cl.coauthored_idxs@[a];
            assert(x <= i);
            assert(cl.coauthored_idxs@.contains(x));
            assert(x != i);
        }
    }
    assert forall|x: usize| #[trigger] cl2.coauthored_idxs@.contains(x) <==> (x < commits.len() && offset(commits, x as int)
        < t + 1 && cls[offset(commits, x as int)] != c && exists|k2: int|
        0 <= k2 < commits[x as int].coauthors@.len() && offset(commits, x as int) + 1 + k2 < t + 1
            && #[trigger] cls[offset(commits, x as int) + 1 + k2] == c) by {
        let ox = offset(commits, x as int);
        let cond_old = x < commits.len() && ox < t && cls[ox] != c && exists|k2: int|
            0 <= k2 < commits[x as int].coauthors@.len() && ox + 1 + k2 < t && #[trigger] cls[ox + 1 + k2] == c;
        let cond_new = x < commits.len() && ox < t + 1 && cls[ox] != c && exists|k2: int|
            0 <= k2 < commits[x as int].coauthors@.len() && ox + 1 + k2 < t + 1 && #[trigger] cls[ox + 1 + k2] == c;
        if x != i && x < commits.len() {
            if cond_new {
                let k2 = choose|k2: int| 0 <= k2 < commits[x as int].coauthors@.len() && ox + 1 + k2 < t + 1
                    && #[trigger] cls[ox + 1 + k2] == c;
                assert(ox + 1 + k2 < t);
            }
            assert(cond_old == cond_new);
        }
        if x == i {
            if cls[o] != c {
                assert(cls[o + 1 + k] == c);
            }
        }
        if cl2.coauthored_idxs@.contains(x) {
            let q = choose|q: int| 0 <= q < cl2.coauthored_idxs@.len() && cl2.coauthored_idxs@[q] == x;
            if q < cl.coauthored_idxs@.len() {
                assert(cl.coauthored_idxs@[q] == x);
            }
        }
        if cl.coauthored_idxs@.contains(x) {
            let q = choose|q: int| 0 <= q < cl.coauthored_idxs@.len() && cl.coauthored_idxs@[q] == x;
            assert(cl2.coauthored_idxs@[q] == x);
        }
        if pushed && x == i {
            assert(cl2.coauthored_idxs@[cl.coauthored_idxs@.len() as int] == i);
        }
    }
}

/// Labels `cls` of the first `t` identities, numbered by first appearance,
/// follow the representatives `rp` through `map`.
spec fn labels_inv(ids: Seq<Ident>, mn: bool, rp: Seq<usize>, n: nat, map: Seq<Option<usize>>, k: int, cls: Seq<int>, t: int) -> bool {
    let len = ids.len() as int;
    &&& rp.len() == len
    &&& 0 <= t <= len
    &&& cls.len() == t
    &&& map.len() == n
    &&& 0 <= k <= t
    &&& forall|j: int| 0 <= j < len ==> #[trigger] rp[j] < n
    &&& forall|a: int, b: int| 0 <= a < len && 0 <= b < len ==> (#[trigger] rp[a] == #[trigger] rp[b] <==> connected(
        ids,
        mn,
        a,
        b,
        len,
    ))
    &&& forall|j: int| 0 <= j < t ==> map[rp[j] as int] == Some(#[trigger] cls[j] as usize) && 0 <= cls[j] < k
    &&& forall|r: int| 0 <= r < n && (#[trigger] map[r]) is Some ==> map[r]->0 < k && exists|j: int| 0 <= j < t && rp[j] == r
    &&& forall|r1: int, r2: int| 0 <= r1 < n && 0 <= r2 < n && (#[trigger] map[r1]) is Some && map[r1] == #[trigger] map[r2] ==> r1 == r2
    &&& forall|c: int| 0 <= c < k ==> #[trigger] label_seen(cls, t, c)
    &&& forall|j: int, c: int| 0 <= j < t && 0 <= c < cls[j] ==> #[trigger] label_seen(cls, j, c)
}

proof fn lemma_labels_step(
    ids: Seq<Ident>, mn: bool, rp: Seq<usize>, n: nat, map: Seq<Option<usize>>, map2: Seq<Option<usize>>,
    k: int, k2: int, cls: Seq<int>, t: int, ci: usize,
)
    requires
        labels_inv(ids, mn, rp, n, map, k, cls, t),
        t < ids.len(),
        map[rp[t] as int] matches Some(c0) ==> ci == c0 && map2 == map && k2 == k,
        map[rp[t] as int] is None ==> ci == k && k2 == k + 1 && map2 == map.update(rp[t] as int, Some(ci)),
    ensures
        labels_inv(ids, mn, rp, n, map2, k2, cls.push(ci as int), t + 1),
        forall|j: int| 0 <= j < t ==> cls.push(ci as int)[j] == cls[j],
        map[rp[t] as int] is None ==> forall|j: int| 0 <= j < t ==> cls[j] != ci,
{
    let cls2 = cls.push(ci as int);
    let r = rp[t] as int;
    assert(rp[t] < n);
    assert forall|j: int| 0 <= j < t implies cls2[j] == cls[j] by {}
    if map[r] is None {
        assert forall|j: int| 0 <= j < t implies cls[j] != ci by {
            assert(map[rp[j] as int] == Some(cls[j] as usize));
        }
    } else {
        let j0 = choose|j: int| 0 <= j < t && rp[j] == r;
        assert(map[rp[j0] as int] == Some(cls[j0] as usize));
    }
    assert forall|j: int| 0 <= j < t + 1 implies map2[rp[j] as int] == Some(#[trigger] cls2[j] as usize) && 0 <= cls2[j] < k2 by {
        if j < t {
            assert(map[rp[j] as int] == Some(cls[j] as usize));
            assert(rp[j] < n);
            if map[r] is None {
                assert(rp[j] != r);
            }
        }
    }
    assert forall|q: int| 0 <= q < n && (#[trigger] map2[q]) is Some implies map2[q]->0 < k2 && exists|j: int| 0 <= j < t + 1 && rp[j] == q by {
        if q == r {
            assert(rp[t] == q);
        } else {
            assert(map2[q] == map[q]);
            let j = choose|j: int| 0 <= j < t && rp[j] == q;
            assert(rp[j] == q);
        }
    }
    assert forall|r1: int, r2: int| 0 <= r1 < n && 0 <= r2 < n && (#[trigger] map2[r1]) is Some && map2[r1] == #[trigger] map2[r2] implies r1 == r2 by {
        if map[r] is None {
            if r1 == r && r2 != r {
                assert(map2[r2] == map[r2]);
                assert(map[r2]->0 < k);
            }
            if r2 == r && r1 != r {
                assert(map2[r1] == map[r1]);
                assert(map[r1]->0 < k);
            }
        }
    }
    assert forall|c: int| 0 <= c < k2 implies #[trigger] label_seen(cls2, t + 1, c) by {
        if c < k {
            assert(label_seen(cls, t, c));
            let a = choose|a: int| 0 <= a < t && #[trigger] cls[a] == c;
            assert(cls2[a] == c);
        } else {
            assert(cls2[t] == c);
        }
    }
    assert forall|j: int, c: int| 0 <= j < t + 1 && 0 <= c < cls2[j] implies #[trigger] label_seen(cls2, j, c) by {
        if j < t {
            assert(label_seen(cls, j, c));
            let a = choose|a: int| 0 <= a < j && #[trigger] cls[a] == c;
            assert(cls2[a] == c);
        } else {
            assert(c < k);
            assert(label_seen(cls, t, c));
            let a = choose|a: int| 0 <= a < t && #[trigger] cls[a] == c;
            assert(cls2[a] == c);
        }
    }
}

proof fn lemma_labels_final(
    commits: Seq<Commit>, mn: bool, rp: Seq<usize>, n: nat, map: Seq<Option<usize>>, clusters: Seq<Cluster>, cls: Seq<int>,
)
    requires
        labels_inv(idents(commits), mn, rp, n, map, clusters.len() as int, cls, idents(commits).len() as int),
        forall|c: int| 0 <= c < clusters.len() ==> cluster_content(commits, cls, c, #[trigger] clusters[c], idents(commits).len() as int),
        idents(commits).len() < usize::MAX,
    ensures
        clustering(commits, mn, clusters, cls),
{
    let ids = idents(commits);
    let len = ids.len() as int;
    assert forall|a: int, b: int| 0 <= a < len && 0 <= b < len implies (#[trigger] cls[a] == #[trigger] cls[b] <==> connected(
        ids, mn, a, b, len)) by {
        assert(map[rp[a] as int] == Some(cls[a] as usize));
        assert(map[rp[b] as int] == Some(cls[b] as usize));
        assert(0 <= cls[a] < len && 0 <= cls[b] < len);
        assert(rp[a] < n && rp[b] < n);
        assert(rp[a] == rp[b] <==> connected(ids, mn, a, b, len));
        if cls[a] == cls[b] {
            assert(map[rp[a] as int] == map[rp[b] as int]);
        }
    }
    assert forall|j: int| 0 <= j < len implies 0 <= #[trigger] cls[j] < clusters.len() by {
        assert(map[rp[j] as int] == Some(cls[j] as usize));
    }
    let n = len;
    assert(cls.len() == n);
    assert(forall|a: int, b: int| 0 <= a < n && 0 <= b < n ==> (#[trigger] cls[a] == #[trigger] cls[b] <==> connected(
        ids, mn, a, b, n)));
    assert(forall|j: int| 0 <= j < n ==> 0 <= #[trigger] cls[j] < clusters.len());
    assert(forall|j: int, c: int| 0 <= j < n && 0 <= c < cls[j] ==> #[trigger] label_seen(cls, j, c));
    assert(forall|c: int| 0 <= c < clusters.len() ==> cluster_content(commits, cls, c, #[trigger] clusters[c], n));
}

/// Group commit identities into clusters, one per person. Authors and their
/// `Co-authored-by` identities all share the graph (so a co-author merges with
/// the same person's authored commits); each cluster records the commits it
/// authored and, separately, those it only co-authored.
pub fn cluster_commits(commits: &[Commit], merge_names: bool) -> (clusters: Vec<Cluster>)
    requires
        idents(commits@).len() < usize::MAX,
    ensures
        exists|cls: Seq<int>| clustering(commits@, merge_names, clusters@, cls),
{
    let (mut dsu, author_node, coauthor_nodes, Ghost(node_of)) = assign_nodes(commits, merge_names);
    let ghost ids = idents(commits@);
    let ghost len = ids.len() as int;
    let ghost nn = dsu.len();
    let ghost rp: Seq<usize> = Seq::new(len as nat, |j: int| dsu.rep(node_of[j] as int));
    proof {
        assert forall|j: int| 0 <= j < len implies #[trigger] rp[j] < nn by {
            dsu.lemma_rep(node_of[j] as int);
        }
    }
    let n_nodes = dsu.size();
    let mut map: Vec<Option<usize>> = Vec::new();
    while map.len() < n_nodes
        invariant
            map@.len() <= n_nodes,
            forall|r: int| 0 <= r < map@.len() ==> map@[r] is None,
        decreases n_nodes - map@.len(),
    {
        map.push(None);
    }
    let mut clusters: Vec<Cluster> = Vec::new();
    let ghost mut cls: Seq<int> = Seq::empty();
    proof {
        lemma_offset_full(commits@);
    }
    let mut i: usize = 0;
    while i < commits.len()
        invariant
            i <= commits@.len(),
            ids == idents(commits@),
            len == ids.len(),
            len < usize::MAX,
            offset(commits@, commits@.len() as int) == len,
            rp.len() == len,
            dsu.wf(),
            dsu.len() == nn,
            forall|j: int| 0 <= j < len ==> #[trigger] node_of[j] < nn && dsu.rep(node_of[j] as int) == rp[j],
            author_node@.len() == commits@.len(),
            coauthor_nodes@.len() == commits@.len(),
            forall|i2: int| 0 <= i2 < commits@.len() ==> #[trigger] author_node@[i2] == node_of[offset(commits@, i2)],
            forall|i2: int| 0 <= i2 < commits@.len() ==> (#[trigger] coauthor_nodes@[i2])@.len() == commits@[i2].coauthors@.len(),
            forall|i2: int, k: int| 0 <= i2 < commits@.len() && 0 <= k < commits@[i2].coauthors@.len()
                ==> #[trigger] coauthor_nodes@[i2]@[k] == node_of[offset(commits@, i2) + 1 + k],
            labels_inv(ids, merge_names, rp, nn, map@, clusters@.len() as int, cls, offset(commits@, i as int)),
            forall|c: int| 0 <= c < clusters@.len() ==> cluster_content(commits@, cls, c, #[trigger] clusters@[c], offset(commits@, i as int)),
        decreases commits@.len() - i,
    {
        let c = &commits[i];
        let ghost o = offset(commits@, i as int);
        proof {
            lemma_idents_layout(commits@, i as int);
            lemma_offset_mono(commits@, i as int + 1, commits@.len() as int);
        }
        // the author
        let ghost map0 = map@;
        let ghost cl0 = clusters@;
        let ghost k0 = clusters@.len() as int;
        let ci_a = cluster_index(&mut dsu, &mut map, &mut clusters, author_node[i]);
        proof {
            assert(author_node@[i as int] == node_of[o]);
            lemma_labels_step(ids, merge_names, rp, nn, map0, map@, k0, clusters@.len() as int, cls, o, ci_a);
            let cls2 = cls.push(ci_a as int);
            assert forall|cc: int| 0 <= cc < clusters@.len() implies cluster_content(commits@, cls2, cc, #[trigger] clusters@[cc], o) by {
                if cc < k0 {
                    assert(clusters@[cc] == cl0[cc]);
                    lemma_content_relabel(commits@, cls, cls2, cc, cl0[cc], o);
                } else {
                    lemma_content_new(commits@, cls2, cc, clusters@[cc], o);
                }
            }
            cls = cls2;
        }
        let ghost cl1 = clusters@;
        add_identity(&mut clusters[ci_a], c.name.as_str(), c.email.as_str());
        clusters[ci_a].commit_idxs.push(i);
        proof {
            assert forall|cc: int| 0 <= cc < clusters@.len() implies cluster_content(commits@, cls, cc, #[trigger] clusters@[cc], o + 1) by {
                if cc == ci_a {
                    lemma_content_author(commits@, cls, cc, cl1[cc], clusters@[cc], i);
                } else {
                    assert(clusters@[cc] == cl1[cc]);
                    lemma_content_other(commits@, cls, cc, cl1[cc], o);
                }
            }
        }
        // the co-authors
        let mut k: usize = 0;
        while k < c.coauthors.len()
            invariant
                k <= c.coauthors@.len(),
                i < commits@.len(),
                c == commits@[i as int],
                ids == idents(commits@),
                len == ids.len(),
                len < usize::MAX,
                o == offset(commits@, i as int),
                o + 1 + c.coauthors@.len() == offset(commits@, i + 1),
                offset(commits@, i + 1) <= len,
                rp.len() == len,
                dsu.wf(),
                dsu.len() == nn,
                forall|j: int| 0 <= j < len ==> #[trigger] node_of[j] < nn && dsu.rep(node_of[j] as int) == rp[j],
                coauthor_nodes@.len() == commits@.len(),
                forall|i2: int| 0 <= i2 < commits@.len() ==> (#[trigger] coauthor_nodes@[i2])@.len() == commits@[i2].coauthors@.len(),
                forall|i2: int, k2: int| 0 <= i2 < commits@.len() && 0 <= k2 < commits@[i2].coauthors@.len()
                    ==> #[trigger] coauthor_nodes@[i2]@[k2] == node_of[offset(commits@, i2) + 1 + k2],
                cls.len() > o,
                cls[o] == ci_a,
                labels_inv(ids, merge_names, rp, nn, map@, clusters@.len() as int, cls, o + 1 + k),
                forall|cc: int| 0 <= cc < clusters@.len() ==> cluster_content(commits@, cls, cc, #[trigger] clusters@[cc], o + 1 + k),
            decreases c.coauthors@.len() - k,
        {
            let ghost t = o + 1 + k;
            let ghost map0 = map@;
            let ghost cl0 = clusters@;
            let ghost k0 = clusters@.len() as int;
            let ci_c = cluster_index(&mut dsu, &mut map, &mut clusters, coauthor_nodes[i][k]);
            proof {
                assert(coauthor_nodes@[i as int]@[k as int] == node_of[t]);
                lemma_labels_step(ids, merge_names, rp, nn, map0, map@, k0, clusters@.len() as int, cls, t, ci_c);
                let cls2 = cls.push(ci_c as int);
                assert forall|cc: int| 0 <= cc < clusters@.len() implies cluster_content(commits@, cls2, cc, #[trigger] clusters@[cc], t) by {
                    if cc < k0 {
                        assert(clusters@[cc] == cl0[cc]);
                        lemma_content_relabel(commits@, cls, cls2, cc, cl0[cc], t);
                    } else {
                        lemma_content_new(commits@, cls2, cc, clusters@[cc], t);
                    }
                }
                cls = cls2;
            }
            let pair = &c.coauthors[k];
            let ghost cl1 = clusters@;
            add_identity(&mut clusters[ci_c], pair.0.as_str(), pair.1.as_str());
            let nco = clusters[ci_c].coauthored_idxs.len();
            let fresh = nco == 0 || clusters[ci_c].coauthored_idxs[nco - 1] != i;
            proof {
                // a co-authored list only holds commits up to i, so i is new
                // exactly when it is not the last entry
                let v = cl1[ci_c as int].coauthored_idxs@;
                assert(cluster_content(commits@, cls, ci_c as int, cl1[ci_c as int], t));
                assert forall|q: int| 0 <= q < v.len() implies v[q] <= i by {
                    let x = v[q];
                    assert(v.contains(x));
                    if x > i {
                        lemma_offset_mono(commits@, i as int + 1, x as int);
                    }
                }
                if v.contains(i) {
                    let q = choose|q: int| 0 <= q < v.len() && v[q] == i;
                    if q < v.len() - 1 {
                        assert(v[q] < v[v.len() - 1]);
                    }
                }
            }
            let pushed = ci_c != ci_a && fresh;
            if pushed {
                clusters[ci_c].coauthored_idxs.push(i);
            }
            proof {
                assert forall|cc: int| 0 <= cc < clusters@.len() implies cluster_content(commits@, cls, cc, #[trigger] clusters@[cc], t + 1) by {
                    if cc == ci_c {
                        lemma_content_coauthor(commits@, cls, cc, cl1[cc], clusters@[cc], i, k as int, pushed);
                    } else {
                        assert(clusters@[cc] == cl1[cc]);
                        lemma_content_other(commits@, cls, cc, cl1[cc], t);
                    }
                }
            }
            k += 1;
        }
        i += 1;
    }
    proof {
        assert(offset(commits@, i as int) == len);
        lemma_labels_final(commits@, merge_names, rp, nn, map@, clusters@, cls);
    }
    clusters
}

// ---------------------------------------------------------------------------
// Merging clusters
// ---------------------------------------------------------------------------
/// `a` followed by each element of `b` that is not already present.
pub open spec fn union_list(a: Seq<Seq<char>>, b: Seq<Seq<char>>) -> Seq<Seq<char>>
    decreases b.len(),
{
    if b.len() == 0 {
        a
    } else {
        let u = union_list(a, b.drop_last());
        if u.contains(b.last()) {
            u
        } else {
            u.push(b.last())
        }
    }
}

/// The first of two options that is present.
pub open spec fn or_else<T>(a: Option<T>, b: Option<T>) -> Option<T> {
    if a is Some {
        a
    } else {
        b
    }
}

/// `target` after absorbing `donor`: identities united, commit lists
/// concatenated, and GitHub fields kept from the target when it has them.
pub open spec fn merged(target: Cluster, donor: Cluster, r: Cluster) -> bool {
    &&& views(r.emails@) == union_list(views(target.emails@), views(donor.emails@))
    &&& views(r.names@) == union_list(views(target.names@), views(donor.names@))
    &&& r.commit_idxs@ == target.commit_idxs@ + donor.commit_idxs@
    &&& r.coauthored_idxs@ == target.coauthored_idxs@ + donor.coauthored_idxs@
    &&& r.login == or_else(target.login, donor.login)
    &&& r.avatar_url == or_else(target.avatar_url, donor.avatar_url)
    &&& r.profile_name == or_else(target.profile_name, donor.profile_name)
    &&& r.affiliation == or_else(target.affiliation, donor.affiliation)
}

/// Appends each string of `donor` that `target` does not hold yet.
fn union_into(target: &mut Vec<String>, donor: Vec<String>)
    ensures
        views(final(target)@) == union_list(views(old(target)@), views(donor@)),
{
    let ghost t0 = views(target@);
    let ghost d = views(donor@);
    let mut i: usize = 0;
    while i < donor.len()
        invariant
            i <= donor@.len(),
            d == views(donor@),
            views(target@) == union_list(t0, d.take(i as int)),
        decreases donor@.len() - i,
    {
        let e = &donor[i];
        proof {
            assert(d.take(i + 1).drop_last() =~= d.take(i as int));
            assert(d.take(i + 1).last() == e@);
        }
        if !contains_str(target, e.as_str()) {
            let ghost before = views(target@);
            target.push(e.clone());
            assert(views(target@) =~= before.push(e@));
        }
        i += 1;
    }
    assert(d.take(i as int) =~= d);
}

/// Moves everything from `donor` into `target`.
fn merge_into(target: &mut Cluster, donor: Cluster)
    ensures
        merged(*old(target), donor, *final(target)),
{
    let Cluster { emails, names, commit_idxs, coauthored_idxs, login, avatar_url, profile_name, affiliation } = donor;
    union_into(&mut target.emails, emails);
    union_into(&mut target.names, names);
    let mut ci = commit_idxs;
    target.commit_idxs.append(&mut ci);
    let mut co = coauthored_idxs;
    target.coauthored_idxs.append(&mut co);
    if target.login.is_none() {
        target.login = login;
    }
    if target.avatar_url.is_none() {
        target.avatar_url = avatar_url;
    }
    if target.profile_name.is_none() {
        target.profile_name = profile_name;
    }
    if target.affiliation.is_none() {
        target.affiliation = affiliation;
    }
}

/// Login keys already taken, with the cluster that holds each.
spec fn login_keys_ok(out: Seq<Cluster>, keys: Map<Seq<char>, usize>) -> bool {
    &&& forall|k: Seq<char>| #[trigger] keys.contains_key(k) ==> keys[k] < out.len() && out[keys[k] as int].login
        is Some && unicode_lowercase(out[keys[k] as int].login->0@) == k
    &&& forall|i: int| 0 <= i < out.len() && (#[trigger] out[i]).login is Some ==> keys.contains_key(
        unicode_lowercase(out[i].login->0@),
    ) && keys[unicode_lowercase(out[i].login->0@)] == i
}

/// One step of merging by login: `cl` joins the earlier cluster with the
/// same login (ignoring case), or is appended.
pub open spec fn login_step(out: Seq<Cluster>, cl: Cluster, r: Seq<Cluster>) -> bool {
    if cl.login is Some && exists|i: int| 0 <= i < out.len() && (#[trigger] out[i]).login is Some
        && unicode_lowercase(out[i].login->0@) == unicode_lowercase(cl.login->0@) {
        exists|i: int| 0 <= i < out.len() && (#[trigger] out[i]).login is Some
            && unicode_lowercase(out[i].login->0@) == unicode_lowercase(cl.login->0@)
            && r.len() == out.len() && merged(out[i], cl, r[i])
            && forall|j: int| 0 <= j < out.len() && j != i ==> r[j] == out[j]
    } else {
        r == out.push(cl)
    }
}

/// `r` is what merging `input` by login gives, through the intermediate
/// results `steps` (`steps[j]` after the first `j` clusters).
pub open spec fn login_merge_trace(input: Seq<Cluster>, steps: Seq<Seq<Cluster>>) -> bool {
    &&& steps.len() == input.len() + 1
    &&& steps[0] == Seq::<Cluster>::empty()
    &&& forall|j: int| 0 <= j < input.len() ==> login_step(steps[j], #[trigger] input[j], steps[j + 1])
}

/// Merge clusters that resolved to the same GitHub login.
pub fn merge_by_login(clusters: Vec<Cluster>) -> (out: Vec<Cluster>)
    ensures
        exists|steps: Seq<Seq<Cluster>>| login_merge_trace(clusters@, steps) && steps.last() == out@,
        crate::identity::laws::coauthored_bag(out@) =~= crate::identity::laws::coauthored_bag(clusters@),
        crate::identity::laws::authored_bag(out@) =~= crate::identity::laws::authored_bag(clusters@),
{
    let mut by_login = StrMap::new();
    let mut out: Vec<Cluster> = Vec::new();
    let ghost input = clusters@;
    let ghost mut steps: Seq<Seq<Cluster>> = seq![Seq::<Cluster>::empty()];
    let mut clusters = clusters;
    let mut idx: usize = 0;
    let total = clusters.len();
    assert(clusters@ =~= input.subrange(0, input.len() as int));
    while clusters.len() > 0
        invariant
            idx + clusters@.len() == input.len(),
            input.len() <= usize::MAX,
            clusters@ == input.subrange(idx as int, input.len() as int),
            by_login.wf(),
            login_keys_ok(out@, by_login@),
            steps.len() == idx + 1,
            steps[0] == Seq::<Cluster>::empty(),
            forall|j: int| 0 <= j < idx ==> login_step(steps[j], #[trigger] input[j], steps[j + 1]),
            steps.last() == out@,
        decreases clusters@.len(),
    {
        let cl = clusters.remove(0);
        proof {
            assert(cl == input[idx as int]);
        }
        let ghost out0 = out@;
        let mut merged_into: Option<usize> = None;
        match &cl.login {
            Some(login) => {
                let key = lower_chars(&chars_of(login.as_str()));
                match by_login.get(&key) {
                    Some(i) => {
                        merged_into = Some(i);
                    },
                    None => {
                        by_login.insert_new(key, out.len());
                    },
                }
            },
            None => {},
        }
        match merged_into {
            Some(i) => {
                proof {
                    assert(out0[i as int].login is Some);
                }
                merge_into(&mut out[i], cl);
                proof {
                    assert(login_step(out0, input[idx as int], out@));
                }
            },
            None => {
                out.push(cl);
                proof {
                    if cl.login is Some {
                        assert forall|i: int| 0 <= i < out0.len() && (#[trigger] out0[i]).login is Some implies
                            unicode_lowercase(out0[i].login->0@) != unicode_lowercase(cl.login->0@) by {
                        }
                    }
                    assert(login_step(out0, input[idx as int], out@));
                    assert forall|k: Seq<char>| #[trigger] by_login@.contains_key(k) implies by_login@[k] < out@.len()
                        && out@[by_login@[k] as int].login is Some && unicode_lowercase(out@[by_login@[k] as int].login->0@) == k by {
                    }
                }
            },
        }
        proof {
            steps = steps.push(out@);
            assert(clusters@ =~= input.subrange(idx + 1, input.len() as int));
        }
        idx += 1;
    }
    proof {
        crate::identity::laws::law_login_merge_keeps_credit(input, steps);
    }
    out
}

// ---------------------------------------------------------------------------
// Manual identity overrides
// ---------------------------------------------------------------------------
/// Cluster `i` is live and answers to one of the names of `row`.
pub open spec fn row_hit(state: Seq<Option<Cluster>>, row: Seq<String>, i: int) -> bool {
    0 <= i < state.len() && state[i] is Some && exists|a: int| 0 <= a < row.len() && matches_needle(state[i]->0, (#[trigger] row[a])@)
}

/// `hits` lists, in increasing order, exactly the clusters that `row` hits.
pub open spec fn all_hits(state: Seq<Option<Cluster>>, row: Seq<String>, hits: Seq<int>) -> bool {
    &&& forall|q: int| 0 <= q < hits.len() ==> row_hit(state, row, #[trigger] hits[q])
    &&& forall|q: int, q2: int| 0 <= q < q2 < hits.len() ==> #[trigger] hits[q] < #[trigger] hits[q2]
    &&& forall|i: int| #[trigger] row_hit(state, row, i) ==> hits.contains(i)
}

/// `names` without any copy of `c`.
pub open spec fn without(names: Seq<Seq<char>>, c: Seq<char>) -> Seq<Seq<char>>
    decreases names.len(),
{
    if names.len() == 0 {
        Seq::empty()
    } else {
        let p = without(names.drop_last(), c);
        if names.last() == c {
            p
        } else {
            p.push(names.last())
        }
    }
}

/// `chain` merges the hit clusters into the first, one after another.
pub open spec fn merge_chain(state: Seq<Option<Cluster>>, hits: Seq<int>, chain: Seq<Cluster>) -> bool {
    &&& chain.len() == hits.len()
    &&& chain[0] == state[hits[0]]->0
    &&& forall|q: int| 0 <= q < hits.len() - 1 ==> merged(chain[q], state[hits[q + 1]]->0, #[trigger] chain[q + 1])
}

/// One override row applied: every live cluster that answers to a name of
/// the row is merged into the first of them, which then shows the row's
/// first name (the canonical one) first; a row that hits nothing changes
/// nothing.
pub open spec fn identity_step(state: Seq<Option<Cluster>>, row: Seq<String>, next: Seq<Option<Cluster>>) -> bool {
    if row.len() == 0 || !(exists|i: int| #[trigger] row_hit(state, row, i)) {
        next == state
    } else {
        exists|hits: Seq<int>, chain: Seq<Cluster>|
            #[trigger] all_hits(state, row, hits) && #[trigger] merge_chain(state, hits, chain) && {
                let t = hits[0];
                let last = chain.last();
                &&& next.len() == state.len()
                &&& next[t] is Some
                &&& next[t]->0 == (Cluster { names: next[t]->0.names, ..last })
                &&& views(next[t]->0.names@) == seq![row[0]@] + without(views(last.names@), row[0]@)
                &&& forall|q: int| 1 <= q < hits.len() ==> next[#[trigger] hits[q]] is None
                &&& forall|i: int| 0 <= i < state.len() && !hits.contains(i) ==> #[trigger] next[i] == state[i]
            }
    }
}

/// The clusters that are still live, in order.
pub open spec fn live(state: Seq<Option<Cluster>>) -> Seq<Cluster>
    decreases state.len(),
{
    if state.len() == 0 {
        Seq::empty()
    } else {
        let p = live(state.drop_last());
        match state.last() {
            Some(c) => p.push(c),
            None => p,
        }
    }
}

/// `steps` applies the override rows one after another to `input`.
pub open spec fn identity_trace(input: Seq<Cluster>, rows: Seq<Vec<String>>, steps: Seq<Seq<Option<Cluster>>>) -> bool {
    &&& steps.len() == rows.len() + 1
    &&& steps[0] == input.map_values(|c: Cluster| Some(c))
    &&& forall|k: int| 0 <= k < rows.len() ==> identity_step(steps[k], (#[trigger] rows[k])@, steps[k + 1])
}

/// Whether the cluster answers to one of the names of `row`.
fn hits_row(c: &Cluster, row: &Vec<String>) -> (r: bool)
    ensures
        r == exists|a: int| 0 <= a < row@.len() && matches_needle(*c, (#[trigger] row@[a])@),
{
    let mut a: usize = 0;
    while a < row.len()
        invariant
            a <= row@.len(),
            forall|a2: int| 0 <= a2 < a ==> !matches_needle(*c, (#[trigger] row@[a2])@),
        decreases row@.len() - a,
    {
        if cluster_matches(c, row[a].as_str()) {
            return true;
        }
        a += 1;
    }
    false
}

/// The names without any copy of `c`.
fn without_exec(names: &Vec<String>, c: &String) -> (r: Vec<String>)
    ensures
        views(r@) == without(views(names@), c@),
{
    let ghost nv = views(names@);
    let mut r: Vec<String> = Vec::new();
    let mut i: usize = 0;
    while i < names.len()
        invariant
            i <= names@.len(),
            nv == views(names@),
            views(r@) == without(nv.take(i as int), c@),
        decreases names@.len() - i,
    {
        proof {
            assert(nv.take(i + 1).drop_last() =~= nv.take(i as int));
            assert(nv.take(i + 1).last() == names@[i as int]@);
        }
        if !str_eq(names[i].as_str(), c.as_str()) {
            let ghost r0 = views(r@);
            r.push(names[i].clone());
            assert(views(r@) =~= r0.push(names@[i as int]@));
        }
        i += 1;
    }
    assert(nv.take(i as int) =~= nv);
    r
}

proof fn lemma_live_push(s: Seq<Option<Cluster>>, o: Option<Cluster>)
    ensures
        live(s.push(o)) == (match o {
            Some(c) => live(s).push(c),
            None => live(s),
        }),
{
    assert(s.push(o).drop_last() =~= s);
}

/// Apply manual identity rows: each row is `[canonical, alias, …]`; all
/// clusters matching any entry are merged and the canonical name is forced
/// to the front.
pub fn apply_identity_file(clusters: Vec<Cluster>, rows: &[Vec<String>]) -> (out: Vec<Cluster>)
    ensures
        exists|steps: Seq<Seq<Option<Cluster>>>| identity_trace(clusters@, rows@, steps) && out@ == live(steps.last()),
{
    let ghost input = clusters@;
    let mut cs: Vec<Option<Cluster>> = Vec::new();
    let mut clusters = clusters;
    let mut moved: usize = 0;
    let n_input = clusters.len();
    assert(clusters@ =~= input.skip(0));
    while clusters.len() > 0
        invariant
            moved + clusters@.len() == input.len(),
            input.len() == n_input,
            clusters@ == input.skip(moved as int),
            cs@ == input.take(moved as int).map_values(|c: Cluster| Some(c)),
        decreases clusters@.len(),
    {
        let c = clusters.remove(0);
        let ghost cs0 = cs@;
        cs.push(Some(c));
        proof {
            assert(c == input[moved as int]);
            assert(cs@ =~= input.take(moved + 1).map_values(|c: Cluster| Some(c)));
            assert(clusters@ =~= input.skip(moved + 1));
        }
        moved += 1;
    }
    assert(input.take(moved as int) =~= input);
    let ghost mut steps: Seq<Seq<Option<Cluster>>> = seq![cs@];
    let mut k: usize = 0;
    while k < rows.len()
        invariant
            k <= rows@.len(),
            steps.len() == k + 1,
            steps[0] == input.map_values(|c: Cluster| Some(c)),
            forall|k2: int| 0 <= k2 < k ==> identity_step(steps[k2], (#[trigger] rows@[k2])@, steps[k2 + 1]),
            steps.last() == cs@,
        decreases rows@.len() - k,
    {
        let row = &rows[k];
        let ghost state = cs@;
        if row.len() > 0 {
            // the live clusters hit by the row, in order
            let mut hits: Vec<usize> = Vec::new();
            let mut i: usize = 0;
            while i < cs.len()
                invariant
                    i <= cs@.len(),
                    cs@ == state,
                    forall|q: int| 0 <= q < hits@.len() ==> row_hit(state, row@, #[trigger] hits@[q] as int),
                    forall|q: int| 0 <= q < hits@.len() ==> #[trigger] hits@[q] < i,
                    forall|q: int, q2: int| 0 <= q < q2 < hits@.len() ==> #[trigger] hits@[q] < #[trigger] hits@[q2],
                    forall|i2: int| 0 <= i2 < i && #[trigger] row_hit(state, row@, i2) ==> hits@.contains(i2 as usize),
                decreases cs@.len() - i,
            {
                let hit = match &cs[i] {
                    Some(c) => hits_row(c, row),
                    None => false,
                };
                if hit {
                    let ghost h0 = hits@;
                    hits.push(i);
                    proof {
                        assert forall|i2: int| 0 <= i2 < i + 1 && #[trigger] row_hit(state, row@, i2) implies hits@.contains(i2 as usize) by {
                            if i2 < i {
                                let q = choose|q: int| 0 <= q < h0.len() && h0[q] == i2 as usize;
                                assert(hits@[q] == i2 as usize);
                            } else {
                                assert(hits@[h0.len() as int] == i);
                            }
                        }
                    }
                }
                i += 1;
            }
            let ghost hv = hits@.map_values(|h: usize| h as int);
            proof {
                assert forall|i2: int| #[trigger] row_hit(state, row@, i2) implies hv.contains(i2) by {
                    let q = choose|q: int| 0 <= q < hits@.len() && hits@[q] == i2 as usize;
                    assert(hv[q] == i2);
                }
                assert forall|q: int| 0 <= q < hv.len() implies row_hit(state, row@, #[trigger] hv[q]) by {
                    assert(hv[q] == hits@[q] as int);
                }
                assert forall|q: int, q2: int| 0 <= q < q2 < hv.len() implies #[trigger] hv[q] < #[trigger] hv[q2] by {
                    assert(hv[q] == hits@[q] as int && hv[q2] == hits@[q2] as int);
                }
                assert(all_hits(state, row@, hv));
            }
            if hits.len() > 0 {
                let t = hits[0];
                proof {
                    assert(row_hit(state, row@, hv[0]));
                }
                let mut target = cs[t].take().unwrap();
                let ghost mut chain: Seq<Cluster> = seq![target];
                let mut q: usize = 1;
                while q < hits.len()
                    invariant
                        1 <= q <= hits@.len(),
                        hv == hits@.map_values(|h: usize| h as int),
                        all_hits(state, row@, hv),
                        cs@.len() == state.len(),
                        chain.len() == q,
                        chain[0] == state[hv[0]]->0,
                        forall|q2: int| 0 <= q2 < q - 1 ==> merged(chain[q2], state[hv[q2 + 1]]->0, #[trigger] chain[q2 + 1]),
                        chain.last() == target,
                        cs@[hv[0]] is None,
                        forall|q2: int| 1 <= q2 < q ==> cs@[#[trigger] hv[q2]] is None,
                        forall|q2: int| q <= q2 < hv.len() ==> cs@[#[trigger] hv[q2]] == state[hv[q2]],
                        forall|i2: int| 0 <= i2 < state.len() && !hv.contains(i2) ==> #[trigger] cs@[i2] == state[i2],
                    decreases hits@.len() - q,
                {
                    let h = hits[q];
                    proof {
                        assert(hv[q as int] == h as int);
                        assert(row_hit(state, row@, hv[q as int]));
                        assert(hv[0] < hv[q as int]);
                    }
                    let ghost cs0 = cs@;
                    let donor = cs[h].take().unwrap();
                    let ghost t0 = target;
                    merge_into(&mut target, donor);
                    proof {
                        chain = chain.push(target);
                        assert forall|q2: int| q + 1 <= q2 < hv.len() implies cs@[#[trigger] hv[q2]] == state[hv[q2]] by {
                            assert(hv[q2] != h as int);
                            assert(cs@[hv[q2]] == cs0[hv[q2]]);
                        }
                        assert forall|q2: int| 1 <= q2 < q + 1 implies cs@[#[trigger] hv[q2]] is None by {
                            if q2 < q {
                                assert(hv[q2] != h as int);
                                assert(cs@[hv[q2]] == cs0[hv[q2]]);
                            }
                        }
                        assert forall|i2: int| 0 <= i2 < state.len() && !hv.contains(i2) implies #[trigger] cs@[i2] == state[i2] by {
                            assert(i2 != h as int) by {
                                assert(hv[q as int] == h as int);
                            }
                            assert(cs@[i2] == cs0[i2]);
                        }
                        assert forall|q2: int| 0 <= q2 < q implies merged(chain[q2], state[hv[q2 + 1]]->0, #[trigger] chain[q2 + 1]) by {
                            if q2 == q - 1 {
                                assert(chain[q2] == t0);
                            }
                        }
                        assert(cs@[hv[0]] is None) by {
                            assert(hv[0] != h as int);
                        }
                    }
                    q += 1;
                }
                let canonical = &row[0];
                let rest = without_exec(&target.names, canonical);
                let ghost last = target;
                let mut names: Vec<String> = Vec::new();
                names.push(canonical.clone());
                let mut j: usize = 0;
                while j < rest.len()
                    invariant
                        j <= rest@.len(),
                        views(names@) == seq![canonical@] + views(rest@).take(j as int),
                    decreases rest@.len() - j,
                {
                    let ghost n0 = views(names@);
                    names.push(rest[j].clone());
                    assert(views(names@) =~= n0.push(rest@[j as int]@));
                    assert(seq![canonical@] + views(rest@).take(j + 1) =~= (seq![canonical@] + views(rest@).take(j as int)).push(rest@[j as int]@));
                    j += 1;
                }
                assert(views(rest@).take(j as int) =~= views(rest@));
                target.names = names;
                let ghost cs1 = cs@;
                cs.set(t, Some(target));
                proof {
                    assert(merge_chain(state, hv, chain));
                    assert(t as int == hv[0]);
                    assert forall|q2: int| 1 <= q2 < hv.len() implies cs@[#[trigger] hv[q2]] is None by {
                        assert(hv[q2] != hv[0]);
                        assert(cs@[hv[q2]] == cs1[hv[q2]]);
                    }
                    assert forall|i2: int| 0 <= i2 < state.len() && !hv.contains(i2) implies #[trigger] cs@[i2] == state[i2] by {
                        assert(i2 != hv[0]) by {
                            assert(hv.contains(hv[0]));
                        }
                        assert(cs@[i2] == cs1[i2]);
                    }
                    assert(row@[0] == *canonical);
                    assert(identity_step(state, row@, cs@));
                }
            } else {
                proof {
                    assert(!(exists|i2: int| #[trigger] row_hit(state, row@, i2))) by {
                        if exists|i2: int| #[trigger] row_hit(state, row@, i2) {
                            let i2 = choose|i2: int| #[trigger] row_hit(state, row@, i2);
                            assert(hv.contains(i2));
                        }
                    }
                }
            }
        }
        proof {
            assert(identity_step(state, row@, cs@));
            steps = steps.push(cs@);
        }
        k += 1;
    }
    // the live clusters, in order
    let ghost fin = cs@;
    let mut out: Vec<Cluster> = Vec::new();
    let mut cs = cs;
    let mut taken: usize = 0;
    let n_final = cs.len();
    assert(cs@ =~= fin.skip(0));
    while cs.len() > 0
        invariant
            taken + cs@.len() == fin.len(),
            fin.len() == n_final,
            cs@ == fin.skip(taken as int),
            out@ == live(fin.take(taken as int)),
        decreases cs@.len(),
    {
        let o = cs.remove(0);
        proof {
            assert(o == fin[taken as int]);
            assert(fin.take(taken + 1) =~= fin.take(taken as int).push(o));
            lemma_live_push(fin.take(taken as int), o);
        }
        match o {
            Some(c) => out.push(c),
            None => {},
        }
        proof {
            assert(cs@ =~= fin.skip(taken + 1));
        }
        taken += 1;
    }
    assert(fin.take(taken as int) =~= fin);
    assert(identity_trace(input, rows@, steps) && out@ == live(steps.last()));
    out
}

// ---------------------------------------------------------------------------
// Matching and bots
// ---------------------------------------------------------------------------
/// Whether `needle` (trimmed, ignoring case) equals one of the cluster's
/// emails, names, or its login. An empty needle matches nothing.
pub open spec fn matches_needle(c: Cluster, needle: Seq<char>) -> bool {
    let n = unicode_lowercase(trim(needle));
    &&& n.len() > 0
    &&& {
        ||| exists|i: int| 0 <= i < c.emails@.len() && unicode_lowercase((#[trigger] c.emails@[i])@) == n
        ||| exists|i: int| 0 <= i < c.names@.len() && unicode_lowercase((#[trigger] c.names@[i])@) == n
        ||| (c.login is Some && unicode_lowercase(c.login->0@) == n)
    }
}

/// Each string of `v` lowercased.
pub open spec fn lowered(v: Seq<Seq<char>>) -> Seq<Seq<char>> {
    v.map_values(|s: Seq<char>| unicode_lowercase(s))
}

/// Each string of `v`, lowercased, in order.
pub fn lower_all(v: &Vec<String>) -> (r: Vec<String>)
    ensures
        views(r@) == lowered(views(v@)),
{
    let mut out: Vec<String> = Vec::new();
    let mut i: usize = 0;
    while i < v.len()
        invariant
            i <= v@.len(),
            views(out@) == lowered(views(v@.take(i as int))),
        decreases v@.len() - i,
    {
        let ghost o0 = out@;
        out.push(to_lowercase(v[i].as_str()));
        assert(views(out@) =~= views(o0).push(unicode_lowercase(v@[i as int]@)));
        assert(views(v@.take(i + 1)) =~= views(v@.take(i as int)).push(v@[i as int]@));
        i += 1;
    }
    assert(v@.take(i as int) =~= v@);
    out
}

/// A needle `n`, trimmed and lowercased, matches when it is nonempty and
/// is one of the lowercased emails or names, or the lowercased login.
pub open spec fn lowered_match(emails: Seq<Seq<char>>, names: Seq<Seq<char>>, login: Option<Seq<char>>, n: Seq<char>) -> bool {
    n.len() > 0 && (emails.contains(n) || names.contains(n) || login == Some(n))
}

/// Whether `v` holds `n`.
fn holds_str(v: &Vec<String>, n: &str) -> (r: bool)
    ensures
        r == views(v@).contains(n@),
{
    let mut i: usize = 0;
    while i < v.len()
        invariant
            i <= v@.len(),
            forall|j: int| 0 <= j < i ==> (#[trigger] v@[j])@ != n@,
        decreases v@.len() - i,
    {
        if str_eq(v[i].as_str(), n) {
            assert(views(v@)[i as int] == n@);
            return true;
        }
        i += 1;
    }
    proof {
        if views(v@).contains(n@) {
            let j = choose|j: int| 0 <= j < views(v@).len() && views(v@)[j] == n@;
            assert(v@[j]@ == n@);
        }
    }
    false
}

/// Whether a needle `n`, already trimmed and lowercased, matches a cluster
/// whose emails, names and login are given lowercased.
pub fn matches_lowered(emails: &Vec<String>, names: &Vec<String>, login: &Option<String>, n: &str) -> (r: bool)
    ensures
        r == lowered_match(views(emails@), views(names@), opt_view(*login), n@),
{
    if chars_of(n).len() == 0 {
        return false;
    }
    if holds_str(emails, n) || holds_str(names, n) {
        return true;
    }
    match login {
        Some(l) => str_eq(l.as_str(), n),
        None => false,
    }
}

/// Whether a cluster answers to `needle`: one of its emails, names, or its
/// login equals it, ignoring case and surrounding whitespace.
pub fn cluster_matches(c: &Cluster, needle: &str) -> (r: bool)
    ensures
        r == matches_needle(*c, needle@),
{
    let n = string_of(&lower_chars(&trim_chars(&chars_of(needle))));
    let emails = lower_all(&c.emails);
    let names = lower_all(&c.names);
    let login = match &c.login {
        Some(l) => Some(to_lowercase(l.as_str())),
        None => None,
    };
    let r = matches_lowered(&emails, &names, &login, n.as_str());
    proof {
        let nv = n@;
        let le = lowered(views(c.emails@));
        let ln = lowered(views(c.names@));
        assert((exists|i: int| 0 <= i < c.emails@.len() && unicode_lowercase((#[trigger] c.emails@[i])@) == nv) == le.contains(nv)) by {
            if le.contains(nv) {
                let j = choose|j: int| 0 <= j < le.len() && le[j] == nv;
                assert(unicode_lowercase(c.emails@[j]@) == nv);
            }
            if exists|i: int| 0 <= i < c.emails@.len() && unicode_lowercase((#[trigger] c.emails@[i])@) == nv {
                let j = choose|i: int| 0 <= i < c.emails@.len() && unicode_lowercase((#[trigger] c.emails@[i])@) == nv;
                assert(le[j] == nv);
            }
        }
        assert((exists|i: int| 0 <= i < c.names@.len() && unicode_lowercase((#[trigger] c.names@[i])@) == nv) == ln.contains(nv)) by {
            if ln.contains(nv) {
                let j = choose|j: int| 0 <= j < ln.len() && ln[j] == nv;
                assert(unicode_lowercase(c.names@[j]@) == nv);
            }
            if exists|i: int| 0 <= i < c.names@.len() && unicode_lowercase((#[trigger] c.names@[i])@) == nv {
                let j = choose|i: int| 0 <= i < c.names@.len() && unicode_lowercase((#[trigger] c.names@[i])@) == nv;
                assert(ln[j] == nv);
            }
        }
    }
    r
}

/// Author names of automated accounts (compared lowercased, exactly).
pub open spec fn bot_names() -> Seq<Seq<char>> {
    seq![
        "github-actions"@, "github actions"@, "dependabot"@, "renovate"@, "renovate bot"@,
        "greenkeeper"@, "snyk-bot"@, "travis ci user"@, "travis ci"@, "travis"@, "runner"@,
        "nf-core-bot"@, "semantic-release-bot"@, "allcontributors"@, "pre-commit-ci"@, "imgbot"@,
        "codecov"@, "whitesource"@, "deepsource"@, "pyup.io bot"@, "pyup-bot"@, "mergify"@,
        "copilot"@,
    ]
}

/// Fixed author/co-author addresses used by automated agents: CI/release bots
/// and LLM coding agents. Matched exactly (ignoring case), so real people at
/// the same domains stay human.
pub open spec fn bot_emails() -> Seq<Seq<char>> {
    seq![
        "noreply@anthropic.com"@, "cursoragent@cursor.com"@, "codex@openai.com"@,
        "noreply@opencode.ai"@, "seqera-ai@seqera.io"@,
    ]
}

/// Substrings that mark an automated address wherever they occur: any GitHub
/// App (`…[bot]@…`) plus CI/release bots whose addresses vary.
pub open spec fn bot_email_patterns() -> Seq<Seq<char>> {
    seq!["[bot]@"@, "actions@github.com"@, "dependabot"@]
}

fn bot_name_list() -> (r: Vec<&'static str>)
    ensures
        r@.map_values(|s: &str| s@) == bot_names(),
{
    let r = vec![
        "github-actions", "github actions", "dependabot", "renovate", "renovate bot",
        "greenkeeper", "snyk-bot", "travis ci user", "travis ci", "travis", "runner",
        "nf-core-bot", "semantic-release-bot", "allcontributors", "pre-commit-ci", "imgbot",
        "codecov", "whitesource", "deepsource", "pyup.io bot", "pyup-bot", "mergify",
        "copilot",
    ];
    assert(r@.map_values(|s: &str| s@) =~= bot_names());
    r
}

fn bot_email_list() -> (r: Vec<&'static str>)
    ensures
        r@.map_values(|s: &str| s@) == bot_emails(),
{
    let r = vec![
        "noreply@anthropic.com", "cursoragent@cursor.com", "codex@openai.com",
        "noreply@opencode.ai", "seqera-ai@seqera.io",
    ];
    assert(r@.map_values(|s: &str| s@) =~= bot_emails());
    r
}

fn bot_pattern_list() -> (r: Vec<&'static str>)
    ensures
        r@.map_values(|s: &str| s@) == bot_email_patterns(),
{
    let r = vec!["[bot]@", "actions@github.com", "dependabot"];
    assert(r@.map_values(|s: &str| s@) =~= bot_email_patterns());
    r
}

/// A name or login that marks an automated account.
pub open spec fn bot_word(s: Seq<char>) -> bool {
    bot_word_lowered(unicode_lowercase(s))
}

/// A lowercased name or login that marks an automated account: it holds
/// `[bot]` or is on the known list.
pub open spec fn bot_word_lowered(l: Seq<char>) -> bool {
    has_sub(l, "[bot]"@) || bot_names().contains(l)
}

/// An email address that marks an automated account.
pub open spec fn bot_address(e: Seq<char>) -> bool {
    bot_address_lowered(unicode_lowercase(e))
}

/// A lowercased email address that marks an automated account: on the
/// agent list, or holding one of the bot patterns.
pub open spec fn bot_address_lowered(l: Seq<char>) -> bool {
    bot_emails().contains(l) || exists|p: int| 0 <= p < bot_email_patterns().len() && has_sub(
        l,
        #[trigger] bot_email_patterns()[p],
    )
}

/// Whether a cluster is an automated account, by any of its names, its
/// login, or any of its emails.
pub open spec fn is_bot_spec(c: Cluster) -> bool {
    ||| exists|i: int| 0 <= i < c.names@.len() && bot_word((#[trigger] c.names@[i])@)
    ||| (c.login is Some && bot_word(c.login->0@))
    ||| exists|i: int| 0 <= i < c.emails@.len() && bot_address((#[trigger] c.emails@[i])@)
}

/// Whether a cluster whose names, login and emails are given lowercased is
/// an automated account.
pub open spec fn bot_lowered(names: Seq<Seq<char>>, login: Option<Seq<char>>, emails: Seq<Seq<char>>) -> bool {
    ||| exists|i: int| 0 <= i < names.len() && bot_word_lowered(#[trigger] names[i])
    ||| (login is Some && bot_word_lowered(login->0))
    ||| exists|i: int| 0 <= i < emails.len() && bot_address_lowered(#[trigger] emails[i])
}

/// Whether `l` is one of `list`.
fn in_list(list: &Vec<&'static str>, l: &[char]) -> (r: bool)
    ensures
        r == list@.map_values(|s: &str| s@).contains(l@),
{
    let ghost vs = list@.map_values(|s: &str| s@);
    let mut i: usize = 0;
    while i < list.len()
        invariant
            i <= list@.len(),
            vs == list@.map_values(|s: &str| s@),
            forall|j: int| 0 <= j < i ==> vs[j] != l@,
        decreases list@.len() - i,
    {
        let w = chars_of(list[i]);
        if seq_eq(&w, l) {
            assert(vs[i as int] == l@);
            return true;
        }
        i += 1;
    }
    false
}

fn is_bot_word(s: &str) -> (r: bool)
    ensures
        r == bot_word_lowered(s@),
{
    let l = chars_of(s);
    let tag = chars_of("[bot]");
    contains_seq(&l, &tag) || in_list(&bot_name_list(), &l)
}

fn is_bot_address(e: &str) -> (r: bool)
    ensures
        r == bot_address_lowered(e@),
{
    let l = chars_of(e);
    if in_list(&bot_email_list(), &l) {
        return true;
    }
    let pats = bot_pattern_list();
    let ghost ps = bot_email_patterns();
    let mut p: usize = 0;
    while p < pats.len()
        invariant
            p <= pats@.len(),
            pats@.map_values(|s: &str| s@) == ps,
            ps == bot_email_patterns(),
            l@ == e@,
            !bot_emails().contains(l@),
            forall|q: int| 0 <= q < p ==> !has_sub(l@, #[trigger] ps[q]),
        decreases pats@.len() - p,
    {
        let pc = chars_of(pats[p]);
        assert(pc@ == ps[p as int]);
        if contains_seq(&l, &pc) {
            assert(has_sub(l@, bot_email_patterns()[p as int]));
            assert(0 <= p < bot_email_patterns().len());
            return true;
        }
        p += 1;
    }
    false
}

/// Whether a cluster is a bot, given its names, login and emails already
/// lowercased: a name or login containing `[bot]` or on the known list, or
/// an email on the agent list or with a bot pattern.
pub fn is_bot_lowered(names: &Vec<String>, login: &Option<String>, emails: &Vec<String>) -> (r: bool)
    ensures
        r == bot_lowered(views(names@), opt_view(*login), views(emails@)),
{
    let ghost nv = views(names@);
    let ghost ev = views(emails@);
    let mut i: usize = 0;
    while i < names.len()
        invariant
            i <= names@.len(),
            nv == views(names@),
            forall|j: int| 0 <= j < i ==> !bot_word_lowered(#[trigger] nv[j]),
        decreases names@.len() - i,
    {
        if is_bot_word(names[i].as_str()) {
            assert(bot_word_lowered(nv[i as int]));
            return true;
        }
        i += 1;
    }
    if let Some(l) = login {
        if is_bot_word(l.as_str()) {
            return true;
        }
    }
    let mut i: usize = 0;
    while i < emails.len()
        invariant
            i <= emails@.len(),
            ev == views(emails@),
            forall|j: int| 0 <= j < i ==> !bot_address_lowered(#[trigger] ev[j]),
        decreases emails@.len() - i,
    {
        if is_bot_address(emails[i].as_str()) {
            assert(bot_address_lowered(ev[i as int]));
            return true;
        }
        i += 1;
    }
    false
}

/// Whether a cluster is a bot: a name or login containing `[bot]` or on the
/// known list, or an email on the agent list or with a bot pattern.
pub fn is_bot(cl: &Cluster) -> (r: bool)
    ensures
        r == is_bot_spec(*cl),
{
    let names = lower_all(&cl.names);
    let emails = lower_all(&cl.emails);
    let login = match &cl.login {
        Some(l) => Some(to_lowercase(l.as_str())),
        None => None,
    };
    let r = is_bot_lowered(&names, &login, &emails);
    proof {
        let ln = lowered(views(cl.names@));
        let le = lowered(views(cl.emails@));
        assert((exists|i: int| 0 <= i < cl.names@.len() && bot_word((#[trigger] cl.names@[i])@)) == (exists|i: int|
            0 <= i < ln.len() && bot_word_lowered(#[trigger] ln[i]))) by {
            if exists|i: int| 0 <= i < ln.len() && bot_word_lowered(#[trigger] ln[i]) {
                let j = choose|i: int| 0 <= i < ln.len() && bot_word_lowered(#[trigger] ln[i]);
                assert(bot_word(cl.names@[j]@));
            }
            if exists|i: int| 0 <= i < cl.names@.len() && bot_word((#[trigger] cl.names@[i])@) {
                let j = choose|i: int| 0 <= i < cl.names@.len() && bot_word((#[trigger] cl.names@[i])@);
                assert(bot_word_lowered(ln[j]));
            }
        }
        assert((exists|i: int| 0 <= i < cl.emails@.len() && bot_address((#[trigger] cl.emails@[i])@)) == (exists|i: int|
            0 <= i < le.len() && bot_address_lowered(#[trigger] le[i]))) by {
            if exists|i: int| 0 <= i < le.len() && bot_address_lowered(#[trigger] le[i]) {
                let j = choose|i: int| 0 <= i < le.len() && bot_address_lowered(#[trigger] le[i]);
                assert(bot_address(cl.emails@[j]@));
            }
            if exists|i: int| 0 <= i < cl.emails@.len() && bot_address((#[trigger] cl.emails@[i])@) {
                let j = choose|i: int| 0 <= i < cl.emails@.len() && bot_address((#[trigger] cl.emails@[i])@);
                assert(bot_address_lowered(le[j]));
            }
        }
    }
    r
}

/// A plausible GitHub username: ASCII alphanumerics and hyphens, at most 39
/// characters.
pub open spec fn github_username_spec(s: Seq<char>) -> bool {
    s.len() > 0 && s.len() <= 39 && forall|i: int| 0 <= i < s.len() ==> ascii_alnum(#[trigger] s[i]) || s[i] == '-'
}

/// A plausible GitHub username, so a name- or email-based matcher isn't turned
/// into a bogus profile link.
pub fn is_github_username(s: &str) -> (r: bool)
    ensures
        r == github_username_spec(s@),
{
    let cs = chars_of(s);
    if cs.len() == 0 || cs.len() > 39 {
        return false;
    }
    let mut i: usize = 0;
    while i < cs.len()
        invariant
            i <= cs@.len(),
            cs@ == s@,
            forall|j: int| 0 <= j < i ==> ascii_alnum(#[trigger] cs@[j]) || cs@[j] == '-',
        decreases cs@.len() - i,
    {
        let c = cs[i];
        if !(('0' <= c && c <= '9') || ('a' <= c && c <= 'z') || ('A' <= c && c <= 'Z') || c == '-') {
            return false;
        }
        i += 1;
    }
    true
}

// ---------------------------------------------------------------------------
// Display names
// ---------------------------------------------------------------------------
/// Number of occurrences of `n` in `ns`.
pub open spec fn occ(ns: Seq<Seq<char>>, n: Seq<char>) -> nat
    decreases ns.len(),
{
    if ns.len() == 0 {
        0
    } else {
        occ(ns.drop_last(), n) + (if ns.last() == n { 1nat } else { 0nat })
    }
}

/// Index of the first occurrence of `n` in `ns` (meaningful when present).
pub open spec fn first_idx(ns: Seq<Seq<char>>, n: Seq<char>) -> int
    decreases ns.len(),
{
    if ns.len() == 0 {
        0
    } else if ns.drop_last().contains(n) {
        first_idx(ns.drop_last(), n)
    } else {
        ns.len() - 1
    }
}

/// How strongly a name is preferred for display: its frequency, tripled
/// for a "Firstname Lastname" style name (containing a space) and weighted
/// 3:2 for an uppercase first letter.
pub open spec fn name_score(name: Seq<char>, count: nat) -> int {
    count * (if name.contains(' ') { 3int } else { 1int }) * (if name.len() > 0 && unicode_uppercase(name[0]) {
        3int
    } else {
        2int
    })
}

/// `a` ranks above `b` among the names `ns`: a higher score, or an equal
/// score and an earlier first appearance.
pub open spec fn ranks_above(ns: Seq<Seq<char>>, a: Seq<char>, b: Seq<char>) -> bool {
    let sa = name_score(a, occ(ns, a));
    let sb = name_score(b, occ(ns, b));
    sa > sb || (sa == sb && first_idx(ns, a) < first_idx(ns, b))
}

/// The author names of the commits `idxs`.
pub open spec fn authored_names(commits: Seq<Commit>, idxs: Seq<usize>) -> Seq<Seq<char>> {
    idxs.map_values(|i: usize| commits[i as int].name@)
}

/// `w` is the best nonempty name of `ns`.
pub open spec fn best_name(ns: Seq<Seq<char>>, w: Seq<char>) -> bool {
    &&& w.len() > 0
    &&& ns.contains(w)
    &&& forall|m: Seq<char>| #![trigger ns.contains(m)] m.len() > 0 && ns.contains(m) && m != w ==> ranks_above(ns, w, m)
}

/// The display name of a cluster: its best authored name; failing that its
/// login, its first name, or `unknown`.
pub open spec fn display_name_spec(cl: Cluster, commits: Seq<Commit>, r: Seq<char>) -> bool {
    let ns = authored_names(commits, cl.commit_idxs@);
    if exists|q: int| 0 <= q < ns.len() && (#[trigger] ns[q]).len() > 0 {
        best_name(ns, r)
    } else if cl.login is Some {
        r == cl.login->0@
    } else if cl.names@.len() > 0 {
        r == cl.names@[0]@
    } else {
        r == "unknown"@
    }
}

pub(crate) proof fn lemma_occ_first(ns: Seq<Seq<char>>, n: Seq<char>)
    ensures
        ns.contains(n) <==> occ(ns, n) > 0,
        ns.contains(n) ==> 0 <= first_idx(ns, n) < ns.len() && ns[first_idx(ns, n)] == n,
        ns.contains(n) ==> forall|q: int| 0 <= q < first_idx(ns, n) ==> ns[q] != n,
    decreases ns.len(),
{
    if ns.len() > 0 {
        let d = ns.drop_last();
        lemma_occ_first(d, n);
        if ns.contains(n) && !d.contains(n) {
            let q = choose|q: int| 0 <= q < ns.len() && ns[q] == n;
            if q < ns.len() - 1 {
                assert(d[q] == n);
            }
        }
        if d.contains(n) {
            let q = choose|q: int| 0 <= q < d.len() && d[q] == n;
            assert(ns[q] == n);
            assert forall|q2: int| 0 <= q2 < first_idx(ns, n) implies ns[q2] != n by {
                assert(ns[q2] == d[q2]);
            }
        } else {
            assert forall|q2: int| 0 <= q2 < ns.len() - 1 implies ns[q2] != n by {
                assert(ns[q2] == d[q2]);
            }
        }
    }
}

/// Pick the best human-readable display name for a cluster: the most frequent
/// author name, preferring "Firstname Lastname"-style over login-style names.
pub(crate) fn display_name(cl: &Cluster, commits: &[Commit]) -> (r: String)
    requires
        forall|q: int| 0 <= q < cl.commit_idxs@.len() ==> #[trigger] cl.commit_idxs@[q] < commits@.len(),
        cl.commit_idxs@.len() <= u32::MAX,
    ensures
        display_name_spec(*cl, commits@, r@),
{
    let ghost ns = authored_names(commits@, cl.commit_idxs@);
    // distinct nonempty names in order of first appearance, with counts
    let mut names: Vec<Vec<char>> = Vec::new();
    let mut counts: Vec<u64> = Vec::new();
    let mut q: usize = 0;
    while q < cl.commit_idxs.len()
        invariant
            q <= cl.commit_idxs@.len(),
            cl.commit_idxs@.len() <= u32::MAX,
            ns == authored_names(commits@, cl.commit_idxs@),
            forall|q2: int| 0 <= q2 < cl.commit_idxs@.len() ==> #[trigger] cl.commit_idxs@[q2] < commits@.len(),
            names@.len() == counts@.len(),
            forall|k: int| 0 <= k < names@.len() ==> (#[trigger] names@[k])@.len() > 0,
            forall|k: int| 0 <= k < names@.len() ==> ns.take(q as int).contains((#[trigger] names@[k])@),
            forall|k: int| 0 <= k < names@.len() ==> counts@[k] == occ(ns.take(q as int), (#[trigger] names@[k])@),
            forall|k1: int, k2: int| 0 <= k1 < k2 < names@.len() ==> first_idx(ns.take(q as int), (#[trigger] names@[k1])@)
                < first_idx(ns.take(q as int), (#[trigger] names@[k2])@),
            forall|m: Seq<char>| m.len() > 0 && #[trigger] ns.take(q as int).contains(m) ==> exists|k: int|
                0 <= k < names@.len() && (#[trigger] names@[k])@ == m,
            forall|k: int| 0 <= k < counts@.len() ==> #[trigger] counts@[k] <= q,
        decreases cl.commit_idxs@.len() - q,
    {
        let name = chars_of(commits[cl.commit_idxs[q]].name.as_str());
        let ghost pre = ns.take(q as int);
        let ghost post = ns.take(q + 1);
        proof {
            assert(post.drop_last() =~= pre);
            assert(post.last() == name@);
            assert forall|m: Seq<char>| #[trigger] post.contains(m) <==> pre.contains(m) || m == name@ by {
                if post.contains(m) && m != name@ {
                    let j = choose|j: int| 0 <= j < post.len() && post[j] == m;
                    assert(pre[j] == m);
                }
                if pre.contains(m) {
                    let j = choose|j: int| 0 <= j < pre.len() && pre[j] == m;
                    assert(post[j] == m);
                }
                if m == name@ {
                    assert(post[q as int] == m);
                }
            }
        }
        if name.len() > 0 {
            // find it among the known names
            let found = position_of(&names, &name);
            match found {
                Some(k) => {
                    let ghost names0 = names@;
                    let ghost counts0 = counts@;
                    counts.set(k, counts[k] + 1);
                    proof {
                        assert forall|kk: int| 0 <= kk < names@.len() implies counts@[kk] == occ(post, (#[trigger] names@[kk])@) by {
                            lemma_occ_first(pre, names@[kk]@);
                            if kk != k as int {
                                assert(names@[kk]@ != name@) by {
                                    if kk < k as int {
                                        assert(first_idx(pre, names@[kk]@) < first_idx(pre, names@[k as int]@));
                                    } else {
                                        assert(first_idx(pre, names@[k as int]@) < first_idx(pre, names@[kk]@));
                                    }
                                }
                            }
                        }
                        assert forall|k1: int, k2: int| 0 <= k1 < k2 < names@.len() implies first_idx(post, (#[trigger] names@[k1])@)
                            < first_idx(post, (#[trigger] names@[k2])@) by {
                            assert(pre.contains(names@[k1]@));
                            assert(pre.contains(names@[k2]@));
                        }
                        assert forall|m: Seq<char>| m.len() > 0 && #[trigger] post.contains(m) implies exists|kk: int|
                            0 <= kk < names@.len() && (#[trigger] names@[kk])@ == m by {
                            if m == name@ {
                                assert(names@[k as int]@ == m);
                            }
                        }
                    }
                },
                None => {
                    let ghost names0 = names@;
                    proof {
                        assert(!pre.contains(name@)) by {
                            if pre.contains(name@) {
                                let kk = choose|kk: int| 0 <= kk < names0.len() && (#[trigger] names0[kk])@ == name@;
                                assert(names0[kk]@ != name@);
                            }
                        }
                        lemma_occ_first(pre, name@);
                    }
                    names.push(name);
                    counts.push(1);
                    proof {
                        let nk = names0.len() as int;
                        lemma_occ_first(post, name@);
                        assert(first_idx(post, name@) == q as int);
                        assert forall|kk: int| 0 <= kk < names@.len() implies counts@[kk] == occ(post, (#[trigger] names@[kk])@) by {
                            if kk < nk {
                                assert(names@[kk]@ != name@);
                            }
                        }
                        assert forall|k1: int, k2: int| 0 <= k1 < k2 < names@.len() implies first_idx(post, (#[trigger] names@[k1])@)
                            < first_idx(post, (#[trigger] names@[k2])@) by {
                            if k2 == nk {
                                lemma_occ_first(pre, names@[k1]@);
                            } else {
                                assert(names@[k1]@ != name@);
                                assert(names@[k2]@ != name@);
                            }
                        }
                        assert forall|m: Seq<char>| m.len() > 0 && #[trigger] post.contains(m) implies exists|kk: int|
                            0 <= kk < names@.len() && (#[trigger] names@[kk])@ == m by {
                            if m == name@ {
                                assert(names@[nk]@ == m);
                            } else {
                                let kk = choose|kk: int| 0 <= kk < names0.len() && (#[trigger] names0[kk])@ == m;
                                assert(names@[kk]@ == m);
                            }
                        }
                        assert forall|kk: int| 0 <= kk < names@.len() implies post.contains((#[trigger] names@[kk])@) by {
                            if kk == nk {
                                assert(post[q as int] == name@);
                            }
                        }
                    }
                },
            }
        } else {
            proof {
                assert forall|kk: int| 0 <= kk < names@.len() implies counts@[kk] == occ(post, (#[trigger] names@[kk])@) by {
                    assert(names@[kk]@ != name@);
                }
                assert forall|k1: int, k2: int| 0 <= k1 < k2 < names@.len() implies first_idx(post, (#[trigger] names@[k1])@)
                    < first_idx(post, (#[trigger] names@[k2])@) by {
                    assert(pre.contains(names@[k1]@));
                    assert(pre.contains(names@[k2]@));
                }
            }
        }
        q += 1;
    }
    proof {
        assert(ns.take(q as int) =~= ns);
    }
    if names.len() == 0 {
        proof {
            assert forall|q2: int| 0 <= q2 < ns.len() implies (#[trigger] ns[q2]).len() == 0 by {
                if ns[q2].len() > 0 {
                    assert(ns.contains(ns[q2]));
                }
            }
        }
        return match &cl.login {
            Some(l) => l.clone(),
            None => {
                if cl.names.len() > 0 {
                    cl.names[0].clone()
                } else {
                    "unknown".to_string()
                }
            },
        };
    }
    // the best entry: highest score, earliest on ties
    let mut best: usize = 0;
    let mut best_score: u64 = score_of(&names[0], counts[0]);
    let mut k: usize = 1;
    while k < names.len()
        invariant
            1 <= k <= names@.len(),
            best < k,
            names@.len() == counts@.len(),
            forall|kk: int| 0 <= kk < names@.len() ==> (#[trigger] names@[kk])@.len() > 0,
            forall|kk: int| 0 <= kk < names@.len() ==> counts@[kk] == occ(ns, (#[trigger] names@[kk])@),
            forall|kk: int| 0 <= kk < counts@.len() ==> #[trigger] counts@[kk] <= u32::MAX,
            forall|k1: int, k2: int| 0 <= k1 < k2 < names@.len() ==> first_idx(ns, (#[trigger] names@[k1])@)
                < first_idx(ns, (#[trigger] names@[k2])@),
            best_score == name_score(names@[best as int]@, occ(ns, names@[best as int]@)),
            forall|kk: int| 0 <= kk < k && kk != best ==> ranks_above(ns, names@[best as int]@, (#[trigger] names@[kk])@),
        decreases names@.len() - k,
    {
        let sc = score_of(&names[k], counts[k]);
        if sc > best_score {
            best = k;
            best_score = sc;
        }
        k += 1;
    }
    proof {
        let w = names@[best as int]@;
        assert forall|m: Seq<char>| #![trigger ns.contains(m)] m.len() > 0 && ns.contains(m) && m != w implies ranks_above(ns, w, m) by {
            let kk = choose|kk: int| 0 <= kk < names@.len() && (#[trigger] names@[kk])@ == m;
        }
    }
    string_of(&names[best])
}

/// The integer display score of a name with `count` occurrences.
fn score_of(name: &Vec<char>, count: u64) -> (r: u64)
    requires
        count <= u32::MAX,
    ensures
        r as int == name_score(name@, count as nat),
{
    let mut s = count;
    if contains_char(name, ' ') {
        s = s * 3;
    }
    if name.len() > 0 && is_uppercase(name[0]) {
        s = s * 3;
    } else {
        s = s * 2;
    }
    s
}

} // verus!
