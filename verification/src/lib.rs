//! Build contributor timelines from a git or GitHub repository.
//!
//! The engine turns `git log` output into clustered, enriched contributor
//! rows with monthly activity, which the renderers draw as a timeline.
pub mod text;
pub mod model;
pub mod strmap;
pub mod table;
pub mod cache;
mod dsu;
pub mod identity;
pub mod repo;
pub mod theme;
pub mod svg;
pub mod axis;
pub mod html;
pub mod github;
pub mod run;
pub mod tsv;

use vstd::prelude::*;
use crate::model::{clone_opt, opt_view, Commit};
use crate::identity::{lower_all, lowered, views};
pub use crate::model::{Contributor, RepoMeta};
pub use crate::run::analyze;
use crate::repo::PreparedRepo;
use crate::model::aggregate::dedup;
use crate::text::{
    has_sub, contains_seq, lower_chars, push_str, decimal, u64_to_string, seq_lt, chars_of, is_alphanumeric, is_uppercase, position_of, seq_eq, starts_with, starts_with_exec,
    string_of, to_lowercase, cut_at, cut_at_exec, str_eq, unicode_alphanumeric, unicode_lowercase, unicode_uppercase, utf8_len, utf8_at_least,
};

verus! {

// ---------------------------------------------------------------------------
// Group-name canonicalisation
// ---------------------------------------------------------------------------
/// The alphanumeric characters of `s`, in order.
pub open spec fn keep_alnum(s: Seq<char>) -> Seq<char>
    decreases s.len(),
{
    if s.len() == 0 {
        Seq::empty()
    } else {
        let p = keep_alnum(s.drop_last());
        if unicode_alphanumeric(s.last()) {
            p.push(s.last())
        } else {
            p
        }
    }
}

/// The form under which group names are compared: lowercased, without a
/// leading `the `, alphanumerics only.
pub open spec fn group_key(g: Seq<char>) -> Seq<char> {
    let lower = unicode_lowercase(g);
    let t = if starts_with(lower, seq!['t', 'h', 'e', ' ']) {
        lower.skip(4)
    } else {
        lower
    };
    keep_alnum(t)
}

/// `k` is one of the keys `ks`, at least six bytes long, and a prefix of `key`.
pub open spec fn prefix_candidate(ks: Seq<Seq<char>>, key: Seq<char>, k: Seq<char>) -> bool {
    ks.contains(k) && utf8_len(k) >= 6 && starts_with(key, k)
}

/// The cluster a key belongs to: the shortest candidate prefix among the
/// keys, or the key itself when there is none.
pub open spec fn resolve(ks: Seq<Seq<char>>, key: Seq<char>) -> Seq<char> {
    if exists|k: Seq<char>| #[trigger] prefix_candidate(ks, key, k) {
        choose|k: Seq<char>|
            #[trigger] prefix_candidate(ks, key, k) && forall|k2: Seq<char>|
                #[trigger] prefix_candidate(ks, key, k2) ==> k.len() <= k2.len()
    } else {
        key
    }
}

/// The group names of the contributors that have one, in order.
pub open spec fn group_names(cs: Seq<Contributor>) -> Seq<Seq<char>>
    decreases cs.len(),
{
    if cs.len() == 0 {
        Seq::empty()
    } else {
        let p = group_names(cs.drop_last());
        match cs.last().group {
            Some(g) => p.push(g@),
            None => p,
        }
    }
}

/// How many contributors have group `g`.
pub open spec fn group_count(cs: Seq<Contributor>, g: Seq<char>) -> nat
    decreases cs.len(),
{
    if cs.len() == 0 {
        0
    } else {
        group_count(cs.drop_last(), g) + (match cs.last().group {
            Some(x) => if x@ == g {
                1nat
            } else {
                0nat
            },
            None => 0nat,
        })
    }
}

/// The distinct group names, in order of first appearance.
pub open spec fn variants(cs: Seq<Contributor>) -> Seq<Seq<char>> {
    dedup(group_names(cs))
}

/// The cluster of group name `g` among the variants `vs`.
pub open spec fn cluster_of(vs: Seq<Seq<char>>, g: Seq<char>) -> Seq<char> {
    resolve(vs.map_values(|v: Seq<char>| group_key(v)), group_key(g))
}

/// How good a variant is as the display name of its cluster: mostly how
/// many people use it, then whether it has a space, then an uppercase letter.
pub open spec fn variant_score(g: Seq<char>, n: nat) -> int {
    n * 4 + (if g.contains(' ') {
        2int
    } else {
        0int
    }) + (if exists|i: int| 0 <= i < g.len() && unicode_uppercase(#[trigger] g[i]) {
        1int
    } else {
        0int
    })
}

/// `d` is the display name of cluster `k`: the best-scoring variant in it,
/// the first in order of appearance on ties.
pub open spec fn is_display(cs: Seq<Contributor>, k: Seq<char>, d: Seq<char>) -> bool {
    let vs = variants(cs);
    exists|i: int|
        0 <= i < vs.len() && #[trigger] vs[i] == d && cluster_of(vs, vs[i]) == k && (forall|i2: int|
            0 <= i2 < vs.len() && cluster_of(vs, #[trigger] vs[i2]) == k ==> variant_score(vs[i2], group_count(cs, vs[i2]))
                <= variant_score(d, group_count(cs, d))) && (forall|i2: int|
            0 <= i2 < i && cluster_of(vs, #[trigger] vs[i2]) == k ==> variant_score(vs[i2], group_count(cs, vs[i2]))
                < variant_score(d, group_count(cs, d)))
}

/// `c` is `old` with its group replaced by the display name of its cluster.
pub open spec fn canonicalized(cs: Seq<Contributor>, old: Contributor, c: Contributor) -> bool {
    &&& c == (Contributor { group: c.group, ..old })
    &&& match old.group {
        None => c.group is None,
        Some(g) => c.group matches Some(d) && is_display(cs, cluster_of(variants(cs), g@), d@),
    }
}

/// The lowercase, alphanumeric key of a group name.
fn group_key_exec(g: &Vec<char>) -> (r: Vec<char>)
    ensures
        r@ == group_key(g@),
{
    let lower = chars_of(to_lowercase(string_of(g).as_str()).as_str());
    let the = vec!['t', 'h', 'e', ' '];
    let from: usize = if starts_with_exec(&lower, &the) {
        4
    } else {
        0
    };
    let mut r: Vec<char> = Vec::new();
    let ghost t = lower@.skip(from as int);
    let mut i: usize = from;
    proof {
        assert(lower@.skip(from as int).take(0) =~= Seq::<char>::empty());
    }
    while i < lower.len()
        invariant
            from <= i <= lower@.len(),
            t == lower@.skip(from as int),
            r@ == keep_alnum(t.take(i - from)),
        decreases lower@.len() - i,
    {
        proof {
            assert(t.take(i - from + 1).drop_last() =~= t.take(i - from));
            assert(t.take(i - from + 1).last() == lower@[i as int]);
        }
        if is_alphanumeric(lower[i]) {
            r.push(lower[i]);
        }
        i += 1;
    }
    proof {
        assert(t.take(i - from) =~= t);
        if from == 0 {
            assert(lower@.skip(0) =~= lower@);
        }
    }
    r
}

/// Two shortest candidate prefixes of one key are the same.
proof fn lemma_resolve_unique(ks: Seq<Seq<char>>, key: Seq<char>, k: Seq<char>)
    requires
        prefix_candidate(ks, key, k),
        forall|k2: Seq<char>| #[trigger] prefix_candidate(ks, key, k2) ==> k.len() <= k2.len(),
    ensures
        resolve(ks, key) == k,
{
    let r = resolve(ks, key);
    assert(prefix_candidate(ks, key, r));
    assert(r.len() == k.len());
    assert(r =~= key.take(k.len() as int));
    assert(k =~= key.take(k.len() as int));
}

/// The cluster of `key` among the keys `ks`.
fn resolve_exec(ks: &Vec<Vec<char>>, key: &Vec<char>) -> (r: Vec<char>)
    ensures
        r@ == resolve(ks@.map_values(|k: Vec<char>| k@), key@),
{
    let ghost kv = ks@.map_values(|k: Vec<char>| k@);
    let mut best: Option<usize> = None;
    let mut i: usize = 0;
    while i < ks.len()
        invariant
            i <= ks@.len(),
            kv == ks@.map_values(|k: Vec<char>| k@),
            match best {
                Some(b) => b < i && prefix_candidate(kv, key@, kv[b as int]) && forall|i2: int|
                    0 <= i2 < i && #[trigger] prefix_candidate(kv, key@, kv[i2]) ==> kv[b as int].len() <= kv[i2].len(),
                None => forall|i2: int| 0 <= i2 < i ==> !#[trigger] prefix_candidate(kv, key@, kv[i2]),
            },
        decreases ks@.len() - i,
    {
        proof {
            assert(kv[i as int] == ks@[i as int]@);
            assert(kv.contains(kv[i as int]));
        }
        if utf8_at_least(&ks[i], 6) && starts_with_exec(key, &ks[i]) {
            let better = match best {
                Some(b) => ks[i].len() < ks[b].len(),
                None => true,
            };
            if better {
                best = Some(i);
            }
        }
        i += 1;
    }
    match best {
        Some(b) => {
            proof {
                assert forall|k2: Seq<char>| #[trigger] prefix_candidate(kv, key@, k2) implies kv[b as int].len() <= k2.len() by {
                    let i2 = choose|i2: int| 0 <= i2 < kv.len() && kv[i2] == k2;
                    assert(prefix_candidate(kv, key@, kv[i2]));
                }
                lemma_resolve_unique(kv, key@, kv[b as int]);
            }
            slice_copy(&ks[b])
        },
        None => {
            proof {
                assert forall|k2: Seq<char>| !#[trigger] prefix_candidate(kv, key@, k2) by {
                    if prefix_candidate(kv, key@, k2) {
                        let i2 = choose|i2: int| 0 <= i2 < kv.len() && kv[i2] == k2;
                        assert(prefix_candidate(kv, key@, kv[i2]));
                    }
                }
            }
            slice_copy(key)
        },
    }
}

/// A copy of a list of characters.
fn slice_copy(v: &Vec<char>) -> (r: Vec<char>)
    ensures
        r@ == v@,
{
    let mut r: Vec<char> = Vec::new();
    let mut i: usize = 0;
    while i < v.len()
        invariant
            i <= v@.len(),
            r@ == v@.take(i as int),
        decreases v@.len() - i,
    {
        r.push(v[i]);
        i += 1;
        assert(r@ =~= v@.take(i as int));
    }
    assert(v@.take(i as int) =~= v@);
    r
}


proof fn lemma_dedup_contains(s: Seq<Seq<char>>, x: Seq<char>)
    ensures
        dedup(s).contains(x) <==> s.contains(x),
    decreases s.len(),
{
    if s.len() > 0 {
        lemma_dedup_contains(s.drop_last(), x);
        let d = dedup(s.drop_last());
        if s.drop_last().contains(x) {
            let q = choose|q: int| 0 <= q < s.drop_last().len() && s.drop_last()[q] == x;
            assert(s[q] == x);
        }
        if s.contains(x) && x != s.last() {
            let q = choose|q: int| 0 <= q < s.len() && s[q] == x;
            assert(s.drop_last()[q] == x);
        }
        if x == s.last() {
            assert(s[s.len() - 1] == x);
            if !d.contains(x) {
                assert(d.push(x)[d.len() as int] == x);
            }
        }
        if d.contains(x) && !d.contains(s.last()) {
            let q = choose|q: int| 0 <= q < d.len() && d[q] == x;
            assert(d.push(s.last())[q] == x);
        }
        if dedup(s).contains(x) && !d.contains(x) {
            assert(x == s.last());
        }
    }
}

proof fn lemma_count_names(cs: Seq<Contributor>, g: Seq<char>)
    ensures
        !group_names(cs).contains(g) ==> group_count(cs, g) == 0,
    decreases cs.len(),
{
    if cs.len() > 0 {
        lemma_count_names(cs.drop_last(), g);
        let p = group_names(cs.drop_last());
        if !group_names(cs).contains(g) {
            assert forall|q: int| 0 <= q < p.len() implies p[q] != g by {
                match cs.last().group {
                    Some(x) => assert(p.push(x@)[q] == p[q]),
                    None => {},
                }
            }
            match cs.last().group {
                Some(x) => assert(p.push(x@)[p.len() as int] == x@),
                None => {},
            }
        }
    }
}

/// The distinct group names in order of first appearance, with how many
/// contributors have each.
fn collect_variants(cs: &[Contributor]) -> (r: (Vec<Vec<char>>, Vec<usize>))
    ensures
        r.0@.map_values(|v: Vec<char>| v@) == variants(cs@),
        r.1@.len() == r.0@.len(),
        forall|i: int| 0 <= i < r.1@.len() ==> #[trigger] r.1@[i] == group_count(cs@, r.0@[i]@),
{
    let mut vs: Vec<Vec<char>> = Vec::new();
    let mut counts: Vec<usize> = Vec::new();
    let mut j: usize = 0;
    while j < cs.len()
        invariant
            j <= cs@.len(),
            vs@.map_values(|v: Vec<char>| v@) == dedup(group_names(cs@.take(j as int))),
            counts@.len() == vs@.len(),
            forall|i: int| 0 <= i < counts@.len() ==> #[trigger] counts@[i] == group_count(cs@.take(j as int), vs@[i]@),
            forall|i: int| 0 <= i < counts@.len() ==> #[trigger] counts@[i] <= j,
        decreases cs@.len() - j,
    {
        let ghost pre = cs@.take(j as int);
        let ghost post = cs@.take(j + 1);
        proof {
            assert(post.drop_last() =~= pre);
            assert(post.last() == cs@[j as int]);
        }
        match &cs[j].group {
            Some(g) => {
                let gc = chars_of(g.as_str());
                let ghost vv = vs@.map_values(|v: Vec<char>| v@);
                proof {
                    assert(group_names(post) == group_names(pre).push(gc@));
                    assert(group_names(pre).push(gc@).drop_last() =~= group_names(pre));
                }
                match position_of(&vs, &gc) {
                    Some(p) => {
                        proof {
                            assert(vv[p as int] == gc@);
                            assert(vv.contains(gc@));
                        }
                        let cur = counts[p];
                        counts.set(p, cur + 1);
                        proof {
                            assert forall|i: int| 0 <= i < counts@.len() implies #[trigger] counts@[i] == group_count(post, vs@[i]@) by {
                                if i != p as int {
                                    assert(vs@[i]@ != gc@) by {
                                        assert(vv[i] == vs@[i]@);
                                        lemma_dedup_distinct(group_names(pre), i, p as int);
                                    }
                                }
                            }
                        }
                    },
                    None => {
                        proof {
                            assert(!vv.contains(gc@)) by {
                                if vv.contains(gc@) {
                                    let q = choose|q: int| 0 <= q < vv.len() && vv[q] == gc@;
                                    assert(vs@[q]@ == gc@);
                                }
                            }
                            lemma_dedup_contains(group_names(pre), gc@);
                            lemma_count_names(pre, gc@);
                        }
                        vs.push(gc);
                        counts.push(1);
                        proof {
                            assert(vs@.map_values(|v: Vec<char>| v@) =~= vv.push(gc@));
                            assert forall|i: int| 0 <= i < counts@.len() implies #[trigger] counts@[i] == group_count(post, vs@[i]@) by {
                                if i < vv.len() {
                                    assert(vv[i] == vs@[i]@);
                                    assert(vv.contains(vv[i]));
                                }
                            }
                        }
                    },
                }
            },
            None => {
                assert(group_names(post) == group_names(pre));
            },
        }
        j += 1;
    }
    assert(cs@.take(j as int) =~= cs@);
    (vs, counts)
}

proof fn lemma_dedup_distinct(s: Seq<Seq<char>>, a: int, b: int)
    requires
        0 <= a < dedup(s).len(),
        0 <= b < dedup(s).len(),
        a != b,
    ensures
        dedup(s)[a] != dedup(s)[b],
    decreases s.len(),
{
    if s.len() > 0 {
        let d = dedup(s.drop_last());
        if d.contains(s.last()) {
            lemma_dedup_distinct(s.drop_last(), a, b);
        } else {
            if a < d.len() && b < d.len() {
                lemma_dedup_distinct(s.drop_last(), a, b);
            } else if a == d.len() {
                assert(d[b] != s.last());
            } else {
                assert(d[a] != s.last());
            }
        }
    }
}

/// The display score of a variant used by `n` contributors.
fn score_exec(g: &Vec<char>, n: usize) -> (r: u128)
    ensures
        r == variant_score(g@, n as nat),
{
    let mut upper = false;
    let mut i: usize = 0;
    while i < g.len()
        invariant
            i <= g@.len(),
            upper == exists|i2: int| 0 <= i2 < i && unicode_uppercase(#[trigger] g@[i2]),
        decreases g@.len() - i,
    {
        if is_uppercase(g[i]) {
            upper = true;
        }
        i += 1;
    }
    let space = crate::text::contains_char(g, ' ');
    (n as u128) * 4 + (if space {
        2
    } else {
        0
    }) + (if upper {
        1
    } else {
        0
    })
}

/// Merge group-name variants that refer to the same organisation:
/// case/punctuation differences ("Seqera Labs" vs "seqeralabs"), a leading
/// "The", and prefix forms ("Seqera" vs "Seqera Labs"). Each group is replaced
/// by its cluster's display name. Returns the final group count.
pub fn canonicalize_groups(contributors: &mut [Contributor]) -> (r: usize)
    ensures
        final(contributors)@.len() == old(contributors)@.len(),
        forall|j: int| 0 <= j < old(contributors)@.len() ==> canonicalized(
            old(contributors)@,
            old(contributors)@[j],
            #[trigger] final(contributors)@[j],
        ),
        r == dedup(variants(old(contributors)@).map_values(|v: Seq<char>| cluster_of(variants(old(contributors)@), v))).len(),
{
    let ghost cs0 = contributors@;
    let (vs, counts) = collect_variants(contributors);
    let ghost vv = vs@.map_values(|v: Vec<char>| v@);
    // the comparison key of every variant
    let mut keys: Vec<Vec<char>> = Vec::new();
    let mut i: usize = 0;
    while i < vs.len()
        invariant
            i <= vs@.len(),
            vv == vs@.map_values(|v: Vec<char>| v@),
            keys@.len() == i,
            keys@.map_values(|k: Vec<char>| k@) == vv.take(i as int).map_values(|v: Seq<char>| group_key(v)),
        decreases vs@.len() - i,
    {
        let ghost k0 = keys@;
        let k = group_key_exec(&vs[i]);
        keys.push(k);
        proof {
            assert(vv[i as int] == vs@[i as int]@);
            assert(keys@.map_values(|k: Vec<char>| k@) =~= k0.map_values(|k: Vec<char>| k@).push(group_key(vv[i as int])));
            assert(vv.take(i + 1).map_values(|v: Seq<char>| group_key(v)) =~= vv.take(i as int).map_values(|v: Seq<char>| group_key(v)).push(group_key(vv[i as int])));
        }
        i += 1;
    }
    let ghost kv = keys@.map_values(|k: Vec<char>| k@);
    proof {
        assert(vv.take(vs@.len() as int) =~= vv);
        assert(kv == vv.map_values(|v: Seq<char>| group_key(v)));
    }
    // the cluster of every variant
    let mut cls: Vec<Vec<char>> = Vec::new();
    let mut i: usize = 0;
    while i < vs.len()
        invariant
            i <= vs@.len(),
            vv == vs@.map_values(|v: Vec<char>| v@),
            kv == keys@.map_values(|k: Vec<char>| k@),
            kv == vv.map_values(|v: Seq<char>| group_key(v)),
            keys@.len() == vs@.len(),
            cls@.len() == i,
            forall|i2: int| 0 <= i2 < i ==> (#[trigger] cls@[i2])@ == cluster_of(vv, vv[i2]),
        decreases vs@.len() - i,
    {
        let c = resolve_exec(&keys, &keys[i]);
        proof {
            assert(kv[i as int] == keys@[i as int]@);
            assert(kv[i as int] == group_key(vv[i as int]));
        }
        cls.push(c);
        i += 1;
    }
    let ghost cv = cls@.map_values(|c: Vec<char>| c@);
    proof {
        assert(cv =~= vv.map_values(|v: Seq<char>| cluster_of(vv, v)));
    }
    // the display variant of every cluster
    let mut order: Vec<Vec<char>> = Vec::new();
    let mut disp: Vec<usize> = Vec::new();
    let mut i: usize = 0;
    while i < vs.len()
        invariant
            i <= vs@.len(),
            vv == vs@.map_values(|v: Vec<char>| v@),
            vv == variants(cs0),
            cv == cls@.map_values(|c: Vec<char>| c@),
            cls@.len() == vs@.len(),
            counts@.len() == vs@.len(),
            forall|i2: int| 0 <= i2 < counts@.len() ==> #[trigger] counts@[i2] == group_count(cs0, vs@[i2]@),
            forall|i2: int| 0 <= i2 < vs@.len() ==> (#[trigger] cls@[i2])@ == cluster_of(vv, vv[i2]),
            order@.map_values(|c: Vec<char>| c@) == dedup(cv.take(i as int)),
            disp@.len() == order@.len(),
            forall|p: int| 0 <= p < disp@.len() ==> {
                let d = #[trigger] disp@[p] as int;
                &&& 0 <= d < i
                &&& cv[d] == order@[p]@
                &&& forall|i2: int| 0 <= i2 < i && #[trigger] cv[i2] == order@[p]@ ==> variant_score(vv[i2], group_count(cs0, vv[i2]))
                    <= variant_score(vv[d], group_count(cs0, vv[d]))
                &&& forall|i2: int| 0 <= i2 < d && #[trigger] cv[i2] == order@[p]@ ==> variant_score(vv[i2], group_count(cs0, vv[i2]))
                    < variant_score(vv[d], group_count(cs0, vv[d]))
            },
        decreases vs@.len() - i,
    {
        let ghost ov = order@.map_values(|c: Vec<char>| c@);
        proof {
            assert(cv.take(i + 1).drop_last() =~= cv.take(i as int));
            assert(cv[i as int] == cls@[i as int]@);
            assert(vv[i as int] == vs@[i as int]@);
        }
        let sc = score_exec(&vs[i], counts[i]);
        match position_of(&order, &cls[i]) {
            Some(p) => {
                proof {
                    assert(ov[p as int] == cv[i as int]);
                    assert(ov.contains(cv[i as int]));
                }
                let d = disp[p];
                let best = score_exec(&vs[d], counts[d]);
                let ghost disp0 = disp@;
                proof {
                    assert(vv[d as int] == vs@[d as int]@);
                    assert forall|q: int| 0 <= q < disp@.len() && q != p as int implies order@[q]@ != cv[i as int] by {
                        assert(ov[q] == order@[q]@);
                        lemma_dedup_distinct(cv.take(i as int), q, p as int);
                    }
                }
                if sc > best {
                    disp.set(p, i);
                }
                proof {
                    assert forall|q: int| 0 <= q < disp@.len() implies {
                        let d = #[trigger] disp@[q] as int;
                        &&& 0 <= d < i + 1
                        &&& cv[d] == order@[q]@
                        &&& forall|i2: int| 0 <= i2 < i + 1 && #[trigger] cv[i2] == order@[q]@ ==> variant_score(vv[i2], group_count(cs0, vv[i2]))
                            <= variant_score(vv[d], group_count(cs0, vv[d]))
                        &&& forall|i2: int| 0 <= i2 < d && #[trigger] cv[i2] == order@[q]@ ==> variant_score(vv[i2], group_count(cs0, vv[i2]))
                            < variant_score(vv[d], group_count(cs0, vv[d]))
                    } by {
                        let d0 = disp0[q] as int;
                        assert(0 <= d0 < i);
                        assert(cv[d0] == order@[q]@);
                        if q != p as int {
                            assert(disp@[q] == disp0[q]);
                        }
                    }
                }
            },
            None => {
                proof {
                    assert(!ov.contains(cv[i as int])) by {
                        if ov.contains(cv[i as int]) {
                            let q = choose|q: int| 0 <= q < ov.len() && ov[q] == cv[i as int];
                            assert(order@[q]@ == cv[i as int]);
                        }
                    }
                    assert forall|q: int| 0 <= q < disp@.len() implies order@[q]@ != cv[i as int] by {
                        assert(ov[q] == order@[q]@);
                        assert(ov.contains(ov[q]));
                    }
                }
                let c = slice_copy(&cls[i]);
                let ghost disp0 = disp@;
                let ghost order0 = order@;
                order.push(c);
                disp.push(i);
                proof {
                    assert(order@.map_values(|c: Vec<char>| c@) =~= ov.push(cv[i as int]));
                    lemma_dedup_contains(cv.take(i as int), cv[i as int]);
                    assert forall|i2: int| 0 <= i2 < i implies cv[i2] != cv[i as int] by {
                        assert(cv.take(i as int)[i2] == cv[i2]);
                    }
                    assert forall|q: int| 0 <= q < disp@.len() implies {
                        let d = #[trigger] disp@[q] as int;
                        &&& 0 <= d < i + 1
                        &&& cv[d] == order@[q]@
                        &&& forall|i2: int| 0 <= i2 < i + 1 && #[trigger] cv[i2] == order@[q]@ ==> variant_score(vv[i2], group_count(cs0, vv[i2]))
                            <= variant_score(vv[d], group_count(cs0, vv[d]))
                        &&& forall|i2: int| 0 <= i2 < d && #[trigger] cv[i2] == order@[q]@ ==> variant_score(vv[i2], group_count(cs0, vv[i2]))
                            < variant_score(vv[d], group_count(cs0, vv[d]))
                    } by {
                        if q < disp0.len() {
                            assert(disp@[q] == disp0[q]);
                            assert(order@[q] == order0[q]);
                        }
                    }
                }
            },
        }
        i += 1;
    }
    proof {
        assert(cv.take(vs@.len() as int) =~= cv);
    }
    // relabel every contributor
    let ghost ov = order@.map_values(|c: Vec<char>| c@);
    let mut j: usize = 0;
    while j < contributors.len()
        invariant
            j <= contributors@.len(),
            contributors@.len() == cs0.len(),
            vv == vs@.map_values(|v: Vec<char>| v@),
            vv == variants(cs0),
            cv == cls@.map_values(|c: Vec<char>| c@),
            cv == vv.map_values(|v: Seq<char>| cluster_of(vv, v)),
            cls@.len() == vs@.len(),
            ov == order@.map_values(|c: Vec<char>| c@),
            ov == dedup(cv),
            disp@.len() == order@.len(),
            forall|p: int| 0 <= p < disp@.len() ==> {
                let d = #[trigger] disp@[p] as int;
                &&& 0 <= d < vs@.len()
                &&& cv[d] == order@[p]@
                &&& forall|i2: int| 0 <= i2 < vs@.len() && #[trigger] cv[i2] == order@[p]@ ==> variant_score(vv[i2], group_count(cs0, vv[i2]))
                    <= variant_score(vv[d], group_count(cs0, vv[d]))
                &&& forall|i2: int| 0 <= i2 < d && #[trigger] cv[i2] == order@[p]@ ==> variant_score(vv[i2], group_count(cs0, vv[i2]))
                    < variant_score(vv[d], group_count(cs0, vv[d]))
            },
            forall|j2: int| j <= j2 < cs0.len() ==> #[trigger] contributors@[j2] == cs0[j2],
            forall|j2: int| 0 <= j2 < j ==> canonicalized(cs0, cs0[j2], #[trigger] contributors@[j2]),
        decreases cs0.len() - j,
    {
        let cur = match &contributors[j].group {
            Some(g) => {
                let gc = chars_of(g.as_str());
                proof {
                    assert(group_names(cs0).contains(gc@)) by {
                        lemma_names_member(cs0, j as int);
                    }
                    lemma_dedup_contains(group_names(cs0), gc@);
                }
                proof {
                    let q = choose|q: int| 0 <= q < vv.len() && vv[q] == gc@;
                    assert(vs@[q]@ == gc@);
                }
                let vi = index_of_present(&vs, &gc);
                proof {
                    assert(vv[vi as int] == gc@);
                    assert(cv[vi as int] == cls@[vi as int]@);
                    lemma_dedup_contains(cv, cv[vi as int]);
                    assert(cv.contains(cv[vi as int]));
                }
                proof {
                    let q = choose|q: int| 0 <= q < ov.len() && ov[q] == cv[vi as int];
                    assert(order@[q]@ == cls@[vi as int]@);
                }
                let p = index_of_present(&order, &cls[vi]);
                let d = disp[p];
                proof {
                    assert(vv[d as int] == vs@[d as int]@);
                    assert(ov[p as int] == order@[p as int]@);
                    assert(is_display(cs0, cluster_of(vv, gc@), vs@[d as int]@)) by {
                        assert(variants(cs0)[d as int] == vs@[d as int]@);
                        assert(cv[d as int] == cluster_of(vv, vv[d as int]));
                        assert(cv[vi as int] == cluster_of(vv, vv[vi as int]));
                        assert forall|i2: int| 0 <= i2 < vv.len() && cluster_of(vv, #[trigger] vv[i2]) == cluster_of(vv, gc@) implies
                            variant_score(vv[i2], group_count(cs0, vv[i2])) <= variant_score(vv[d as int], group_count(cs0, vv[d as int])) by {
                            assert(cv[i2] == cluster_of(vv, vv[i2]));
                        }
                        assert forall|i2: int| 0 <= i2 < d && cluster_of(vv, #[trigger] vv[i2]) == cluster_of(vv, gc@) implies
                            variant_score(vv[i2], group_count(cs0, vv[i2])) < variant_score(vv[d as int], group_count(cs0, vv[d as int])) by {
                            assert(cv[i2] == cluster_of(vv, vv[i2]));
                        }
                    }
                }
                Some(string_of(&vs[d]))
            },
            None => None,
        };
        contributors[j].group = cur;
        j += 1;
    }
    order.len()
}

/// The index of the first entry of `names` equal to `name`, which occurs.
fn index_of_present(names: &Vec<Vec<char>>, name: &Vec<char>) -> (r: usize)
    requires
        exists|q: int| 0 <= q < names@.len() && (#[trigger] names@[q])@ == name@,
    ensures
        r < names@.len(),
        names@[r as int]@ == name@,
{
    match position_of(names, name) {
        Some(k) => k,
        None => {
            proof {
                let q = choose|q: int| 0 <= q < names@.len() && (#[trigger] names@[q])@ == name@;
                assert(names@[q]@ != name@);
            }
            0
        },
    }
}

proof fn lemma_names_member(cs: Seq<Contributor>, j: int)
    requires
        0 <= j < cs.len(),
        cs[j].group is Some,
    ensures
        group_names(cs).contains(cs[j].group->0@),
    decreases cs.len(),
{
    let p = group_names(cs.drop_last());
    if j < cs.len() - 1 {
        lemma_names_member(cs.drop_last(), j);
        assert(cs.drop_last()[j] == cs[j]);
        let q = choose|q: int| 0 <= q < p.len() && p[q] == cs[j].group->0@;
        match cs.last().group {
            Some(x) => assert(p.push(x@)[q] == p[q]),
            None => {},
        }
    } else {
        assert(p.push(cs[j].group->0@)[p.len() as int] == cs[j].group->0@);
    }
}

// ---------------------------------------------------------------------------
// Sorting rows
// ---------------------------------------------------------------------------
/// Row ordering for [`sort`].
#[derive(Copy, Clone, PartialEq, Eq, Debug)]
pub enum Sort {
    /// Oldest first commit at the top.
    First,
    /// Most recent commit first.
    Last,
    /// Most commits first.
    Commits,
    /// Longest active period first.
    Duration,
    /// Alphabetical by name.
    Name,
}

proof fn lemma_display_unique(cs: Seq<Contributor>, k: Seq<char>, a: Seq<char>, b: Seq<char>)
    requires
        is_display(cs, k, a),
        is_display(cs, k, b),
    ensures
        a == b,
{
    let vs = variants(cs);
    let i1 = choose|i: int|
        0 <= i < vs.len() && #[trigger] vs[i] == a && cluster_of(vs, vs[i]) == k && (forall|i2: int|
            0 <= i2 < vs.len() && cluster_of(vs, #[trigger] vs[i2]) == k ==> variant_score(vs[i2], group_count(cs, vs[i2]))
                <= variant_score(a, group_count(cs, a))) && (forall|i2: int|
            0 <= i2 < i && cluster_of(vs, #[trigger] vs[i2]) == k ==> variant_score(vs[i2], group_count(cs, vs[i2]))
                < variant_score(a, group_count(cs, a)));
    let i2 = choose|i: int|
        0 <= i < vs.len() && #[trigger] vs[i] == b && cluster_of(vs, vs[i]) == k && (forall|i3: int|
            0 <= i3 < vs.len() && cluster_of(vs, #[trigger] vs[i3]) == k ==> variant_score(vs[i3], group_count(cs, vs[i3]))
                <= variant_score(b, group_count(cs, b))) && (forall|i3: int|
            0 <= i3 < i && cluster_of(vs, #[trigger] vs[i3]) == k ==> variant_score(vs[i3], group_count(cs, vs[i3]))
                < variant_score(b, group_count(cs, b)));
    assert(cluster_of(vs, vs[i1]) == k);
    assert(cluster_of(vs, vs[i2]) == k);
    if i1 < i2 {
        assert(variant_score(vs[i1], group_count(cs, vs[i1])) < variant_score(b, group_count(cs, b)));
        assert(variant_score(vs[i2], group_count(cs, vs[i2])) <= variant_score(a, group_count(cs, a)));
    } else if i2 < i1 {
        assert(variant_score(vs[i2], group_count(cs, vs[i2])) < variant_score(a, group_count(cs, a)));
        assert(variant_score(vs[i1], group_count(cs, vs[i1])) <= variant_score(b, group_count(cs, b)));
    }
}

/// Spellings of one organisation end up as one group: two contributors whose
/// group names have the same key (lowercased, alphanumeric, without a
/// leading "the") show the same group name once the names are canonicalised.
pub proof fn law_same_key_same_group(cs: Seq<Contributor>, after: Seq<Contributor>, j1: int, j2: int)
    requires
        after.len() == cs.len(),
        forall|j: int| 0 <= j < cs.len() ==> canonicalized(cs, cs[j], #[trigger] after[j]),
        0 <= j1 < cs.len(),
        0 <= j2 < cs.len(),
        cs[j1].group is Some,
        cs[j2].group is Some,
        group_key(cs[j1].group->0@) == group_key(cs[j2].group->0@),
    ensures
        after[j1].group is Some,
        after[j2].group is Some,
        after[j1].group->0@ == after[j2].group->0@,
{
    assert(canonicalized(cs, cs[j1], after[j1]));
    assert(canonicalized(cs, cs[j2], after[j2]));
    let vs = variants(cs);
    let k = cluster_of(vs, cs[j1].group->0@);
    assert(cluster_of(vs, cs[j2].group->0@) == k);
    lemma_display_unique(cs, k, after[j1].group->0@, after[j2].group->0@);
}

/// Row `a` comes strictly before row `b` in the order `key`: by first
/// commit (then more commits), by last commit (latest first, then more
/// commits), by commits, by active span (longest first), or by lowercased
/// name.
pub open spec fn before(key: Sort, a: Contributor, b: Contributor) -> bool {
    match key {
        Sort::First => a.first < b.first || (a.first == b.first && a.commits > b.commits),
        Sort::Last => a.last > b.last || (a.last == b.last && a.commits > b.commits),
        Sort::Commits => a.commits > b.commits,
        Sort::Duration => a.last - a.first > b.last - b.first,
        Sort::Name => seq_lt(unicode_lowercase(a.name@), unicode_lowercase(b.name@)),
    }
}

/// `p` is a permutation of `0..n`.
pub open spec fn is_perm(p: Seq<int>, n: int) -> bool {
    &&& p.len() == n
    &&& forall|k: int| 0 <= k < n ==> 0 <= #[trigger] p[k] < n
    &&& forall|a: int, b: int| 0 <= a < b < n ==> #[trigger] p[a] != #[trigger] p[b]
}

/// `new` is `old` stably sorted by `key`: a rearrangement of it, in order,
/// with rows that tie keeping their relative order.
pub open spec fn stably_sorted(key: Sort, old: Seq<Contributor>, new: Seq<Contributor>) -> bool {
    exists|p: Seq<int>|
        #[trigger] is_perm(p, old.len() as int) && new.len() == old.len() && (forall|k: int|
            0 <= k < new.len() ==> #[trigger] new[k] == old[p[k]]) && (forall|a: int, b: int|
            0 <= a < b < new.len() ==> !before(key, #[trigger] new[b], #[trigger] new[a])) && (forall|a: int, b: int|
            0 <= a < b < new.len() && !before(key, #[trigger] new[a], #[trigger] new[b]) ==> p[a] < p[b])
}

/// The rows can be compared by `key` without overflow.
pub open spec fn sortable(key: Sort, rows: Seq<Contributor>) -> bool {
    key == Sort::Duration ==> forall|k: int| 0 <= k < rows.len() ==> i64::MIN <= (#[trigger] rows[k]).last - rows[k].first <= i64::MAX
}

proof fn lemma_before(key: Sort, a: Contributor, b: Contributor, c: Contributor)
    ensures
        !before(key, a, a),
        before(key, a, b) ==> !before(key, b, a),
        before(key, a, c) ==> before(key, a, b) || before(key, b, c),
{
    if key == Sort::Name {
        let (x, y, z) = (unicode_lowercase(a.name@), unicode_lowercase(b.name@), unicode_lowercase(c.name@));
        crate::text::lemma_seq_lt_irrefl(x);
        crate::text::lemma_seq_lt_total(x, y);
        crate::text::lemma_seq_lt_total(y, z);
        crate::text::lemma_seq_lt_total(x, z);
        if seq_lt(x, z) && !seq_lt(x, y) && !seq_lt(y, z) {
            if x != y {
                assert(seq_lt(y, x));
                if y != z {
                    assert(seq_lt(z, y));
                    crate::text::lemma_seq_lt_trans(z, y, x);
                } else {
                    assert(seq_lt(z, x));
                }
            } else {
                assert(y == x);
                if y != z {
                    assert(seq_lt(z, y));
                }
            }
        }
    }
}

/// Whether row `a` comes strictly before row `b`.
fn before_exec(key: Sort, a: &Contributor, b: &Contributor) -> (r: bool)
    requires
        key == Sort::Duration ==> i64::MIN <= a.last - a.first <= i64::MAX && i64::MIN <= b.last - b.first <= i64::MAX,
    ensures
        r == before(key, *a, *b),
{
    match key {
        Sort::First => a.first < b.first || (a.first == b.first && a.commits > b.commits),
        Sort::Last => a.last > b.last || (a.last == b.last && a.commits > b.commits),
        Sort::Commits => a.commits > b.commits,
        Sort::Duration => a.last - a.first > b.last - b.first,
        Sort::Name => {
            let x = chars_of(to_lowercase(a.name.as_str()).as_str());
            let y = chars_of(to_lowercase(b.name.as_str()).as_str());
            crate::text::seq_lt_exec(&x, &y)
        },
    }
}

/// Exchange rows `j - 1` and `j`.
fn swap_down(rows: &mut [Contributor], j: usize)
    requires
        0 < j < old(rows)@.len(),
    ensures
        final(rows)@ == old(rows)@.update(j - 1, old(rows)@[j as int]).update(j as int, old(rows)@[j - 1]),
{
    let (left, right) = rows.split_at_mut(j);
    core::mem::swap(&mut left[j - 1], &mut right[0]);
}


/// A stably sorted list is in the order its key promises, read off the
/// rows' fields: earliest first commit first, latest last commit first (more
/// commits first on ties, for both), most commits first, longest active
/// period first, or names in order ignoring case.
pub proof fn law_sort_order(key: Sort, old: Seq<Contributor>, new: Seq<Contributor>)
    requires
        stably_sorted(key, old, new),
    ensures
        key == Sort::First ==> forall|a: int, b: int|
            0 <= a < b < new.len() ==> (#[trigger] new[a]).first < (#[trigger] new[b]).first || (new[a].first == new[b].first
                && new[a].commits >= new[b].commits),
        key == Sort::Last ==> forall|a: int, b: int|
            0 <= a < b < new.len() ==> (#[trigger] new[a]).last > (#[trigger] new[b]).last || (new[a].last == new[b].last
                && new[a].commits >= new[b].commits),
        key == Sort::Commits ==> forall|a: int, b: int|
            0 <= a < b < new.len() ==> (#[trigger] new[a]).commits >= (#[trigger] new[b]).commits,
        key == Sort::Duration ==> forall|a: int, b: int|
            0 <= a < b < new.len() ==> (#[trigger] new[a]).last - new[a].first >= (#[trigger] new[b]).last - new[b].first,
        key == Sort::Name ==> forall|a: int, b: int|
            0 <= a < b < new.len() ==> !seq_lt(unicode_lowercase((#[trigger] new[b]).name@), unicode_lowercase((#[trigger] new[a]).name@)),
        new.len() == old.len(),
{
    assert forall|a: int, b: int| 0 <= a < b < new.len() implies !before(key, #[trigger] new[b], #[trigger] new[a]) by {
    }
}

/// Sort contributor rows in place: a stable sort by `key`.
pub fn sort(rows: &mut [Contributor], key: Sort)
    requires
        sortable(key, old(rows)@),
    ensures
        stably_sorted(key, old(rows)@, final(rows)@),
        key == Sort::Duration ==> forall|a: int, b: int|
            0 <= a < b < final(rows)@.len() ==> (#[trigger] final(rows)@[a]).last - final(rows)@[a].first >= (
            #[trigger] final(rows)@[b]).last - final(rows)@[b].first,
        key == Sort::Commits ==> forall|a: int, b: int|
            0 <= a < b < final(rows)@.len() ==> (#[trigger] final(rows)@[a]).commits >= (#[trigger] final(rows)@[b]).commits,
{
    let ghost old_rows = rows@;
    let n = rows.len();
    let ghost mut p: Seq<int> = Seq::new(n as nat, |k: int| k);
    if n == 0 {
        proof {
            assert(is_perm(p, 0));
            law_sort_order(key, old_rows, rows@);
        }
        return;
    }
    let mut i: usize = 1;
    while i < n
        invariant
            1 <= i <= n,
            rows@.len() == n == old_rows.len(),
            sortable(key, old_rows),
            is_perm(p, n as int),
            forall|k: int| 0 <= k < n ==> #[trigger] rows@[k] == old_rows[p[k]],
            forall|k: int| i <= k < n ==> #[trigger] p[k] == k,
            forall|k: int| 0 <= k < i ==> #[trigger] p[k] < i,
            forall|a: int, b: int| 0 <= a < b < i ==> !before(key, #[trigger] rows@[b], #[trigger] rows@[a]),
            forall|a: int, b: int| 0 <= a < b < i && !before(key, #[trigger] rows@[a], #[trigger] rows@[b]) ==> p[a] < p[b],
        decreases n - i,
    {
        let ghost x = rows@[i as int];
        let mut j: usize = i;
        proof {
            assert(p[i as int] == i);
        }
        while j > 0 && before_exec(key, &rows[j], &rows[j - 1])
            invariant
                j <= i < n,
                rows@.len() == n == old_rows.len(),
                sortable(key, old_rows),
                is_perm(p, n as int),
                forall|k: int| 0 <= k < n ==> #[trigger] rows@[k] == old_rows[p[k]],
                forall|k: int| i < k < n ==> #[trigger] p[k] == k,
                rows@[j as int] == x,
                p[j as int] == i,
                forall|k: int| 0 <= k <= i && k != j ==> #[trigger] p[k] < i,
                forall|a: int, b: int|
                    0 <= a < b <= i && a != j && b != j ==> !before(key, #[trigger] rows@[b], #[trigger] rows@[a]),
                forall|k: int| j < k <= i ==> before(key, x, #[trigger] rows@[k]),
                forall|a: int, b: int|
                    0 <= a < b <= i && a != j && b != j && !before(key, #[trigger] rows@[a], #[trigger] rows@[b]) ==> p[a] < p[b],
            decreases j,
        {
            proof {
                assert(rows@[j as int] == old_rows[p[j as int]]);
                assert(rows@[j - 1] == old_rows[p[j - 1]]);
            }
            let ghost r0 = rows@;
            let ghost p0 = p;
            swap_down(rows, j);
            proof {
                p = p0.update(j - 1, p0[j as int]).update(j as int, p0[j - 1]);
                assert forall|a: int, b: int| 0 <= a < b < n implies #[trigger] p[a] != #[trigger] p[b] by {
                    let pa = if a == j - 1 { j as int } else if a == j { j - 1 } else { a };
                    let pb = if b == j - 1 { j as int } else if b == j { j - 1 } else { b };
                    assert(p[a] == p0[pa] && p[b] == p0[pb]);
                    if pa < pb {
                        assert(p0[pa] != p0[pb]);
                    } else {
                        assert(p0[pb] != p0[pa]);
                    }
                }
                assert forall|k: int| 0 <= k < n implies 0 <= #[trigger] p[k] < n by {
                    if k == j - 1 {
                        assert(p[k] == p0[j as int]);
                    } else if k == j {
                        assert(p[k] == p0[j - 1]);
                    } else {
                        assert(p[k] == p0[k]);
                    }
                }
                assert forall|k: int| 0 <= k < n implies #[trigger] rows@[k] == old_rows[p[k]] by {
                    if k == j - 1 {
                        assert(rows@[k] == r0[j as int]);
                    } else if k == j {
                        assert(rows@[k] == r0[j - 1]);
                    } else {
                        assert(rows@[k] == r0[k] && p[k] == p0[k]);
                    }
                }
                let nj = (j - 1) as int;
                assert forall|a: int, b: int|
                    0 <= a < b <= i && a != nj && b != nj implies !before(key, #[trigger] rows@[b], #[trigger] rows@[a]) by {
                    let oa = if a == j { nj } else { a };
                    let ob = if b == j { nj } else { b };
                    assert(rows@[a] == r0[oa] && rows@[b] == r0[ob]);
                    if a == j as int {
                        assert(before(key, x, r0[ob]));
                        assert(r0[oa] == r0[j - 1]);
                        assert(!before(key, r0[ob], r0[j - 1])) by {
                            assert(j - 1 < ob);
                        }
                    }
                }
                assert forall|k: int| nj < k <= i implies before(key, x, #[trigger] rows@[k]) by {
                    if k == j {
                        assert(rows@[k] == r0[j - 1]);
                    } else {
                        assert(rows@[k] == r0[k]);
                    }
                }
                assert forall|a: int, b: int|
                    0 <= a < b <= i && a != nj && b != nj && !before(key, #[trigger] rows@[a], #[trigger] rows@[b]) implies p[a] < p[b] by {
                    let oa = if a == j { nj } else { a };
                    let ob = if b == j { nj } else { b };
                    assert(rows@[a] == r0[oa] && rows@[b] == r0[ob]);
                    assert(p[a] == p0[oa] && p[b] == p0[ob]);
                    if a == j as int {
                        assert(before(key, x, r0[ob]));
                    }
                }
                assert forall|k: int| 0 <= k <= i && k != nj implies #[trigger] p[k] < i by {
                    if k == j {
                        assert(p[k] == p0[j - 1]);
                    } else {
                        assert(p[k] == p0[k]);
                    }
                }
            }
            j -= 1;
        }
        proof {
            assert forall|a: int, b: int| 0 <= a < b < i + 1 implies !before(key, #[trigger] rows@[b], #[trigger] rows@[a]) by {
                if b == j {
                    if a < j - 1 {
                        lemma_before(key, x, rows@[j - 1], rows@[a]);
                    }
                } else if a == j {
                    lemma_before(key, x, rows@[b], rows@[b]);
                }
            }
            assert forall|a: int, b: int| 0 <= a < b < i + 1 && !before(key, #[trigger] rows@[a], #[trigger] rows@[b]) implies p[a] < p[b] by {
                if a == j {
                    assert(before(key, x, rows@[b]));
                }
            }
            assert forall|k: int| 0 <= k < i + 1 implies #[trigger] p[k] < i + 1 by {
                if k != j {
                    assert(p[k] < i);
                }
            }
        }
        i += 1;
    }
    proof {
        assert(is_perm(p, old_rows.len() as int));
        law_sort_order(key, old_rows, rows@);
    }
}

// ---------------------------------------------------------------------------
// Pooling the commits of several sources
// ---------------------------------------------------------------------------
/// `c` tagged as coming from source `i`.
pub open spec fn with_src(c: Commit, i: int) -> Commit {
    Commit { src: i as u32, ..c }
}

/// The commits of the sources `k..` of `sources`... in order, each tagged
/// with the index of its source.
pub open spec fn tagged(sources: Seq<Vec<Commit>>) -> Seq<Commit>
    decreases sources.len(),
{
    if sources.len() == 0 {
        Seq::empty()
    } else {
        tagged(sources.drop_last()) + tag_all(sources.last()@, sources.len() - 1)
    }
}

/// Every commit of `s` tagged with source `i`.
pub open spec fn tag_all(s: Seq<Commit>, i: int) -> Seq<Commit> {
    Seq::new(s.len(), |k: int| with_src(s[k], i))
}

/// The SHAs of some commits.
pub open spec fn shas(s: Seq<Commit>) -> Seq<Seq<char>> {
    s.map_values(|c: Commit| c.sha@)
}

/// The commits of `s` whose SHA was not seen earlier, in order.
pub open spec fn first_by_sha(s: Seq<Commit>) -> Seq<Commit>
    decreases s.len(),
{
    if s.len() == 0 {
        Seq::empty()
    } else {
        let p = first_by_sha(s.drop_last());
        if shas(p).contains(s.last().sha@) {
            p
        } else {
            p.push(s.last())
        }
    }
}

proof fn lemma_reverse_pop<T>(s: Seq<T>)
    requires
        s.len() > 0,
    ensures
        s.drop_last().reverse() == s.reverse().drop_first(),
{
    assert(s.drop_last().reverse() =~= s.reverse().drop_first());
}

pub(crate) proof fn lemma_tagged_prefix(sources: Seq<Vec<Commit>>, i: int)
    requires
        0 <= i <= sources.len(),
    ensures
        tagged(sources.take(i)).len() <= tagged(sources).len(),
    decreases sources.len() - i,
{
    if i < sources.len() {
        lemma_tagged_prefix(sources, i + 1);
        assert(sources.take(i + 1).drop_last() =~= sources.take(i));
    } else {
        assert(sources.take(i) =~= sources);
    }
}

pub(crate) proof fn lemma_first_by_sha_len(s: Seq<Commit>)
    ensures
        first_by_sha(s).len() <= s.len(),
    decreases s.len(),
{
    if s.len() > 0 {
        lemma_first_by_sha_len(s.drop_last());
    }
}

/// Pool the commits of several sources: tag each with its source index and
/// drop those whose SHA was already seen (overlapping histories). Returns
/// the pool and how many commits were dropped.
pub fn pool_commits(sources: Vec<Vec<Commit>>) -> (r: (Vec<Commit>, u64))
    requires
        tagged(sources@).len() <= u64::MAX,
    ensures
        r.0@ == first_by_sha(tagged(sources@)),
        r.1 == tagged(sources@).len() - r.0@.len(),
{
    let ghost all_sources = sources@;
    let n_sources = sources.len();
    let mut seen = crate::strmap::StrMap::new();
    let mut out: Vec<Commit> = Vec::new();
    let mut duplicates: u64 = 0;
    // sources are taken from the back, so reverse them first
    let mut rev: Vec<Vec<Commit>> = Vec::new();
    let mut sources = sources;
    while sources.len() > 0
        invariant
            sources@ + rev@.reverse() == all_sources,
        decreases sources@.len(),
    {
        let ghost s0 = sources@;
        let ghost r0 = rev@;
        let v = sources.pop().unwrap();
        rev.push(v);
        assert(sources@ + rev@.reverse() =~= s0.drop_last() + (seq![s0.last()] + r0.reverse()));
        assert(seq![s0.last()] + r0.reverse() =~= r0.push(s0.last()).reverse());
        assert(s0.drop_last() + seq![s0.last()] + r0.reverse() =~= s0 + r0.reverse());
    }
    assert(rev@.reverse() =~= all_sources);
    let mut i: usize = 0;
    while rev.len() > 0
        invariant
            i + rev@.len() == all_sources.len(),
            all_sources.len() == n_sources,
            tagged(all_sources).len() <= u64::MAX,
            rev@.reverse() == all_sources.skip(i as int),
            seen.wf(),
            forall|x: Seq<char>| #[trigger] seen@.contains_key(x) <==> shas(out@).contains(x),
            out@ == first_by_sha(tagged(all_sources.take(i as int))),
            duplicates + out@.len() == tagged(all_sources.take(i as int)).len(),
        decreases rev@.len(),
    {
        let ghost rv0 = rev@;
        let src = rev.pop().unwrap();
        proof {
            assert(src == all_sources[i as int]) by {
                assert(rv0.reverse()[0] == rv0.last());
                assert(all_sources.skip(i as int)[0] == all_sources[i as int]);
            }
            lemma_reverse_pop(rv0);
            assert(all_sources.skip(i + 1) =~= all_sources.skip(i as int).drop_first());
            assert(all_sources.take(i + 1).drop_last() =~= all_sources.take(i as int));
        }
        let ghost base = tagged(all_sources.take(i as int));
        proof {
            lemma_tagged_prefix(all_sources, i + 1);
        }
        let ghost tags = tag_all(src@, i as int);
        proof {
            assert(tagged(all_sources.take(i + 1)) == base + tags);
        }
        // the commits of this source, from the back
        let mut cs: Vec<Commit> = Vec::new();
        let mut src = src;
        let ghost src0 = src@;
        while src.len() > 0
            invariant
                src@ + cs@.reverse() == src0,
            decreases src@.len(),
        {
            let ghost a0 = src@;
            let ghost c0 = cs@;
            let c = src.pop().unwrap();
            cs.push(c);
            assert(src@ + cs@.reverse() =~= a0.drop_last() + (seq![a0.last()] + c0.reverse()));
            assert(seq![a0.last()] + c0.reverse() =~= c0.push(a0.last()).reverse());
            assert(a0.drop_last() + seq![a0.last()] + c0.reverse() =~= a0 + c0.reverse());
        }
        assert(cs@.reverse() =~= src0);
        let n_commits = cs.len();
        let mut k: usize = 0;
        while cs.len() > 0
            invariant
                k + cs@.len() == src0.len(),
                src0.len() == n_commits,
                cs@.reverse() == src0.skip(k as int),
                tags == tag_all(src0, i as int),
                seen.wf(),
                forall|x: Seq<char>| #[trigger] seen@.contains_key(x) <==> shas(out@).contains(x),
                out@ == first_by_sha(base + tags.take(k as int)),
                duplicates + out@.len() == (base + tags.take(k as int)).len(),
                (base + tags).len() <= u64::MAX,
            decreases cs@.len(),
        {
            let ghost cv0 = cs@;
            let mut c = cs.pop().unwrap();
            proof {
                assert(c == src0[k as int]) by {
                    assert(cv0.reverse()[0] == cv0.last());
                    assert(src0.skip(k as int)[0] == src0[k as int]);
                }
                lemma_reverse_pop(cv0);
                assert(src0.skip(k + 1) =~= src0.skip(k as int).drop_first());
            }
            c.src = i as u32;
            let ghost tagged_c = c;
            proof {
                assert(tagged_c == tags[k as int]);
                assert((base + tags.take(k + 1)).drop_last() =~= base + tags.take(k as int));
                assert((base + tags.take(k + 1)).last() == tagged_c);
            }
            let key = chars_of(c.sha.as_str());
            match seen.get(&key) {
                Some(_) => {
                    proof {
                        assert(shas(out@).contains(c.sha@));
                        lemma_first_by_sha_len(base + tags.take(k as int));
                    }
                    duplicates = duplicates + 1;
                },
                None => {
                    let ghost o0 = out@;
                    let pos = out.len();
                    seen.insert_new(key, pos);
                    out.push(c);
                    proof {
                        assert(shas(out@) =~= shas(o0).push(tagged_c.sha@));
                        assert forall|x: Seq<char>| #[trigger] seen@.contains_key(x) <==> shas(out@).contains(x) by {
                            if shas(out@).contains(x) && x != tagged_c.sha@ {
                                let q = choose|q: int| 0 <= q < shas(out@).len() && shas(out@)[q] == x;
                                assert(shas(o0)[q] == x);
                            }
                            if shas(o0).contains(x) {
                                let q = choose|q: int| 0 <= q < shas(o0).len() && shas(o0)[q] == x;
                                assert(shas(out@)[q] == x);
                            }
                            if x == tagged_c.sha@ {
                                assert(shas(out@)[o0.len() as int] == x);
                            }
                        }
                    }
                },
            }
            k += 1;
        }
        proof {
            assert(tags.take(k as int) =~= tags);
        }
        i += 1;
    }
    assert(all_sources.take(i as int) =~= all_sources);
    (out, duplicates)
}

proof fn lemma_first_by_sha(s: Seq<Commit>)
    ensures
        forall|a: int, b: int| 0 <= a < b < first_by_sha(s).len() ==> #[trigger] shas(first_by_sha(s))[a] != #[trigger] shas(first_by_sha(s))[b],
        forall|x: Seq<char>| #[trigger] shas(first_by_sha(s)).contains(x) <==> shas(s).contains(x),
        (forall|a: int, b: int| 0 <= a < b < s.len() ==> #[trigger] shas(s)[a] != #[trigger] shas(s)[b]) ==> first_by_sha(s) == s,
    decreases s.len(),
{
    if s.len() > 0 {
        let d = s.drop_last();
        lemma_first_by_sha(d);
        let p = first_by_sha(d);
        let x = s.last().sha@;
        assert(shas(s) =~= shas(d).push(x));
        assert forall|y: Seq<char>| shas(d).contains(y) implies shas(s).contains(y) by {
            if shas(d).contains(y) {
                let q = choose|q: int| 0 <= q < shas(d).len() && shas(d)[q] == y;
                assert(shas(s)[q] == y);
            }
        }
        assert(shas(s).contains(x)) by {
            assert(shas(s)[s.len() - 1] == x);
        }
        if !shas(p).contains(x) {
            assert(shas(p.push(s.last())) =~= shas(p).push(x));
            assert forall|y: Seq<char>| #[trigger] shas(first_by_sha(s)).contains(y) <==> shas(s).contains(y) by {
                if shas(s).contains(y) && y != x {
                    let q = choose|q: int| 0 <= q < shas(s).len() && shas(s)[q] == y;
                    assert(shas(d)[q] == y);
                    assert(shas(p).contains(y));
                    let q2 = choose|q2: int| 0 <= q2 < shas(p).len() && shas(p)[q2] == y;
                    assert(shas(first_by_sha(s))[q2] == y);
                }
                if shas(first_by_sha(s)).contains(y) && y != x {
                    let q = choose|q: int| 0 <= q < shas(first_by_sha(s)).len() && shas(first_by_sha(s))[q] == y;
                    assert(shas(p)[q] == y);
                    assert(shas(p).contains(y));
                    assert(shas(d).contains(y));
                    let q3 = choose|q3: int| 0 <= q3 < shas(d).len() && shas(d)[q3] == y;
                    assert(shas(s)[q3] == y);
                }
                if y == x {
                    assert(shas(first_by_sha(s))[p.len() as int] == x);
                }
            }
            assert forall|a: int, b: int| 0 <= a < b < first_by_sha(s).len() implies #[trigger] shas(first_by_sha(s))[a] != #[trigger] shas(first_by_sha(s))[b] by {
                if b == p.len() {
                    assert(shas(p)[a] == shas(first_by_sha(s))[a]);
                    assert(shas(p).contains(shas(p)[a]));
                } else {
                    assert(shas(p)[a] == shas(first_by_sha(s))[a] && shas(p)[b] == shas(first_by_sha(s))[b]);
                }
            }
        } else {
            assert(first_by_sha(s) == p);
            assert forall|y: Seq<char>| #[trigger] shas(first_by_sha(s)).contains(y) <==> shas(s).contains(y) by {
                if shas(s).contains(y) && y != x {
                    let q = choose|q: int| 0 <= q < shas(s).len() && shas(s)[q] == y;
                    assert(shas(d)[q] == y);
                    assert(shas(d).contains(y));
                }
                if shas(p).contains(y) {
                    assert(shas(d).contains(y));
                    let q = choose|q: int| 0 <= q < shas(d).len() && shas(d)[q] == y;
                    assert(shas(s)[q] == y);
                }
            }
        }
        if forall|a: int, b: int| 0 <= a < b < s.len() ==> #[trigger] shas(s)[a] != #[trigger] shas(s)[b] {
            assert forall|a: int, b: int| 0 <= a < b < d.len() implies #[trigger] shas(d)[a] != #[trigger] shas(d)[b] by {
                assert(shas(d)[a] == shas(s)[a] && shas(d)[b] == shas(s)[b]);
            }
            assert(p == d);
            assert(!shas(p).contains(x)) by {
                if shas(p).contains(x) {
                    let q = choose|q: int| 0 <= q < shas(p).len() && shas(p)[q] == x;
                    assert(shas(s)[q] == shas(s)[s.len() - 1]);
                }
            }
            assert(d.push(s.last()) =~= s);
        }
    }
}

/// Pooling never keeps two commits with the same SHA.
pub proof fn law_pool_distinct(sources: Seq<Vec<Commit>>)
    ensures
        forall|a: int, b: int|
            0 <= a < b < first_by_sha(tagged(sources)).len() ==> #[trigger] first_by_sha(tagged(sources))[a].sha@
                != #[trigger] first_by_sha(tagged(sources))[b].sha@,
{
    let s = tagged(sources);
    lemma_first_by_sha(s);
    assert forall|a: int, b: int| 0 <= a < b < first_by_sha(s).len() implies #[trigger] first_by_sha(s)[a].sha@
        != #[trigger] first_by_sha(s)[b].sha@ by {
        assert(shas(first_by_sha(s))[a] == first_by_sha(s)[a].sha@);
        assert(shas(first_by_sha(s))[b] == first_by_sha(s)[b].sha@);
    }
}

/// Pooling loses no commit: every SHA of every source is in the pool, and
/// the pool holds no other.
pub proof fn law_pool_complete(sources: Seq<Vec<Commit>>)
    ensures
        forall|x: Seq<char>| #[trigger] shas(first_by_sha(tagged(sources))).contains(x) <==> shas(tagged(sources)).contains(x),
{
    lemma_first_by_sha(tagged(sources));
}

/// Sources whose commits all have distinct SHAs (disjoint histories) are
/// simply concatenated, each commit tagged with its source.
pub proof fn law_pool_disjoint(sources: Seq<Vec<Commit>>)
    requires
        forall|a: int, b: int| 0 <= a < b < tagged(sources).len() ==> #[trigger] tagged(sources)[a].sha@ != #[trigger] tagged(sources)[b].sha@,
    ensures
        first_by_sha(tagged(sources)) == tagged(sources),
{
    let s = tagged(sources);
    assert forall|a: int, b: int| 0 <= a < b < s.len() implies #[trigger] shas(s)[a] != #[trigger] shas(s)[b] by {
        assert(shas(s)[a] == s[a].sha@ && shas(s)[b] == s[b].sha@);
    }
    lemma_first_by_sha(s);
}

// ---------------------------------------------------------------------------
// Configuration and results
// ---------------------------------------------------------------------------
/// How to read history and resolve identities. Construct with
/// `Config::default()` and override fields as needed.
#[derive(Clone)]
pub struct Config {
    /// Branch or ref to read (default: `HEAD`).
    pub branch: Option<String>,
    /// Only include commits after this date (passed to `git log --since`).
    pub since: Option<String>,
    /// Only include commits before this date (`git log --until`).
    pub until: Option<String>,
    /// Skip merge commits.
    pub no_merges: bool,
    /// Override the chart/repository title.
    pub title: Option<String>,
    /// Exclude contributors whose name or login contains any of these strings.
    pub exclude: Vec<String>,
    /// Manual `matcher → group` mappings (matcher = name, email, or login).
    pub groups: Vec<(String, String)>,
    /// Manual identity merges: each row is `[canonical, alias, …]`.
    pub identities: Vec<Vec<String>>,
    /// Query the GitHub API for logins, avatars, and profiles.
    pub use_github: bool,
    /// Auto-detect affiliations from GitHub profile companies.
    pub detect_affiliation: bool,
    /// Merge identities that share a normalised author name.
    pub merge_names: bool,
    /// Credit `Co-authored-by` trailers as commits of each co-author.
    pub co_authors: bool,
    /// Download avatars and embed them as data URIs.
    pub embed_avatars: bool,
    /// Avatar pixel size to request when embedding.
    pub avatar_size: u32,
    /// Print progress to stderr.
    pub verbose: bool,
}

impl Default for Config {
    fn default() -> (c: Self)
        ensures
            c.branch is None && c.since is None && c.until is None && c.title is None,
            !c.no_merges,
            c.exclude@.len() == 0 && c.groups@.len() == 0 && c.identities@.len() == 0,
            c.use_github && c.detect_affiliation && c.merge_names && c.co_authors && c.embed_avatars,
            c.avatar_size == 64,
            !c.verbose,
    {
        Config {
            branch: None,
            since: None,
            until: None,
            no_merges: false,
            title: None,
            exclude: Vec::new(),
            groups: Vec::new(),
            identities: Vec::new(),
            use_github: true,
            detect_affiliation: true,
            merge_names: true,
            co_authors: true,
            embed_avatars: true,
            avatar_size: 64,
            verbose: false,
        }
    }
}

/// The result of an analysis: every contributor (bots included — filter on
/// `Contributor::bot` if you don't want them) and repository metadata.
pub struct Analysis {
    pub contributors: Vec<Contributor>,
    pub meta: RepoMeta,
}

// ---------------------------------------------------------------------------
// Excluding contributors
// ---------------------------------------------------------------------------
/// Contributor `c` is excluded by pattern `pat`: its name or its login,
/// lowercased, contains the lowercased pattern.
pub open spec fn excluded_by(c: Contributor, pat: Seq<char>) -> bool {
    let p = unicode_lowercase(pat);
    has_sub(unicode_lowercase(c.name@), p) || (c.login is Some && has_sub(unicode_lowercase(c.login->0@), p))
}

/// Contributor `c` is excluded by one of the patterns.
pub open spec fn excluded(c: Contributor, pats: Seq<String>) -> bool {
    exists|k: int| 0 <= k < pats.len() && excluded_by(c, (#[trigger] pats[k])@)
}

/// The contributors that no pattern excludes, in order.
pub open spec fn kept_rows(cs: Seq<Contributor>, pats: Seq<String>) -> Seq<Contributor>
    decreases cs.len(),
{
    if cs.len() == 0 {
        Seq::empty()
    } else {
        let p = kept_rows(cs.drop_last(), pats);
        if excluded(cs.last(), pats) {
            p
        } else {
            p.push(cs.last())
        }
    }
}

/// Whether one of the patterns `pats` occurs in the name or the login,
/// all given lowercased.
pub open spec fn excluded_lowered(name: Seq<char>, login: Option<Seq<char>>, pats: Seq<Seq<char>>) -> bool {
    exists|k: int| 0 <= k < pats.len() && (has_sub(name, #[trigger] pats[k]) || (login is Some && has_sub(login->0, pats[k])))
}

/// Whether one of the patterns occurs in the name or the login of a
/// contributor, all given already lowercased.
pub fn is_excluded_lowered(name: &str, login: &Option<String>, pats: &Vec<String>) -> (r: bool)
    ensures
        r == excluded_lowered(name@, opt_view(*login), views(pats@)),
{
    let ghost pv = views(pats@);
    let n = chars_of(name);
    let l = match login {
        Some(l) => Some(chars_of(l.as_str())),
        None => None,
    };
    let mut k: usize = 0;
    while k < pats.len()
        invariant
            k <= pats@.len(),
            pv == views(pats@),
            n@ == name@,
            l is Some <==> login is Some,
            l is Some ==> l->0@ == login->0@,
            forall|k2: int|
                0 <= k2 < k ==> !(has_sub(name@, #[trigger] pv[k2]) || (login is Some && has_sub(login->0@, pv[k2]))),
        decreases pats@.len() - k,
    {
        let p = chars_of(pats[k].as_str());
        let hit = contains_seq(&n, &p) || match &l {
            Some(l) => contains_seq(l, &p),
            None => false,
        };
        if hit {
            assert(pv[k as int] == p@);
            return true;
        }
        k += 1;
    }
    false
}

/// Whether one of the patterns excludes the contributor.
fn is_excluded(c: &Contributor, pats: &Vec<String>) -> (r: bool)
    ensures
        r == excluded(*c, pats@),
{
    let name = to_lowercase(c.name.as_str());
    let login = match &c.login {
        Some(l) => Some(to_lowercase(l.as_str())),
        None => None,
    };
    let lp = lower_all(pats);
    let r = is_excluded_lowered(name.as_str(), &login, &lp);
    proof {
        let lv = lowered(views(pats@));
        if r {
            let k = choose|k: int| 0 <= k < lv.len() && (has_sub(name@, #[trigger] lv[k]) || (opt_view(login) is Some && has_sub(opt_view(login)->0, lv[k])));
            assert(excluded_by(*c, pats@[k]@));
        } else {
            assert forall|k: int| 0 <= k < pats@.len() implies !excluded_by(*c, (#[trigger] pats@[k])@) by {
                assert(lv[k] == unicode_lowercase(pats@[k]@));
            }
        }
    }
    r
}

/// Drop explicitly excluded contributors: those whose name or login
/// contains one of the patterns, ignoring case.
pub fn exclude_contributors(rows: Vec<Contributor>, patterns: &Vec<String>) -> (r: Vec<Contributor>)
    ensures
        r@ == kept_rows(rows@, patterns@),
{
    let ghost all = rows@;
    let n = rows.len();
    let mut rev: Vec<Contributor> = Vec::new();
    let mut rows = rows;
    while rows.len() > 0
        invariant
            rows@ + rev@.reverse() == all,
        decreases rows@.len(),
    {
        let ghost a0 = rows@;
        let ghost r0 = rev@;
        let c = rows.pop().unwrap();
        rev.push(c);
        assert(rows@ + rev@.reverse() =~= a0.drop_last() + (seq![a0.last()] + r0.reverse()));
        assert(seq![a0.last()] + r0.reverse() =~= r0.push(a0.last()).reverse());
        assert(a0.drop_last() + seq![a0.last()] + r0.reverse() =~= a0 + r0.reverse());
    }
    assert(rev@.reverse() =~= all);
    let mut out: Vec<Contributor> = Vec::new();
    let mut i: usize = 0;
    while rev.len() > 0
        invariant
            i + rev@.len() == all.len(),
            all.len() == n,
            rev@.reverse() == all.skip(i as int),
            out@ == kept_rows(all.take(i as int), patterns@),
        decreases rev@.len(),
    {
        let ghost rv0 = rev@;
        let c = rev.pop().unwrap();
        proof {
            assert(c == all[i as int]) by {
                assert(rv0.reverse()[0] == rv0.last());
                assert(all.skip(i as int)[0] == all[i as int]);
            }
            lemma_reverse_pop(rv0);
            assert(all.skip(i + 1) =~= all.skip(i as int).drop_first());
            assert(all.take(i + 1).drop_last() =~= all.take(i as int));
        }
        if !is_excluded(&c, patterns) {
            out.push(c);
        }
        i += 1;
    }
    assert(all.take(i as int) =~= all);
    out
}

// ---------------------------------------------------------------------------
// Titles and counts
// ---------------------------------------------------------------------------
/// `names` joined with ` + `.
pub open spec fn joined(names: Seq<Seq<char>>) -> Seq<char>
    decreases names.len(),
{
    if names.len() == 0 {
        Seq::empty()
    } else if names.len() == 1 {
        names[0]
    } else {
        joined(names.drop_last()) + " + "@ + names.last()
    }
}

/// The chart title for several sources: up to three names joined with
/// ` + `; more summarised as the first two and `+N more`.
pub open spec fn combined_title(names: Seq<Seq<char>>) -> Seq<char> {
    if names.len() == 0 {
        "repositories"@
    } else if names.len() <= 3 {
        joined(names)
    } else {
        joined(names.take(2)) + " + "@ + decimal((names.len() - 2) as nat) + " more"@
    }
}

/// The display names of prepared sources.
pub open spec fn display_names(prepared: Seq<PreparedRepo>) -> Seq<Seq<char>> {
    prepared.map_values(|p: PreparedRepo| p.display_name@)
}

/// `names[..n]` joined with ` + `.
fn join_first(prepared: &[PreparedRepo], n: usize) -> (r: String)
    requires
        n <= prepared@.len(),
    ensures
        r@ == joined(display_names(prepared@).take(n as int)),
{
    let ghost names = display_names(prepared@);
    let mut out = String::new();
    let mut k: usize = 0;
    proof {
        assert(names.take(0) =~= Seq::<Seq<char>>::empty());
    }
    while k < n
        invariant
            k <= n <= prepared@.len(),
            names == display_names(prepared@),
            out@ == joined(names.take(k as int)),
        decreases n - k,
    {
        if k > 0 {
            push_str(&mut out, " + ");
        }
        push_str(&mut out, prepared[k].display_name.as_str());
        proof {
            assert(names.take(k + 1).drop_last() =~= names.take(k as int));
            assert(names[k as int] == prepared@[k as int].display_name@);
            if k == 0 {
                assert(names.take(1)[0] == names[0]);
            }
        }
        k += 1;
    }
    out
}

/// Build a chart title for a multi-source run: join up to three source
/// names with " + ", and summarise the rest as "+N more".
pub fn combined_name(prepared: &[PreparedRepo]) -> (r: String)
    ensures
        r@ == combined_title(display_names(prepared@)),
{
    let n = prepared.len();
    if n == 0 {
        return "repositories".to_string();
    }
    if n <= 3 {
        let r = join_first(prepared, n);
        assert(display_names(prepared@).take(n as int) =~= display_names(prepared@));
        return r;
    }
    let mut out = join_first(prepared, 2);
    push_str(&mut out, " + ");
    push_str(&mut out, u64_to_string((n - 2) as u64).as_str());
    push_str(&mut out, " more");
    out
}

/// The owner of a source on GitHub: its slug up to the `/`.
pub open spec fn slug_owner(p: PreparedRepo) -> Option<Seq<char>> {
    match p.slug {
        Some(s) => Some(cut_at(s@, "/"@)),
        None => None,
    }
}

/// The owner the sources share: when every source is on GitHub under the
/// same owner (one repository or several of one owner).
pub open spec fn common_owner(prepared: Seq<PreparedRepo>) -> Option<Seq<char>> {
    if prepared.len() > 0 && slug_owner(prepared[0]) is Some && forall|k: int|
        0 <= k < prepared.len() ==> slug_owner(#[trigger] prepared[k]) == slug_owner(prepared[0]) {
        slug_owner(prepared[0])
    } else {
        None
    }
}

/// The owner of a source on GitHub.
fn slug_owner_exec(p: &PreparedRepo) -> (r: Option<String>)
    ensures
        opt_view(r) == slug_owner(*p),
{
    match &p.slug {
        Some(s) => Some(string_of(&cut_at_exec(&chars_of(s.as_str()), &chars_of("/")))),
        None => None,
    }
}

/// The GitHub owner that all the sources share, if they share one.
pub fn common_owner_of(prepared: &[PreparedRepo]) -> (r: Option<String>)
    ensures
        opt_view(r) == common_owner(prepared@),
{
    if prepared.len() == 0 {
        return None;
    }
    let first = slug_owner_exec(&prepared[0]);
    let o = match first {
        Some(o) => o,
        None => return None,
    };
    let mut k: usize = 1;
    while k < prepared.len()
        invariant
            1 <= k <= prepared@.len(),
            slug_owner(prepared@[0]) == Some(o@),
            forall|j: int| 0 <= j < k ==> slug_owner(#[trigger] prepared@[j]) == Some(o@),
        decreases prepared@.len() - k,
    {
        let same = match slug_owner_exec(&prepared[k]) {
            Some(x) => str_eq(x.as_str(), o.as_str()),
            None => false,
        };
        if !same {
            assert(slug_owner(prepared@[k as int]) != slug_owner(prepared@[0]));
            return None;
        }
        k += 1;
    }
    Some(o)
}

/// The distinct author emails of some commits, in order of first use.
pub open spec fn emails(commits: Seq<Commit>) -> Seq<Seq<char>> {
    commits.map_values(|c: Commit| c.email@)
}

/// The number of distinct author emails.
pub fn distinct_emails(commits: &[Commit]) -> (r: usize)
    ensures
        r == dedup(emails(commits@)).len(),
{
    let mut seen = crate::strmap::StrMap::new();
    let mut count: usize = 0;
    let ghost mut d: Seq<Seq<char>> = Seq::empty();
    let mut i: usize = 0;
    while i < commits.len()
        invariant
            i <= commits@.len(),
            seen.wf(),
            d == dedup(emails(commits@).take(i as int)),
            count == d.len(),
            count <= i,
            forall|x: Seq<char>| #[trigger] seen@.contains_key(x) <==> d.contains(x),
        decreases commits@.len() - i,
    {
        let e = chars_of(commits[i].email.as_str());
        proof {
            assert(emails(commits@).take(i + 1).drop_last() =~= emails(commits@).take(i as int));
            assert(emails(commits@).take(i + 1).last() == e@);
        }
        match seen.get(&e) {
            Some(_) => {},
            None => {
                let ghost ev = e@;
                seen.insert_new(e, count);
                count += 1;
                proof {
                    let d0 = d;
                    d = d.push(ev);
                    assert forall|x: Seq<char>| #[trigger] seen@.contains_key(x) <==> d.contains(x) by {
                        if d.contains(x) && x != ev {
                            let q = choose|q: int| 0 <= q < d.len() && d[q] == x;
                            assert(d0[q] == x);
                        }
                        if d0.contains(x) {
                            let q = choose|q: int| 0 <= q < d0.len() && d0[q] == x;
                            assert(d[q] == x);
                        }
                        if x == ev {
                            assert(d[d0.len() as int] == x);
                        }
                    }
                }
            },
        }
        i += 1;
    }
    assert(emails(commits@).take(i as int) =~= emails(commits@));
    count
}

// ---------------------------------------------------------------------------
// Repository metadata
// ---------------------------------------------------------------------------
/// `t` is the earliest first commit of the rows, or 0 when there are none.
pub open spec fn earliest(rows: Seq<Contributor>, t: i64) -> bool {
    if rows.len() == 0 {
        t == 0
    } else {
        (exists|k: int| 0 <= k < rows.len() && (#[trigger] rows[k]).first == t) && forall|k: int|
            0 <= k < rows.len() ==> t <= (#[trigger] rows[k]).first
    }
}

/// `t` is the latest last commit of the rows, or 0 when there are none.
pub open spec fn latest(rows: Seq<Contributor>, t: i64) -> bool {
    if rows.len() == 0 {
        t == 0
    } else {
        (exists|k: int| 0 <= k < rows.len() && (#[trigger] rows[k]).last == t) && forall|k: int|
            0 <= k < rows.len() ==> (#[trigger] rows[k]).last <= t
    }
}

/// How many rows are people rather than bots.
pub open spec fn humans(rows: Seq<Contributor>) -> nat
    decreases rows.len(),
{
    if rows.len() == 0 {
        0
    } else {
        humans(rows.drop_last()) + (if rows.last().bot {
            0nat
        } else {
            1nat
        })
    }
}

/// The metadata of an analysis of the sources `prepared`: a single source
/// keeps its name, slug, URL and branch; several collapse to one name (their
/// GitHub owner when they all share one, else their names combined) with
/// no single URL, on branch `combined`. An explicit title wins.
pub open spec fn meta_of(
    title: Option<String>,
    prepared: Seq<PreparedRepo>,
    rows: Seq<Contributor>,
    total_commits: u64,
    generated: Seq<char>,
    owner_avatar: Option<String>,
    description: Option<String>,
    m: RepoMeta,
) -> bool {
    let single = prepared.len() == 1;
    &&& m.name@ == (match title {
        Some(t) => t@,
        None => if single {
            prepared[0].display_name@
        } else {
            match common_owner(prepared) {
                Some(o) => o,
                None => combined_title(display_names(prepared)),
            }
        },
    })
    &&& crate::model::opt_view(m.url) == (if single { crate::model::opt_view(prepared[0].url) } else { None })
    &&& crate::model::opt_view(m.slug) == (if single { crate::model::opt_view(prepared[0].slug) } else { None })
    &&& m.branch@ == (if single { prepared[0].branch@ } else { "combined"@ })
    &&& earliest(rows, m.first)
    &&& latest(rows, m.last)
    &&& m.total_commits == total_commits
    &&& m.total_contributors == humans(rows)
    &&& m.generated@ == generated
    &&& crate::model::opt_view(m.owner_avatar) == crate::model::opt_view(owner_avatar)
    &&& crate::model::opt_view(m.description) == crate::model::opt_view(description)
}

/// Repository metadata shown in the chart header. `generated` is the date of
/// the run; the owner avatar and description come from GitHub when known.
pub fn repo_meta(
    title: Option<String>,
    prepared: &[PreparedRepo],
    rows: &[Contributor],
    total_commits: u64,
    generated: String,
    owner_avatar: Option<String>,
    description: Option<String>,
) -> (m: RepoMeta)
    ensures
        meta_of(title, prepared@, rows@, total_commits, generated@, owner_avatar, description, m),
{
    let single = prepared.len() == 1;
    let name = match &title {
        Some(t) => t.clone(),
        None => if single {
            prepared[0].display_name.clone()
        } else {
            match common_owner_of(prepared) {
                Some(o) => o,
                None => combined_name(prepared),
            }
        },
    };
    let (url, slug, branch) = if single {
        (clone_opt(&prepared[0].url), clone_opt(&prepared[0].slug), prepared[0].branch.clone())
    } else {
        (None, None, "combined".to_string())
    };
    let mut first: i64 = 0;
    let mut last: i64 = 0;
    let mut people: usize = 0;
    let mut k: usize = 0;
    while k < rows.len()
        invariant
            k <= rows@.len(),
            people == humans(rows@.take(k as int)),
            people <= k,
            k > 0 ==> earliest(rows@.take(k as int), first) && latest(rows@.take(k as int), last),
            k == 0 ==> first == 0 && last == 0,
        decreases rows@.len() - k,
    {
        let c = &rows[k];
        let ghost pre = rows@.take(k as int);
        let ghost post = rows@.take(k + 1);
        proof {
            assert(post.drop_last() =~= pre);
            assert(post[k as int] == *c);
        }
        if k == 0 || c.first < first {
            first = c.first;
        }
        if k == 0 || c.last > last {
            last = c.last;
        }
        if !c.bot {
            people += 1;
        }
        proof {
            assert forall|q: int| 0 <= q < k + 1 implies first <= (#[trigger] post[q]).first && post[q].last <= last by {
                if q < k {
                    assert(post[q] == pre[q]);
                }
            }
            if k > 0 {
                if first != c.first {
                    let q = choose|q: int| 0 <= q < pre.len() && (#[trigger] pre[q]).first == first;
                    assert(post[q] == pre[q]);
                }
                if last != c.last {
                    let q = choose|q: int| 0 <= q < pre.len() && (#[trigger] pre[q]).last == last;
                    assert(post[q] == pre[q]);
                }
            }
        }
        k += 1;
    }
    assert(rows@.take(k as int) =~= rows@);
    RepoMeta {
        name,
        url,
        slug,
        branch,
        first,
        last,
        total_commits,
        total_contributors: people,
        generated,
        owner_avatar,
        description,
    }
}

// ---------------------------------------------------------------------------
// Rows of the static chart
// ---------------------------------------------------------------------------
/// The rows with at least `min` commits, in order.
pub open spec fn with_min_commits(rows: Seq<Contributor>, min: u32) -> Seq<Contributor>
    decreases rows.len(),
{
    if rows.len() == 0 {
        Seq::empty()
    } else {
        let p = with_min_commits(rows.drop_last(), min);
        if rows.last().commits >= min {
            p.push(rows.last())
        } else {
            p
        }
    }
}

/// The rows of the static chart: those with at least `min_commits`
/// commits; when there are more than `max_rows`, the `max_rows` with the
/// most commits (ties in their order). Also returns how many qualified.
#[verifier::rlimit(30)]
pub fn top_rows(rows: Vec<Contributor>, min_commits: u32, max_rows: usize) -> (r: (Vec<Contributor>, usize))
    ensures
        r.1 == with_min_commits(rows@, min_commits).len(),
        r.1 <= max_rows ==> r.0@ == with_min_commits(rows@, min_commits),
        r.1 > max_rows ==> exists|s: Seq<Contributor>|
            stably_sorted(Sort::Commits, with_min_commits(rows@, min_commits), s) && r.0@ == s.take(max_rows as int),
{
    let ghost all = rows@;
    let n = rows.len();
    let mut rev: Vec<Contributor> = Vec::new();
    let mut rows = rows;
    while rows.len() > 0
        invariant
            rows@ + rev@.reverse() == all,
        decreases rows@.len(),
    {
        let ghost a0 = rows@;
        let ghost r0 = rev@;
        let c = rows.pop().unwrap();
        rev.push(c);
        assert(rows@ + rev@.reverse() =~= a0.drop_last() + (seq![a0.last()] + r0.reverse()));
        assert(seq![a0.last()] + r0.reverse() =~= r0.push(a0.last()).reverse());
        assert(a0.drop_last() + seq![a0.last()] + r0.reverse() =~= a0 + r0.reverse());
    }
    assert(rev@.reverse() =~= all);
    let mut kept: Vec<Contributor> = Vec::new();
    let mut i: usize = 0;
    while rev.len() > 0
        invariant
            i + rev@.len() == all.len(),
            all.len() == n,
            rev@.reverse() == all.skip(i as int),
            kept@ == with_min_commits(all.take(i as int), min_commits),
        decreases rev@.len(),
    {
        let ghost rv0 = rev@;
        let c = rev.pop().unwrap();
        proof {
            assert(c == all[i as int]) by {
                assert(rv0.reverse()[0] == rv0.last());
                assert(all.skip(i as int)[0] == all[i as int]);
            }
            lemma_reverse_pop(rv0);
            assert(all.skip(i + 1) =~= all.skip(i as int).drop_first());
            assert(all.take(i + 1).drop_last() =~= all.take(i as int));
        }
        if c.commits >= min_commits {
            kept.push(c);
        }
        i += 1;
    }
    assert(all.take(i as int) =~= all);
    let eligible = kept.len();
    if eligible > max_rows {
        let ghost before_sort = kept@;
        sort(kept.as_mut_slice(), Sort::Commits);
        let ghost sorted = kept@;
        kept.truncate(max_rows);
        assert(kept@ =~= sorted.take(max_rows as int));
    }
    (kept, eligible)
}
} // verus!
