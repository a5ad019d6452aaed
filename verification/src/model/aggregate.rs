//! Collapsing contributors into one row per affiliation.
use vstd::prelude::*;
use crate::model::{Contributor, month_index, month_of, month_start_of, month_start_ts};
use crate::text::{chars_of, position_of, seq_eq, slice_range, string_of};

verus! {

// ---------------------------------------------------------------------------
// Which group each piece of a contributor's activity belongs to
// ---------------------------------------------------------------------------
/// The group a contributor belongs to as a whole: its own, or the
/// `unaffiliated` label.
pub open spec fn default_key(c: Contributor, u: Seq<char>) -> Seq<char> {
    match c.group {
        Some(g) => g@,
        None => u,
    }
}

/// Whether a contributor's affiliation changes over time.
pub open spec fn dated(c: Contributor) -> bool {
    c.month_groups is Some
}

/// The group that month `i` of a contributor's span counts towards: its
/// per-month group where there is one, else its default group.
pub open spec fn key_at(c: Contributor, u: Seq<char>, i: int) -> Seq<char> {
    match c.month_groups {
        Some(mg) => if 0 <= i < mg@.len() && mg@[i] is Some {
            mg@[i]->0@
        } else {
            default_key(c, u)
        },
        None => default_key(c, u),
    }
}

/// A contributor's monthly commits (`co == false`) or co-authored commits
/// (`co == true`).
pub open spec fn series(c: Contributor, co: bool) -> Seq<u32> {
    if co {
        c.co_months@
    } else {
        c.months@
    }
}

/// A contributor's commit count (`co == false`) or co-authored count.
pub open spec fn count(c: Contributor, co: bool) -> u32 {
    if co {
        c.co_commits
    } else {
        c.commits
    }
}

/// Sum of the first `n` values of `v` whose month counts towards group `g`.
pub open spec fn keyed_sum(c: Contributor, u: Seq<char>, g: Seq<char>, v: Seq<u32>, n: int) -> nat
    decreases n,
{
    if n <= 0 {
        0
    } else {
        keyed_sum(c, u, g, v, n - 1) + (if key_at(c, u, n - 1) == g {
            v[n - 1] as nat
        } else {
            0nat
        })
    }
}

/// What a contributor adds to group `g`'s commit count (or co-authored
/// count): everything when undated and in `g`, else the months assigned to `g`.
pub open spec fn share(c: Contributor, u: Seq<char>, g: Seq<char>, co: bool) -> nat {
    if !dated(c) {
        if default_key(c, u) == g {
            count(c, co) as nat
        } else {
            0
        }
    } else {
        keyed_sum(c, u, g, series(c, co), series(c, co).len() as int)
    }
}

/// What a contributor adds to group `g` in calendar month `m`.
pub open spec fn month_share(c: Contributor, u: Seq<char>, g: Seq<char>, co: bool, m: int) -> nat {
    let i = m - c.m0;
    if 0 <= i < series(c, co).len() && key_at(c, u, i) == g {
        series(c, co)[i] as nat
    } else {
        0
    }
}

/// Whether month `i` of a contributor has activity counted towards `g`.
pub open spec fn active(c: Contributor, u: Seq<char>, g: Seq<char>, co: bool, i: int) -> bool {
    0 <= i < series(c, co).len() && series(c, co)[i] > 0 && key_at(c, u, i) == g
}

/// Whether a contributor is a member of group `g`: undated and in `g`, or
/// dated with some commits assigned to `g`.
pub open spec fn in_group(c: Contributor, u: Seq<char>, g: Seq<char>) -> bool {
    if !dated(c) {
        default_key(c, u) == g
    } else {
        share(c, u, g, false) > 0
    }
}

// ---------------------------------------------------------------------------
// Sums over contributors
// ---------------------------------------------------------------------------
/// `f` summed over the contributors `cs`.
pub open spec fn total(cs: Seq<Contributor>, f: spec_fn(Contributor) -> nat) -> nat
    decreases cs.len(),
{
    if cs.len() == 0 {
        0
    } else {
        total(cs.drop_last(), f) + f(cs.last())
    }
}

/// Each contributor's share of group `g`.
pub open spec fn share_fn(u: Seq<char>, g: Seq<char>, co: bool) -> spec_fn(Contributor) -> nat {
    |c: Contributor| share(c, u, g, co)
}

/// Each contributor's share of group `g` in month `m`.
pub open spec fn month_fn(u: Seq<char>, g: Seq<char>, co: bool, m: int) -> spec_fn(Contributor) -> nat {
    |c: Contributor| month_share(c, u, g, co, m)
}

/// Group `g`'s commits (or co-authored commits) in calendar month `m`.
pub open spec fn month_total(cs: Seq<Contributor>, u: Seq<char>, g: Seq<char>, co: bool, m: int) -> nat {
    total(cs, month_fn(u, g, co, m))
}

// ---------------------------------------------------------------------------
// The groups, in order of first appearance
// ---------------------------------------------------------------------------
/// The groups of the first `n` active months of `v`, in order.
pub open spec fn active_keys(c: Contributor, u: Seq<char>, v: Seq<u32>, n: int) -> Seq<Seq<char>>
    decreases n,
{
    if n <= 0 {
        Seq::empty()
    } else {
        let p = active_keys(c, u, v, n - 1);
        if v[n - 1] > 0 {
            p.push(key_at(c, u, n - 1))
        } else {
            p
        }
    }
}

/// The groups a contributor touches, in the order they are met: its default
/// group when undated; else the groups of its active months, then those of
/// its active co-authored months.
pub open spec fn key_events(c: Contributor, u: Seq<char>) -> Seq<Seq<char>> {
    if !dated(c) {
        seq![default_key(c, u)]
    } else {
        active_keys(c, u, c.months@, c.months@.len() as int) + active_keys(
            c,
            u,
            c.co_months@,
            c.co_months@.len() as int,
        )
    }
}

/// All groups met, contributor by contributor.
pub open spec fn events(cs: Seq<Contributor>, u: Seq<char>) -> Seq<Seq<char>>
    decreases cs.len(),
{
    if cs.len() == 0 {
        Seq::empty()
    } else {
        events(cs.drop_last(), u) + key_events(cs.last(), u)
    }
}

/// The distinct values of `s` in order of first appearance.
pub open spec fn dedup(s: Seq<Seq<char>>) -> Seq<Seq<char>>
    decreases s.len(),
{
    if s.len() == 0 {
        Seq::empty()
    } else {
        let d = dedup(s.drop_last());
        if d.contains(s.last()) {
            d
        } else {
            d.push(s.last())
        }
    }
}

/// The groups of the aggregate, in order of first appearance.
pub open spec fn group_order(cs: Seq<Contributor>, u: Seq<char>) -> Seq<Seq<char>> {
    dedup(events(cs, u))
}

// ---------------------------------------------------------------------------
// One aggregate row
// ---------------------------------------------------------------------------
/// `t` is a time at which a member's activity in `g` starts: an undated
/// member's first commit, or the start of a dated member's month in `g`.
pub open spec fn lo_point(c: Contributor, u: Seq<char>, g: Seq<char>, t: i64) -> bool {
    if !dated(c) {
        default_key(c, u) == g && t == c.first
    } else {
        exists|i: int| active(c, u, g, false, i) && t == #[trigger] month_start_of(c.m0 + i)
    }
}

/// `t` is a time at which a member's activity in `g` ends.
pub open spec fn hi_point(c: Contributor, u: Seq<char>, g: Seq<char>, t: i64) -> bool {
    if !dated(c) {
        default_key(c, u) == g && t == c.last
    } else {
        exists|i: int| active(c, u, g, false, i) && t == #[trigger] month_start_of(c.m0 + i)
    }
}

/// The group's first time: the least start point, or `i64::MAX` if none.
pub open spec fn group_first(cs: Seq<Contributor>, u: Seq<char>, g: Seq<char>, t: i64) -> bool {
    if exists|j: int, t2: i64| 0 <= j < cs.len() && #[trigger] lo_point(cs[j], u, g, t2) {
        &&& exists|j: int| 0 <= j < cs.len() && lo_point(#[trigger] cs[j], u, g, t)
        &&& forall|j: int, t2: i64| 0 <= j < cs.len() && #[trigger] lo_point(cs[j], u, g, t2) ==> t <= t2
    } else {
        t == i64::MAX
    }
}

/// The group's last time: the greatest end point, or `i64::MIN` if none.
pub open spec fn group_last(cs: Seq<Contributor>, u: Seq<char>, g: Seq<char>, t: i64) -> bool {
    if exists|j: int, t2: i64| 0 <= j < cs.len() && #[trigger] hi_point(cs[j], u, g, t2) {
        &&& exists|j: int| 0 <= j < cs.len() && hi_point(#[trigger] cs[j], u, g, t)
        &&& forall|j: int, t2: i64| 0 <= j < cs.len() && #[trigger] hi_point(cs[j], u, g, t2) ==> t2 <= t
    } else {
        t == i64::MIN
    }
}

/// Some month has activity of the group.
pub open spec fn has_month(cs: Seq<Contributor>, u: Seq<char>, g: Seq<char>, co: bool) -> bool {
    exists|m: int| #[trigger] month_total(cs, u, g, co, m) > 0
}

/// `m` is the group's first active month.
pub open spec fn first_month(cs: Seq<Contributor>, u: Seq<char>, g: Seq<char>, m: int) -> bool {
    &&& month_total(cs, u, g, false, m) > 0
    &&& forall|m2: int| #[trigger] month_total(cs, u, g, false, m2) > 0 ==> m <= m2
}

/// `m` is the group's last active month.
pub open spec fn last_month(cs: Seq<Contributor>, u: Seq<char>, g: Seq<char>, m: int) -> bool {
    &&& month_total(cs, u, g, false, m) > 0
    &&& forall|m2: int| #[trigger] month_total(cs, u, g, false, m2) > 0 ==> m2 <= m
}

/// Number of monthly bins for a span from month `m0` to month `m1`, at least
/// one and at most 6000.
pub open spec fn span_bins(m0: int, m1: int) -> int {
    let d = m1 - m0 + 1;
    if d < 1 {
        1
    } else if d > 6000 {
        6000
    } else {
        d
    }
}

/// The group's members, in order: `(name, commits in the group)`.
pub open spec fn members_of(cs: Seq<Contributor>, u: Seq<char>, g: Seq<char>) -> Seq<(Seq<char>, nat)>
    decreases cs.len(),
{
    if cs.len() == 0 {
        Seq::empty()
    } else {
        let p = members_of(cs.drop_last(), u, g);
        let c = cs.last();
        if in_group(c, u, g) {
            p.push((c.name@, share(c, u, g, false)))
        } else {
            p
        }
    }
}

/// `x` inserted into `s` after every entry that ranks at least as high, so
/// that entries with equal counts keep their order.
pub open spec fn insert_desc(s: Seq<(Seq<char>, nat)>, x: (Seq<char>, nat)) -> Seq<(Seq<char>, nat)>
    decreases s.len(),
{
    if s.len() == 0 {
        seq![x]
    } else if s.last().1 >= x.1 {
        s.push(x)
    } else {
        insert_desc(s.drop_last(), x).push(s.last())
    }
}

/// `s` stably sorted by count, largest first.
pub open spec fn sort_desc(s: Seq<(Seq<char>, nat)>) -> Seq<(Seq<char>, nat)>
    decreases s.len(),
{
    if s.len() == 0 {
        Seq::empty()
    } else {
        insert_desc(sort_desc(s.drop_last()), s.last())
    }
}

/// The names of the (at most eight) largest members.
pub open spec fn top_names(cs: Seq<Contributor>, u: Seq<char>, g: Seq<char>) -> Seq<Seq<char>> {
    let s = sort_desc(members_of(cs, u, g));
    let n = if s.len() < 8 {
        s.len()
    } else {
        8
    };
    s.take(n as int).map_values(|e: (Seq<char>, nat)| e.0)
}

/// `r` is the aggregate row of group `g`.
pub open spec fn group_row(cs: Seq<Contributor>, u: Seq<char>, g: Seq<char>, r: Contributor) -> bool {
    let len = r.months@.len() as int;
    &&& r.name@ == g
    &&& r.group matches Some(x) && x@ == g
    &&& r.login is None && r.avatar is None && r.url is None
    &&& !r.bot
    &&& r.month_groups is None
    &&& r.commits == total(cs, share_fn(u, g, false))
    &&& r.co_commits == total(cs, share_fn(u, g, true))
    &&& group_first(cs, u, g, r.first)
    &&& group_last(cs, u, g, r.last)
    &&& (if has_month(cs, u, g, false) {
        &&& first_month(cs, u, g, r.m0 as int)
        &&& exists|m1: int| last_month(cs, u, g, m1) && len == span_bins(r.m0 as int, m1)
    } else {
        r.m0 == month_of(r.first) && len == 1
    })
    &&& forall|k: int| 0 <= k < len ==> #[trigger] r.months@[k] == month_total(cs, u, g, false, r.m0 + k)
    &&& (if has_month(cs, u, g, true) {
        &&& r.co_months@.len() == len
        &&& forall|k: int| 0 <= k < len ==> #[trigger] r.co_months@[k] == month_total(cs, u, g, true, r.m0 + k)
    } else {
        r.co_months@.len() == 0
    })
    &&& r.members == members_of(cs, u, g).len()
    &&& r.member_names@.map_values(|s: String| s@) == top_names(cs, u, g)
}

/// The input limits: month numbers stay within `i32`, each group's counts,
/// per month and in all, fit in `u32`, and so does the number of people.
pub open spec fn aggregate_ok(cs: Seq<Contributor>, u: Seq<char>) -> bool {
    &&& forall|j: int| 0 <= j < cs.len() ==> (#[trigger] cs[j]).m0 + cs[j].months@.len() <= i32::MAX + 1
        && cs[j].m0 + cs[j].co_months@.len() <= i32::MAX + 1
    &&& forall|g: Seq<char>, co: bool| #[trigger] total(cs, share_fn(u, g, co)) <= u32::MAX
    &&& forall|g: Seq<char>, co: bool, m: int| #[trigger] month_total(cs, u, g, co, m) <= u32::MAX
    &&& cs.len() <= u32::MAX
}

// ---------------------------------------------------------------------------
// Lemmas on sums
// ---------------------------------------------------------------------------
proof fn lemma_total_step(cs: Seq<Contributor>, f: spec_fn(Contributor) -> nat, j: int)
    requires
        0 <= j < cs.len(),
    ensures
        total(cs.take(j + 1), f) == total(cs.take(j), f) + f(cs[j]),
{
    assert(cs.take(j + 1).drop_last() =~= cs.take(j));
}

proof fn lemma_total_prefix(cs: Seq<Contributor>, f: spec_fn(Contributor) -> nat, j: int)
    requires
        0 <= j <= cs.len(),
    ensures
        total(cs.take(j), f) <= total(cs, f),
    decreases cs.len(),
{
    if j == cs.len() {
        assert(cs.take(j) =~= cs);
    } else {
        lemma_total_prefix(cs.drop_last(), f, j);
        assert(cs.drop_last().take(j) =~= cs.take(j));
    }
}

proof fn lemma_total_pos(cs: Seq<Contributor>, f: spec_fn(Contributor) -> nat)
    requires
        total(cs, f) > 0,
    ensures
        exists|j: int| 0 <= j < cs.len() && f(#[trigger] cs[j]) > 0,
    decreases cs.len(),
{
    if f(cs.last()) == 0 {
        lemma_total_pos(cs.drop_last(), f);
        let j = choose|j: int| 0 <= j < cs.drop_last().len() && f(#[trigger] cs.drop_last()[j]) > 0;
        assert(cs[j] == cs.drop_last()[j]);
    } else {
        assert(f(cs[cs.len() - 1]) > 0);
    }
}

proof fn lemma_total_term(cs: Seq<Contributor>, f: spec_fn(Contributor) -> nat, j: int)
    requires
        0 <= j < cs.len(),
    ensures
        f(cs[j]) <= total(cs, f),
{
    lemma_total_step(cs, f, j);
    lemma_total_prefix(cs, f, j + 1);
}

/// A month with a positive total has an active contributor month.
proof fn lemma_month_pos(cs: Seq<Contributor>, u: Seq<char>, g: Seq<char>, co: bool, m: int)
    requires
        month_total(cs, u, g, co, m) > 0,
    ensures
        exists|j: int| 0 <= j < cs.len() && active(#[trigger] cs[j], u, g, co, m - cs[j].m0),
{
    lemma_total_pos(cs, month_fn(u, g, co, m));
    let j = choose|j: int| 0 <= j < cs.len() && month_fn(u, g, co, m)(#[trigger] cs[j]) > 0;
    assert(active(cs[j], u, g, co, m - cs[j].m0));
}

/// An active contributor month gives its calendar month a positive total.
proof fn lemma_active_month(cs: Seq<Contributor>, u: Seq<char>, g: Seq<char>, co: bool, j: int, i: int)
    requires
        0 <= j < cs.len(),
        active(cs[j], u, g, co, i),
    ensures
        month_total(cs, u, g, co, cs[j].m0 + i) > 0,
{
    lemma_total_term(cs, month_fn(u, g, co, cs[j].m0 + i), j);
}

proof fn lemma_keyed_sum_mono(c: Contributor, u: Seq<char>, g: Seq<char>, v: Seq<u32>, a: int, b: int)
    requires
        a <= b,
    ensures
        keyed_sum(c, u, g, v, a) <= keyed_sum(c, u, g, v, b),
    decreases b - a,
{
    if a < b {
        lemma_keyed_sum_mono(c, u, g, v, a, b - 1);
    }
}

proof fn lemma_keyed_sum_pos(c: Contributor, u: Seq<char>, g: Seq<char>, v: Seq<u32>, n: int)
    requires
        keyed_sum(c, u, g, v, n) > 0,
    ensures
        exists|i: int| 0 <= i < n && v[i] > 0 && key_at(c, u, i) == g,
    decreases n,
{
    if n > 0 {
        if key_at(c, u, n - 1) == g && v[n - 1] > 0 {
        } else {
            lemma_keyed_sum_pos(c, u, g, v, n - 1);
        }
    }
}

proof fn lemma_insert_desc(s: Seq<(Seq<char>, nat)>, x: (Seq<char>, nat), p: int)
    requires
        0 <= p <= s.len(),
        forall|q: int| p <= q < s.len() ==> (#[trigger] s[q]).1 < x.1,
        p == 0 || s[p - 1].1 >= x.1,
    ensures
        insert_desc(s, x) == s.take(p) + seq![x] + s.skip(p),
    decreases s.len(),
{
    if s.len() == 0 {
        assert(s.take(p) + seq![x] + s.skip(p) =~= seq![x]);
    } else if p == s.len() {
        assert(s.take(p) + seq![x] + s.skip(p) =~= s.push(x));
    } else {
        assert(s.last().1 < x.1);
        let d = s.drop_last();
        assert forall|q: int| p <= q < d.len() implies (#[trigger] d[q]).1 < x.1 by {
            assert(d[q] == s[q]);
        }
        lemma_insert_desc(d, x, p);
        assert(d.take(p) + seq![x] + d.skip(p) + seq![s.last()] =~= s.take(p) + seq![x] + s.skip(p));
    }
}

// ---------------------------------------------------------------------------
// Implementation
// ---------------------------------------------------------------------------
/// The characters of a contributor's default group.
fn default_key_of(c: &Contributor, u: &[char]) -> (r: Vec<char>)
    ensures
        r@ == default_key(*c, u@),
{
    match &c.group {
        Some(g) => chars_of(g.as_str()),
        None => slice_range(u, 0, u.len()),
    }
}

/// The characters of the group of month `i` of a contributor.
fn key_of(c: &Contributor, u: &[char], i: usize) -> (r: Vec<char>)
    ensures
        r@ == key_at(*c, u@, i as int),
{
    match &c.month_groups {
        Some(mg) => {
            if i < mg.len() {
                match &mg[i] {
                    Some(g) => {
                        return chars_of(g.as_str());
                    },
                    None => {},
                }
            }
            default_key_of(c, u)
        },
        None => default_key_of(c, u),
    }
}

/// The series of monthly counts selected by `co`.
fn series_of(c: &Contributor, co: bool) -> (r: &Vec<u32>)
    ensures
        r@ == series(*c, co),
{
    if co {
        &c.co_months
    } else {
        &c.months
    }
}

/// The groups met in a contributor's activity, in order.
fn key_events_of(c: &Contributor, u: &[char]) -> (r: Vec<Vec<char>>)
    ensures
        r@.map_values(|k: Vec<char>| k@) == key_events(*c, u@),
{
    let mut r: Vec<Vec<char>> = Vec::new();
    if c.month_groups.is_none() {
        r.push(default_key_of(c, u));
        assert(r@.map_values(|k: Vec<char>| k@) =~= key_events(*c, u@));
        return r;
    }
    let mut i: usize = 0;
    while i < c.months.len()
        invariant
            i <= c.months@.len(),
            r@.map_values(|k: Vec<char>| k@) == active_keys(*c, u@, c.months@, i as int),
        decreases c.months@.len() - i,
    {
        if c.months[i] > 0 {
            r.push(key_of(c, u, i));
        }
        proof {
            assert(r@.map_values(|k: Vec<char>| k@) =~= active_keys(*c, u@, c.months@, i + 1));
        }
        i += 1;
    }
    let ghost first_part = r@.map_values(|k: Vec<char>| k@);
    let mut i: usize = 0;
    while i < c.co_months.len()
        invariant
            i <= c.co_months@.len(),
            first_part == active_keys(*c, u@, c.months@, c.months@.len() as int),
            r@.map_values(|k: Vec<char>| k@) == first_part + active_keys(*c, u@, c.co_months@, i as int),
        decreases c.co_months@.len() - i,
    {
        let ghost a0 = active_keys(*c, u@, c.co_months@, i as int);
        let ghost r0 = r@;
        if c.co_months[i] > 0 {
            let k = key_of(c, u, i);
            r.push(k);
            proof {
                assert(active_keys(*c, u@, c.co_months@, i + 1) == a0.push(key_at(*c, u@, i as int)));
                assert(r@.map_values(|k: Vec<char>| k@) =~= r0.map_values(|k: Vec<char>| k@).push(k@));
                assert(first_part + a0.push(k@) =~= (first_part + a0).push(k@));
            }
        }
        proof {
            assert(r@.map_values(|k: Vec<char>| k@) =~= first_part + active_keys(*c, u@, c.co_months@, i + 1));
        }
        i += 1;
    }
    r
}

/// The groups of all contributors, in order of first appearance.
fn group_keys(cs: &[Contributor], u: &[char]) -> (order: Vec<Vec<char>>)
    ensures
        order@.map_values(|k: Vec<char>| k@) == group_order(cs@, u@),
{
    let mut order: Vec<Vec<char>> = Vec::new();
    let mut j: usize = 0;
    while j < cs.len()
        invariant
            j <= cs@.len(),
            order@.map_values(|k: Vec<char>| k@) == dedup(events(cs@.take(j as int), u@)),
        decreases cs@.len() - j,
    {
        let ev = key_events_of(&cs[j], u);
        let ghost before = events(cs@.take(j as int), u@);
        let ghost evs = ev@.map_values(|k: Vec<char>| k@);
        let mut t: usize = 0;
        while t < ev.len()
            invariant
                t <= ev@.len(),
                evs == ev@.map_values(|k: Vec<char>| k@),
                order@.map_values(|k: Vec<char>| k@) == dedup(before + evs.take(t as int)),
            decreases ev@.len() - t,
        {
            let ghost cur = before + evs.take(t as int);
            let ghost nxt = before + evs.take(t + 1);
            proof {
                assert(nxt =~= cur.push(ev@[t as int]@));
                assert(nxt.drop_last() =~= cur);
            }
            let ghost ov = order@.map_values(|k: Vec<char>| k@);
            match position_of(&order, &ev[t]) {
                Some(p) => {
                    assert(ov[p as int] == ev@[t as int]@);
                    assert(ov.contains(ev@[t as int]@));
                },
                None => {
                    assert(!ov.contains(ev@[t as int]@)) by {
                        if ov.contains(ev@[t as int]@) {
                            let q = choose|q: int| 0 <= q < ov.len() && ov[q] == ev@[t as int]@;
                            assert(order@[q]@ == ev@[t as int]@);
                        }
                    }
                    let e = slice_range(&ev[t], 0, ev[t].len());
                    assert(e@ =~= ev@[t as int]@);
                    order.push(e);
                    assert(order@.map_values(|k: Vec<char>| k@) =~= ov.push(ev@[t as int]@));
                },
            }
            t += 1;
        }
        proof {
            assert(evs.take(ev@.len() as int) =~= evs);
            assert(cs@.take(j + 1).drop_last() =~= cs@.take(j as int));
            assert(events(cs@.take(j + 1), u@) == before + key_events(cs@[j as int], u@));
        }
        j += 1;
    }
    assert(cs@.take(j as int) =~= cs@);
    order
}


/// Whether month `i` of a contributor counts towards group `g`.
fn key_is(c: &Contributor, u: &[char], i: usize, g: &[char]) -> (r: bool)
    ensures
        r == (key_at(*c, u@, i as int) == g@),
{
    let k = key_of(c, u, i);
    seq_eq(&k, g)
}

/// What a contributor adds to group `g`'s commit (or co-authored) count.
fn contributor_share(c: &Contributor, u: &[char], g: &[char], co: bool) -> (r: u32)
    requires
        share(*c, u@, g@, co) <= u32::MAX,
    ensures
        r == share(*c, u@, g@, co),
{
    if c.month_groups.is_none() {
        let dk = default_key_of(c, u);
        if seq_eq(&dk, g) {
            if co {
                c.co_commits
            } else {
                c.commits
            }
        } else {
            0
        }
    } else {
        let v = series_of(c, co);
        let mut acc: u32 = 0;
        let mut i: usize = 0;
        while i < v.len()
            invariant
                i <= v@.len(),
                v@ == series(*c, co),
                dated(*c),
                keyed_sum(*c, u@, g@, v@, v@.len() as int) <= u32::MAX,
                acc == keyed_sum(*c, u@, g@, v@, i as int),
            decreases v@.len() - i,
        {
            if key_is(c, u, i, g) {
                proof {
                    lemma_keyed_sum_mono(*c, u@, g@, v@, i + 1, v@.len() as int);
                }
                acc = acc + v[i];
            }
            i += 1;
        }
        acc
    }
}

/// Group `g`'s commit (or co-authored) count.
fn group_total(cs: &[Contributor], u: &[char], g: &[char], co: bool) -> (r: u32)
    requires
        aggregate_ok(cs@, u@),
    ensures
        r == total(cs@, share_fn(u@, g@, co)),
{
    let ghost f = share_fn(u@, g@, co);
    let mut acc: u32 = 0;
    let mut j: usize = 0;
    proof {
        assert(cs@.take(0) =~= Seq::<Contributor>::empty());
    }
    while j < cs.len()
        invariant
            j <= cs@.len(),
            f == share_fn(u@, g@, co),
            total(cs@, f) <= u32::MAX,
            acc == total(cs@.take(j as int), f),
        decreases cs@.len() - j,
    {
        proof {
            lemma_total_step(cs@, f, j as int);
            lemma_total_prefix(cs@, f, j + 1);
            lemma_total_term(cs@, f, j as int);
            assert(f(cs@[j as int]) == share(cs@[j as int], u@, g@, co));
        }
        let s = contributor_share(&cs[j], u, g, co);
        acc = acc + s;
        j += 1;
    }
    assert(cs@.take(j as int) =~= cs@);
    acc
}

/// The earliest start point and the latest end point of a contributor's
/// activity in group `g`, if it has any.
fn contributor_points(c: &Contributor, u: &[char], g: &[char]) -> (r: Option<(i64, i64)>)
    requires
        c.m0 + c.months@.len() <= i32::MAX + 1,
    ensures
        match r {
            Some((a, b)) => {
                &&& lo_point(*c, u@, g@, a)
                &&& hi_point(*c, u@, g@, b)
                &&& forall|t: i64| #[trigger] lo_point(*c, u@, g@, t) ==> a <= t
                &&& forall|t: i64| #[trigger] hi_point(*c, u@, g@, t) ==> t <= b
            },
            None => (forall|t: i64| !#[trigger] lo_point(*c, u@, g@, t)) && (forall|t: i64| !#[trigger] hi_point(*c, u@, g@, t)),
        },
{
    if c.month_groups.is_none() {
        let dk = default_key_of(c, u);
        if seq_eq(&dk, g) {
            return Some((c.first, c.last));
        } else {
            return None;
        }
    }
    let mut best: Option<(i64, i64)> = None;
    let mut i: usize = 0;
    while i < c.months.len()
        invariant
            i <= c.months@.len(),
            dated(*c),
            c.m0 + c.months@.len() <= i32::MAX + 1,
            match best {
                Some((a, b)) => {
                    &&& exists|i2: int| 0 <= i2 < i && active(*c, u@, g@, false, i2) && a == #[trigger] month_start_of(c.m0 + i2)
                    &&& exists|i2: int| 0 <= i2 < i && active(*c, u@, g@, false, i2) && b == #[trigger] month_start_of(c.m0 + i2)
                    &&& forall|i2: int| 0 <= i2 < i && active(*c, u@, g@, false, i2) ==> a <= #[trigger] month_start_of(c.m0 + i2) <= b
                },
                None => forall|i2: int| 0 <= i2 < i ==> !#[trigger] active(*c, u@, g@, false, i2),
            },
        decreases c.months@.len() - i,
    {
        if c.months[i] > 0 && key_is(c, u, i, g) {
            let m: i64 = c.m0 as i64 + i as i64;
            let t = month_start_ts(m as i32);
            assert(t == month_start_of(c.m0 + i));
            assert(active(*c, u@, g@, false, i as int));
            best = match best {
                Some((a, b)) => Some((if t < a { t } else { a }, if t > b { t } else { b })),
                None => Some((t, t)),
            };
        }
        i += 1;
    }
    proof {
        match best {
            Some((a, b)) => {
                assert forall|t: i64| #[trigger] lo_point(*c, u@, g@, t) implies a <= t by {
                    let i2 = choose|i2: int| active(*c, u@, g@, false, i2) && t == #[trigger] month_start_of(c.m0 + i2);
                }
                assert forall|t: i64| #[trigger] hi_point(*c, u@, g@, t) implies t <= b by {
                    let i2 = choose|i2: int| active(*c, u@, g@, false, i2) && t == #[trigger] month_start_of(c.m0 + i2);
                }
            },
            None => {
                assert forall|t: i64| !#[trigger] lo_point(*c, u@, g@, t) by {
                    if lo_point(*c, u@, g@, t) {
                        let i2 = choose|i2: int| active(*c, u@, g@, false, i2) && t == #[trigger] month_start_of(c.m0 + i2);
                        assert(!active(*c, u@, g@, false, i2));
                    }
                }
                assert forall|t: i64| !#[trigger] hi_point(*c, u@, g@, t) by {
                    if hi_point(*c, u@, g@, t) {
                        let i2 = choose|i2: int| active(*c, u@, g@, false, i2) && t == #[trigger] month_start_of(c.m0 + i2);
                        assert(!active(*c, u@, g@, false, i2));
                    }
                }
            },
        }
    }
    best
}

/// The group's first and last times.
fn group_bounds(cs: &[Contributor], u: &[char], g: &[char]) -> (r: (i64, i64))
    requires
        aggregate_ok(cs@, u@),
    ensures
        group_first(cs@, u@, g@, r.0),
        group_last(cs@, u@, g@, r.1),
{
    let mut first: i64 = i64::MAX;
    let mut last: i64 = i64::MIN;
    let mut any = false;
    let mut j: usize = 0;
    while j < cs.len()
        invariant
            j <= cs@.len(),
            aggregate_ok(cs@, u@),
            any ==> exists|j2: int| 0 <= j2 < j && lo_point(#[trigger] cs@[j2], u@, g@, first),
            any ==> exists|j2: int| 0 <= j2 < j && hi_point(#[trigger] cs@[j2], u@, g@, last),
            forall|j2: int, t: i64| 0 <= j2 < j && #[trigger] lo_point(cs@[j2], u@, g@, t) ==> any && first <= t,
            forall|j2: int, t: i64| 0 <= j2 < j && #[trigger] hi_point(cs@[j2], u@, g@, t) ==> any && t <= last,
            !any ==> first == i64::MAX && last == i64::MIN,
        decreases cs@.len() - j,
    {
        let c = &cs[j];
        assert(c.m0 + c.months@.len() <= i32::MAX + 1);
        let ghost any0 = any;
        let ghost first0 = first;
        let ghost last0 = last;
        match contributor_points(c, u, g) {
            Some((a, b)) => {
                if !any || a < first {
                    first = a;
                }
                if !any || b > last {
                    last = b;
                }
                any = true;
                proof {
                    assert forall|j2: int, t: i64| 0 <= j2 < j + 1 && #[trigger] hi_point(cs@[j2], u@, g@, t) implies any && t <= last by {
                        if j2 < j {
                            assert(any0 && t <= last0);
                        } else {
                            assert(hi_point(*c, u@, g@, t));
                        }
                    }
                    assert forall|j2: int, t: i64| 0 <= j2 < j + 1 && #[trigger] lo_point(cs@[j2], u@, g@, t) implies any && first <= t by {
                        if j2 < j {
                            assert(any0 && first0 <= t);
                        } else {
                            assert(lo_point(*c, u@, g@, t));
                        }
                    }
                }
            },
            None => {},
        }
        j += 1;
    }
    proof {
        if !any {
            assert forall|j2: int, t2: i64| !(0 <= j2 < cs@.len() && #[trigger] lo_point(cs@[j2], u@, g@, t2)) by {}
            assert forall|j2: int, t2: i64| !(0 <= j2 < cs@.len() && #[trigger] hi_point(cs@[j2], u@, g@, t2)) by {}
        }
    }
    (first, last)
}

/// The least and greatest month of a contributor with activity in group `g`
/// in the chosen series, if any.
fn contributor_months(c: &Contributor, u: &[char], g: &[char], co: bool) -> (r: Option<(i64, i64)>)
    requires
        c.m0 + series(*c, co).len() <= i32::MAX + 1,
    ensures
        match r {
            Some((a, b)) => {
                &&& exists|i: int| #[trigger] active(*c, u@, g@, co, i) && a == c.m0 + i
                &&& exists|i: int| #[trigger] active(*c, u@, g@, co, i) && b == c.m0 + i
                &&& forall|i: int| #[trigger] active(*c, u@, g@, co, i) ==> a <= c.m0 + i <= b
                &&& i32::MIN <= a <= b <= i32::MAX
            },
            None => forall|i: int| !#[trigger] active(*c, u@, g@, co, i),
        },
{
    let v = series_of(c, co);
    let mut best: Option<(i64, i64)> = None;
    let mut i: usize = 0;
    while i < v.len()
        invariant
            i <= v@.len(),
            v@ == series(*c, co),
            c.m0 + v@.len() <= i32::MAX + 1,
            match best {
                Some((a, b)) => {
                    &&& exists|i2: int| 0 <= i2 < i && #[trigger] active(*c, u@, g@, co, i2) && a == c.m0 + i2
                    &&& exists|i2: int| 0 <= i2 < i && #[trigger] active(*c, u@, g@, co, i2) && b == c.m0 + i2
                    &&& forall|i2: int| 0 <= i2 < i && #[trigger] active(*c, u@, g@, co, i2) ==> a <= c.m0 + i2 <= b
                },
                None => forall|i2: int| 0 <= i2 < i ==> !#[trigger] active(*c, u@, g@, co, i2),
            },
        decreases v@.len() - i,
    {
        if v[i] > 0 && key_is(c, u, i, g) {
            let m: i64 = c.m0 as i64 + i as i64;
            assert(active(*c, u@, g@, co, i as int));
            best = match best {
                Some((a, b)) => Some((if m < a { m } else { a }, if m > b { m } else { b })),
                None => Some((m, m)),
            };
        }
        i += 1;
    }
    best
}

/// The group's least and greatest months with activity in the chosen series.
fn month_bounds(cs: &[Contributor], u: &[char], g: &[char], co: bool) -> (r: Option<(i64, i64)>)
    requires
        aggregate_ok(cs@, u@),
    ensures
        match r {
            Some((a, b)) => {
                &&& month_total(cs@, u@, g@, co, a as int) > 0
                &&& month_total(cs@, u@, g@, co, b as int) > 0
                &&& forall|m: int| #[trigger] month_total(cs@, u@, g@, co, m) > 0 ==> a <= m <= b
                &&& i32::MIN <= a <= b <= i32::MAX
            },
            None => !has_month(cs@, u@, g@, co),
        },
{
    let mut best: Option<(i64, i64)> = None;
    let mut j: usize = 0;
    while j < cs.len()
        invariant
            j <= cs@.len(),
            aggregate_ok(cs@, u@),
            match best {
                Some((a, b)) => {
                    &&& exists|j2: int, i: int| 0 <= j2 < j && #[trigger] active(cs@[j2], u@, g@, co, i) && a == cs@[j2].m0 + i
                    &&& exists|j2: int, i: int| 0 <= j2 < j && #[trigger] active(cs@[j2], u@, g@, co, i) && b == cs@[j2].m0 + i
                    &&& forall|j2: int, i: int| 0 <= j2 < j && #[trigger] active(cs@[j2], u@, g@, co, i) ==> a <= cs@[j2].m0 + i <= b
                    &&& i32::MIN <= a <= b <= i32::MAX
                },
                None => forall|j2: int, i: int| 0 <= j2 < j ==> !#[trigger] active(cs@[j2], u@, g@, co, i),
            },
        decreases cs@.len() - j,
    {
        let c = &cs[j];
        assert(c.m0 + series(*c, co).len() <= i32::MAX + 1);
        match contributor_months(c, u, g, co) {
            Some((a, b)) => {
                best = match best {
                    Some((a0, b0)) => Some((if a < a0 { a } else { a0 }, if b > b0 { b } else { b0 })),
                    None => Some((a, b)),
                };
            },
            None => {},
        }
        j += 1;
    }
    proof {
        match best {
            Some((a, b)) => {
                let (ja, ia) = choose|j2: int, i: int| 0 <= j2 < cs@.len() && #[trigger] active(cs@[j2], u@, g@, co, i) && a == cs@[j2].m0 + i;
                lemma_active_month(cs@, u@, g@, co, ja, ia);
                let (jb, ib) = choose|j2: int, i: int| 0 <= j2 < cs@.len() && #[trigger] active(cs@[j2], u@, g@, co, i) && b == cs@[j2].m0 + i;
                lemma_active_month(cs@, u@, g@, co, jb, ib);
                assert forall|m: int| #[trigger] month_total(cs@, u@, g@, co, m) > 0 implies a <= m <= b by {
                    lemma_month_pos(cs@, u@, g@, co, m);
                    let j2 = choose|j2: int| 0 <= j2 < cs@.len() && active(#[trigger] cs@[j2], u@, g@, co, m - cs@[j2].m0);
                    assert(active(cs@[j2], u@, g@, co, m - cs@[j2].m0));
                }
            },
            None => {
                assert forall|m: int| !(#[trigger] month_total(cs@, u@, g@, co, m) > 0) by {
                    if month_total(cs@, u@, g@, co, m) > 0 {
                        lemma_month_pos(cs@, u@, g@, co, m);
                        let j2 = choose|j2: int| 0 <= j2 < cs@.len() && active(#[trigger] cs@[j2], u@, g@, co, m - cs@[j2].m0);
                        assert(!active(cs@[j2], u@, g@, co, m - cs@[j2].m0));
                    }
                }
            },
        }
    }
    best
}

/// What a contributor adds to group `g` in month `m` from its first `n`
/// months.
pub open spec fn month_share_upto(c: Contributor, u: Seq<char>, g: Seq<char>, co: bool, m: int, n: int) -> nat {
    let i = m - c.m0;
    if 0 <= i < n && i < series(c, co).len() && key_at(c, u, i) == g {
        series(c, co)[i] as nat
    } else {
        0
    }
}

/// The group's monthly totals over `len` months from `m0`.
fn group_bins(cs: &[Contributor], u: &[char], g: &[char], co: bool, m0: i64, len: usize) -> (bins: Vec<u32>)
    requires
        aggregate_ok(cs@, u@),
        i32::MIN <= m0 <= i32::MAX,
    ensures
        bins@.len() == len,
        forall|k: int| 0 <= k < len ==> #[trigger] bins@[k] == month_total(cs@, u@, g@, co, m0 + k),
{
    let mut bins: Vec<u32> = Vec::new();
    let mut k: usize = 0;
    while k < len
        invariant
            k <= len,
            bins@.len() == k,
            forall|k2: int| 0 <= k2 < k ==> #[trigger] bins@[k2] == 0,
        decreases len - k,
    {
        bins.push(0);
        k += 1;
    }
    proof {
        assert forall|k2: int| 0 <= k2 < len implies #[trigger] bins@[k2] == total(cs@.take(0), month_fn(u@, g@, co, m0 + k2)) by {
            assert(cs@.take(0).len() == 0);
        }
    }
    let mut j: usize = 0;
    while j < cs.len()
        invariant
            j <= cs@.len(),
            aggregate_ok(cs@, u@),
            i32::MIN <= m0 <= i32::MAX,
            bins@.len() == len,
            forall|k2: int| 0 <= k2 < len ==> #[trigger] bins@[k2] == total(cs@.take(j as int), month_fn(u@, g@, co, m0 + k2)),
        decreases cs@.len() - j,
    {
        let c = &cs[j];
        let v = series_of(c, co);
        let ghost base = bins@;
        let mut i: usize = 0;
        proof {
            assert forall|k2: int| 0 <= k2 < len implies #[trigger] bins@[k2] == total(cs@.take(j as int), month_fn(u@, g@, co, m0 + k2))
                + month_share_upto(*c, u@, g@, co, m0 + k2, 0) by {}
        }
        while i < v.len()
            invariant
                i <= v@.len(),
                v@ == series(*c, co),
                *c == cs@[j as int],
                j < cs@.len(),
                aggregate_ok(cs@, u@),
                i32::MIN <= m0 <= i32::MAX,
                bins@.len() == len,
                forall|k2: int| 0 <= k2 < len ==> #[trigger] bins@[k2] == total(cs@.take(j as int), month_fn(u@, g@, co, m0 + k2))
                    + month_share_upto(*c, u@, g@, co, m0 + k2, i as int),
            decreases v@.len() - i,
        {
            let ghost b0 = bins@;
            if key_is(c, u, i, g) {
                let m: i64 = c.m0 as i64 + i as i64;
                let d: i64 = m - m0;
                if d >= 0 && (d as u64) < (len as u64) {
                    let slot = d as usize;
                    proof {
                        let f = month_fn(u@, g@, co, m0 + slot);
                        lemma_total_step(cs@, f, j as int);
                        lemma_total_prefix(cs@, f, j + 1);
                        assert(month_share_upto(*c, u@, g@, co, m0 + slot, i + 1) <= month_share(*c, u@, g@, co, m0 + slot));
                        assert(month_share_upto(*c, u@, g@, co, m0 + slot, i + 1) == month_share_upto(*c, u@, g@, co, m0 + slot, i as int) + v@[i as int]);
                        assert(month_total(cs@, u@, g@, co, m0 + slot) <= u32::MAX);
                    }
                    let cur = bins[slot];
                    bins.set(slot, cur + v[i]);
                    proof {
                        assert forall|k2: int| 0 <= k2 < len implies #[trigger] bins@[k2] == total(cs@.take(j as int), month_fn(u@, g@, co, m0 + k2))
                            + month_share_upto(*c, u@, g@, co, m0 + k2, i + 1) by {
                            if k2 == slot as int {
                            } else {
                                assert(bins@[k2] == b0[k2]);
                                assert(m0 + k2 - c.m0 != i as int);
                            }
                        }
                    }
                } else {
                    proof {
                        assert forall|k2: int| 0 <= k2 < len implies #[trigger] bins@[k2] == total(cs@.take(j as int), month_fn(u@, g@, co, m0 + k2))
                            + month_share_upto(*c, u@, g@, co, m0 + k2, i + 1) by {
                            assert(m0 + k2 - c.m0 != i as int);
                        }
                    }
                }
            } else {
                proof {
                    assert forall|k2: int| 0 <= k2 < len implies #[trigger] bins@[k2] == total(cs@.take(j as int), month_fn(u@, g@, co, m0 + k2))
                        + month_share_upto(*c, u@, g@, co, m0 + k2, i + 1) by {
                        assert(key_at(*c, u@, i as int) != g@);
                    }
                }
            }
            i += 1;
        }
        proof {
            assert forall|k2: int| 0 <= k2 < len implies #[trigger] bins@[k2] == total(cs@.take(j + 1), month_fn(u@, g@, co, m0 + k2)) by {
                lemma_total_step(cs@, month_fn(u@, g@, co, m0 + k2), j as int);
            }
        }
        j += 1;
    }
    proof {
        assert(cs@.take(j as int) =~= cs@);
    }
    bins
}

/// The view of a member list.
pub open spec fn mview(v: Seq<(String, u32)>) -> Seq<(Seq<char>, nat)> {
    v.map_values(|e: (String, u32)| (e.0@, e.1 as nat))
}

proof fn lemma_members_len(cs: Seq<Contributor>, u: Seq<char>, g: Seq<char>)
    ensures
        members_of(cs, u, g).len() <= cs.len(),
    decreases cs.len(),
{
    if cs.len() > 0 {
        lemma_members_len(cs.drop_last(), u, g);
    }
}

/// The group's members, in order.
fn group_members(cs: &[Contributor], u: &[char], g: &[char]) -> (r: Vec<(String, u32)>)
    requires
        aggregate_ok(cs@, u@),
    ensures
        mview(r@) == members_of(cs@, u@, g@),
{
    let mut r: Vec<(String, u32)> = Vec::new();
    let mut j: usize = 0;
    while j < cs.len()
        invariant
            j <= cs@.len(),
            aggregate_ok(cs@, u@),
            mview(r@) == members_of(cs@.take(j as int), u@, g@),
        decreases cs@.len() - j,
    {
        let c = &cs[j];
        proof {
            assert(cs@.take(j + 1).drop_last() =~= cs@.take(j as int));
            lemma_total_term(cs@, share_fn(u@, g@, false), j as int);
        }
        let s = contributor_share(c, u, g, false);
        let member = if c.month_groups.is_none() {
            let dk = default_key_of(c, u);
            seq_eq(&dk, g)
        } else {
            s > 0
        };
        if member {
            let ghost r0 = r@;
            r.push((c.name.clone(), s));
            assert(mview(r@) =~= mview(r0).push((c.name@, s as nat)));
        }
        j += 1;
    }
    assert(cs@.take(j as int) =~= cs@);
    r
}

/// The members stably sorted by count, largest first.
fn sort_members(v: &Vec<(String, u32)>) -> (r: Vec<(String, u32)>)
    ensures
        mview(r@) == sort_desc(mview(v@)),
{
    let mut r: Vec<(String, u32)> = Vec::new();
    let mut i: usize = 0;
    while i < v.len()
        invariant
            i <= v@.len(),
            mview(r@) == sort_desc(mview(v@).take(i as int)),
        decreases v@.len() - i,
    {
        let x = (v[i].0.clone(), v[i].1);
        let mut p: usize = r.len();
        while p > 0 && r[p - 1].1 < x.1
            invariant
                p <= r@.len(),
                forall|q: int| p <= q < r@.len() ==> (#[trigger] r@[q]).1 < x.1,
            decreases p,
        {
            p -= 1;
        }
        let ghost r0 = mview(r@);
        let ghost xv = (x.0@, x.1 as nat);
        proof {
            assert forall|q: int| p <= q < r0.len() implies (#[trigger] r0[q]).1 < xv.1 by {
                assert(r@[q].1 < x.1);
            }
            lemma_insert_desc(r0, xv, p as int);
            assert(mview(v@).take(i + 1).drop_last() =~= mview(v@).take(i as int));
            assert(mview(v@).take(i + 1).last() == xv);
        }
        r.insert(p, x);
        assert(mview(r@) =~= r0.take(p as int) + seq![xv] + r0.skip(p as int));
        i += 1;
    }
    assert(mview(v@).take(i as int) =~= mview(v@));
    r
}

/// The names of the first (at most eight) members.
fn leading_names(sorted: &Vec<(String, u32)>) -> (r: Vec<String>)
    ensures
        r@.map_values(|s: String| s@) == mview(sorted@).take(
            if sorted@.len() < 8 {
                sorted@.len() as int
            } else {
                8
            },
        ).map_values(|e: (Seq<char>, nat)| e.0),
{
    let n: usize = if sorted.len() < 8 {
        sorted.len()
    } else {
        8
    };
    let mut r: Vec<String> = Vec::new();
    let mut i: usize = 0;
    while i < n
        invariant
            i <= n <= sorted@.len(),
            r@.map_values(|s: String| s@) == mview(sorted@).take(i as int).map_values(|e: (Seq<char>, nat)| e.0),
        decreases n - i,
    {
        let ghost r0 = r@;
        r.push(sorted[i].0.clone());
        assert(r@.map_values(|s: String| s@) =~= mview(sorted@).take(i + 1).map_values(|e: (Seq<char>, nat)| e.0)) by {
            assert(r@.map_values(|s: String| s@) =~= r0.map_values(|s: String| s@).push(sorted@[i as int].0@));
        }
        i += 1;
    }
    r
}

/// The aggregate row of group `g`.
fn group_row_for(cs: &[Contributor], u: &[char], g: &Vec<char>) -> (r: Contributor)
    requires
        aggregate_ok(cs@, u@),
    ensures
        group_row(cs@, u@, g@, r),
{
    let commits = group_total(cs, u, g, false);
    let co_commits = group_total(cs, u, g, true);
    let (first, last) = group_bounds(cs, u, g);
    let mb = month_bounds(cs, u, g, false);
    let (m0, m1): (i64, i64) = match mb {
        Some((a, b)) => (a, b),
        None => {
            let m = month_index(first) as i64;
            (m, m)
        },
    };
    let d: i64 = m1 - m0 + 1;
    let len: usize = if d < 1 {
        1
    } else if d > 6000 {
        6000
    } else {
        d as usize
    };
    let months = group_bins(cs, u, g, false, m0, len);
    let co_months = if month_bounds(cs, u, g, true).is_some() {
        group_bins(cs, u, g, true, m0, len)
    } else {
        Vec::new()
    };
    let members = group_members(cs, u, g);
    proof {
        lemma_members_len(cs@, u@, g@);
    }
    let member_count = members.len() as u32;
    let sorted = sort_members(&members);
    let member_names = leading_names(&sorted);
    proof {
        match mb {
            Some((a, b)) => {
                assert(has_month(cs@, u@, g@, false)) by {
                    assert(month_total(cs@, u@, g@, false, a as int) > 0);
                }
                assert(last_month(cs@, u@, g@, b as int));
                assert(months@.len() == span_bins(a as int, b as int));
                assert((a as i32) as int == a as int);
                assert(last_month(cs@, u@, g@, b as int) && months@.len() == span_bins((a as i32) as int, b as int));
            },
            None => {},
        }
    }
    Contributor {
        name: string_of(g),
        login: None,
        avatar: None,
        url: None,
        first,
        last,
        commits,
        bot: false,
        group: Some(string_of(g)),
        members: member_count,
        member_names,
        m0: m0 as i32,
        months,
        co_months,
        co_commits,
        month_groups: None,
    }
}

/// The active months of `v` put their groups into `active_keys`.
proof fn lemma_active_keys_has(c: Contributor, u: Seq<char>, v: Seq<u32>, n: int, i: int)
    requires
        0 <= i < n,
        v[i] > 0,
    ensures
        active_keys(c, u, v, n).contains(key_at(c, u, i)),
    decreases n,
{
    if i < n - 1 {
        lemma_active_keys_has(c, u, v, n - 1, i);
        let p = active_keys(c, u, v, n - 1);
        let q = choose|q: int| 0 <= q < p.len() && p[q] == key_at(c, u, i);
        if v[n - 1] > 0 {
            assert(p.push(key_at(c, u, n - 1))[q] == key_at(c, u, i));
        }
    } else {
        let p = active_keys(c, u, v, n - 1);
        assert(p.push(key_at(c, u, i))[p.len() as int] == key_at(c, u, i));
    }
}

/// Every group a contributor touches is among all the groups met.
proof fn lemma_events_has(cs: Seq<Contributor>, u: Seq<char>, j: int, x: Seq<char>)
    requires
        0 <= j < cs.len(),
        key_events(cs[j], u).contains(x),
    ensures
        events(cs, u).contains(x),
    decreases cs.len(),
{
    let p = events(cs.drop_last(), u);
    let e = key_events(cs.last(), u);
    if j < cs.len() - 1 {
        assert(cs.drop_last()[j] == cs[j]);
        lemma_events_has(cs.drop_last(), u, j, x);
        let q = choose|q: int| 0 <= q < p.len() && p[q] == x;
        assert((p + e)[q] == x);
    } else {
        let q = choose|q: int| 0 <= q < e.len() && e[q] == x;
        assert((p + e)[p.len() + q] == x);
    }
}

/// Removing repeats keeps every value.
proof fn lemma_dedup_has(s: Seq<Seq<char>>, x: Seq<char>)
    requires
        s.contains(x),
    ensures
        dedup(s).contains(x),
    decreases s.len(),
{
    let d = dedup(s.drop_last());
    if s.last() == x {
        if !d.contains(x) {
            assert(d.push(x)[d.len() as int] == x);
        }
    } else {
        let q = choose|q: int| 0 <= q < s.len() && s[q] == x;
        assert(s.drop_last()[q] == x);
        lemma_dedup_has(s.drop_last(), x);
        if !d.contains(s.last()) {
            let q2 = choose|q2: int| 0 <= q2 < d.len() && d[q2] == x;
            assert(d.push(s.last())[q2] == x);
        }
    }
}

/// A month counted towards `g` contributes its commits to `g`'s sum.
proof fn lemma_keyed_sum_has(c: Contributor, u: Seq<char>, g: Seq<char>, v: Seq<u32>, n: int, i: int)
    requires
        0 <= i < n,
        key_at(c, u, i) == g,
    ensures
        keyed_sum(c, u, g, v, n) >= v[i],
    decreases n,
{
    if i < n - 1 {
        lemma_keyed_sum_has(c, u, g, v, n - 1, i);
    }
    lemma_keyed_sum_mono(c, u, g, v, i + 1, n);
}

/// Dated affiliations split a contributor's commits by date: a month with
/// commits that the contributor's per-month groups give to a group puts
/// that group among the rows, with at least that month's commits.
pub proof fn law_dated_months_split(cs: Seq<Contributor>, u: Seq<char>, out: Seq<Contributor>, j: int, i: int)
    requires
        out.len() == group_order(cs, u).len(),
        forall|k: int| 0 <= k < out.len() ==> group_row(cs, u, group_order(cs, u)[k], #[trigger] out[k]),
        0 <= j < cs.len(),
        cs[j].month_groups matches Some(mg) && 0 <= i < mg@.len() && mg@[i] is Some,
        0 <= i < cs[j].months@.len(),
        cs[j].months@[i] > 0,
    ensures
        exists|k: int|
            0 <= k < out.len() && (#[trigger] out[k]).name@ == cs[j].month_groups->0@[i]->0@ && out[k].commits
                >= cs[j].months@[i],
{
    let c = cs[j];
    let g = c.month_groups->0@[i]->0@;
    assert(key_at(c, u, i) == g);
    lemma_active_keys_has(c, u, c.months@, c.months@.len() as int, i);
    let a = active_keys(c, u, c.months@, c.months@.len() as int);
    let b = active_keys(c, u, c.co_months@, c.co_months@.len() as int);
    let q = choose|q: int| 0 <= q < a.len() && a[q] == g;
    assert((a + b)[q] == g);
    assert(key_events(c, u).contains(g));
    lemma_events_has(cs, u, j, g);
    lemma_dedup_has(events(cs, u), g);
    let order = group_order(cs, u);
    let k = choose|k: int| 0 <= k < order.len() && order[k] == g;
    assert(group_row(cs, u, order[k], out[k]));
    lemma_keyed_sum_has(c, u, g, c.months@, c.months@.len() as int, i);
    assert(share(c, u, g, false) >= c.months@[i]);
    lemma_total_term(cs, share_fn(u, g, false), j);
    assert(out[k].commits >= c.months@[i]);
}

/// Collapse contributors into one row per affiliation, in order of first
/// appearance. People without a detected group fall into a single bucket
/// labelled `unaffiliated`; people whose affiliation changes over time have
/// each active month counted towards the group of that month.
pub fn aggregate_by_group(contributors: &[Contributor], unaffiliated: &str) -> (out: Vec<Contributor>)
    requires
        aggregate_ok(contributors@, unaffiliated@),
    ensures
        out@.len() == group_order(contributors@, unaffiliated@).len(),
        forall|k: int| 0 <= k < out@.len() ==> group_row(
            contributors@,
            unaffiliated@,
            group_order(contributors@, unaffiliated@)[k],
            #[trigger] out@[k],
        ),
        forall|j: int, i: int|
            0 <= j < contributors@.len() && 0 <= i < contributors@[j].months@.len() && #[trigger] contributors@[j].months@[i]
                > 0 && (contributors@[j].month_groups matches Some(mg) && 0 <= i < mg@.len() && mg@[i] is Some) ==> exists|k: int|
                0 <= k < out@.len() && (#[trigger] out@[k]).name@ == contributors@[j].month_groups->0@[i]->0@
                    && out@[k].commits >= contributors@[j].months@[i],
{
    let u = chars_of(unaffiliated);
    let order = group_keys(contributors, &u);
    let ghost ov = order@.map_values(|k: Vec<char>| k@);
    let mut out: Vec<Contributor> = Vec::new();
    let mut k: usize = 0;
    while k < order.len()
        invariant
            k <= order@.len(),
            u@ == unaffiliated@,
            ov == order@.map_values(|k: Vec<char>| k@),
            ov == group_order(contributors@, unaffiliated@),
            aggregate_ok(contributors@, unaffiliated@),
            out@.len() == k,
            forall|k2: int| 0 <= k2 < k ==> group_row(contributors@, unaffiliated@, ov[k2], #[trigger] out@[k2]),
        decreases order@.len() - k,
    {
        let row = group_row_for(contributors, &u, &order[k]);
        assert(ov[k as int] == order@[k as int]@);
        out.push(row);
        k += 1;
    }
    proof {
        assert forall|j: int, i: int|
            0 <= j < contributors@.len() && 0 <= i < contributors@[j].months@.len() && #[trigger] contributors@[j].months@[i]
                > 0 && (contributors@[j].month_groups matches Some(mg) && 0 <= i < mg@.len() && mg@[i] is Some) implies exists|k: int|
                0 <= k < out@.len() && (#[trigger] out@[k]).name@ == contributors@[j].month_groups->0@[i]->0@
                    && out@[k].commits >= contributors@[j].months@[i] by {
            law_dated_months_split(contributors@, unaffiliated@, out@, j, i);
        }
    }
    out
}
} // verus!
