//! The pieces of the static SVG timeline that are not layout: escaping,
//! avatar initials and hues, group colours and legend, and the bars of a
//! contributor with changing affiliations.
use vstd::prelude::*;
use vstd::utf8::encode_utf8;
use crate::model::{Contributor, month_before, month_of, month_start_at, valid_year, format_month_year, opt_view, thousands, thousands_spec, utc_first_of_month, utc_month_start, utc_month_year_label};
use crate::text::{decimal, u64_to_string};
use crate::text::{string_of, str_eq, seq_eq, seq_lt, seq_lt_exec, position_of, chars_of, is_whitespace, push_char, push_str, to_uppercase, unicode_uppercase_str, unicode_whitespace};

verus! {

// ---------------------------------------------------------------------------
// Palettes
// ---------------------------------------------------------------------------
/// Group colours, in rank order.
pub open spec fn group_palette() -> Seq<Seq<char>> {
    seq![
        "#4269d0"@, "#e7a13d"@, "#ff725c"@, "#6cc5b0"@, "#3ca951"@, "#ff8ab7"@, "#a463f2"@, "#97bbf5"@,
        "#9c6b4e"@, "#9498a0"@, "#2f7f8f"@, "#c65b8a"@,
    ]
}

/// Group colours, in rank order.
pub fn group_palette_exec() -> (r: Vec<&'static str>)
    ensures
        r@.map_values(|s: &str| s@) == group_palette(),
{
    let r = vec![
        "#4269d0", "#e7a13d", "#ff725c", "#6cc5b0", "#3ca951", "#ff8ab7", "#a463f2", "#97bbf5",
        "#9c6b4e", "#9498a0", "#2f7f8f", "#c65b8a",
    ];
    assert(r@.map_values(|s: &str| s@) =~= group_palette());
    r
}

/// Flat, saturated, distinct per-row colours for the Wikipedia "band
/// members" look.
pub open spec fn band_palette() -> Seq<Seq<char>> {
    seq![
        "#2a64c4"@, "#d23a2e"@, "#2f9e44"@, "#e8910c"@, "#8a39b0"@, "#0e9aa7"@, "#d23a8e"@, "#6aa70e"@,
        "#3b4cc0"@, "#c0561e"@, "#1ba0c4"@, "#d6498b"@,
    ]
}

/// Flat per-row colours for the Wikipedia look.
pub fn band_palette_exec() -> (r: Vec<&'static str>)
    ensures
        r@.map_values(|s: &str| s@) == band_palette(),
{
    let r = vec![
        "#2a64c4", "#d23a2e", "#2f9e44", "#e8910c", "#8a39b0", "#0e9aa7", "#d23a8e", "#6aa70e",
        "#3b4cc0", "#c0561e", "#1ba0c4", "#d6498b",
    ];
    assert(r@.map_values(|s: &str| s@) =~= band_palette());
    r
}

/// The colour shared by groups outside the top ranks.
pub open spec fn other_group_color() -> Seq<char> {
    "#9aa3ad"@
}

/// How many groups get a colour of their own.
pub const MAX_GROUP_COLORS: usize = 10;

// ---------------------------------------------------------------------------
// Escaping
// ---------------------------------------------------------------------------
/// The markup for one character of text in an attribute or element.
pub open spec fn esc_char(c: char) -> Seq<char> {
    if c == '&' {
        "&amp;"@
    } else if c == '<' {
        "&lt;"@
    } else if c == '>' {
        "&gt;"@
    } else if c == '"' {
        "&quot;"@
    } else {
        seq![c]
    }
}

/// `s` escaped for XML: `&`, `<`, `>` and `"` replaced by entities.
pub open spec fn escaped(s: Seq<char>) -> Seq<char>
    decreases s.len(),
{
    if s.len() == 0 {
        Seq::empty()
    } else {
        escaped(s.drop_last()) + esc_char(s.last())
    }
}

/// Escaped text holds no `<`, `>` or `"`, so it can neither open markup nor
/// leave an attribute value.
pub proof fn law_escaped_is_inert(s: Seq<char>)
    ensures
        forall|k: int|
            0 <= k < escaped(s).len() ==> #[trigger] escaped(s)[k] != '<' && escaped(s)[k] != '>' && escaped(s)[k]
                != '"',
    decreases s.len(),
{
    reveal_strlit("&amp;");
    reveal_strlit("&lt;");
    reveal_strlit("&gt;");
    reveal_strlit("&quot;");
    if s.len() > 0 {
        law_escaped_is_inert(s.drop_last());
        let p = escaped(s.drop_last());
        let e = esc_char(s.last());
        assert forall|k: int| 0 <= k < escaped(s).len() implies #[trigger] escaped(s)[k] != '<' && escaped(s)[k]
            != '>' && escaped(s)[k] != '"' by {
            if k < p.len() {
                assert(escaped(s)[k] == p[k]);
            } else {
                assert(escaped(s)[k] == e[k - p.len()]);
            }
        }
    }
}

/// Escape text for SVG markup.
pub fn esc(s: &str) -> (r: String)
    ensures
        r@ == escaped(s@),
{
    let cs = chars_of(s);
    let mut out = String::new();
    let mut i: usize = 0;
    while i < cs.len()
        invariant
            i <= cs@.len(),
            cs@ == s@,
            out@ == escaped(cs@.take(i as int)),
        decreases cs@.len() - i,
    {
        let c = cs[i];
        proof {
            assert(cs@.take(i + 1).drop_last() =~= cs@.take(i as int));
        }
        if c == '&' {
            push_str(&mut out, "&amp;");
        } else if c == '<' {
            push_str(&mut out, "&lt;");
        } else if c == '>' {
            push_str(&mut out, "&gt;");
        } else if c == '"' {
            push_str(&mut out, "&quot;");
        } else {
            push_char(&mut out, c);
        }
        i += 1;
    }
    assert(cs@.take(i as int) =~= cs@);
    out
}

// ---------------------------------------------------------------------------
// Avatars
// ---------------------------------------------------------------------------
/// The first character of each whitespace-separated word of `s`, in order.
pub open spec fn word_initials(s: Seq<char>) -> Seq<char>
    decreases s.len(),
{
    if s.len() == 0 {
        Seq::empty()
    } else {
        let p = word_initials(s.drop_last());
        if !unicode_whitespace(s.last()) && (s.len() == 1 || unicode_whitespace(s[s.len() - 2])) {
            p.push(s.last())
        } else {
            p
        }
    }
}

/// The initials shown in an avatar disc: the first letters of the first and
/// last words (or of the only word, or `?`), uppercased.
pub open spec fn initials_of(name: Seq<char>) -> Seq<char> {
    let w = word_initials(name);
    unicode_uppercase_str(
        if w.len() == 0 {
            seq!['?']
        } else if w.len() == 1 {
            seq![w[0]]
        } else {
            seq![w[0], w.last()]
        },
    )
}

/// Avatar initials for a name.
pub fn initials(name: &str) -> (r: String)
    ensures
        r@ == initials_of(name@),
{
    let cs = chars_of(name);
    let mut first: Option<char> = None;
    let mut last: Option<char> = None;
    let mut count: usize = 0;
    let mut i: usize = 0;
    while i < cs.len()
        invariant
            i <= cs@.len(),
            cs@ == name@,
            count == word_initials(cs@.take(i as int)).len(),
            count <= i,
            count > 0 ==> first == Some(word_initials(cs@.take(i as int))[0]),
            count == 0 ==> first is None,
            count > 0 ==> last == Some(word_initials(cs@.take(i as int)).last()),
        decreases cs@.len() - i,
    {
        let ghost w0 = word_initials(cs@.take(i as int));
        proof {
            assert(cs@.take(i + 1).drop_last() =~= cs@.take(i as int));
            if i > 0 {
                assert(cs@.take(i + 1)[i - 1] == cs@[i - 1]);
            }
        }
        let starts = !is_whitespace(cs[i]) && (i == 0 || is_whitespace(cs[i - 1]));
        if starts {
            if count == 0 {
                first = Some(cs[i]);
            }
            last = Some(cs[i]);
            count += 1;
            proof {
                assert(word_initials(cs@.take(i + 1)) == w0.push(cs@[i as int]));
            }
        }
        i += 1;
    }
    assert(cs@.take(i as int) =~= cs@);
    let mut s = String::new();
    match first {
        Some(a) => {
            push_char(&mut s, a);
            if count >= 2 {
                match last {
                    Some(b) => push_char(&mut s, b),
                    None => {},
                }
            }
        },
        None => push_char(&mut s, '?'),
    }
    proof {
        let w = word_initials(name@);
        if w.len() == 0 {
            assert(s@ =~= seq!['?']);
        } else if w.len() == 1 {
            assert(s@ =~= seq![w[0]]);
        } else {
            assert(s@ =~= seq![w[0], w.last()]);
        }
    }
    to_uppercase(s.as_str())
}

/// The FNV-1a hash of a byte string.
pub open spec fn fnv1a(bytes: Seq<u8>) -> u32
    decreases bytes.len(),
{
    if bytes.len() == 0 {
        2166136261
    } else {
        ((((fnv1a(bytes.drop_last()) ^ (bytes.last() as u32)) as nat) * 16777619nat) % 4294967296nat) as u32
    }
}

/// A stable hue (0..360) for a name: FNV-1a of its UTF-8 bytes.
pub fn hash_hue(name: &str) -> (r: u32)
    ensures
        r == fnv1a(encode_utf8(name@)) % 360,
{
    let bytes = name.as_bytes();
    let mut h: u32 = 2166136261;
    let mut i: usize = 0;
    while i < bytes.len()
        invariant
            i <= bytes@.len(),
            bytes@ == encode_utf8(name@),
            h == fnv1a(bytes@.take(i as int)),
        decreases bytes@.len() - i,
    {
        proof {
            assert(bytes@.take(i + 1).drop_last() =~= bytes@.take(i as int));
        }
        h = h ^ (bytes[i] as u32);
        h = h.wrapping_mul(16777619);
        i += 1;
    }
    assert(bytes@.take(i as int) =~= bytes@);
    h % 360
}


/// The unix timestamp of midnight UTC on 1 January of `year` (0 when chrono
/// cannot represent it).
pub fn year_ts(year: i32) -> (r: i64)
    ensures
        r == match utc_month_start(year, 1) {
            Some(t) => t,
            None => 0,
        },
        utc_month_start(year, 1) is Some == valid_year(year as int),
        utc_month_start(year, 1) is Some ==> month_of(r) == (year - 1970) * 12 && forall|p: (i32, u32)|
            #[trigger] month_start_at(p) matches Some(t2) ==> (month_before(p.0, p.1, year, 1) ==> t2 < r) && (
            month_before(year, 1, p.0, p.1) ==> r < t2),
{
    match utc_first_of_month(year, 1) {
        Some(t) => t,
        None => 0,
    }
}

// ---------------------------------------------------------------------------
// Affiliation runs
// ---------------------------------------------------------------------------
/// The group of month `k` of a contributor's bars: its per-month group when
/// its affiliation changes over time, else its group.
pub open spec fn run_group(c: Contributor, k: int) -> Option<Seq<char>> {
    match c.month_groups {
        Some(mg) => if 0 <= k < mg@.len() {
            opt_view(mg@[k])
        } else {
            None
        },
        None => opt_view(c.group),
    }
}

/// The last month of the bar period starting at month `i`: the end of the
/// run of months with the same group when the affiliation changes over
/// time, else the last month.
pub open spec fn seg_end(c: Contributor, i: int) -> int
    decreases c.months@.len() - i,
{
    if c.month_groups is None {
        c.months@.len() - 1
    } else if 0 <= i && i + 1 < c.months@.len() && run_group(c, i + 1) == run_group(c, i) {
        seg_end(c, i + 1)
    } else {
        i
    }
}

/// The first month in `[i, j]` with commits (`j + 1` if none).
pub open spec fn first_active(m: Seq<u32>, i: int, j: int) -> int
    decreases j + 1 - i,
{
    if i > j {
        j + 1
    } else if m[i] > 0 {
        i
    } else {
        first_active(m, i + 1, j)
    }
}

/// The last month in `[i, j]` with commits (`i - 1` if none).
pub open spec fn last_active(m: Seq<u32>, i: int, j: int) -> int
    decreases j + 1 - i,
{
    if i > j {
        i - 1
    } else if m[j] > 0 {
        j
    } else {
        last_active(m, i, j - 1)
    }
}

proof fn lemma_seg_end(c: Contributor, i: int)
    requires
        0 <= i < c.months@.len(),
    ensures
        i <= seg_end(c, i) < c.months@.len(),
    decreases c.months@.len() - i,
{
    if c.month_groups is Some && i + 1 < c.months@.len() && run_group(c, i + 1) == run_group(c, i) {
        lemma_seg_end(c, i + 1);
    }
}

/// A contributor's bars from month `i` on: for each period, its group and
/// first and last months with commits; periods without commits give none.
pub open spec fn runs_from(c: Contributor, i: int) -> Seq<(Option<Seq<char>>, int, int)>
    decreases c.months@.len() - i,
{
    if i < 0 || i >= c.months@.len() {
        Seq::empty()
    } else {
        let j = seg_end(c, i);
        if j < i || j >= c.months@.len() {
            Seq::empty()
        } else {
            let rest = runs_from(c, j + 1);
            let a = first_active(c.months@, i, j);
            if a <= j {
                seq![(run_group(c, i), a, last_active(c.months@, i, j))] + rest
            } else {
                rest
            }
        }
    }
}

/// The view of a list of bars.
pub open spec fn runs_view(v: Seq<(Option<String>, usize, usize)>) -> Seq<(Option<Seq<char>>, int, int)> {
    v.map_values(|r: (Option<String>, usize, usize)| (opt_view(r.0), r.1 as int, r.2 as int))
}

/// The group of month `k` of a contributor's bars.
fn group_at(c: &Contributor, k: usize) -> (r: Option<String>)
    ensures
        opt_view(r) == run_group(*c, k as int),
{
    match &c.month_groups {
        Some(mg) => {
            if k < mg.len() {
                match &mg[k] {
                    Some(g) => Some(g.clone()),
                    None => None,
                }
            } else {
                None
            }
        },
        None => match &c.group {
            Some(g) => Some(g.clone()),
            None => None,
        },
    }
}

/// Whether two optional strings hold the same text.
fn same_opt(a: &Option<String>, b: &Option<String>) -> (r: bool)
    ensures
        r == (opt_view(*a) == opt_view(*b)),
{
    match (a, b) {
        (Some(x), Some(y)) => str_eq(x.as_str(), y.as_str()),
        (None, None) => true,
        _ => false,
    }
}

proof fn lemma_first_active(m: Seq<u32>, i: int, j: int, k: int)
    requires
        i <= k <= j + 1,
        forall|q: int| i <= q < k ==> m[q] == 0,
        k == j + 1 || m[k] > 0,
    ensures
        first_active(m, i, j) == k,
    decreases k - i,
{
    if i < k {
        lemma_first_active(m, i + 1, j, k);
    }
}

proof fn lemma_last_active(m: Seq<u32>, i: int, j: int, k: int)
    requires
        i - 1 <= k <= j,
        forall|q: int| k < q <= j ==> m[q] == 0,
        k == i - 1 || m[k] > 0,
    ensures
        last_active(m, i, j) == k,
    decreases j - k,
{
    if k < j {
        lemma_last_active(m, i, j - 1, k);
    }
}

/// A contributor's bars: each contiguous affiliation period (when they have
/// time-bounded affiliations) or the single active span, as
/// `(group, first active month, last active month)` indices into `months`.
pub fn affiliation_runs(c: &Contributor) -> (r: Vec<(Option<String>, usize, usize)>)
    ensures
        runs_view(r@) == runs_from(*c, 0),
{
    let nm = c.months.len();
    let split = c.month_groups.is_some();
    let mut runs: Vec<(Option<String>, usize, usize)> = Vec::new();
    let mut i: usize = 0;
    while i < nm
        invariant
            nm == c.months@.len(),
            split == (c.month_groups is Some),
            i <= nm,
            runs_view(runs@) + runs_from(*c, i as int) == runs_from(*c, 0),
        decreases nm - i,
    {
        let g = group_at(c, i);
        let mut j: usize = if split {
            i
        } else {
            nm - 1
        };
        if split {
            while j + 1 < nm && same_opt(&group_at(c, j + 1), &g)
                invariant
                    i <= j < nm,
                    nm == c.months@.len(),
                    c.month_groups is Some,
                    opt_view(g) == run_group(*c, i as int),
                    seg_end(*c, i as int) == seg_end(*c, j as int),
                    forall|q: int| i <= q <= j ==> run_group(*c, q) == run_group(*c, i as int),
                decreases nm - j,
            {
                j += 1;
            }
        }
        proof {
            lemma_seg_end(*c, i as int);
            assert(seg_end(*c, i as int) == j as int);
        }
        let mut start: Option<usize> = None;
        let mut end: usize = 0;
        let mut k: usize = i;
        while k < j + 1
            invariant
                i <= k <= j + 1,
                j < nm == c.months@.len(),
                match start {
                    Some(a) => i <= a < k && first_active(c.months@, i as int, j as int) == a && c.months@[end as int] > 0
                        && a <= end < k && forall|q: int| end < q < k ==> c.months@[q] == 0,
                    None => forall|q: int| i <= q < k ==> c.months@[q] == 0,
                },
            decreases j + 1 - k,
        {
            if c.months[k] > 0 {
                if start.is_none() {
                    proof {
                        lemma_first_active(c.months@, i as int, j as int, k as int);
                    }
                    start = Some(k);
                }
                end = k;
            }
            k += 1;
        }
        let ghost rest = runs_from(*c, j + 1);
        proof {
            assert(runs_from(*c, i as int) == if first_active(c.months@, i as int, j as int) <= j {
                seq![(run_group(*c, i as int), first_active(c.months@, i as int, j as int), last_active(c.months@, i as int, j as int))] + rest
            } else {
                rest
            });
        }
        match start {
            Some(a) => {
                proof {
                    lemma_last_active(c.months@, i as int, j as int, end as int);
                }
                let ghost r0 = runs@;
                runs.push((g, a, end));
                proof {
                    assert(runs_view(runs@) =~= runs_view(r0).push((opt_view(g), a as int, end as int)));
                    assert(runs_view(runs@) + rest =~= runs_view(r0) + (seq![(run_group(*c, i as int), a as int, end as int)] + rest));
                }
            },
            None => {
                proof {
                    lemma_first_active(c.months@, i as int, j as int, j + 1);
                }
            },
        }
        i = j + 1;
    }
    assert(runs_view(runs@) + runs_from(*c, i as int) =~= runs_view(runs@));
    runs
}

// ---------------------------------------------------------------------------
// Group colours
// ---------------------------------------------------------------------------
/// Contributor `c` shows group `g`: it is its group, or one of its
/// per-month groups.
pub open spec fn touches(c: Contributor, g: Seq<char>) -> bool {
    ||| opt_view(c.group) == Some(g)
    ||| (c.month_groups is Some && exists|k: int|
        0 <= k < c.month_groups->0@.len() && opt_view(#[trigger] c.month_groups->0@[k]) == Some(g))
}

/// How many contributors show group `g`.
pub open spec fn weight(rows: Seq<Contributor>, g: Seq<char>) -> nat
    decreases rows.len(),
{
    if rows.len() == 0 {
        0
    } else {
        weight(rows.drop_last(), g) + (if touches(rows.last(), g) {
            1nat
        } else {
            0nat
        })
    }
}

/// Group `a` ranks before group `b`: more contributors, then by name.
pub open spec fn ranks_before(rows: Seq<Contributor>, a: Seq<char>, b: Seq<char>) -> bool {
    weight(rows, a) > weight(rows, b) || (weight(rows, a) == weight(rows, b) && seq_lt(a, b))
}

/// `gs` is every group shown by some contributor, once each, in rank order.
pub open spec fn ranked(rows: Seq<Contributor>, gs: Seq<Seq<char>>) -> bool {
    &&& forall|g: Seq<char>| gs.contains(g) <==> exists|j: int| 0 <= j < rows.len() && touches(#[trigger] rows[j], g)
    &&& forall|a: int, b: int| 0 <= a < b < gs.len() ==> ranks_before(rows, #[trigger] gs[a], #[trigger] gs[b])
}

/// The colour of the group at rank `k`: its palette colour among the first
/// ten, else the shared grey.
pub open spec fn rank_color(k: int) -> Seq<char> {
    if k < MAX_GROUP_COLORS {
        group_palette()[k % 12]
    } else {
        other_group_color()
    }
}

/// The colour of every group, in rank order.
pub open spec fn colors_of(gs: Seq<Seq<char>>) -> Seq<(Seq<char>, Seq<char>)> {
    Seq::new(gs.len(), |k: int| (gs[k], rank_color(k)))
}

/// The legend: the coloured groups, then `Other` if any group shares the grey.
pub open spec fn legend_of(gs: Seq<Seq<char>>) -> Seq<(Seq<char>, Seq<char>)> {
    let n = if gs.len() < MAX_GROUP_COLORS { gs.len() as int } else { MAX_GROUP_COLORS as int };
    colors_of(gs).take(n) + (if gs.len() > MAX_GROUP_COLORS {
        seq![("Other"@, other_group_color())]
    } else {
        Seq::empty()
    })
}

proof fn lemma_ranks_order(rows: Seq<Contributor>, a: Seq<char>, b: Seq<char>, c: Seq<char>)
    ensures
        ranks_before(rows, a, b) && ranks_before(rows, b, c) ==> ranks_before(rows, a, c),
        a != b ==> ranks_before(rows, a, b) || ranks_before(rows, b, a),
        !ranks_before(rows, a, a),
{
    crate::text::lemma_seq_lt_total(a, b);
    crate::text::lemma_seq_lt_irrefl(a);
    if seq_lt(a, b) && seq_lt(b, c) {
        crate::text::lemma_seq_lt_trans(a, b, c);
    }
}

/// Whether contributor `c` shows group `g`.
fn touches_exec(c: &Contributor, g: &Vec<char>) -> (r: bool)
    ensures
        r == touches(*c, g@),
{
    match &c.group {
        Some(x) => {
            if seq_eq(&chars_of(x.as_str()), g) {
                return true;
            }
        },
        None => {},
    }
    match &c.month_groups {
        Some(mg) => {
            let mut k: usize = 0;
            while k < mg.len()
                invariant
                    k <= mg@.len(),
                    c.month_groups == Some(*mg),
                    forall|k2: int| 0 <= k2 < k ==> opt_view(#[trigger] mg@[k2]) != Some(g@),
                decreases mg@.len() - k,
            {
                match &mg[k] {
                    Some(x) => {
                        if seq_eq(&chars_of(x.as_str()), g) {
                            return true;
                        }
                    },
                    None => {},
                }
                k += 1;
            }
            false
        },
        None => false,
    }
}

proof fn lemma_weight_bound(rows: Seq<Contributor>, g: Seq<char>)
    ensures
        weight(rows, g) <= rows.len(),
    decreases rows.len(),
{
    if rows.len() > 0 {
        lemma_weight_bound(rows.drop_last(), g);
    }
}

/// How many contributors show group `g`.
fn weight_exec(rows: &[Contributor], g: &Vec<char>) -> (r: usize)
    ensures
        r == weight(rows@, g@),
{
    let mut n: usize = 0;
    let mut j: usize = 0;
    while j < rows.len()
        invariant
            j <= rows@.len(),
            n == weight(rows@.take(j as int), g@),
            n <= j,
        decreases rows@.len() - j,
    {
        proof {
            assert(rows@.take(j + 1).drop_last() =~= rows@.take(j as int));
        }
        if touches_exec(&rows[j], g) {
            n += 1;
        }
        j += 1;
    }
    assert(rows@.take(j as int) =~= rows@);
    n
}

/// The views of a list of character vectors.
pub open spec fn cviews(v: Seq<Vec<char>>) -> Seq<Seq<char>> {
    v.map_values(|x: Vec<char>| x@)
}

/// Adds `g` to `gs` unless it is there already.
fn add_distinct(gs: &mut Vec<Vec<char>>, g: Vec<char>)
    requires
        forall|a: int, b: int| 0 <= a < b < old(gs)@.len() ==> #[trigger] cviews(old(gs)@)[a] != #[trigger] cviews(old(gs)@)[b],
    ensures
        forall|x: Seq<char>| #[trigger] cviews(final(gs)@).contains(x) <==> cviews(old(gs)@).contains(x) || x == g@,
        forall|a: int, b: int| 0 <= a < b < final(gs)@.len() ==> #[trigger] cviews(final(gs)@)[a] != #[trigger] cviews(final(gs)@)[b],
{
    let ghost v0 = cviews(gs@);
    match position_of(gs, &g) {
        Some(p) => {
            proof {
                assert(v0[p as int] == g@);
            }
        },
        None => {
            let ghost gv = g@;
            gs.push(g);
            proof {
                assert(cviews(gs@) =~= v0.push(gv));
                assert forall|x: Seq<char>| #[trigger] cviews(gs@).contains(x) <==> v0.contains(x) || x == gv by {
                    if cviews(gs@).contains(x) && x != gv {
                        let q = choose|q: int| 0 <= q < gs@.len() && cviews(gs@)[q] == x;
                        assert(v0[q] == x);
                    }
                    if v0.contains(x) {
                        let q = choose|q: int| 0 <= q < v0.len() && v0[q] == x;
                        assert(cviews(gs@)[q] == x);
                    }
                    if x == gv {
                        assert(cviews(gs@)[v0.len() as int] == gv);
                    }
                }
                assert forall|a: int, b: int| 0 <= a < b < gs@.len() implies #[trigger] cviews(gs@)[a] != #[trigger] cviews(gs@)[b] by {
                    if b == v0.len() {
                        assert(v0[a] == cviews(old(gs)@)[a]);
                        assert(old(gs)@[a]@ != gv);
                    }
                }
            }
        },
    }
}

/// Every group some contributor shows, once each.
fn shown_groups(rows: &[Contributor]) -> (gs: Vec<Vec<char>>)
    ensures
        forall|x: Seq<char>| #[trigger] cviews(gs@).contains(x) <==> exists|j: int| 0 <= j < rows@.len() && touches(#[trigger] rows@[j], x),
        forall|a: int, b: int| 0 <= a < b < gs@.len() ==> #[trigger] cviews(gs@)[a] != #[trigger] cviews(gs@)[b],
{
    let mut gs: Vec<Vec<char>> = Vec::new();
    let mut j: usize = 0;
    while j < rows.len()
        invariant
            j <= rows@.len(),
            forall|x: Seq<char>| #[trigger] cviews(gs@).contains(x) <==> exists|j2: int| 0 <= j2 < j && touches(#[trigger] rows@[j2], x),
            forall|a: int, b: int| 0 <= a < b < gs@.len() ==> #[trigger] cviews(gs@)[a] != #[trigger] cviews(gs@)[b],
        decreases rows@.len() - j,
    {
        let c = &rows[j];
        let ghost before = cviews(gs@);
        match &c.group {
            Some(g) => add_distinct(&mut gs, chars_of(g.as_str())),
            None => {},
        }
        let ghost mid = cviews(gs@);
        match &c.month_groups {
            Some(mg) => {
                let mut k: usize = 0;
                while k < mg.len()
                    invariant
                        k <= mg@.len(),
                        forall|x: Seq<char>| #[trigger] cviews(gs@).contains(x) <==> mid.contains(x) || exists|k2: int|
                            0 <= k2 < k && opt_view(#[trigger] mg@[k2]) == Some(x),
                        forall|a: int, b: int| 0 <= a < b < gs@.len() ==> #[trigger] cviews(gs@)[a] != #[trigger] cviews(gs@)[b],
                    decreases mg@.len() - k,
                {
                    let ghost g0 = cviews(gs@);
                    match &mg[k] {
                        Some(g) => {
                            add_distinct(&mut gs, chars_of(g.as_str()));
                            proof {
                                assert forall|x: Seq<char>| #[trigger] cviews(gs@).contains(x) <==> mid.contains(x) || exists|k2: int|
                                    0 <= k2 < k + 1 && opt_view(#[trigger] mg@[k2]) == Some(x) by {
                                    if x == g@ {
                                        assert(opt_view(mg@[k as int]) == Some(x));
                                    }
                                    if exists|k2: int| 0 <= k2 < k + 1 && opt_view(#[trigger] mg@[k2]) == Some(x) {
                                        let k2 = choose|k2: int| 0 <= k2 < k + 1 && opt_view(#[trigger] mg@[k2]) == Some(x);
                                        if k2 < k {
                                            assert(g0.contains(x));
                                        }
                                    }
                                }
                            }
                        },
                        None => {
                            proof {
                                assert forall|x: Seq<char>| #[trigger] cviews(gs@).contains(x) <==> mid.contains(x) || exists|k2: int|
                                    0 <= k2 < k + 1 && opt_view(#[trigger] mg@[k2]) == Some(x) by {
                                    if exists|k2: int| 0 <= k2 < k + 1 && opt_view(#[trigger] mg@[k2]) == Some(x) {
                                        let k2 = choose|k2: int| 0 <= k2 < k + 1 && opt_view(#[trigger] mg@[k2]) == Some(x);
                                        assert(k2 < k);
                                    }
                                }
                            }
                        },
                    }
                    k += 1;
                }
            },
            None => {},
        }
        proof {
            assert forall|x: Seq<char>| #[trigger] cviews(gs@).contains(x) <==> exists|j2: int|
                0 <= j2 < j + 1 && touches(#[trigger] rows@[j2], x) by {
                if touches(rows@[j as int], x) {
                    if c.month_groups is Some && opt_view(c.group) != Some(x) {
                        let k2 = choose|k2: int|
                            0 <= k2 < c.month_groups->0@.len() && opt_view(#[trigger] c.month_groups->0@[k2]) == Some(x);
                        assert(cviews(gs@).contains(x));
                    }
                }
                if exists|j2: int| 0 <= j2 < j + 1 && touches(#[trigger] rows@[j2], x) {
                    let j2 = choose|j2: int| 0 <= j2 < j + 1 && touches(#[trigger] rows@[j2], x);
                    if j2 < j {
                        assert(before.contains(x));
                    }
                }
            }
        }
        j += 1;
    }
    gs
}

/// Assign palette colours to the most common groups; the long tail shares a
/// neutral grey. Returns the colour of every group and the legend entries,
/// both in rank order (most contributors first, ties by name).
pub fn group_colors(rows: &[Contributor]) -> (r: (Vec<(String, String)>, Vec<(String, String)>))
    ensures
        exists|gs: Seq<Seq<char>>|
            ranked(rows@, gs) && pairs(r.0@) == colors_of(gs) && pairs(r.1@) == legend_of(gs),
{
    let gs = shown_groups(rows);
    // rank them: insertion into a list kept in rank order
    let mut sorted: Vec<(Vec<char>, usize)> = Vec::new();
    let mut i: usize = 0;
    while i < gs.len()
        invariant
            i <= gs@.len(),
            forall|a: int, b: int| 0 <= a < b < gs@.len() ==> #[trigger] cviews(gs@)[a] != #[trigger] cviews(gs@)[b],
            sorted@.len() == i,
            forall|q: int| 0 <= q < sorted@.len() ==> (#[trigger] sorted@[q]).1 == weight(rows@, sorted@[q].0@),
            forall|x: Seq<char>| #[trigger] names_of(sorted@).contains(x) <==> cviews(gs@).take(i as int).contains(x),
            forall|a: int, b: int| 0 <= a < b < sorted@.len() ==> ranks_before(rows@, (#[trigger] sorted@[a]).0@, (#[trigger] sorted@[b]).0@),
        decreases gs@.len() - i,
    {
        let name = copy_chars(&gs[i]);
        let w = weight_exec(rows, &name);
        let mut q: usize = 0;
        while q < sorted.len() && !(w > sorted[q].1 || (w == sorted[q].1 && seq_lt_exec(&name, &sorted[q].0)))
            invariant
                q <= sorted@.len(),
                w == weight(rows@, name@),
                forall|q2: int| 0 <= q2 < sorted@.len() ==> (#[trigger] sorted@[q2]).1 == weight(rows@, sorted@[q2].0@),
                forall|q2: int| 0 <= q2 < q ==> !ranks_before(rows@, name@, (#[trigger] sorted@[q2]).0@),
            decreases sorted@.len() - q,
        {
            q += 1;
        }
        let ghost s0 = sorted@;
        proof {
            assert(cviews(gs@)[i as int] == name@);
            assert forall|q2: int| 0 <= q2 < s0.len() implies s0[q2].0@ != name@ by {
                assert(names_of(s0)[q2] == s0[q2].0@);
                assert(names_of(s0).contains(s0[q2].0@));
                let t = choose|t: int| 0 <= t < i && #[trigger] cviews(gs@).take(i as int)[t] == s0[q2].0@;
                assert(cviews(gs@)[t] == s0[q2].0@);
            }
            assert forall|q2: int| 0 <= q2 < q implies ranks_before(rows@, (#[trigger] s0[q2]).0@, name@) by {
                lemma_ranks_order(rows@, s0[q2].0@, name@, name@);
            }
            if q < s0.len() {
                assert forall|q2: int| q <= q2 < s0.len() implies ranks_before(rows@, name@, (#[trigger] s0[q2]).0@) by {
                    if q2 > q {
                        lemma_ranks_order(rows@, name@, s0[q as int].0@, s0[q2].0@);
                    }
                }
            }
        }
        let ghost nv = name@;
        sorted.insert(q, (name, w));
        proof {
            assert forall|a: int, b: int| 0 <= a < b < sorted@.len() implies ranks_before(rows@, (#[trigger] sorted@[a]).0@, (#[trigger] sorted@[b]).0@) by {
                if b < q {
                    assert(sorted@[a] == s0[a] && sorted@[b] == s0[b]);
                } else if b == q {
                    assert(sorted@[a] == s0[a]);
                } else if a < q {
                    assert(sorted@[a] == s0[a] && sorted@[b] == s0[b - 1]);
                    lemma_ranks_order(rows@, s0[a].0@, nv, s0[b - 1].0@);
                } else if a == q {
                    assert(sorted@[b] == s0[b - 1]);
                } else {
                    assert(sorted@[a] == s0[a - 1] && sorted@[b] == s0[b - 1]);
                }
            }
            let sv = names_of(sorted@);
            let sv0 = names_of(s0);
            assert(sv =~= sv0.insert(q as int, nv));
            assert(cviews(gs@).take(i + 1) =~= cviews(gs@).take(i as int).push(nv));
            let tk = cviews(gs@).take(i as int);
            let tk1 = cviews(gs@).take(i + 1);
            assert forall|x: Seq<char>| sv0.contains(x) implies #[trigger] sv.contains(x) by {
                let t = choose|t: int| 0 <= t < sv0.len() && sv0[t] == x;
                if t < q {
                    assert(sv[t] == x);
                } else {
                    assert(sv[t + 1] == x);
                }
            }
            assert forall|x: Seq<char>| #[trigger] sv.contains(x) implies sv0.contains(x) || x == nv by {
                let t = choose|t: int| 0 <= t < sv.len() && sv[t] == x;
                if t < q {
                    assert(sv0[t] == x);
                } else if t > q {
                    assert(sv0[t - 1] == x);
                }
            }
            assert forall|x: Seq<char>| tk.contains(x) implies #[trigger] tk1.contains(x) by {
                let t = choose|t: int| 0 <= t < tk.len() && tk[t] == x;
                assert(tk1[t] == x);
            }
            assert forall|x: Seq<char>| #[trigger] tk1.contains(x) implies tk.contains(x) || x == nv by {
                let t = choose|t: int| 0 <= t < tk1.len() && tk1[t] == x;
                if t < i {
                    assert(tk[t] == x);
                }
            }
            assert(sv.contains(nv)) by {
                assert(sv[q as int] == nv);
            }
            assert(tk1.contains(nv)) by {
                assert(tk1[i as int] == nv);
            }
            assert forall|x: Seq<char>| #[trigger] sv.contains(x) <==> tk1.contains(x) by {
                assert(sv0.contains(x) <==> tk.contains(x));
            }
            assert forall|q2: int| 0 <= q2 < sorted@.len() implies (#[trigger] sorted@[q2]).1 == weight(rows@, sorted@[q2].0@) by {
                if q2 < q {
                    assert(sorted@[q2] == s0[q2]);
                } else if q2 > q {
                    assert(sorted@[q2] == s0[q2 - 1]);
                }
            }
        }
        i += 1;
    }
    let ghost gv = names_of(sorted@);
    proof {
        assert(cviews(gs@).take(i as int) =~= cviews(gs@));
        assert forall|g: Seq<char>| gv.contains(g) <==> exists|j: int| 0 <= j < rows@.len() && touches(#[trigger] rows@[j], g) by {
            assert(gv.contains(g) <==> cviews(gs@).contains(g));
        }
        assert forall|a: int, b: int| 0 <= a < b < gv.len() implies ranks_before(rows@, #[trigger] gv[a], #[trigger] gv[b]) by {
            assert(gv[a] == sorted@[a].0@ && gv[b] == sorted@[b].0@);
        }
    }
    // colours and legend
    let palette = group_palette_exec();
    assert(palette@.len() == 12) by {
        assert(palette@.map_values(|s: &str| s@).len() == 12);
    }
    let mut colors: Vec<(String, String)> = Vec::new();
    let mut legend: Vec<(String, String)> = Vec::new();
    let mut k: usize = 0;
    while k < sorted.len()
        invariant
            k <= sorted@.len(),
            gv == names_of(sorted@),
            palette@.map_values(|s: &str| s@) == group_palette(),
            palette@.len() == 12,
            pairs(colors@) == colors_of(gv).take(k as int),
            pairs(legend@) == colors_of(gv).take(if k < MAX_GROUP_COLORS { k as int } else { MAX_GROUP_COLORS as int }),
        decreases sorted@.len() - k,
    {
        let g = string_of(&sorted[k].0);
        let color = if k < MAX_GROUP_COLORS {
            palette[k % 12].to_string()
        } else {
            "#9aa3ad".to_string()
        };
        proof {
            assert(g@ == gv[k as int]);
            if k < MAX_GROUP_COLORS {
                assert(palette@.map_values(|s: &str| s@)[(k % 12) as int] == palette@[(k % 12) as int]@);
            }
            assert(color@ == rank_color(k as int));
        }
        let ghost c0 = pairs(colors@);
        let ghost l0 = pairs(legend@);
        if k < MAX_GROUP_COLORS {
            legend.push((g.clone(), color.clone()));
            assert(pairs(legend@) =~= l0.push((g@, color@)));
            assert(colors_of(gv).take(k + 1) =~= colors_of(gv).take(k as int).push((g@, color@)));
        }
        colors.push((g, color));
        proof {
            assert(pairs(colors@) =~= c0.push((gv[k as int], rank_color(k as int))));
            assert(colors_of(gv).take(k + 1) =~= colors_of(gv).take(k as int).push((gv[k as int], rank_color(k as int))));
        }
        k += 1;
    }
    if sorted.len() > MAX_GROUP_COLORS {
        let ghost l0 = pairs(legend@);
        legend.push(("Other".to_string(), "#9aa3ad".to_string()));
        assert(pairs(legend@) =~= l0.push(("Other"@, other_group_color())));
    }
    proof {
        assert(colors_of(gv).take(k as int) =~= colors_of(gv));
        assert(pairs(legend@) =~= legend_of(gv));
        assert(ranked(rows@, gv));
    }
    (colors, legend)
}

/// The names of a ranked list.
pub open spec fn names_of(v: Seq<(Vec<char>, usize)>) -> Seq<Seq<char>> {
    v.map_values(|e: (Vec<char>, usize)| e.0@)
}

/// The view of a list of string pairs.
pub open spec fn pairs(v: Seq<(String, String)>) -> Seq<(Seq<char>, Seq<char>)> {
    v.map_values(|p: (String, String)| (p.0@, p.1@))
}

/// A copy of a list of characters.
fn copy_chars(v: &Vec<char>) -> (r: Vec<char>)
    ensures
        r@ == v@,
{
    let mut r: Vec<char> = Vec::new();
    let mut i: usize = 0;
    while i < v.len()
        invariant
            i <= v@.len(),
            r@ == v@.take(i as int),
        decreases v@.len() - i,
    {
        r.push(v[i]);
        i += 1;
        assert(r@ =~= v@.take(i as int));
    }
    assert(v@.take(i as int) =~= v@);
    r
}
// ---------------------------------------------------------------------------
// The subtitle
// ---------------------------------------------------------------------------
/// The `"Jan 2020"`-style label of the month holding `ts`, or nothing.
pub open spec fn month_label(ts: i64) -> Seq<char> {
    match utc_month_year_label(ts) {
        Some(s) => s,
        None => Seq::empty(),
    }
}

/// The separator between the notes of the subtitle.
pub open spec fn note_sep() -> Seq<char> {
    "  ·  "@
}

/// The subtitle of the static chart: how many rows there are to show
/// (affiliations, or human contributors), the commits, the period; then
/// that only the top rows are shown, or the commit threshold when one is
/// set.
pub open spec fn subtitle_of(
    by_affiliation: bool,
    eligible: nat,
    shown: nat,
    contributors: nat,
    commits: nat,
    first: i64,
    last: i64,
    min_commits: nat,
) -> Seq<char> {
    let unit = if by_affiliation { "affiliations"@ } else { "contributors"@ };
    let head = if by_affiliation { decimal(eligible) + " affiliations"@ } else { decimal(contributors) + " contributors"@ };
    let base = head + note_sep() + thousands_spec(commits) + " commits"@ + note_sep() + month_label(first) + " – "@
        + month_label(last);
    if shown < eligible {
        base + note_sep() + "showing top "@ + decimal(shown) + seq![' '] + unit + " by commits"@
    } else if min_commits > 1 {
        base + note_sep() + "≥"@ + decimal(min_commits) + " commits"@
    } else {
        base
    }
}

/// The subtitle of the static chart showing `shown` of `eligible` rows.
pub fn chart_subtitle(
    by_affiliation: bool,
    eligible: usize,
    shown: usize,
    contributors: usize,
    commits: u64,
    first: i64,
    last: i64,
    min_commits: u32,
) -> (r: String)
    ensures
        r@ == subtitle_of(
            by_affiliation,
            eligible as nat,
            shown as nat,
            contributors as nat,
            commits as nat,
            first,
            last,
            min_commits as nat,
        ),
{
    let mut s = if by_affiliation {
        let mut h = u64_to_string(eligible as u64);
        push_str(&mut h, " affiliations");
        h
    } else {
        let mut h = u64_to_string(contributors as u64);
        push_str(&mut h, " contributors");
        h
    };
    push_str(&mut s, "  ·  ");
    push_str(&mut s, thousands(commits).as_str());
    push_str(&mut s, " commits");
    push_str(&mut s, "  ·  ");
    push_str(&mut s, format_month_year(first).as_str());
    push_str(&mut s, " – ");
    push_str(&mut s, format_month_year(last).as_str());
    if shown < eligible {
        push_str(&mut s, "  ·  ");
        push_str(&mut s, "showing top ");
        push_str(&mut s, u64_to_string(shown as u64).as_str());
        push_char(&mut s, ' ');
        if by_affiliation {
            push_str(&mut s, "affiliations");
        } else {
            push_str(&mut s, "contributors");
        }
        push_str(&mut s, " by commits");
    } else if min_commits > 1 {
        push_str(&mut s, "  ·  ");
        push_str(&mut s, "≥");
        push_str(&mut s, u64_to_string(min_commits as u64).as_str());
        push_str(&mut s, " commits");
    }
    s
}

} // verus!
