//! The data model: commits, contributors, manual group rules, and the
//! calendar arithmetic that bins commits into months.
use chrono::{Datelike, TimeZone, Utc};
use vstd::prelude::*;
pub mod aggregate;
pub use aggregate::aggregate_by_group;
use crate::text::{decimal, digit_char, digit_of, push_char, u64_to_string};

verus! {

/// One manual `matcher -> group` rule, optionally limited to a date window.
/// Several rules may share a matcher to give a contributor different
/// affiliations over time; where windows overlap the later `since` wins.
#[derive(Debug, Clone)]
pub struct GroupRule {
    pub matcher: String,
    pub group: String,
    /// Inclusive start (unix seconds); `None` means open at the start.
    pub since: Option<i64>,
    /// Exclusive end (unix seconds); `None` means open at the end.
    pub until: Option<i64>,
}

/// Whether the window `[since, until)` contains `ts`.
pub open spec fn window_covers(since: Option<i64>, until: Option<i64>, ts: i64) -> bool {
    (since matches Some(s) ==> ts >= s) && (until matches Some(u) ==> ts < u)
}

impl GroupRule {
    /// Whether this rule's window contains a commit at `ts`.
    pub fn covers(&self, ts: i64) -> (r: bool)
        ensures
            r == window_covers(self.since, self.until, ts),
    {
        let after_start = match self.since {
            Some(s) => ts >= s,
            None => true,
        };
        let before_end = match self.until {
            Some(u) => ts < u,
            None => true,
        };
        after_start && before_end
    }

    /// Whether the rule is limited in time at all.
    pub fn dated(&self) -> (r: bool)
        ensures
            r == (self.since is Some || self.until is Some),
    {
        self.since.is_some() || self.until.is_some()
    }
}

/// The `git log` filters that affect which commits a source yields. Grouped so
/// they travel together and form part of the history cache key.
#[derive(Debug, Clone, Default)]
pub struct CommitFilter {
    pub since: Option<String>,
    pub until: Option<String>,
    pub no_merges: bool,
}

/// A single commit as parsed from `git log`.
#[derive(Debug, Clone)]
pub struct Commit {
    pub sha: String,
    pub ts: i64,
    pub name: String,
    pub email: String,
    /// `(name, email)` of each `Co-authored-by` trailer on the commit.
    pub coauthors: Vec<(String, String)>,
    /// Index of the source this commit came from (0 for a single source).
    pub src: u32,
}

/// A git tag with its date, drawn as a release marker.
#[derive(Debug, Clone)]
pub struct Release {
    pub name: String,
    pub ts: i64,
}

/// One merged contributor identity, ready for rendering. Also reused for
/// affiliation aggregates, where one "row" stands for a whole organisation.
#[derive(Debug, Clone)]
pub struct Contributor {
    pub name: String,
    pub login: Option<String>,
    pub avatar: Option<String>,
    pub url: Option<String>,
    pub first: i64,
    pub last: i64,
    pub commits: u32,
    pub bot: bool,
    pub group: Option<String>,
    /// Number of people behind this row (1 for an individual; N for an
    /// affiliation aggregate).
    pub members: u32,
    /// Names of the largest contributors in an aggregate (for tooltips).
    pub member_names: Vec<String>,
    /// Month index (months since 1970-01) of the first entry in `months`.
    pub m0: i32,
    /// Commits per calendar month, from `m0` through the last active month.
    /// Includes co-authored commits; `co_months` is that subset.
    pub months: Vec<u32>,
    /// Co-authored commits per month, aligned to `m0` (a subset of `months`).
    pub co_months: Vec<u32>,
    /// Of `commits`, how many the person was a co-author on.
    pub co_commits: u32,
    /// Per-month affiliation, aligned to `m0`, for people with time-bounded
    /// affiliations; `None` when a single affiliation applies throughout.
    pub month_groups: Option<Vec<Option<String>>>,
}

/// Repository metadata shown in the chart header.
#[derive(Debug, Clone)]
pub struct RepoMeta {
    pub name: String,
    pub url: Option<String>,
    pub slug: Option<String>,
    pub branch: String,
    pub first: i64,
    pub last: i64,
    pub total_commits: u64,
    pub total_contributors: usize,
    pub generated: String,
    /// Owner/org avatar as a data URI, for the interactive page header.
    pub owner_avatar: Option<String>,
    /// The GitHub repository description, when available.
    pub description: Option<String>,
}

/// The view of an optional string.
pub open spec fn opt_view(o: Option<String>) -> Option<Seq<char>> {
    match o {
        Some(s) => Some(s@),
        None => None,
    }
}

/// An owned copy of an optional string.
pub fn clone_opt(o: &Option<String>) -> (r: Option<String>)
    ensures
        r == *o,
{
    match o {
        Some(s) => Some(s.clone()),
        None => None,
    }
}

/// Whether a count is zero (fields that are left out of the page data when
/// they are).
pub fn is_zero(n: &u32) -> (r: bool)
    ensures
        r == (*n == 0),
{
    *n == 0
}

// ---------------------------------------------------------------------------
// Calendar (chrono)
// ---------------------------------------------------------------------------
/// The UTC `(year, month0)` of a unix timestamp, as chrono computes it, or
/// `None` when chrono cannot represent the instant.
pub uninterp spec fn utc_year_month0(ts: i64) -> Option<(i32, u32)>;

/// The unix timestamp of midnight UTC on the first of `month` (1-based) in
/// `year`, as chrono computes it, or `None` when it is out of range.
pub uninterp spec fn utc_month_start(year: i32, month: u32) -> Option<i64>;

/// chrono's `"%b %Y"` rendering (e.g. `Jan 2020`) of a unix timestamp, or
/// `None` when chrono cannot represent the instant.
pub uninterp spec fn utc_month_year_label(ts: i64) -> Option<Seq<char>>;

/// chrono's `"%b"` rendering (e.g. `Jan`) of a unix timestamp, or `None`
/// when chrono cannot represent the instant.
pub uninterp spec fn utc_month_abbrev(ts: i64) -> Option<Seq<char>>;

/// `Utc.timestamp_opt(ts, 0)` then `year()` and `month0()`. The result is named;
/// chrono's dates lie in the years `[-262143, 262142]` (its `MIN_YEAR` and
/// `MAX_YEAR`), and `month0` is documented to range over 0..=11. A later
/// timestamp never falls in an earlier month: chrono takes the day as the
/// floor of the timestamp over 86400 and counts days in calendar order.
#[verifier::external_body]
pub(crate) fn utc_calendar_month(ts: i64) -> (r: Option<(i32, u32)>)
    ensures
        r == utc_year_month0(ts),
        r matches Some(p) ==> -262143 <= p.0 <= 262142 && p.1 < 12,
        r matches Some(p) ==> forall|t2: i64|
            #[trigger] utc_year_month0(t2) matches Some(q) ==> q.1 < 12 && (t2 <= ts ==> !month_before(p.0, p.1, q.0, q.1)) && (ts
                <= t2 ==> !month_before(q.0, q.1, p.0, p.1)),
{
    match Utc.timestamp_opt(ts, 0).single() {
        Some(d) => Some((d.year(), d.month0())),
        None => None,
    }
}

/// `Utc.with_ymd_and_hms(year, month, 1, 0, 0, 0)` then `timestamp()`. The
/// result is named. chrono gives a time exactly for the months 1 to 12 of
/// the years it represents (`[-262143, 262142]`); reading that time back
/// with `timestamp_opt` gives that year and month (the round trip that
/// `DateTime::from_timestamp` documents); and a later month starts at a
/// later time (chrono counts days from a fixed epoch, in calendar order).
#[verifier::external_body]
pub(crate) fn utc_first_of_month(year: i32, month: u32) -> (r: Option<i64>)
    ensures
        r == utc_month_start(year, month),
        r is Some == (valid_year(year as int) && 1 <= month && month <= 12),
        r matches Some(t) ==> utc_year_month0(t) matches Some(q) && q.0 == year && q.1 + 1 == month,
        r matches Some(t) ==> forall|p: (i32, u32)|
            #[trigger] month_start_at(p) matches Some(t2) ==> (month_before(p.0, p.1, year, month) ==> t2 < t) && (
            month_before(year, month, p.0, p.1) ==> t < t2),
{
    match Utc.with_ymd_and_hms(year, month, 1, 0, 0, 0).single() {
        Some(d) => Some(d.timestamp()),
        None => None,
    }
}

/// `Utc.timestamp_opt(ts, 0)` formatted with `"%b %Y"`. The result is named.
#[verifier::external_body]
fn utc_format_month_year(ts: i64) -> (r: Option<String>)
    ensures
        opt_view(r) == utc_month_year_label(ts),
{
    match Utc.timestamp_opt(ts, 0).single() {
        Some(d) => Some(d.format("%b %Y").to_string()),
        None => None,
    }
}

/// `Utc.timestamp_opt(ts, 0)` formatted with `"%b"`. The result is named.
#[verifier::external_body]
pub(crate) fn utc_format_month(ts: i64) -> (r: Option<String>)
    ensures
        opt_view(r) == utc_month_abbrev(ts),
{
    match Utc.timestamp_opt(ts, 0).single() {
        Some(d) => Some(d.format("%b").to_string()),
        None => None,
    }
}

/// A year that chrono represents: its `MIN_YEAR` to its `MAX_YEAR`.
pub open spec fn valid_year(y: int) -> bool {
    -262143 <= y && y <= 262142
}

/// The start of month `p.1` (1 to 12) of year `p.0`, as chrono gives it.
pub open spec fn month_start_at(p: (i32, u32)) -> Option<i64> {
    utc_month_start(p.0, p.1)
}

/// Month `(y2, m2)` comes before month `(y, m)`.
pub open spec fn month_before(y2: i32, m2: u32, y: i32, m: u32) -> bool {
    y2 < y || (y2 == y && m2 < m)
}

/// The year of month index `mi` (months since 1970-01).
pub open spec fn index_year(mi: int) -> i32 {
    (1970 + mi / 12) as i32
}

/// The month (1 to 12) of month index `mi`.
pub open spec fn index_month(mi: int) -> u32 {
    (mi % 12 + 1) as u32
}

/// Months since 1970-01 of the UTC month containing `ts` (0 when chrono
/// cannot represent `ts`, as the Unix epoch is chrono's default instant).
pub open spec fn month_of(ts: i64) -> int {
    match utc_year_month0(ts) {
        Some(p) => (p.0 - 1970) * 12 + p.1,
        None => 0,
    }
}

/// Timestamp of the first second of month index `mi` (months since 1970-01);
/// 0 when chrono cannot represent it.
pub open spec fn month_start_of(mi: int) -> i64 {
    match utc_month_start(index_year(mi), index_month(mi)) {
        Some(t) => t,
        None => 0,
    }
}

/// The month index (months since 1970-01) of a unix timestamp.
pub fn month_index(ts: i64) -> (r: i32)
    ensures
        r as int == month_of(ts),
        -3_200_000 <= r <= 3_200_000,
        utc_year_month0(ts) is Some ==> forall|t2: i64|
            #[trigger] utc_year_month0(t2) is Some ==> (t2 <= ts ==> month_of(t2) <= month_of(ts)) && (ts <= t2 ==> month_of(
                ts,
            ) <= month_of(t2)),
{
    let r = utc_calendar_month(ts);
    proof {
        if let Some(p) = r {
            assert forall|t2: i64| #[trigger] utc_year_month0(t2) is Some implies (t2 <= ts ==> month_of(t2) <= month_of(ts))
                && (ts <= t2 ==> month_of(ts) <= month_of(t2)) by {
                let q = utc_year_month0(t2)->0;
                assert(utc_year_month0(t2) matches Some(q2) && q2 == q);
            }
        }
    }
    match r {
        Some((y, m0)) => (y - 1970) * 12 + m0 as i32,
        None => 0,
    }
}

/// Unix timestamp of the first second of month index `mi`.
pub fn month_start_ts(mi: i32) -> (r: i64)
    ensures
        r == month_start_of(mi as int),
        utc_month_start(index_year(mi as int), index_month(mi as int)) is Some == valid_year(index_year(mi as int) as int),
        utc_month_start(index_year(mi as int), index_month(mi as int)) is Some ==> month_of(r) == mi && forall|p: (i32, u32)|
            #[trigger] month_start_at(p) matches Some(t2) ==> (month_before(p.0, p.1, index_year(mi as int), index_month(mi as int))
                ==> t2 < r) && (month_before(index_year(mi as int), index_month(mi as int), p.0, p.1) ==> r < t2),
{
    let q = mi.checked_div_euclid(12).unwrap();
    let rem = mi.checked_rem_euclid(12).unwrap();
    let year = 1970 + q;
    let month = rem as u32 + 1;
    match utc_first_of_month(year, month) {
        Some(t) => t,
        None => 0,
    }
}

/// `"Jan 2020"`-style label of the month containing `ts` (empty when chrono
/// cannot represent `ts`).
pub fn format_month_year(ts: i64) -> (r: String)
    ensures
        r@ == match utc_month_year_label(ts) {
            Some(s) => s,
            None => Seq::<char>::empty(),
        },
{
    match utc_format_month_year(ts) {
        Some(s) => s,
        None => String::new(),
    }
}

// ---------------------------------------------------------------------------
// Number formatting
// ---------------------------------------------------------------------------
/// Exactly three decimal digits of `n < 1000`, zero-padded.
pub open spec fn three_digits(n: nat) -> Seq<char> {
    seq![digit_char(n / 100), digit_char((n / 10) % 10), digit_char(n % 10)]
}

/// `n` in decimal with a comma between each group of three digits.
pub open spec fn thousands_spec(n: nat) -> Seq<char>
    decreases n,
{
    if n < 1000 {
        decimal(n)
    } else {
        thousands_spec(n / 1000) + seq![','] + three_digits(n % 1000)
    }
}

/// Format an integer with thousands separators: `1234567` → `1,234,567`.
pub fn thousands(n: u64) -> (r: String)
    ensures
        r@ == thousands_spec(n as nat),
    decreases n,
{
    if n < 1000 {
        return u64_to_string(n);
    }
    let mut out = thousands(n / 1000);
    let low = n % 1000;
    push_char(&mut out, ',');
    push_char(&mut out, digit_of(low / 100));
    push_char(&mut out, digit_of((low / 10) % 10));
    push_char(&mut out, digit_of(low % 10));
    assert(out@ =~= thousands_spec((n / 1000) as nat) + seq![','] + three_digits(low as nat));
    out
}

} // verus!
