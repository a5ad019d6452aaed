//! The ticks of the chart's time axis. How far apart they stand is chosen
//! from the span in fractional years by the renderer; given those steps, the
//! ticks themselves are whole years and months, placed where chrono puts
//! their first second.
use vstd::prelude::*;
use crate::model::{
    index_month, index_year, month_before, month_of, month_start_at, valid_year, month_start_of, month_start_ts, utc_calendar_month, utc_format_month, utc_month_abbrev, utc_month_start,
    utc_year_month0,
};
use crate::svg::year_ts;
use crate::text::{i64_to_string, push_char, push_str, signed_decimal};

verus! {

/// The UTC year of a timestamp (1970 when chrono cannot represent it).
pub open spec fn year_of(ts: i64) -> int {
    match utc_year_month0(ts) {
        Some(p) => p.0 as int,
        None => 1970,
    }
}

/// The first second of a year (0 when chrono cannot represent it).
pub open spec fn year_start_of(y: int) -> i64 {
    match utc_month_start(y as i32, 1) {
        Some(t) => t,
        None => 0,
    }
}

/// The `"%b"` name of the month containing `ts` (empty when chrono cannot
/// represent it).
pub open spec fn month_name_of(ts: i64) -> Seq<char> {
    match utc_month_abbrev(ts) {
        Some(s) => s,
        None => Seq::empty(),
    }
}

/// Whether `ts` lies on the axis `[t0, t1]`.
pub open spec fn on_axis(ts: i64, t0: i64, t1: i64) -> bool {
    t0 <= ts <= t1
}

/// How many of `from..=to` there are.
pub open spec fn count_between(from: int, to: int) -> nat {
    if to >= from {
        (to - from + 1) as nat
    } else {
        0
    }
}

/// First month index of the axis: January of the first year.
pub open spec fn first_month(t0: i64) -> int {
    (year_of(t0) - 1970) * 12
}

/// Last month index of the axis: December of the year after the last.
pub open spec fn last_month(t1: i64) -> int {
    (year_of(t1) + 1 - 1970) * 12 + 11
}

/// The year ticks over the first `n` years from `y0`: every `step`-th year
/// whose start lies on the axis, labelled with the year.
pub open spec fn year_majors(t0: i64, t1: i64, y0: int, n: nat, step: int) -> Seq<(i64, Seq<char>)>
    decreases n,
{
    if n == 0 {
        Seq::empty()
    } else {
        let prev = year_majors(t0, t1, y0, (n - 1) as nat, step);
        let y = y0 + n - 1;
        let ts = year_start_of(y);
        if (y - y0) % step == 0 && on_axis(ts, t0, t1) {
            prev.push((ts, signed_decimal(y)))
        } else {
            prev
        }
    }
}

/// The timestamps of some ticks.
pub open spec fn tick_times(ticks: Seq<(i64, Seq<char>)>) -> Seq<i64> {
    ticks.map_values(|t: (i64, Seq<char>)| t.0)
}

/// The minor ticks of the year scale over the first `n` months from `m0`:
/// the start of every month whose index is a multiple of `every`, on the
/// axis and not already a major tick.
pub open spec fn year_minors(t0: i64, t1: i64, majors: Seq<i64>, m0: int, n: nat, every: int) -> Seq<i64>
    decreases n,
{
    if n == 0 {
        Seq::empty()
    } else {
        let prev = year_minors(t0, t1, majors, m0, (n - 1) as nat, every);
        let m = m0 + n - 1;
        let ts = month_start_of(m);
        if m % every == 0 && on_axis(ts, t0, t1) && !majors.contains(ts) {
            prev.push(ts)
        } else {
            prev
        }
    }
}

/// The month scale over the first `n` months from `m0`: of the month
/// starts on the axis, every `step`-th month index is a major tick, named
/// by its month, with its year the first time that year is labelled; the
/// others are minor ticks. Also the last year labelled.
pub open spec fn month_ticks(t0: i64, t1: i64, m0: int, n: nat, step: int) -> (Seq<(i64, Seq<char>)>, Seq<i64>, int)
    decreases n,
{
    if n == 0 {
        (Seq::empty(), Seq::empty(), i32::MIN as int)
    } else {
        let prev = month_ticks(t0, t1, m0, (n - 1) as nat, step);
        let m = m0 + n - 1;
        let ts = month_start_of(m);
        if !on_axis(ts, t0, t1) {
            prev
        } else if m % step == 0 {
            let year = 1970 + m / 12;
            let mon = month_name_of(ts);
            if year != prev.2 {
                (prev.0.push((ts, mon + seq![' '] + signed_decimal(year))), prev.1, year)
            } else {
                (prev.0.push((ts, mon)), prev.1, prev.2)
            }
        } else {
            (prev.0, prev.1.push(ts), prev.2)
        }
    }
}

/// The view of labelled ticks.
pub open spec fn ticks_view(v: Seq<(i64, String)>) -> Seq<(i64, Seq<char>)> {
    v.map_values(|t: (i64, String)| (t.0, t.1@))
}

/// Times that strictly increase.
pub open spec fn increasing(ts: Seq<i64>) -> bool {
    forall|a: int, b: int| 0 <= a < b < ts.len() ==> ts[a] < ts[b]
}

/// Every time is the first second of the month it falls in.
pub open spec fn month_starts(ts: Seq<i64>) -> bool {
    forall|k: int| 0 <= k < ts.len() ==> month_start_of(month_of(#[trigger] ts[k])) == ts[k]
}

/// January of year `y` has month index `(y - 1970) * 12`.
proof fn lemma_year_index(y: int)
    requires
        valid_year(y),
    ensures
        index_year((y - 1970) * 12) == y,
        index_month((y - 1970) * 12) == 1,
{
    let m = (y - 1970) * 12;
    assert(m / 12 == y - 1970 && m % 12 == 0) by (nonlinear_arith)
        requires
            m == (y - 1970) * 12,
    ;
}

/// Month index `m` lies in the years `lo` to `hi` when it lies between
/// January of `lo` and December of `hi`.
proof fn lemma_index_years(m: int, lo: int, hi: int)
    requires
        (lo - 1970) * 12 <= m <= (hi - 1970) * 12 + 11,
    ensures
        lo <= 1970 + m / 12 <= hi,
        0 <= m % 12 < 12,
{
    assert(lo - 1970 <= m / 12 <= hi - 1970) by (nonlinear_arith)
        requires
            (lo - 1970) * 12 <= m <= (hi - 1970) * 12 + 11,
    ;
}

/// An earlier month index is an earlier month.
proof fn lemma_index_order(a: int, b: int)
    requires
        a < b,
        valid_year(1970 + a / 12),
        valid_year(1970 + b / 12),
    ensures
        month_before(index_year(a), index_month(a), index_year(b), index_month(b)),
{
    assert(a / 12 < b / 12 || (a / 12 == b / 12 && a % 12 < b % 12)) by (nonlinear_arith)
        requires
            a < b,
    ;
}

/// `t` was the start of a month index at or after `lo` and before `m`.
pub open spec fn started_before(t: i64, lo: int, m: int) -> bool {
    exists|mm: int|
        lo <= mm < m && valid_year(1970 + mm / 12) && #[trigger] month_start_at((index_year(mm), index_month(mm))) == Some(t)
}

/// Ticks that each start an earlier month stay increasing month starts when
/// the start of month `m` is added.
proof fn lemma_push_month(ts: Seq<i64>, lo: int, m: int, t: i64)
    requires
        lo <= m,
        valid_year(1970 + m / 12),
        forall|k: int| 0 <= k < ts.len() ==> started_before(#[trigger] ts[k], lo, m),
        month_start_at((index_year(m), index_month(m))) == Some(t),
        forall|p: (i32, u32)|
            #[trigger] month_start_at(p) matches Some(t2) ==> (month_before(p.0, p.1, index_year(m), index_month(m)) ==> t2 < t),
        increasing(ts),
        month_starts(ts),
        month_of(t) == m,
    ensures
        increasing(ts.push(t)),
        month_starts(ts.push(t)),
        forall|k: int| 0 <= k < ts.push(t).len() ==> started_before(#[trigger] ts.push(t)[k], lo, m + 1),
{
    let s2 = ts.push(t);
    assert forall|k: int| 0 <= k < ts.len() implies ts[k] < t by {
        assert(started_before(ts[k], lo, m));
        let mm = choose|mm: int|
            lo <= mm < m && valid_year(1970 + mm / 12) && #[trigger] month_start_at((index_year(mm), index_month(mm))) == Some(ts[k]);
        lemma_index_order(mm, m);
        let p = (index_year(mm), index_month(mm));
        assert(month_start_at(p) == Some(ts[k]));
    }
    assert forall|a: int, b: int| 0 <= a < b < s2.len() implies s2[a] < s2[b] by {
        if b == ts.len() {
            assert(s2[a] == ts[a]);
        } else {
            assert(s2[a] == ts[a] && s2[b] == ts[b]);
        }
    }
    assert forall|k: int| 0 <= k < s2.len() implies month_start_of(month_of(#[trigger] s2[k])) == s2[k] by {
        if k < ts.len() {
            assert(s2[k] == ts[k]);
        }
    }
    assert forall|k: int| 0 <= k < s2.len() implies started_before(#[trigger] s2[k], lo, m + 1) by {
        if k < ts.len() {
            assert(s2[k] == ts[k]);
            assert(started_before(ts[k], lo, m));
            let mm = choose|mm: int|
                lo <= mm < m && valid_year(1970 + mm / 12) && #[trigger] month_start_at((index_year(mm), index_month(mm))) == Some(ts[k]);
            assert(month_start_at((index_year(mm), index_month(mm))) == Some(s2[k]));
        } else {
            assert(month_start_at((index_year(m), index_month(m))) == Some(s2[k]));
        }
    }
}

/// Ticks that started months before `m` started months before any later
/// `m2`.
proof fn lemma_widen(ts: Seq<i64>, lo: int, m: int, m2: int)
    requires
        m <= m2,
        forall|k: int| 0 <= k < ts.len() ==> started_before(#[trigger] ts[k], lo, m),
    ensures
        forall|k: int| 0 <= k < ts.len() ==> started_before(#[trigger] ts[k], lo, m2),
{
    assert forall|k: int| 0 <= k < ts.len() implies started_before(#[trigger] ts[k], lo, m2) by {
        assert(started_before(ts[k], lo, m));
        let mm = choose|mm: int|
            lo <= mm < m && valid_year(1970 + mm / 12) && #[trigger] month_start_at((index_year(mm), index_month(mm))) == Some(ts[k]);
        assert(month_start_at((index_year(mm), index_month(mm))) == Some(ts[k]));
    }
}

/// The UTC year of a timestamp (1970 when chrono cannot represent it).
fn year_of_ts(ts: i64) -> (r: i32)
    ensures
        r as int == year_of(ts),
        valid_year(r as int),
{
    match utc_calendar_month(ts) {
        Some((y, _)) => y,
        None => 1970,
    }
}

/// Whether `ts` is the time of one of `ticks`.
fn has_tick(ticks: &Vec<(i64, String)>, ts: i64) -> (r: bool)
    ensures
        r == tick_times(ticks_view(ticks@)).contains(ts),
{
    let ghost tt = tick_times(ticks_view(ticks@));
    let mut k: usize = 0;
    while k < ticks.len()
        invariant
            k <= ticks@.len(),
            tt == tick_times(ticks_view(ticks@)),
            forall|j: int| 0 <= j < k ==> tt[j] != ts,
        decreases ticks@.len() - k,
    {
        if ticks[k].0 == ts {
            assert(tt[k as int] == ts);
            return true;
        }
        k += 1;
    }
    false
}

/// The ticks of a time axis from `t0` to `t1`, as `(time, label)` major
/// ticks and unlabelled minor ticks. With a `year_step`, the majors are
/// every `year_step`-th year start on the axis, counted from the year of
/// `t0`, and the minors every `minor_months`-th month start that is not a
/// major; without one, every `month_step`-th month start is a major, named
/// by its month (with its year the first time in each year), and the other
/// month starts are minors. Months run from January of `t0`'s year to
/// December of the year after `t1`'s; every tick lies on the axis.
pub fn axis_ticks(t0: i64, t1: i64, year_step: u32, minor_months: u32, month_step: u32) -> (r: (
    Vec<(i64, String)>,
    Vec<i64>,
))
    requires
        year_step > 0 ==> minor_months > 0,
        year_step == 0 ==> month_step > 0,
    ensures
        year_step > 0 ==> {
            let majors = year_majors(
                t0,
                t1,
                year_of(t0),
                count_between(year_of(t0), year_of(t1) + 1),
                year_step as int,
            );
            &&& ticks_view(r.0@) == majors
            &&& r.1@ == year_minors(
                t0,
                t1,
                tick_times(majors),
                first_month(t0),
                count_between(first_month(t0), last_month(t1)),
                minor_months as int,
            )
        },
        year_step == 0 ==> {
            let ticks = month_ticks(t0, t1, first_month(t0), count_between(first_month(t0), last_month(t1)), month_step as int);
            &&& ticks_view(r.0@) == ticks.0
            &&& r.1@ == ticks.1
        },
        forall|k: int| 0 <= k < r.0@.len() ==> on_axis((#[trigger] r.0@[k]).0, t0, t1),
        forall|k: int| 0 <= k < r.1@.len() ==> on_axis(#[trigger] r.1@[k], t0, t1),
        year_step > 0 ==> forall|k: int| 0 <= k < r.1@.len() ==> !tick_times(ticks_view(r.0@)).contains(#[trigger] r.1@[k]),
        year_of(t1) < 262142 ==> increasing(tick_times(ticks_view(r.0@))) && increasing(r.1@),
        year_of(t1) < 262142 ==> month_starts(tick_times(ticks_view(r.0@))) && month_starts(r.1@),
{
    let y0 = year_of_ts(t0);
    let y1 = year_of_ts(t1);
    let m_start: i32 = (y0 - 1970) * 12;
    let m_end: i32 = (y1 + 1 - 1970) * 12 + 11;
    let ghost nm = count_between(m_start as int, m_end as int);
    let mut major: Vec<(i64, String)> = Vec::new();
    let mut minor: Vec<i64> = Vec::new();
    if year_step > 0 {
        let step = year_step as i64;
        let ghost ny = count_between(y0 as int, y1 + 1);
        let mut y: i64 = y0 as i64;
        while y <= y1 as i64 + 1
            invariant
                y0 as int <= y <= y1 + 2 || (y == y0 && y1 + 1 < y0),
                valid_year(y0 as int),
                valid_year(y1 as int),
                step == year_step as i64,
                step > 0,
                ticks_view(major@) == year_majors(t0, t1, y0 as int, (y - y0) as nat, step as int),
                forall|k: int| 0 <= k < major@.len() ==> on_axis((#[trigger] major@[k]).0, t0, t1),
                y1 as int == year_of(t1),
                m_start as int == (y0 - 1970) * 12,
                year_of(t1) < 262142 ==> forall|k: int|
                    0 <= k < major@.len() ==> started_before(
                        #[trigger] tick_times(ticks_view(major@))[k],
                        m_start as int,
                        (y - 1970) * 12,
                    ),
                year_of(t1) < 262142 ==> increasing(tick_times(ticks_view(major@))),
                year_of(t1) < 262142 ==> month_starts(tick_times(ticks_view(major@))),
            decreases y1 + 2 - y,
        {
            let ts = year_ts(y as i32);
            let ghost mi = (y - 1970) * 12;
            let ghost tt0 = tick_times(ticks_view(major@));
            if (y - y0 as i64) % step == 0 && t0 <= ts && ts <= t1 {
                let ghost m0 = major@;
                major.push((ts, i64_to_string(y)));
                assert(ticks_view(major@) =~= ticks_view(m0).push((ts, signed_decimal(y as int))));
                proof {
                    assert(tick_times(ticks_view(major@)) =~= tt0.push(ts));
                    if year_of(t1) < 262142 {
                        lemma_year_index(y as int);
                        lemma_push_month(tt0, m_start as int, mi, ts);
                        lemma_widen(tt0.push(ts), m_start as int, mi + 1, mi + 12);
                    }
                }
            } else {
                proof {
                    if year_of(t1) < 262142 {
                        lemma_widen(tt0, m_start as int, mi, mi + 12);
                    }
                }
            }
            y += 1;
        }
        proof {
            assert((y - y0) as nat == ny);
        }
        let every = minor_months as i64;
        let mut m: i64 = m_start as i64;
        while m <= m_end as i64
            invariant
                m_start as int <= m <= m_end + 1 || (m == m_start && m_end < m_start),
                -3200000 <= m_start <= 3200000,
                -3200000 <= m_end <= 3200000,
                every == minor_months as i64,
                every > 0,
                minor@ == year_minors(
                    t0,
                    t1,
                    tick_times(ticks_view(major@)),
                    m_start as int,
                    (m - m_start) as nat,
                    every as int,
                ),
                forall|k: int| 0 <= k < minor@.len() ==> on_axis(#[trigger] minor@[k], t0, t1),
                forall|k: int| 0 <= k < minor@.len() ==> !tick_times(ticks_view(major@)).contains(#[trigger] minor@[k]),
                y1 as int == year_of(t1),
                valid_year(y0 as int),
                m_start as int == (y0 - 1970) * 12,
                m_end as int == (y1 + 1 - 1970) * 12 + 11,
                year_of(t1) < 262142 ==> increasing(tick_times(ticks_view(major@))),
                year_of(t1) < 262142 ==> month_starts(tick_times(ticks_view(major@))),
                year_of(t1) < 262142 ==> forall|k: int| 0 <= k < minor@.len() ==> started_before(#[trigger] minor@[k], m_start as int, m as int),
                year_of(t1) < 262142 ==> increasing(minor@),
                year_of(t1) < 262142 ==> month_starts(minor@),
            decreases m_end + 1 - m,
        {
            let ts = month_start_ts(m as i32);
            let ghost s0 = minor@;
            proof {
                if year_of(t1) < 262142 {
                    lemma_index_years(m as int, y0 as int, y1 + 1);
                }
            }
            if m.checked_rem_euclid(every).unwrap() == 0 && t0 <= ts && ts <= t1 && !has_tick(&major, ts) {
                minor.push(ts);
                proof {
                    if year_of(t1) < 262142 {
                        lemma_push_month(s0, m_start as int, m as int, ts);
                    }
                }
            } else {
                proof {
                    if year_of(t1) < 262142 {
                        lemma_widen(s0, m_start as int, m as int, m + 1);
                    }
                }
            }
            m += 1;
        }
        proof {
            assert((m - m_start) as nat == nm);
        }
    } else {
        let step = month_step as i64;
        let mut last_year: i64 = i32::MIN as i64;
        let mut m: i64 = m_start as i64;
        while m <= m_end as i64
            invariant
                m_start as int <= m <= m_end + 1 || (m == m_start && m_end < m_start),
                -3200000 <= m_start <= 3200000,
                -3200000 <= m_end <= 3200000,
                step == month_step as i64,
                step > 0,
                ({
                    let t = month_ticks(t0, t1, m_start as int, (m - m_start) as nat, step as int);
                    &&& ticks_view(major@) == t.0
                    &&& minor@ == t.1
                    &&& last_year as int == t.2
                }),
                i32::MIN <= last_year <= 3000000,
                forall|k: int| 0 <= k < major@.len() ==> on_axis((#[trigger] major@[k]).0, t0, t1),
                forall|k: int| 0 <= k < minor@.len() ==> on_axis(#[trigger] minor@[k], t0, t1),
                y1 as int == year_of(t1),
                valid_year(y0 as int),
                m_start as int == (y0 - 1970) * 12,
                m_end as int == (y1 + 1 - 1970) * 12 + 11,
                year_of(t1) < 262142 ==> forall|k: int|
                    0 <= k < major@.len() ==> started_before(
                        #[trigger] tick_times(ticks_view(major@))[k],
                        m_start as int,
                        m as int,
                    ),
                year_of(t1) < 262142 ==> increasing(tick_times(ticks_view(major@))),
                year_of(t1) < 262142 ==> month_starts(tick_times(ticks_view(major@))),
                year_of(t1) < 262142 ==> forall|k: int| 0 <= k < minor@.len() ==> started_before(#[trigger] minor@[k], m_start as int, m as int),
                year_of(t1) < 262142 ==> increasing(minor@),
                year_of(t1) < 262142 ==> month_starts(minor@),
            decreases m_end + 1 - m,
        {
            let ts = month_start_ts(m as i32);
            let ghost s0 = minor@;
            let ghost tt0 = tick_times(ticks_view(major@));
            proof {
                if year_of(t1) < 262142 {
                    lemma_index_years(m as int, y0 as int, y1 + 1);
                }
            }
            let ghost n = (m - m_start) as nat;
            let ghost prev = month_ticks(t0, t1, m_start as int, n, step as int);
            let ghost next = month_ticks(t0, t1, m_start as int, n + 1, step as int);
            assert(m_start + (n + 1) - 1 == m);
            if t0 <= ts && ts <= t1 {
                if m.checked_rem_euclid(step).unwrap() == 0 {
                    let year: i64 = 1970 + m.checked_div_euclid(12).unwrap();
                    let mon = match utc_format_month(ts) {
                        Some(s) => s,
                        None => String::new(),
                    };
                    let ghost m0 = major@;
                    assert(mon@ == month_name_of(ts));
                    assert(year as int == 1970 + (m as int) / 12);
                    if year != last_year {
                        last_year = year;
                        let mut label = mon;
                        push_char(&mut label, ' ');
                        push_str(&mut label, i64_to_string(year).as_str());
                        assert(label@ =~= month_name_of(ts) + seq![' '] + signed_decimal(year as int));
                        major.push((ts, label));
                        assert(ticks_view(major@) =~= ticks_view(m0).push((ts, label@)));
                    } else {
                        major.push((ts, mon));
                        assert(ticks_view(major@) =~= ticks_view(m0).push((ts, mon@)));
                    }
                    assert(ticks_view(major@) == next.0);
                    proof {
                        assert(tick_times(ticks_view(major@)) =~= tt0.push(ts));
                        if year_of(t1) < 262142 {
                            lemma_push_month(tt0, m_start as int, m as int, ts);
                            lemma_widen(s0, m_start as int, m as int, m + 1);
                        }
                    }
                } else {
                    minor.push(ts);
                    proof {
                        if year_of(t1) < 262142 {
                            lemma_push_month(s0, m_start as int, m as int, ts);
                            lemma_widen(tt0, m_start as int, m as int, m + 1);
                        }
                    }
                }
            } else {
                proof {
                    if year_of(t1) < 262142 {
                        lemma_widen(s0, m_start as int, m as int, m + 1);
                        lemma_widen(tt0, m_start as int, m as int, m + 1);
                    }
                }
            }
            m += 1;
        }
        proof {
            assert((m - m_start) as nat == nm);
        }
    }
    (major, minor)
}

} // verus!
