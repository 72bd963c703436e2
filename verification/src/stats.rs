//! Read-only statistics over the ledger.
//!
//! Every query takes its reference date ("now") as an explicit parameter,
//! so results are deterministic.  The rolling totals sum micro-hours over
//! a described set of dates or ISO weeks; the yearly aggregation buckets
//! days and weeks by hour thresholds and counts how many days and weeks
//! could have been tracked at all.

use vstd::prelude::*;

use crate::calendar::Date;
use crate::calendar::day_number;
use crate::calendar::days_in_month;
use crate::calendar::days_in_year;
use crate::calendar::max_iso_week;
use crate::calendar::ordinal0;
use crate::calendar::spec_days_in_month;
use crate::calendar::spec_days_in_year;
use crate::calendar::spec_max_iso_week;
use crate::calendar::iso_week_of;
use crate::calendar::prev_date;
use crate::calendar::spec_back_days;
use crate::calendar::spec_iso_week;
use crate::calendar::spec_iso_week_year;
use crate::calendar::spec_day_number;
use crate::calendar::spec_ordinal0;
use crate::calendar::spec_weekday0;
use crate::calendar::valid_date;
use crate::calendar::weekday0;
use crate::ledger::DayEntry;
use crate::ledger::Ledger;
use crate::ledger::LedgerError;
use crate::ledger::p_after_dn;
use crate::ledger::p_id_date;
use crate::sums::lemma_psum_le_total;
use crate::sums::lemma_psum_take_full;
use crate::sums::lemma_psum_take_le;
use crate::sums::lemma_psum_take_step;
use crate::sums::p_true;
use crate::sums::psum;

verus! {

/// The predicate selecting one activity's entries with day numbers in a
/// half-open range.
pub open spec fn p_id_in_dn_range(id: i32, lo: int, hi: int) -> spec_fn(DayEntry) -> bool {
    |e: DayEntry| e.id == id && lo <= spec_day_number(e.date) < hi
}

/// The predicate selecting one activity's entries in one calendar month
/// on days strictly before a given day.
pub open spec fn p_id_in_month_before(id: i32, y: int, m: int, day_hi: int) -> spec_fn(
    DayEntry,
) -> bool {
    |e: DayEntry| e.id == id && e.date.year == y && e.date.month == m && e.date.day < day_hi
}

/// Sum of hours for the given activity on now's date, in micro-hours.
pub fn total_today(l: &Ledger, now: Date, id: i32) -> (r: u64)
    requires
        l.wf(),
    ensures
        r as int == l.hours_on(id, now),
{
    let hist = l.history_rows();
    let ghost p = p_id_date(id, now);
    let mut acc: u64 = 0;
    let mut i: usize = 0;
    while i < hist.len()
        invariant
            l.wf(),
            hist@ == l.hist(),
            i <= hist@.len(),
            acc as int == psum(l.hist().take(i as int), p),
            p == p_id_date(id, now),
        decreases hist@.len() - i,
    {
        let e = hist[i];
        proof {
            lemma_psum_take_step(l.hist(), p, i as int);
            lemma_psum_take_le(l.hist(), p, i as int + 1);
            lemma_psum_le_total(l.hist(), p);
        }
        if e.id == id && e.date == now {
            acc = acc + e.micro;
        }
        i = i + 1;
    }
    proof {
        lemma_psum_take_full(l.hist(), p);
    }
    acc
}

/// Sum of hours for the given activity on the days of now's ISO week
/// strictly before now's date: from the week's Monday up to yesterday.
pub fn total_this_week(l: &Ledger, now: Date, id: i32) -> (r: u64)
    requires
        l.wf(),
        valid_date(now),
    ensures
        r as int == psum(
            l.hist(),
            p_id_in_dn_range(
                id,
                spec_day_number(now) - spec_weekday0(now),
                spec_day_number(now),
            ),
        ),
{
    let dn_now = day_number(now);
    let wd = weekday0(now);
    let lo = dn_now - wd as u64;
    sum_in_dn_range(l, id, lo, dn_now)
}

/// Sum of hours for the given activity over the `x` calendar dates
/// immediately before now's date, today excluded.
pub fn total_last_x_days(l: &Ledger, x: u64, now: Date, id: i32) -> (r: u64)
    requires
        l.wf(),
        valid_date(now),
    ensures
        r as int == psum(
            l.hist(),
            p_id_in_dn_range(id, spec_day_number(now) - x, spec_day_number(now)),
        ),
{
    let dn_now = day_number(now);
    let hist = l.history_rows();
    let ghost p = p_id_in_dn_range(id, dn_now as int - x as int, dn_now as int);
    let mut acc: u64 = 0;
    let mut i: usize = 0;
    while i < hist.len()
        invariant
            l.wf(),
            hist@ == l.hist(),
            i <= hist@.len(),
            acc as int == psum(l.hist().take(i as int), p),
            p == p_id_in_dn_range(id, dn_now as int - x as int, dn_now as int),
            dn_now == spec_day_number(now),
        decreases hist@.len() - i,
    {
        let e = hist[i];
        proof {
            lemma_psum_take_step(l.hist(), p, i as int);
            lemma_psum_take_le(l.hist(), p, i as int + 1);
            lemma_psum_le_total(l.hist(), p);
        }
        let dn_e = day_number(e.date);
        if e.id == id && dn_e < dn_now && dn_now - dn_e <= x {
            acc = acc + e.micro;
        }
        i = i + 1;
    }
    proof {
        lemma_psum_take_full(l.hist(), p);
    }
    acc
}

/// Sum of hours for the given activity in a half-open day-number range.
fn sum_in_dn_range(l: &Ledger, id: i32, lo: u64, hi: u64) -> (r: u64)
    requires
        l.wf(),
    ensures
        r as int == psum(l.hist(), p_id_in_dn_range(id, lo as int, hi as int)),
{
    let hist = l.history_rows();
    let ghost p = p_id_in_dn_range(id, lo as int, hi as int);
    let mut acc: u64 = 0;
    let mut i: usize = 0;
    while i < hist.len()
        invariant
            l.wf(),
            hist@ == l.hist(),
            i <= hist@.len(),
            acc as int == psum(l.hist().take(i as int), p),
            p == p_id_in_dn_range(id, lo as int, hi as int),
        decreases hist@.len() - i,
    {
        let e = hist[i];
        proof {
            lemma_psum_take_step(l.hist(), p, i as int);
            lemma_psum_take_le(l.hist(), p, i as int + 1);
            lemma_psum_le_total(l.hist(), p);
        }
        let dn_e = day_number(e.date);
        if e.id == id && lo <= dn_e && dn_e < hi {
            acc = acc + e.micro;
        }
        i = i + 1;
    }
    proof {
        lemma_psum_take_full(l.hist(), p);
    }
    acc
}

/// Sum of hours for the given activity in now's calendar month on days
/// strictly before now's day.
pub fn total_this_month(l: &Ledger, now: Date, id: i32) -> (r: u64)
    requires
        l.wf(),
        valid_date(now),
    ensures
        r as int == psum(
            l.hist(),
            p_id_in_month_before(id, now.year as int, now.month as int, now.day as int),
        ),
{
    let hist = l.history_rows();
    let ghost p = p_id_in_month_before(id, now.year as int, now.month as int, now.day as int);
    let mut acc: u64 = 0;
    let mut i: usize = 0;
    while i < hist.len()
        invariant
            l.wf(),
            hist@ == l.hist(),
            i <= hist@.len(),
            acc as int == psum(l.hist().take(i as int), p),
            p == p_id_in_month_before(id, now.year as int, now.month as int, now.day as int),
        decreases hist@.len() - i,
    {
        let e = hist[i];
        proof {
            lemma_psum_take_step(l.hist(), p, i as int);
            lemma_psum_take_le(l.hist(), p, i as int + 1);
            lemma_psum_le_total(l.hist(), p);
        }
        if e.id == id && e.date.year == now.year && e.date.month == now.month && e.date.day
            < now.day {
            acc = acc + e.micro;
        }
        i = i + 1;
    }
    proof {
        lemma_psum_take_full(l.hist(), p);
    }
    acc
}

/// The ISO week and week-year `k` weeks (7·k days) before now's date.
pub open spec fn spec_week_at(now: Date, k: nat) -> (int, int) {
    let d = spec_back_days(now, (7 * k) as nat);
    (spec_iso_week(d), spec_iso_week_year(d))
}

/// Whether the scan of past weeks stops before counting week `i + 1`:
/// the candidate week is the first-ever entry's week and that week did
/// not start on a Monday, so it is structurally partial.
pub open spec fn spec_lastx_stop(first: Date, now: Date, i: nat) -> bool {
    let wk = spec_week_at(now, (i + 1) as nat);
    &&& wk.0 == spec_iso_week(first)
    &&& wk.1 == spec_iso_week_year(first)
    &&& spec_weekday0(first) != 0
}

pub open spec fn spec_lastx_count_from(first: Date, now: Date, x: nat, i: nat) -> nat
    decreases x - i,
{
    if i >= x {
        i
    } else if spec_lastx_stop(first, now, i) {
        i
    } else {
        spec_lastx_count_from(first, now, x, (i + 1) as nat)
    }
}

/// How many of the up-to-`x` preceding ISO weeks the scan counts before
/// it reaches the partial first-ever week or runs out.
pub open spec fn spec_lastx_count(first: Date, now: Date, x: nat) -> nat {
    spec_lastx_count_from(first, now, x, 0)
}

/// The predicate selecting one activity's entries lying in one of the
/// `n` ISO weeks immediately before now's week.
pub open spec fn p_id_in_lastx_weeks(id: i32, now: Date, n: nat) -> spec_fn(DayEntry) -> bool {
    |e: DayEntry|
        e.id == id && exists|k: nat|
            1 <= k <= n && (e.isoweek as int, e.isoweekyear as int) == #[trigger] spec_week_at(
                now,
                k,
            )
}

proof fn lemma_lastx_count_from(first: Date, now: Date, x: nat, i: nat, n: nat)
    requires
        i <= n <= x,
        forall|j: nat| i <= j < n ==> !spec_lastx_stop(first, now, j),
        n == x || spec_lastx_stop(first, now, n),
    ensures
        spec_lastx_count_from(first, now, x, i) == n,
    decreases n - i,
{
    if i < n {
        assert(!spec_lastx_stop(first, now, i));
        lemma_lastx_count_from(first, now, x, (i + 1) as nat, n);
    }
}

/// Whether the list holds the given week.
fn week_list_contains(cands: &Vec<(u8, i32)>, wk: u8, wy: i32) -> (r: bool)
    ensures
        r == exists|k: int| 0 <= k < cands@.len() && cands@[k] == (wk, wy),
{
    let mut i: usize = 0;
    while i < cands.len()
        invariant
            i <= cands@.len(),
            forall|k: int| 0 <= k < i ==> cands@[k] != (wk, wy),
        decreases cands@.len() - i,
    {
        let c = cands[i];
        if c.0 == wk && c.1 == wy {
            assert(cands@[i as int] == (wk, wy));
            return true;
        }
        i = i + 1;
    }
    false
}

/// Sum of hours for the given activity over up to `x` ISO weeks
/// immediately before now's week, matched by (week number, week-year).
/// Stops early at the first-ever recorded week when that week is partial.
/// Returns the summed micro-hours and the number of weeks counted.
pub fn total_last_x_weeks(l: &Ledger, x: u64, now: Date, id: i32) -> (r: Result<
    (u64, u64),
    LedgerError,
>)
    requires
        l.wf(),
        valid_date(now),
        7 * x < spec_day_number(now),
    ensures
        l.hist().len() == 0 ==> r == Err::<(u64, u64), LedgerError>(LedgerError::NoEntries),
        l.hist().len() > 0 ==> ({
            let n = spec_lastx_count(l.hist()[0].date, now, x as nat);
            r == Ok::<(u64, u64), LedgerError>(
                ((psum(l.hist(), p_id_in_lastx_weeks(id, now, n)) as u64), n as u64),
            )
        }),
{
    let first = match first_entry_date(l) {
        Ok(d) => d,
        Err(e) => {
            return Err(e);
        },
    };
    let fwk = iso_week_of(first);
    let fwd = weekday0(first);
    let dn_now = day_number(now);
    let mut cands: Vec<(u8, i32)> = Vec::new();
    let mut cursor = now;
    let mut i: u64 = 0;
    let mut stopped = false;
    while i < x && !stopped
        invariant
            l.wf(),
            valid_date(now),
            7 * x < spec_day_number(now),
            i <= x,
            valid_date(cursor),
            !stopped ==> cursor == spec_back_days(now, (7 * i) as nat) && spec_day_number(cursor)
                == spec_day_number(now) - 7 * i,
            cands@.len() == i,
            forall|k: int|
                0 <= k < i ==> (((#[trigger] cands@[k]).0 as int, cands@[k].1 as int)
                    == spec_week_at(now, (k + 1) as nat)),
            forall|j: nat| j < i ==> !spec_lastx_stop(first, now, j),
            stopped ==> i < x && spec_lastx_stop(first, now, i as nat),
            fwk.0 == spec_iso_week(first),
            fwk.1 == spec_iso_week_year(first),
            fwd == spec_weekday0(first),
        decreases x - i + (if stopped {
            0int
        } else {
            1int
        }),
    {
        let mut j: u8 = 0;
        while j < 7
            invariant
                j <= 7,
                i < x,
                valid_date(now),
                7 * x < spec_day_number(now),
                valid_date(cursor),
                cursor == spec_back_days(now, (7 * i + j) as nat),
                spec_day_number(cursor) == spec_day_number(now) - 7 * i - j,
            decreases 7 - j,
        {
            cursor = prev_date(cursor);
            j = j + 1;
        }
        let wkc = iso_week_of(cursor);
        if wkc.0 == fwk.0 && wkc.1 == fwk.1 && fwd != 0 {
            proof {
                assert(spec_lastx_stop(first, now, i as nat));
            }
            stopped = true;
        } else {
            cands.push((wkc.0, wkc.1));
            i = i + 1;
        }
    }
    let n = i;
    proof {
        lemma_lastx_count_from(first, now, x as nat, 0, n as nat);
    }
    let ghost p = p_id_in_lastx_weeks(id, now, n as nat);
    let hist = l.history_rows();
    let mut acc: u64 = 0;
    let mut t: usize = 0;
    while t < hist.len()
        invariant
            l.wf(),
            hist@ == l.hist(),
            t <= hist@.len(),
            acc as int == psum(l.hist().take(t as int), p),
            p == p_id_in_lastx_weeks(id, now, n as nat),
            cands@.len() == n,
            forall|k: int|
                0 <= k < n ==> (((#[trigger] cands@[k]).0 as int, cands@[k].1 as int)
                    == spec_week_at(now, (k + 1) as nat)),
        decreases hist@.len() - t,
    {
        let e = hist[t];
        proof {
            lemma_psum_take_step(l.hist(), p, t as int);
            lemma_psum_take_le(l.hist(), p, t as int + 1);
            lemma_psum_le_total(l.hist(), p);
        }
        let inlist = week_list_contains(&cands, e.isoweek, e.isoweekyear);
        proof {
            if inlist {
                let k = choose|k: int|
                    0 <= k < cands@.len() && cands@[k] == (e.isoweek, e.isoweekyear);
                assert((e.isoweek as int, e.isoweekyear as int) == spec_week_at(
                    now,
                    (k + 1) as nat,
                ));
            }
            if e.id == id && p(e) {
                let k = choose|k: nat|
                    1 <= k <= n && (e.isoweek as int, e.isoweekyear as int)
                        == #[trigger] spec_week_at(now, k);
                assert(cands@[k - 1] == (e.isoweek, e.isoweekyear));
            }
        }
        if e.id == id && inlist {
            acc = acc + e.micro;
        }
        t = t + 1;
    }
    proof {
        lemma_psum_take_full(l.hist(), p);
    }
    Ok((acc, n))
}

/// How many days of a year could have been tracked: all of them, less
/// the days before the first-ever entry in the first-entry year, less the
/// days from now to the year's end in the current year.
pub open spec fn spec_relevant_day_count(first: Date, year: int, today: Date) -> int {
    let base = spec_days_in_year(year);
    let a = if first.year == year {
        base - spec_ordinal0(first)
    } else {
        base
    };
    if today.year == year {
        a - (spec_days_in_year(year) - spec_ordinal0(today))
    } else {
        a
    }
}

/// How many ISO weeks of a week-numbering year could have been tracked:
/// weeks after now's week and weeks up to and including the first-ever
/// entry's week are not counted — unless that first week began on a
/// Monday, in which case it was fully observable and counts after all.
pub open spec fn spec_relevant_week_count(first: Date, year: int, today: Date) -> int {
    let maxwk = spec_max_iso_week(year);
    let a = if spec_iso_week_year(today) == year {
        spec_iso_week(today) - 1
    } else {
        maxwk
    };
    let b = if spec_iso_week_year(first) == year {
        a - spec_iso_week(first) + (if spec_weekday0(first) == 0 {
            1int
        } else {
            0int
        })
    } else {
        a
    };
    if b < 0 {
        0
    } else {
        b
    }
}

/// Days of now's ISO week that lie behind us and could carry data: the
/// days before today, shortened when tracking first began inside this
/// very week.
pub open spec fn spec_days_relevant_this_week(first: Date, now: Date) -> int {
    if first.year == now.year && spec_iso_week(first) == spec_iso_week(now) {
        spec_weekday0(now) - spec_weekday0(first)
    } else {
        spec_weekday0(now)
    }
}

/// Days of now's ISO week that lie behind us and could carry data.
pub fn days_relevant_this_week(first: Date, now: Date) -> (r: i32)
    requires
        valid_date(first),
        valid_date(now),
    ensures
        r as int == spec_days_relevant_this_week(first, now),
{
    let fwk = iso_week_of(first);
    let nwk = iso_week_of(now);
    if first.year == now.year && fwk.0 == nwk.0 {
        weekday0(now) as i32 - weekday0(first) as i32
    } else {
        weekday0(now) as i32
    }
}

/// Days of now's calendar month from the first-ever entry through today,
/// or the whole month when tracking began before it.
pub open spec fn spec_relevant_day_count_month(first: Date, today: Date) -> int {
    let dim = spec_days_in_month(today.year as int, today.month as int);
    if first.year == today.year && first.month == today.month {
        dim - (first.day - 1) - (dim - (today.day - 1))
    } else {
        dim
    }
}

/// How many days of `year` could have been tracked, given the first-ever
/// entry and today's date.
pub fn relevant_day_count(first: Date, year: i32, today: Date) -> (r: i32)
    requires
        valid_date(first),
        valid_date(today),
        year >= 1,
    ensures
        r as int == spec_relevant_day_count(first, year as int, today),
{
    let base = days_in_year(year) as i32;
    let mut res = base;
    if first.year == year {
        res = res - ordinal0(first) as i32;
    }
    if today.year == year {
        res = res - (base - ordinal0(today) as i32);
    }
    res
}

/// How many ISO weeks of week-numbering year `year` could have been
/// tracked, given the first-ever entry and today's date.
pub fn relevant_week_count(first: Date, year: i32, today: Date) -> (r: i32)
    requires
        valid_date(first),
        valid_date(today),
        1 <= year <= 9999,
    ensures
        r as int == spec_relevant_week_count(first, year as int, today),
{
    let maxwk = max_iso_week(year) as i32;
    let mut res = maxwk;
    let twk = iso_week_of(today);
    if twk.1 == year {
        res = res - (maxwk - (twk.0 as i32 - 1));
    }
    let fwk = iso_week_of(first);
    if fwk.1 == year {
        res = res - fwk.0 as i32;
        if weekday0(first) == 0 {
            res = res + 1;
        }
    }
    if res < 0 {
        return 0;
    }
    res
}

/// Days of now's calendar month that matter for a this-month average;
/// today is included.
pub fn relevant_day_count_month_current(first: Date, today: Date) -> (r: i32)
    requires
        valid_date(first),
        valid_date(today),
        first.year == today.year && first.month == today.month ==> first.day <= today.day,
    ensures
        r as int == spec_relevant_day_count_month(first, today),
{
    let dim = days_in_month(today.year, today.month) as i32;
    let mut res = dim;
    if today.month == first.month && today.year == first.year {
        res = res - (first.day as i32 - 1);
        res = res - (dim - (today.day as i32 - 1));
    }
    res
}

/// Bucket counters for one year: how many days and ISO weeks reached
/// each hour threshold, and how many were relevant at all.
#[derive(Clone, Copy, Debug, PartialEq, Eq, Structural)]
pub struct YearCounts {
    pub dd_00_hrs: i32,
    pub dd_04_hrspls: i32,
    pub dd_08_hrspls: i32,
    pub dd_10_hrspls: i32,
    pub dd_12_hrspls: i32,
    pub dd_14_hrspls: i32,
    pub dds_relevant: i32,
    pub wk_00_hrs: i32,
    pub wk_10_hrspls: i32,
    pub wk_20_hrspls: i32,
    pub wk_30_hrspls: i32,
    pub wk_40_hrspls: i32,
    pub wk_50_hrspls: i32,
    pub wk_60_hrspls: i32,
    pub wk_70_hrspls: i32,
    pub wk_80_hrspls: i32,
    pub wk_90_hrspls: i32,
    pub wks_relevant: i32,
}

/// Pointwise sum of two sets of counters.
pub open spec fn spec_combine(a: YearCounts, b: YearCounts) -> YearCounts {
    YearCounts {
        dd_00_hrs: (a.dd_00_hrs + b.dd_00_hrs) as i32,
        dd_04_hrspls: (a.dd_04_hrspls + b.dd_04_hrspls) as i32,
        dd_08_hrspls: (a.dd_08_hrspls + b.dd_08_hrspls) as i32,
        dd_10_hrspls: (a.dd_10_hrspls + b.dd_10_hrspls) as i32,
        dd_12_hrspls: (a.dd_12_hrspls + b.dd_12_hrspls) as i32,
        dd_14_hrspls: (a.dd_14_hrspls + b.dd_14_hrspls) as i32,
        dds_relevant: (a.dds_relevant + b.dds_relevant) as i32,
        wk_00_hrs: (a.wk_00_hrs + b.wk_00_hrs) as i32,
        wk_10_hrspls: (a.wk_10_hrspls + b.wk_10_hrspls) as i32,
        wk_20_hrspls: (a.wk_20_hrspls + b.wk_20_hrspls) as i32,
        wk_30_hrspls: (a.wk_30_hrspls + b.wk_30_hrspls) as i32,
        wk_40_hrspls: (a.wk_40_hrspls + b.wk_40_hrspls) as i32,
        wk_50_hrspls: (a.wk_50_hrspls + b.wk_50_hrspls) as i32,
        wk_60_hrspls: (a.wk_60_hrspls + b.wk_60_hrspls) as i32,
        wk_70_hrspls: (a.wk_70_hrspls + b.wk_70_hrspls) as i32,
        wk_80_hrspls: (a.wk_80_hrspls + b.wk_80_hrspls) as i32,
        wk_90_hrspls: (a.wk_90_hrspls + b.wk_90_hrspls) as i32,
        wks_relevant: (a.wks_relevant + b.wks_relevant) as i32,
    }
}

/// Whether two sets of counters can be added without overflow.
pub open spec fn can_combine(a: YearCounts, b: YearCounts) -> bool {
    &&& i32::MIN <= a.dd_00_hrs + b.dd_00_hrs <= i32::MAX
    &&& i32::MIN <= a.dd_04_hrspls + b.dd_04_hrspls <= i32::MAX
    &&& i32::MIN <= a.dd_08_hrspls + b.dd_08_hrspls <= i32::MAX
    &&& i32::MIN <= a.dd_10_hrspls + b.dd_10_hrspls <= i32::MAX
    &&& i32::MIN <= a.dd_12_hrspls + b.dd_12_hrspls <= i32::MAX
    &&& i32::MIN <= a.dd_14_hrspls + b.dd_14_hrspls <= i32::MAX
    &&& i32::MIN <= a.dds_relevant + b.dds_relevant <= i32::MAX
    &&& i32::MIN <= a.wk_00_hrs + b.wk_00_hrs <= i32::MAX
    &&& i32::MIN <= a.wk_10_hrspls + b.wk_10_hrspls <= i32::MAX
    &&& i32::MIN <= a.wk_20_hrspls + b.wk_20_hrspls <= i32::MAX
    &&& i32::MIN <= a.wk_30_hrspls + b.wk_30_hrspls <= i32::MAX
    &&& i32::MIN <= a.wk_40_hrspls + b.wk_40_hrspls <= i32::MAX
    &&& i32::MIN <= a.wk_50_hrspls + b.wk_50_hrspls <= i32::MAX
    &&& i32::MIN <= a.wk_60_hrspls + b.wk_60_hrspls <= i32::MAX
    &&& i32::MIN <= a.wk_70_hrspls + b.wk_70_hrspls <= i32::MAX
    &&& i32::MIN <= a.wk_80_hrspls + b.wk_80_hrspls <= i32::MAX
    &&& i32::MIN <= a.wk_90_hrspls + b.wk_90_hrspls <= i32::MAX
    &&& i32::MIN <= a.wks_relevant + b.wks_relevant <= i32::MAX
}

/// Combining counters is commutative.
pub proof fn lemma_combine_commutative(a: YearCounts, b: YearCounts)
    ensures
        spec_combine(a, b) == spec_combine(b, a),
{
}

/// Combining counters is associative wherever no sum overflows, so a
/// sequence of yearly counters may be folded in any order.
pub proof fn lemma_combine_associative(a: YearCounts, b: YearCounts, c: YearCounts)
    requires
        can_combine(a, b),
        can_combine(b, c),
        can_combine(spec_combine(a, b), c),
        can_combine(a, spec_combine(b, c)),
    ensures
        spec_combine(spec_combine(a, b), c) == spec_combine(a, spec_combine(b, c)),
{
}

impl YearCounts {
    /// Counters all at zero.
    pub fn new() -> (r: YearCounts)
        ensures
            r.dd_00_hrs == 0,
            r.dd_04_hrspls == 0,
            r.dd_08_hrspls == 0,
            r.dd_10_hrspls == 0,
            r.dd_12_hrspls == 0,
            r.dd_14_hrspls == 0,
            r.dds_relevant == 0,
            r.wk_00_hrs == 0,
            r.wk_10_hrspls == 0,
            r.wk_20_hrspls == 0,
            r.wk_30_hrspls == 0,
            r.wk_40_hrspls == 0,
            r.wk_50_hrspls == 0,
            r.wk_60_hrspls == 0,
            r.wk_70_hrspls == 0,
            r.wk_80_hrspls == 0,
            r.wk_90_hrspls == 0,
            r.wks_relevant == 0,
    {
        YearCounts {
            dd_00_hrs: 0,
            dd_04_hrspls: 0,
            dd_08_hrspls: 0,
            dd_10_hrspls: 0,
            dd_12_hrspls: 0,
            dd_14_hrspls: 0,
            dds_relevant: 0,
            wk_00_hrs: 0,
            wk_10_hrspls: 0,
            wk_20_hrspls: 0,
            wk_30_hrspls: 0,
            wk_40_hrspls: 0,
            wk_50_hrspls: 0,
            wk_60_hrspls: 0,
            wk_70_hrspls: 0,
            wk_80_hrspls: 0,
            wk_90_hrspls: 0,
            wks_relevant: 0,
        }
    }

    /// Pointwise sum of two sets of counters: the associative and
    /// commutative merge that folds years into an all-time total.
    pub fn combine(&self, other: &YearCounts) -> (r: YearCounts)
        requires
            can_combine(*self, *other),
        ensures
            r == spec_combine(*self, *other),
    {
        YearCounts {
            dd_00_hrs: self.dd_00_hrs + other.dd_00_hrs,
            dd_04_hrspls: self.dd_04_hrspls + other.dd_04_hrspls,
            dd_08_hrspls: self.dd_08_hrspls + other.dd_08_hrspls,
            dd_10_hrspls: self.dd_10_hrspls + other.dd_10_hrspls,
            dd_12_hrspls: self.dd_12_hrspls + other.dd_12_hrspls,
            dd_14_hrspls: self.dd_14_hrspls + other.dd_14_hrspls,
            dds_relevant: self.dds_relevant + other.dds_relevant,
            wk_00_hrs: self.wk_00_hrs + other.wk_00_hrs,
            wk_10_hrspls: self.wk_10_hrspls + other.wk_10_hrspls,
            wk_20_hrspls: self.wk_20_hrspls + other.wk_20_hrspls,
            wk_30_hrspls: self.wk_30_hrspls + other.wk_30_hrspls,
            wk_40_hrspls: self.wk_40_hrspls + other.wk_40_hrspls,
            wk_50_hrspls: self.wk_50_hrspls + other.wk_50_hrspls,
            wk_60_hrspls: self.wk_60_hrspls + other.wk_60_hrspls,
            wk_70_hrspls: self.wk_70_hrspls + other.wk_70_hrspls,
            wk_80_hrspls: self.wk_80_hrspls + other.wk_80_hrspls,
            wk_90_hrspls: self.wk_90_hrspls + other.wk_90_hrspls,
            wks_relevant: self.wks_relevant + other.wks_relevant,
        }
    }
}

/// The date of the earliest entry in the history.
pub fn first_entry_date(l: &Ledger) -> (r: Result<Date, LedgerError>)
    requires
        l.wf(),
    ensures
        l.hist().len() == 0 ==> r == Err::<Date, LedgerError>(LedgerError::NoEntries),
        l.hist().len() > 0 ==> r == Ok::<Date, LedgerError>(l.hist()[0].date) && (forall|i: int|
            0 <= i < l.hist().len() ==> spec_day_number(l.hist()[0].date) <= spec_day_number(
                (#[trigger] l.hist()[i]).date,
            )),
{
    let hist = l.history_rows();
    if hist.len() == 0 {
        return Err(LedgerError::NoEntries);
    }
    proof {
        crate::ledger::lemma_hist_sorted_pairwise(l.hist());
    }
    Ok(hist[0].date)
}

/// The predicate selecting the entries of one calendar year.
pub open spec fn p_year(y: int) -> spec_fn(DayEntry) -> bool {
    |e: DayEntry| e.date.year == y
}

/// The predicate selecting the entries of one ISO week-numbering year.
pub open spec fn p_wkyy(y: int) -> spec_fn(DayEntry) -> bool {
    |e: DayEntry| e.isoweekyear == y
}

/// The subsequence of entries a predicate selects, in order.
pub open spec fn filter_entries(s: Seq<DayEntry>, p: spec_fn(DayEntry) -> bool) -> Seq<DayEntry>
    decreases s.len(),
{
    if s.len() == 0 {
        Seq::empty()
    } else if p(s.last()) {
        filter_entries(s.drop_last(), p) + seq![s.last()]
    } else {
        filter_entries(s.drop_last(), p)
    }
}

/// Extending a prefix extends its filtered image by at most the element.
pub proof fn lemma_filter_take_step(s: Seq<DayEntry>, p: spec_fn(DayEntry) -> bool, i: int)
    requires
        0 <= i < s.len(),
    ensures
        filter_entries(s.take(i + 1), p) == if p(s[i]) {
            filter_entries(s.take(i), p) + seq![s[i]]
        } else {
            filter_entries(s.take(i), p)
        },
{
    assert(s.take(i + 1).drop_last() =~= s.take(i));
    assert(s.take(i + 1).last() == s[i]);
}

/// The whole sequence is its own full prefix.
pub proof fn lemma_filter_take_full(s: Seq<DayEntry>, p: spec_fn(DayEntry) -> bool)
    ensures
        filter_entries(s.take(s.len() as int), p) == filter_entries(s, p),
{
    assert(s.take(s.len() as int) =~= s);
}

/// Filtering keeps the total micro-hours within the unfiltered sum.
pub proof fn lemma_filter_sum_le(s: Seq<DayEntry>, p: spec_fn(DayEntry) -> bool)
    ensures
        0 <= psum(filter_entries(s, p), p_true()) <= psum(s, p_true()),
        filter_entries(s, p).len() <= s.len(),
    decreases s.len(),
{
    if s.len() == 0 {
    } else {
        lemma_filter_sum_le(s.drop_last(), p);
        if p(s.last()) {
            let t = filter_entries(s.drop_last(), p) + seq![s.last()];
            assert(t.drop_last() =~= filter_entries(s.drop_last(), p));
            assert(t.last() == s.last());
        }
    }
}

/// The length of the leading run of entries on one date.
pub open spec fn run_len_date(s: Seq<DayEntry>, d: Date) -> nat
    decreases s.len(),
{
    if s.len() == 0 || s[0].date != d {
        0
    } else {
        1 + run_len_date(s.skip(1), d)
    }
}

/// The leading run on a date: its extent and the first entry beyond it.
pub proof fn lemma_run_len_date_facts(s: Seq<DayEntry>, d: Date)
    ensures
        run_len_date(s, d) <= s.len(),
        forall|j: int| 0 <= j < run_len_date(s, d) ==> (#[trigger] s[j]).date == d,
        run_len_date(s, d) < s.len() ==> s[run_len_date(s, d) as int].date != d,
    decreases s.len(),
{
    if s.len() > 0 && s[0].date == d {
        lemma_run_len_date_facts(s.skip(1), d);
        assert forall|j: int| 0 <= j < run_len_date(s, d) implies (#[trigger] s[j]).date == d by {
            if j > 0 {
                assert(s.skip(1)[j - 1] == s[j]);
            }
        }
        if run_len_date(s, d) < s.len() {
            assert(s.skip(1)[run_len_date(s, d) - 1] == s[run_len_date(s, d) as int]);
        }
    }
}

/// The length of the leading run of entries in one ISO week number.
pub open spec fn run_len_week(s: Seq<DayEntry>, wk: int) -> nat
    decreases s.len(),
{
    if s.len() == 0 || s[0].isoweek != wk {
        0
    } else {
        1 + run_len_week(s.skip(1), wk)
    }
}

/// The leading run in a week: its extent and the first entry beyond it.
pub proof fn lemma_run_len_week_facts(s: Seq<DayEntry>, wk: int)
    ensures
        run_len_week(s, wk) <= s.len(),
        forall|j: int| 0 <= j < run_len_week(s, wk) ==> (#[trigger] s[j]).isoweek == wk,
        run_len_week(s, wk) < s.len() ==> s[run_len_week(s, wk) as int].isoweek != wk,
    decreases s.len(),
{
    if s.len() > 0 && s[0].isoweek == wk {
        lemma_run_len_week_facts(s.skip(1), wk);
        assert forall|j: int| 0 <= j < run_len_week(s, wk) implies (#[trigger] s[j]).isoweek == wk by {
            if j > 0 {
                assert(s.skip(1)[j - 1] == s[j]);
            }
        }
        if run_len_week(s, wk) < s.len() {
            assert(s.skip(1)[run_len_week(s, wk) - 1] == s[run_len_week(s, wk) as int]);
        }
    }
}

/// Day counters: how many completed days the scan saw, and how many of
/// them reached each hour threshold.
pub ghost struct DayTallies {
    pub days: int,
    pub d04: int,
    pub d08: int,
    pub d10: int,
    pub d12: int,
    pub d14: int,
}

pub open spec fn day_tallies_zero() -> DayTallies {
    DayTallies { days: 0, d04: 0, d08: 0, d10: 0, d12: 0, d14: 0 }
}

/// The linear scan over a year's entries, pre-sorted by date: group
/// consecutive entries of one date, stop at today's date (today is still
/// in progress), sum each completed day and count the thresholds it
/// reaches.
pub open spec fn spec_day_scan(s: Seq<DayEntry>, today: Date) -> DayTallies
    decreases s.len(),
    via spec_day_scan_decreases
{
    if s.len() == 0 {
        day_tallies_zero()
    } else if s[0].date == today {
        day_tallies_zero()
    } else {
        let k = run_len_date(s, s[0].date);
        let sum = psum(s.take(k as int), p_true());
        let rest = spec_day_scan(s.skip(k as int), today);
        DayTallies {
            days: rest.days + 1,
            d04: rest.d04 + if sum >= 4_000_000 {
                1int
            } else {
                0int
            },
            d08: rest.d08 + if sum >= 8_000_000 {
                1int
            } else {
                0int
            },
            d10: rest.d10 + if sum >= 10_000_000 {
                1int
            } else {
                0int
            },
            d12: rest.d12 + if sum >= 12_000_000 {
                1int
            } else {
                0int
            },
            d14: rest.d14 + if sum >= 14_000_000 {
                1int
            } else {
                0int
            },
        }
    }
}

#[via_fn]
proof fn spec_day_scan_decreases(s: Seq<DayEntry>, today: Date) {
    if s.len() > 0 && s[0].date != today {
        lemma_run_len_date_facts(s, s[0].date);
    }
}

/// Week counters: how many completed weeks the scan counted, and how
/// many of them reached each hour threshold.
pub ghost struct WeekTallies {
    pub weeks: int,
    pub w10: int,
    pub w20: int,
    pub w30: int,
    pub w40: int,
    pub w50: int,
    pub w60: int,
    pub w70: int,
    pub w80: int,
    pub w90: int,
}

pub open spec fn week_tallies_zero() -> WeekTallies {
    WeekTallies { weeks: 0, w10: 0, w20: 0, w30: 0, w40: 0, w50: 0, w60: 0, w70: 0, w80: 0, w90: 0 }
}

/// The linear scan over a week-year's entries, pre-sorted by date: skip
/// the first-ever week when it is partial, stop at today's in-progress
/// week, group consecutive entries of one ISO week, sum each completed
/// week and count the thresholds it reaches.
pub open spec fn spec_week_scan(
    s: Seq<DayEntry>,
    first_wk: int,
    first_wkyy: int,
    first_monday: bool,
    today_wk: int,
    today_wkyy: int,
) -> WeekTallies
    decreases s.len(),
    via spec_week_scan_decreases
{
    if s.len() == 0 {
        week_tallies_zero()
    } else if s[0].isoweekyear == first_wkyy && s[0].isoweek == first_wk && !first_monday {
        spec_week_scan(s.skip(1), first_wk, first_wkyy, first_monday, today_wk, today_wkyy)
    } else if s[0].isoweekyear == today_wkyy && s[0].isoweek == today_wk {
        week_tallies_zero()
    } else {
        let k = run_len_week(s, s[0].isoweek as int);
        let sum = psum(s.take(k as int), p_true());
        let rest = spec_week_scan(
            s.skip(k as int),
            first_wk,
            first_wkyy,
            first_monday,
            today_wk,
            today_wkyy,
        );
        WeekTallies {
            weeks: rest.weeks + 1,
            w10: rest.w10 + if sum >= 10_000_000 {
                1int
            } else {
                0int
            },
            w20: rest.w20 + if sum >= 20_000_000 {
                1int
            } else {
                0int
            },
            w30: rest.w30 + if sum >= 30_000_000 {
                1int
            } else {
                0int
            },
            w40: rest.w40 + if sum >= 40_000_000 {
                1int
            } else {
                0int
            },
            w50: rest.w50 + if sum >= 50_000_000 {
                1int
            } else {
                0int
            },
            w60: rest.w60 + if sum >= 60_000_000 {
                1int
            } else {
                0int
            },
            w70: rest.w70 + if sum >= 70_000_000 {
                1int
            } else {
                0int
            },
            w80: rest.w80 + if sum >= 80_000_000 {
                1int
            } else {
                0int
            },
            w90: rest.w90 + if sum >= 90_000_000 {
                1int
            } else {
                0int
            },
        }
    }
}

#[via_fn]
proof fn spec_week_scan_decreases(
    s: Seq<DayEntry>,
    first_wk: int,
    first_wkyy: int,
    first_monday: bool,
    today_wk: int,
    today_wkyy: int,
) {
    if s.len() > 0 {
        lemma_run_len_week_facts(s, s[0].isoweek as int);
    }
}

/// The entries of one calendar year, in their stored order.
fn filter_by_year(hist: &Vec<DayEntry>, y: i32) -> (r: Vec<DayEntry>)
    ensures
        r@ == filter_entries(hist@, p_year(y as int)),
{
    let mut out: Vec<DayEntry> = Vec::new();
    let mut i: usize = 0;
    while i < hist.len()
        invariant
            i <= hist@.len(),
            out@ == filter_entries(hist@.take(i as int), p_year(y as int)),
        decreases hist@.len() - i,
    {
        let e = hist[i];
        proof {
            lemma_filter_take_step(hist@, p_year(y as int), i as int);
        }
        if e.date.year == y {
            let ghost prev = out@;
            out.push(e);
            proof {
                assert(out@ =~= prev + seq![e]);
            }
        }
        i = i + 1;
    }
    proof {
        lemma_filter_take_full(hist@, p_year(y as int));
    }
    out
}

/// The entries of one ISO week-numbering year, in their stored order.
fn filter_by_wkyy(hist: &Vec<DayEntry>, y: i32) -> (r: Vec<DayEntry>)
    ensures
        r@ == filter_entries(hist@, p_wkyy(y as int)),
{
    let mut out: Vec<DayEntry> = Vec::new();
    let mut i: usize = 0;
    while i < hist.len()
        invariant
            i <= hist@.len(),
            out@ == filter_entries(hist@.take(i as int), p_wkyy(y as int)),
        decreases hist@.len() - i,
    {
        let e = hist[i];
        proof {
            lemma_filter_take_step(hist@, p_wkyy(y as int), i as int);
        }
        if e.isoweekyear == y {
            let ghost prev = out@;
            out.push(e);
            proof {
                assert(out@ =~= prev + seq![e]);
            }
        }
        i = i + 1;
    }
    proof {
        lemma_filter_take_full(hist@, p_wkyy(y as int));
    }
    out
}

struct DayScanOut {
    days: usize,
    c04: usize,
    c08: usize,
    c10: usize,
    c12: usize,
    c14: usize,
}

/// The day-bucket scan, executed: mirrors `spec_day_scan`.
#[verifier::rlimit(60)]
fn day_scan_exec(fv: &Vec<DayEntry>, today: Date) -> (r: DayScanOut)
    requires
        psum(fv@, p_true()) <= u64::MAX,
    ensures
        r.days as int == spec_day_scan(fv@, today).days,
        r.c04 as int == spec_day_scan(fv@, today).d04,
        r.c08 as int == spec_day_scan(fv@, today).d08,
        r.c10 as int == spec_day_scan(fv@, today).d10,
        r.c12 as int == spec_day_scan(fv@, today).d12,
        r.c14 as int == spec_day_scan(fv@, today).d14,
        r.days <= fv@.len(),
        r.c04 <= r.days,
        r.c08 <= r.days,
        r.c10 <= r.days,
        r.c12 <= r.days,
        r.c14 <= r.days,
{
    let ghost whole = spec_day_scan(fv@, today);
    proof {
        assert(fv@.skip(0) =~= fv@);
    }
    let mut i: usize = 0;
    let mut days: usize = 0;
    let mut c04: usize = 0;
    let mut c08: usize = 0;
    let mut c10: usize = 0;
    let mut c12: usize = 0;
    let mut c14: usize = 0;
    while i < fv.len()
        invariant_except_break
            psum(fv@, p_true()) <= u64::MAX,
            i <= fv@.len(),
            days <= i,
            c04 <= days,
            c08 <= days,
            c10 <= days,
            c12 <= days,
            c14 <= days,
            whole == spec_day_scan(fv@, today),
            whole.days == days + spec_day_scan(fv@.skip(i as int), today).days,
            whole.d04 == c04 + spec_day_scan(fv@.skip(i as int), today).d04,
            whole.d08 == c08 + spec_day_scan(fv@.skip(i as int), today).d08,
            whole.d10 == c10 + spec_day_scan(fv@.skip(i as int), today).d10,
            whole.d12 == c12 + spec_day_scan(fv@.skip(i as int), today).d12,
            whole.d14 == c14 + spec_day_scan(fv@.skip(i as int), today).d14,
        ensures
            days <= fv@.len(),
            c04 <= days,
            c08 <= days,
            c10 <= days,
            c12 <= days,
            c14 <= days,
            whole.days == days,
            whole.d04 == c04,
            whole.d08 == c08,
            whole.d10 == c10,
            whole.d12 == c12,
            whole.d14 == c14,
        decreases fv@.len() - i,
    {
        let ghost sk = fv@.skip(i as int);
        proof {
            assert(sk[0] == fv@[i as int]);
        }
        let d = fv[i].date;
        if d == today {
            proof {
                assert(spec_day_scan(sk, today) == day_tallies_zero());
            }
            break;
        }
        let mut j: usize = i;
        let mut rsum: u64 = 0;
        while j < fv.len() && fv[j].date == d
            invariant
                i <= j <= fv@.len(),
                i < fv@.len(),
                forall|t: int| i <= t < j ==> (#[trigger] fv@[t]).date == d,
                rsum as int == psum(fv@.skip(i as int).take((j - i) as int), p_true()),
                psum(fv@, p_true()) <= u64::MAX,
                sk == fv@.skip(i as int),
            decreases fv@.len() - j,
        {
            proof {
                lemma_psum_take_step(sk, p_true(), (j - i) as int);
                lemma_psum_take_le(sk, p_true(), (j - i) as int + 1);
                crate::sums::lemma_psum_take_skip(fv@, p_true(), i as int);
                lemma_psum_le_total(fv@.take(i as int), p_true());
                assert(sk[(j - i) as int] == fv@[j as int]);
            }
            rsum = rsum + fv[j].micro;
            j = j + 1;
        }
        proof {
            lemma_run_len_date_facts(sk, d);
            let run = run_len_date(sk, d) as int;
            assert(forall|t: int| 0 <= t < sk.len() ==> sk[t] == fv@[i + t]);
            if j - i < run {
                assert(sk[(j - i) as int].date == d);
                assert(false);
            }
            if j - i > run {
                assert(sk[run].date != d);
                assert(fv@[i + run].date == d);
                assert(false);
            }
            assert(j - i == run);
            assert(sk.skip(run) =~= fv@.skip(j as int));
        }
        days = days + 1;
        if rsum >= 4_000_000 {
            c04 = c04 + 1;
        }
        if rsum >= 8_000_000 {
            c08 = c08 + 1;
        }
        if rsum >= 10_000_000 {
            c10 = c10 + 1;
        }
        if rsum >= 12_000_000 {
            c12 = c12 + 1;
        }
        if rsum >= 14_000_000 {
            c14 = c14 + 1;
        }
        i = j;
    }
    DayScanOut { days, c04, c08, c10, c12, c14 }
}

struct WeekScanOut {
    weeks: usize,
    c10: usize,
    c20: usize,
    c30: usize,
    c40: usize,
    c50: usize,
    c60: usize,
    c70: usize,
    c80: usize,
    c90: usize,
}

/// The week-bucket scan, executed: mirrors `spec_week_scan`.
#[verifier::rlimit(100)]
fn week_scan_exec(
    fv: &Vec<DayEntry>,
    fwk: u8,
    fwkyy: i32,
    fmon: bool,
    twk: u8,
    twkyy: i32,
) -> (r: WeekScanOut)
    requires
        psum(fv@, p_true()) <= u64::MAX,
    ensures
        ({
            let w = spec_week_scan(fv@, fwk as int, fwkyy as int, fmon, twk as int, twkyy as int);
            &&& r.weeks as int == w.weeks
            &&& r.c10 as int == w.w10
            &&& r.c20 as int == w.w20
            &&& r.c30 as int == w.w30
            &&& r.c40 as int == w.w40
            &&& r.c50 as int == w.w50
            &&& r.c60 as int == w.w60
            &&& r.c70 as int == w.w70
            &&& r.c80 as int == w.w80
            &&& r.c90 as int == w.w90
            &&& r.weeks <= fv@.len()
            &&& r.c10 <= r.weeks
            &&& r.c20 <= r.weeks
            &&& r.c30 <= r.weeks
            &&& r.c40 <= r.weeks
            &&& r.c50 <= r.weeks
            &&& r.c60 <= r.weeks
            &&& r.c70 <= r.weeks
            &&& r.c80 <= r.weeks
            &&& r.c90 <= r.weeks
        }),
{
    let ghost whole = spec_week_scan(fv@, fwk as int, fwkyy as int, fmon, twk as int, twkyy as int);
    proof {
        assert(fv@.skip(0) =~= fv@);
    }
    let mut i: usize = 0;
    let mut weeks: usize = 0;
    let mut c10: usize = 0;
    let mut c20: usize = 0;
    let mut c30: usize = 0;
    let mut c40: usize = 0;
    let mut c50: usize = 0;
    let mut c60: usize = 0;
    let mut c70: usize = 0;
    let mut c80: usize = 0;
    let mut c90: usize = 0;
    while i < fv.len()
        invariant_except_break
            psum(fv@, p_true()) <= u64::MAX,
            i <= fv@.len(),
            weeks <= i,
            c10 <= weeks,
            c20 <= weeks,
            c30 <= weeks,
            c40 <= weeks,
            c50 <= weeks,
            c60 <= weeks,
            c70 <= weeks,
            c80 <= weeks,
            c90 <= weeks,
            whole == spec_week_scan(fv@, fwk as int, fwkyy as int, fmon, twk as int, twkyy as int),
            ({
                let rest = spec_week_scan(
                    fv@.skip(i as int),
                    fwk as int,
                    fwkyy as int,
                    fmon,
                    twk as int,
                    twkyy as int,
                );
                &&& whole.weeks == weeks + rest.weeks
                &&& whole.w10 == c10 + rest.w10
                &&& whole.w20 == c20 + rest.w20
                &&& whole.w30 == c30 + rest.w30
                &&& whole.w40 == c40 + rest.w40
                &&& whole.w50 == c50 + rest.w50
                &&& whole.w60 == c60 + rest.w60
                &&& whole.w70 == c70 + rest.w70
                &&& whole.w80 == c80 + rest.w80
                &&& whole.w90 == c90 + rest.w90
            }),
        ensures
            weeks <= fv@.len(),
            c10 <= weeks,
            c20 <= weeks,
            c30 <= weeks,
            c40 <= weeks,
            c50 <= weeks,
            c60 <= weeks,
            c70 <= weeks,
            c80 <= weeks,
            c90 <= weeks,
            whole.weeks == weeks,
            whole.w10 == c10,
            whole.w20 == c20,
            whole.w30 == c30,
            whole.w40 == c40,
            whole.w50 == c50,
            whole.w60 == c60,
            whole.w70 == c70,
            whole.w80 == c80,
            whole.w90 == c90,
        decreases fv@.len() - i,
    {
        let ghost sk = fv@.skip(i as int);
        proof {
            assert(sk[0] == fv@[i as int]);
        }
        let e0 = fv[i];
        if e0.isoweekyear == fwkyy && e0.isoweek == fwk && !fmon {
            proof {
                assert(sk.skip(1) =~= fv@.skip(i as int + 1));
            }
            i = i + 1;
        } else if e0.isoweekyear == twkyy && e0.isoweek == twk {
            proof {
                assert(spec_week_scan(sk, fwk as int, fwkyy as int, fmon, twk as int, twkyy as int)
                    == week_tallies_zero());
            }
            break;
        } else {
            let wk = e0.isoweek;
            let mut j: usize = i;
            let mut rsum: u64 = 0;
            while j < fv.len() && fv[j].isoweek == wk
                invariant
                    i <= j <= fv@.len(),
                    i < fv@.len(),
                    forall|t: int| i <= t < j ==> (#[trigger] fv@[t]).isoweek == wk,
                    rsum as int == psum(fv@.skip(i as int).take((j - i) as int), p_true()),
                    psum(fv@, p_true()) <= u64::MAX,
                    sk == fv@.skip(i as int),
                decreases fv@.len() - j,
            {
                proof {
                    lemma_psum_take_step(sk, p_true(), (j - i) as int);
                    lemma_psum_take_le(sk, p_true(), (j - i) as int + 1);
                    crate::sums::lemma_psum_take_skip(fv@, p_true(), i as int);
                    lemma_psum_le_total(fv@.take(i as int), p_true());
                    assert(sk[(j - i) as int] == fv@[j as int]);
                }
                rsum = rsum + fv[j].micro;
                j = j + 1;
            }
            proof {
                lemma_run_len_week_facts(sk, wk as int);
                let run = run_len_week(sk, wk as int) as int;
                assert(forall|t: int| 0 <= t < sk.len() ==> sk[t] == fv@[i + t]);
                if j - i < run {
                    assert(sk[(j - i) as int].isoweek == wk);
                    assert(false);
                }
                if j - i > run {
                    assert(sk[run].isoweek != wk);
                    assert(fv@[i + run].isoweek == wk);
                    assert(false);
                }
                assert(j - i == run);
                assert(sk.skip(run) =~= fv@.skip(j as int));
            }
            weeks = weeks + 1;
            if rsum >= 10_000_000 {
                c10 = c10 + 1;
            }
            if rsum >= 20_000_000 {
                c20 = c20 + 1;
            }
            if rsum >= 30_000_000 {
                c30 = c30 + 1;
            }
            if rsum >= 40_000_000 {
                c40 = c40 + 1;
            }
            if rsum >= 50_000_000 {
                c50 = c50 + 1;
            }
            if rsum >= 60_000_000 {
                c60 = c60 + 1;
            }
            if rsum >= 70_000_000 {
                c70 = c70 + 1;
            }
            if rsum >= 80_000_000 {
                c80 = c80 + 1;
            }
            if rsum >= 90_000_000 {
                c90 = c90 + 1;
            }
            i = j;
        }
    }
    WeekScanOut { weeks, c10, c20, c30, c40, c50, c60, c70, c80, c90 }
}

/// The day entries of the last eight days (and any dated later), newest
/// date first: what a prompt for entry removal shows.
pub fn recent_history(l: &Ledger, today: Date) -> (r: Vec<DayEntry>)
    requires
        l.wf(),
        valid_date(today),
    ensures
        r@ == filter_entries(l.hist(), p_after_dn(spec_day_number(today) - 8)).reverse(),
{
    let dn_t = day_number(today);
    let hist = l.history_rows();
    let ghost p = p_after_dn(dn_t as int - 8);
    let mut fwd: Vec<DayEntry> = Vec::new();
    let mut i: usize = 0;
    while i < hist.len()
        invariant
            l.wf(),
            hist@ == l.hist(),
            i <= hist@.len(),
            fwd@ == filter_entries(l.hist().take(i as int), p),
            p == p_after_dn(dn_t as int - 8),
        decreases hist@.len() - i,
    {
        let e = hist[i];
        proof {
            lemma_filter_take_step(l.hist(), p, i as int);
        }
        let dn_e = day_number(e.date);
        if dn_e + 8 > dn_t {
            let ghost prev = fwd@;
            fwd.push(e);
            proof {
                assert(fwd@ =~= prev + seq![e]);
            }
        }
        i = i + 1;
    }
    proof {
        lemma_filter_take_full(l.hist(), p);
    }
    let ghost forward = fwd@;
    let mut rev: Vec<DayEntry> = Vec::new();
    proof {
        assert(forward.skip(forward.len() as int).reverse() =~= Seq::<DayEntry>::empty());
    }
    let mut j: usize = fwd.len();
    while j > 0
        invariant
            j <= forward.len(),
            fwd@ == forward,
            rev@ == forward.skip(j as int).reverse(),
        decreases j,
    {
        j = j - 1;
        let ghost prevrev = rev@;
        rev.push(fwd[j]);
        proof {
            assert(forward.skip(j as int) =~= seq![forward[j as int]] + forward.skip(j as int + 1));
            assert(forward.skip(j as int).reverse() =~= forward.skip(j as int + 1).reverse() + seq![
                forward[j as int],
            ]);
            assert(rev@ =~= prevrev + seq![forward[j as int]]);
        }
    }
    proof {
        assert(forward.skip(0) =~= forward);
    }
    rev
}

/// Yearly bucket aggregation: how many of the year's relevant days and
/// ISO weeks reached each hour threshold, with today's still-running day
/// and week excluded and the partial first-ever week disregarded.  Years
/// before the first entry are out of scope.
pub fn percentages_for_year(l: &Ledger, year: i32, today: Date) -> (r: Result<
    YearCounts,
    LedgerError,
>)
    requires
        l.wf(),
        valid_date(today),
        year <= 9999,
    ensures
        l.hist().len() == 0 ==> r == Err::<YearCounts, LedgerError>(LedgerError::NoEntries),
        l.hist().len() > 0 && year < l.hist()[0].date.year ==> r == Err::<YearCounts, LedgerError>(
            LedgerError::OutOfScope,
        ),
        l.hist().len() > 0 && year >= l.hist()[0].date.year ==> ({
            let first = l.hist()[0].date;
            let ds = spec_day_scan(filter_entries(l.hist(), p_year(year as int)), today);
            let ws = spec_week_scan(
                filter_entries(l.hist(), p_wkyy(year as int)),
                spec_iso_week(first),
                spec_iso_week_year(first),
                spec_weekday0(first) == 0,
                spec_iso_week(today),
                spec_iso_week_year(today),
            );
            let rdd = spec_relevant_day_count(first, year as int, today);
            let rwk = spec_relevant_week_count(first, year as int, today);
            match r {
                Ok(yc) => {
                    &&& yc.dds_relevant == rdd
                    &&& yc.dd_00_hrs == (if rdd - ds.days >= 0 {
                        rdd - ds.days
                    } else {
                        ds.days - rdd
                    })
                    &&& (ds.days <= rdd ==> yc.dd_00_hrs + ds.days == rdd)
                    &&& yc.dd_04_hrspls == ds.d04
                    &&& yc.dd_08_hrspls == ds.d08
                    &&& yc.dd_10_hrspls == ds.d10
                    &&& yc.dd_12_hrspls == ds.d12
                    &&& yc.dd_14_hrspls == ds.d14
                    &&& yc.wks_relevant == rwk
                    &&& yc.wk_00_hrs == rwk - ws.weeks
                    &&& yc.wk_00_hrs + ws.weeks == rwk
                    &&& yc.wk_10_hrspls == ws.w10
                    &&& yc.wk_20_hrspls == ws.w20
                    &&& yc.wk_30_hrspls == ws.w30
                    &&& yc.wk_40_hrspls == ws.w40
                    &&& yc.wk_50_hrspls == ws.w50
                    &&& yc.wk_60_hrspls == ws.w60
                    &&& yc.wk_70_hrspls == ws.w70
                    &&& yc.wk_80_hrspls == ws.w80
                    &&& yc.wk_90_hrspls == ws.w90
                },
                Err(_) => false,
            }
        }),
{
    let hist = l.history_rows();
    if hist.len() == 0 {
        return Err(LedgerError::NoEntries);
    }
    let first = hist[0].date;
    if year < first.year {
        return Err(LedgerError::OutOfScope);
    }
    let rdd = relevant_day_count(first, year, today);
    let fy = filter_by_year(hist, year);
    proof {
        lemma_filter_sum_le(l.hist(), p_year(year as int));
    }
    let ds = day_scan_exec(&fy, today);
    let fw = filter_by_wkyy(hist, year);
    proof {
        lemma_filter_sum_le(l.hist(), p_wkyy(year as int));
    }
    let fwk = iso_week_of(first);
    let fmon = weekday0(first) == 0;
    let twk = iso_week_of(today);
    let ws = week_scan_exec(&fw, fwk.0, fwk.1, fmon, twk.0, twk.1);
    let rwk = relevant_week_count(first, year, today);
    let daysdiff: i64 = rdd as i64 - ds.days as i64;
    let dd00: i32 = if daysdiff >= 0 {
        daysdiff as i32
    } else {
        (-daysdiff) as i32
    };
    Ok(
        YearCounts {
            dd_00_hrs: dd00,
            dd_04_hrspls: ds.c04 as i32,
            dd_08_hrspls: ds.c08 as i32,
            dd_10_hrspls: ds.c10 as i32,
            dd_12_hrspls: ds.c12 as i32,
            dd_14_hrspls: ds.c14 as i32,
            dds_relevant: rdd,
            wk_00_hrs: rwk - ws.weeks as i32,
            wk_10_hrspls: ws.c10 as i32,
            wk_20_hrspls: ws.c20 as i32,
            wk_30_hrspls: ws.c30 as i32,
            wk_40_hrspls: ws.c40 as i32,
            wk_50_hrspls: ws.c50 as i32,
            wk_60_hrspls: ws.c60 as i32,
            wk_70_hrspls: ws.c70 as i32,
            wk_80_hrspls: ws.c80 as i32,
            wk_90_hrspls: ws.c90 as i32,
            wks_relevant: rwk,
        },
    )
}

} // verus!
