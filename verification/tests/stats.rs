use chrono::Datelike;
use chrono::Timelike;
use timetracker::ledger::get_activities;
use timetracker::stats::days_relevant_this_week;
use timetracker::stats::first_entry_date;
use timetracker::stats::percentages_for_year;
use timetracker::stats::recent_history;
use timetracker::stats::relevant_day_count_month_current;
use timetracker::stats::total_last_x_days;
use timetracker::stats::total_last_x_weeks;
use timetracker::stats::total_this_month;
use timetracker::stats::total_this_week;
use timetracker::stats::total_today;
use timetracker::ActivityRecord;
use timetracker::Date;
use timetracker::Ledger;
use timetracker::LedgerError;
use timetracker::Timestamp;
use timetracker::YearCounts;

fn fd(year: i32, month: u8, day: u8) -> Date {
    Date { year, month, day }
}

fn fts(n: chrono::NaiveDateTime) -> Timestamp {
    Timestamp {
        date: Date { year: n.year(), month: n.month() as u8, day: n.day() as u8 },
        sec_of_day: n.num_seconds_from_midnight(),
        offset_sec: 0,
    }
}

fn fixture_activities() -> Ledger {
    let names = ["A", "B", "C", "D"];
    let mut acts = Vec::new();
    for (i, name) in names.iter().enumerate() {
        acts.push(ActivityRecord { id: i as i32 + 1, name: name.to_string(), micro: 0 });
    }
    Ledger::from_rows(acts, Vec::new()).unwrap()
}

// The shared fixture, as in the ledger tests: from 2023-12-12 at 21:00,
// half an hour per activity per day; every month change moves the start
// two hours later and adds an hour to each activity's slot; the last day
// with entries is 2024-03-04.
fn fixture_populate(l: &mut Ledger) {
    let mut beg0 = chrono::NaiveDate::from_ymd_opt(2023, 12, 12)
        .unwrap()
        .and_hms_opt(21, 0, 0)
        .unwrap();
    let mut minutes: i64 = 30;
    let mut end1 = beg0 + chrono::Duration::minutes(minutes);
    let mut end2 = end1 + chrono::Duration::minutes(minutes);
    let mut end3 = end2 + chrono::Duration::minutes(minutes);
    let mut end4 = end3 + chrono::Duration::minutes(minutes);

    loop {
        l.enter(fts(beg0), fts(end1), 1).unwrap();
        l.enter(fts(end1), fts(end2), 2).unwrap();
        l.enter(fts(end2), fts(end3), 3).unwrap();
        l.enter(fts(end3), fts(end4), 4).unwrap();

        let month = beg0.month();
        beg0 += chrono::Duration::days(1);
        if beg0.month() != month {
            minutes += 60;
            beg0 += chrono::Duration::hours(2);
        }

        end1 = beg0 + chrono::Duration::minutes(minutes);
        end2 = end1 + chrono::Duration::minutes(minutes);
        end3 = end2 + chrono::Duration::minutes(minutes);
        end4 = end3 + chrono::Duration::minutes(minutes);

        if beg0.day() == 5 && beg0.month() == 3 && beg0.year() == 2024 {
            break;
        }
    }
}

#[test]
fn all_small_helpers() {
    let mut l = fixture_activities();
    fixture_populate(&mut l);

    // The time of day never matters: retrieval goes by the date alone.
    // The activity id matters (midnight turnover shifts hours between
    // ids and days).
    let dt = fd(2024, 1, 4);
    let rttw = total_this_week(&l, dt, 1);
    assert_eq!(rttw, 4_000_000);  // 1.5 + 1.5 + 1.0 hours

    let rttm = total_this_month(&l, dt, 1);
    assert_eq!(rttm, 4_000_000);
    let dt = fd(2024, 2, 10);
    let rttm = total_this_month(&l, dt, 2);
    assert_eq!(rttm, 21_500_000);  // 1.5 + 8 * 2.5 hours

    let rtlxd = total_last_x_days(&l, 9, dt, 2);
    assert_eq!(rtlxd, 21_500_000);
    let dt = fd(2025, 2, 10);
    let rtlxd = total_last_x_days(&l, 100, dt, 3);
    assert_eq!(rtlxd, 0);

    let (rtlxw, _) = total_last_x_weeks(&l, 10, dt, 3).unwrap();
    assert_eq!(rtlxw, 0);
    let dt = fd(2024, 1, 7);
    let (rtlxw, _) = total_last_x_weeks(&l, 10, dt, 4).unwrap();
    assert_eq!(rtlxw, 7_000_000);  // 14 * 0.5 hours

    let rtt = total_today(&l, dt, 1);
    assert_eq!(rtt, 1_500_000);
    let dt = fd(2024, 2, 1);
    let rtt = total_today(&l, dt, 3);
    assert_eq!(rtt, 1_500_000);
}

#[test]
fn percentage_retrieval() {
    let mut l = fixture_activities();
    fixture_populate(&mut l);

    let now = fd(2024, 3, 20);

    // 2024-01: 31 days; 2024-02: 29 days; 2024-03: 4 days with entries
    // (2024-03-04 holds the last entry): 64 days with entries in 2024.

    let jan31 = fd(2024, 1, 31);
    let feb29 = fd(2024, 2, 29);
    let mar04 = fd(2024, 3, 4);

    // The ids matter: midnight turnover moves hours between days.
    let jandays = total_this_month(&l, jan31, 1);
    let febdays = total_this_month(&l, feb29, 2);
    let mardays = total_this_month(&l, mar04, 4);

    // The totals exclude the "today" of the date passed in.
    assert_eq!(jandays, 44_500_000);  // 1.0 + 29 * 1.5 hours
    assert_eq!(febdays, 69_000_000);  // 1.5 + 27 * 2.5 hours
    assert_eq!(mardays, 10_500_000);  // 3 * 3.5 hours

    let yc24 = percentages_for_year(&l, 2024, now).unwrap();

    // Day values of 2024: no entries from 2024-03-05 to 2024-03-19.
    assert_eq!(yc24.dd_00_hrs, 15);
    assert_eq!(yc24.dd_04_hrspls, 64 - 1);
    assert_eq!(yc24.dd_08_hrspls, 64 - 1 - 30 - 1);
    assert_eq!(yc24.dd_10_hrspls, 64 - 1 - 30 - 1);
    assert_eq!(yc24.dd_12_hrspls, 64 - 1 - 30 - 1 - 28);
    assert_eq!(yc24.dd_14_hrspls, 64 - 1 - 30 - 1 - 28);
    assert_eq!(yc24.dds_relevant, 64 + 15);

    // Week values of 2024.
    assert_eq!(yc24.wks_relevant, 11);

    // The last entry is 2024-03-04 and now is 2024-03-20, so one full
    // week between them stayed empty.
    assert_eq!(yc24.wk_00_hrs, 1);
    assert_eq!(yc24.wk_10_hrspls, 11 - 1);
    assert_eq!(yc24.wk_20_hrspls, 11 - 1 - 1);
    assert_eq!(yc24.wk_30_hrspls, 11 - 1 - 1);
    assert_eq!(yc24.wk_40_hrspls, 11 - 1 - 1 - 1);
    assert_eq!(yc24.wk_50_hrspls, 11 - 1 - 1 - 1 - 3);
    assert_eq!(yc24.wk_60_hrspls, 11 - 1 - 1 - 1 - 3 - 1);
    assert_eq!(yc24.wk_70_hrspls, 11 - 1 - 1 - 1 - 3 - 1);
    assert_eq!(yc24.wk_80_hrspls, 11 - 1 - 1 - 1 - 3 - 1 - 3);
    assert_eq!(yc24.wk_90_hrspls, 11 - 1 - 1 - 1 - 3 - 1 - 3 - 1);

    let yc23 = percentages_for_year(&l, 2023, now).unwrap();

    // 2023 was the first tracked year: entries start 2023-12-12, twenty
    // days of two hours each.
    assert_eq!(yc23.dd_00_hrs, 0);
    assert_eq!(yc23.dd_04_hrspls, 0);
    assert_eq!(yc23.dd_08_hrspls, 0);
    assert_eq!(yc23.dd_10_hrspls, 0);
    assert_eq!(yc23.dd_12_hrspls, 0);
    assert_eq!(yc23.dd_14_hrspls, 0);
    assert_eq!(yc23.dds_relevant, 20);

    // The partial first week is not considered; ISO weeks 51 and 52 are.
    assert_eq!(yc23.wks_relevant, 2);

    assert_eq!(yc23.wk_00_hrs, 0);
    assert_eq!(yc23.wk_10_hrspls, 2);
    assert_eq!(yc23.wk_20_hrspls, 0);
    assert_eq!(yc23.wk_30_hrspls, 0);
    assert_eq!(yc23.wk_40_hrspls, 0);
    assert_eq!(yc23.wk_50_hrspls, 0);
    assert_eq!(yc23.wk_60_hrspls, 0);
    assert_eq!(yc23.wk_70_hrspls, 0);
    assert_eq!(yc23.wk_80_hrspls, 0);
    assert_eq!(yc23.wk_90_hrspls, 0);

    // End of calendar year 2024 inside ISO week-year 2025: a first-ever
    // entry on Monday 2024-12-30 starts a week that must count as
    // relevant, even though 2025-01-18 (a Saturday) disregards its own
    // in-progress week.
    let mut l = fixture_activities();
    let firstentry_beg = chrono::NaiveDate::from_ymd_opt(2024, 12, 30)
        .unwrap()
        .and_hms_opt(0, 0, 0)
        .unwrap();
    let firstentry_end = firstentry_beg + chrono::Duration::hours(5);
    l.enter(fts(firstentry_beg), fts(firstentry_end), 1).unwrap();

    let today = fd(2025, 1, 18);
    let s = percentages_for_year(&l, 2025, today).unwrap();

    assert_eq!(s.wks_relevant, 2);  // ISO weeks in the ISO week-year
    assert_eq!(s.wk_00_hrs, 1);

    assert_eq!(s.dds_relevant, 17);  // days in the calendar year
    assert_eq!(s.dd_00_hrs, 17);
    assert_eq!(s.dd_04_hrspls, 0);
}

#[test]
fn year_counts_balance_relevant_days_and_weeks() {
    // The zero-hour buckets complement the counted days and weeks.
    let mut l = fixture_activities();
    fixture_populate(&mut l);
    let now = fd(2024, 3, 20);
    let yc = percentages_for_year(&l, 2024, now).unwrap();
    let days_with_entries = 64;
    let weeks_counted = 10;
    assert_eq!(yc.dd_00_hrs + days_with_entries, yc.dds_relevant);
    assert_eq!(yc.wk_00_hrs + weeks_counted, yc.wks_relevant);
}

#[test]
fn first_entry_and_out_of_scope_years() {
    let mut l = fixture_activities();
    assert_eq!(first_entry_date(&l), Err(LedgerError::NoEntries));
    assert_eq!(
        percentages_for_year(&l, 2024, fd(2024, 3, 20)),
        Err(LedgerError::NoEntries)
    );
    fixture_populate(&mut l);
    assert_eq!(first_entry_date(&l).unwrap(), fd(2023, 12, 12));
    assert_eq!(
        percentages_for_year(&l, 2022, fd(2024, 3, 20)),
        Err(LedgerError::OutOfScope)
    );
}

#[test]
fn recent_history_lists_the_last_eight_days_newest_first() {
    let mut l = fixture_activities();
    fixture_populate(&mut l);
    let rows = recent_history(&l, fd(2024, 3, 4));
    // Eight days with four entries each end at the fixture's last day.
    assert_eq!(rows.len(), 32);
    assert_eq!(rows[0].date, fd(2024, 3, 4));
    assert_eq!(rows[31].date, fd(2024, 2, 26));
    for w in rows.windows(2) {
        let a = &w[0];
        let b = &w[1];
        let ka = (a.date.year, a.date.month, a.date.day);
        let kb = (b.date.year, b.date.month, b.date.day);
        assert!(ka >= kb);
    }
}

#[test]
fn year_counts_combine_pointwise() {
    let mut a = YearCounts::new();
    a.dd_00_hrs = 3;
    a.wk_10_hrspls = 2;
    a.dds_relevant = 100;
    let mut b = YearCounts::new();
    b.dd_00_hrs = 4;
    b.wk_10_hrspls = 1;
    b.dds_relevant = 266;
    let c = a.combine(&b);
    assert_eq!(c.dd_00_hrs, 7);
    assert_eq!(c.wk_10_hrspls, 3);
    assert_eq!(c.dds_relevant, 366);
    let d = b.combine(&a);
    assert_eq!(c, d);
}

#[test]
fn week_and_month_day_counts_for_averages() {
    // Tracking began on Tuesday 2023-12-12; on Friday 2023-12-15 three
    // weekdays have passed but only two could carry data.
    assert_eq!(days_relevant_this_week(fd(2023, 12, 12), fd(2023, 12, 15)), 3);
    assert_eq!(days_relevant_this_week(fd(2023, 12, 13), fd(2023, 12, 15)), 2);
    // In a later week the whole stretch before today counts.
    assert_eq!(days_relevant_this_week(fd(2023, 12, 12), fd(2024, 1, 4)), 3);
    // Days of the current month for averaging, today included.
    assert_eq!(relevant_day_count_month_current(fd(2023, 12, 12), fd(2024, 1, 10)), 31);
    assert_eq!(relevant_day_count_month_current(fd(2024, 1, 5), fd(2024, 1, 10)), 5);
}

#[test]
fn listing_activities_keeps_totals_out_of_reach() {
    let mut l = fixture_activities();
    fixture_populate(&mut l);
    let rows = get_activities(&l, true);
    assert_eq!(rows.len(), 4);
    assert_eq!(rows[0].id, 1);
    assert_eq!(rows[3].id, 4);
}
