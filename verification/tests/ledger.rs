use chrono::Datelike;
use chrono::Timelike;
use timetracker::stats::total_today;
use timetracker::ActivityRecord;
use timetracker::Date;
use timetracker::EnterOutcome;
use timetracker::Ledger;
use timetracker::LedgerError;
use timetracker::Timestamp;

fn d(year: i32, month: u8, day: u8) -> Date {
    Date { year, month, day }
}

fn ts(n: chrono::NaiveDateTime) -> Timestamp {
    Timestamp {
        date: Date { year: n.year(), month: n.month() as u8, day: n.day() as u8 },
        sec_of_day: n.num_seconds_from_midnight(),
        offset_sec: 0,
    }
}

fn ledger_with_four_activities() -> Ledger {
    let names = ["A", "B", "C", "D"];
    let mut acts = Vec::new();
    for (i, name) in names.iter().enumerate() {
        acts.push(ActivityRecord { id: i as i32 + 1, name: name.to_string(), micro: 0 });
    }
    Ledger::from_rows(acts, Vec::new()).unwrap()
}

// The shared fixture: from 2023-12-12 at 21:00, half an hour per activity
// per day; at each month change the start moves two hours later and each
// activity's slot grows by an hour.  The last day with entries is
// 2024-03-04.
fn populate_ledger(l: &mut Ledger) {
    let mut beg0 = chrono::NaiveDate::from_ymd_opt(2023, 12, 12)
        .unwrap()
        .and_hms_opt(21, 0, 0)
        .unwrap();
    let mut minutes: i64 = 30;
    let mut end1 = beg0 + chrono::Duration::minutes(minutes);
    let mut end2 = end1 + chrono::Duration::minutes(minutes);
    let mut end3 = end2 + chrono::Duration::minutes(minutes);
    let mut end4 = end3 + chrono::Duration::minutes(minutes);

    loop {
        l.enter(ts(beg0), ts(end1), 1).unwrap();
        l.enter(ts(end1), ts(end2), 2).unwrap();
        l.enter(ts(end2), ts(end3), 3).unwrap();
        l.enter(ts(end3), ts(end4), 4).unwrap();

        let month = beg0.month();
        beg0 += chrono::Duration::days(1);
        if beg0.month() != month {
            minutes += 60;
            beg0 += chrono::Duration::hours(2);
        }

        end1 = beg0 + chrono::Duration::minutes(minutes);
        end2 = end1 + chrono::Duration::minutes(minutes);
        end3 = end2 + chrono::Duration::minutes(minutes);
        end4 = end3 + chrono::Duration::minutes(minutes);

        if beg0.day() == 5 && beg0.month() == 3 && beg0.year() == 2024 {
            break;
        }
    }
}

#[test]
fn retrieve_activities() {
    let l = ledger_with_four_activities();
    let vec = timetracker::ledger::get_activities(&l, true);

    assert_eq!(4, vec.len());
    assert_eq!(vec[0].name, "A");
    assert_eq!(vec[1].name, "B");
    assert_eq!(vec[2].name, "C");
    assert_eq!(vec[3].name, "D");
}

#[test]
fn inactive_activities_listed_descending() {
    let acts = vec![
        ActivityRecord { id: -2, name: "old2".to_string(), micro: 0 },
        ActivityRecord { id: -1, name: "old1".to_string(), micro: 0 },
        ActivityRecord { id: 1, name: "new1".to_string(), micro: 0 },
    ];
    let l = Ledger::from_rows(acts, Vec::new()).unwrap();
    let inactive = timetracker::ledger::get_activities(&l, false);
    assert_eq!(inactive.len(), 2);
    assert_eq!(inactive[0].id, -1);
    assert_eq!(inactive[1].id, -2);
    let active = timetracker::ledger::get_activities(&l, true);
    assert_eq!(active.len(), 1);
    assert_eq!(active[0].name, "new1");
}

#[test]
fn entry_into_db_tables() {
    let mut l = ledger_with_four_activities();
    populate_ledger(&mut l);

    // 2023-12: 20 days of 2 hours  =  40
    // 2024-01: 31 days of 6 hours  = 186
    // 2024-02: 28 days of 10 hours = 280 (the shifted start skips Feb 1)
    // 2024-03:  4 days of 14 hours =  56
    // Four activities share those hours equally: 562 / 4 = 140.5 each.
    let hours_total = l.total_micro_of(1);
    assert!(hours_total > 0);
    assert_eq!(hours_total, 140_500_000);

    // In January activity 1 runs from 23:00 to 00:30: the midnight
    // turnover leaves 1 hour on January 1st and 1.5 hours on January 2nd
    // (half an hour spilled over plus its own evening hour).
    let singularentry = total_today(&l, d(2024, 1, 1), 1);
    assert!(singularentry > 0);
    assert_eq!(singularentry, 1_000_000);

    let singularentry = total_today(&l, d(2024, 1, 2), 1);
    assert!(singularentry > 0);
    assert_eq!(singularentry, 1_500_000);
}

#[test]
fn single_day_entry_raises_day_and_total_alike() {
    let mut l = ledger_with_four_activities();
    let beg = ts(chrono::NaiveDate::from_ymd_opt(2024, 5, 6).unwrap().and_hms_opt(9, 0, 0).unwrap());
    let end = ts(
        chrono::NaiveDate::from_ymd_opt(2024, 5, 6).unwrap().and_hms_opt(11, 15, 0).unwrap(),
    );
    let before_total = l.total_micro_of(2);
    let before_day = total_today(&l, d(2024, 5, 6), 2);
    let out = l.enter(beg, end, 2).unwrap();
    assert_eq!(l.total_micro_of(2) - before_total, 2_250_000);
    assert_eq!(total_today(&l, d(2024, 5, 6), 2) - before_day, 2_250_000);
    match out {
        EnterOutcome::Single { date, day_micro, total_micro } => {
            assert_eq!(date, d(2024, 5, 6));
            assert_eq!(day_micro, 2_250_000);
            assert_eq!(total_micro, 2_250_000);
        },
        _ => panic!("expected a single-day outcome"),
    }
}

#[test]
fn midnight_split_parts_sum_to_duration() {
    let mut l = ledger_with_four_activities();
    let beg = ts(
        chrono::NaiveDate::from_ymd_opt(2024, 5, 6).unwrap().and_hms_opt(23, 0, 0).unwrap(),
    );
    let end = ts(chrono::NaiveDate::from_ymd_opt(2024, 5, 7).unwrap().and_hms_opt(1, 30, 0).unwrap());
    let out = l.enter(beg, end, 1).unwrap();
    match out {
        EnterOutcome::Split { first_date, first_micro, second_date, second_micro, total_micro } => {
            assert_eq!(first_date, d(2024, 5, 6));
            assert_eq!(second_date, d(2024, 5, 7));
            assert_eq!(first_micro, 1_000_000);
            assert_eq!(second_micro, 1_500_000);
            assert_eq!(first_micro + second_micro, 2_500_000);
            assert_eq!(total_micro, 2_500_000);
        },
        _ => panic!("expected a split outcome"),
    }
    assert_eq!(l.total_micro_of(1), 2_500_000);
}

#[test]
fn offset_change_discrepancy_falls_to_later_part() {
    // Spring forward: the clock jumps an hour inside the interval, so the
    // naive parts would overshoot the true duration by one hour; the
    // later part absorbs the difference.
    let mut l = ledger_with_four_activities();
    let beg = Timestamp { date: d(2024, 3, 30), sec_of_day: 23 * 3600, offset_sec: 3600 };
    let end = Timestamp { date: d(2024, 3, 31), sec_of_day: 3 * 3600, offset_sec: 7200 };
    // True elapsed time: three hours.
    let out = l.enter(beg, end, 1).unwrap();
    match out {
        EnterOutcome::Split { first_micro, second_micro, .. } => {
            assert_eq!(first_micro, 1_000_000);
            assert_eq!(second_micro, 2_000_000);
        },
        _ => panic!("expected a split outcome"),
    }
    assert_eq!(l.total_micro_of(1), 3_000_000);
}

#[test]
fn remove_after_enter_restores_total() {
    let mut l = ledger_with_four_activities();
    populate_ledger(&mut l);
    let before = l.total_micro_of(3);
    let beg = ts(chrono::NaiveDate::from_ymd_opt(2024, 6, 1).unwrap().and_hms_opt(8, 0, 0).unwrap());
    let end = ts(chrono::NaiveDate::from_ymd_opt(2024, 6, 1).unwrap().and_hms_opt(9, 40, 0).unwrap());
    l.enter(beg, end, 3).unwrap();
    assert!(l.total_micro_of(3) > before);
    let removed = l.remove(d(2024, 6, 1), 3).unwrap();
    assert_eq!(removed, 1_666_667);
    assert_eq!(l.total_micro_of(3), before);
}

#[test]
fn long_intervals_are_rejected_as_no_op() {
    let mut l = ledger_with_four_activities();
    let day = chrono::NaiveDate::from_ymd_opt(2024, 5, 6).unwrap();
    // 23 hours and 59 minutes: accepted.
    let beg = ts(day.and_hms_opt(0, 0, 0).unwrap());
    let end = ts(day.and_hms_opt(23, 59, 0).unwrap());
    match l.enter(beg, end, 1).unwrap() {
        EnterOutcome::Single { .. } => {},
        _ => panic!("expected the interval to be recorded"),
    }
    let total_after = l.total_micro_of(1);
    assert!(total_after > 0);
    // A full day or longer: refused, and nothing changes.
    let beg = ts(day.and_hms_opt(0, 0, 0).unwrap());
    let end = ts((day + chrono::Duration::days(1)).and_hms_opt(0, 0, 0).unwrap());
    assert_eq!(l.enter(beg, end, 1).unwrap(), EnterOutcome::TooLong);
    assert_eq!(l.total_micro_of(1), total_after);
    let beg = ts(day.and_hms_opt(10, 0, 0).unwrap());
    let end = ts((day + chrono::Duration::days(2)).and_hms_opt(10, 0, 0).unwrap());
    assert_eq!(l.enter(beg, end, 1).unwrap(), EnterOutcome::TooLong);
    assert_eq!(l.total_micro_of(1), total_after);
}

#[test]
fn entering_for_missing_activity_fails() {
    let mut l = ledger_with_four_activities();
    let day = chrono::NaiveDate::from_ymd_opt(2024, 5, 6).unwrap();
    let beg = ts(day.and_hms_opt(9, 0, 0).unwrap());
    let end = ts(day.and_hms_opt(10, 0, 0).unwrap());
    assert_eq!(l.enter(beg, end, 9), Err(LedgerError::NoSuchActivity));
}

#[test]
fn removing_missing_entry_fails() {
    let mut l = ledger_with_four_activities();
    assert_eq!(l.remove(d(2024, 5, 6), 1), Err(LedgerError::NoSuchEntry));
}

#[test]
fn removal_never_drives_a_total_negative() {
    // A stored total smaller than the day's hours means the data has
    // diverged: the removal reports the fatal kind and changes nothing.
    let acts = vec![ActivityRecord { id: 1, name: "A".to_string(), micro: 1_000_000 }];
    let hist = vec![timetracker::DayEntry {
        id: 1,
        date: d(2024, 5, 6),
        isoweek: 19,
        isoweekyear: 2024,
        micro: 5_000_000,
    }];
    let mut l = Ledger::from_rows(acts, hist).unwrap();
    assert_eq!(l.remove(d(2024, 5, 6), 1), Err(LedgerError::CorruptTotals));
    assert_eq!(l.total_micro_of(1), 1_000_000);
    assert_eq!(total_today(&l, d(2024, 5, 6), 1), 5_000_000);
}

#[test]
fn split_onto_an_occupied_date_is_refused() {
    let mut l = ledger_with_four_activities();
    let day1 = chrono::NaiveDate::from_ymd_opt(2024, 5, 6).unwrap();
    let day2 = chrono::NaiveDate::from_ymd_opt(2024, 5, 7).unwrap();
    l.enter(ts(day2.and_hms_opt(9, 0, 0).unwrap()), ts(day2.and_hms_opt(10, 0, 0).unwrap()), 1)
        .unwrap();
    let total_before = l.total_micro_of(1);
    let r = l.enter(ts(day1.and_hms_opt(23, 0, 0).unwrap()), ts(day2.and_hms_opt(1, 0, 0).unwrap()), 1);
    assert_eq!(r, Err(LedgerError::EntryCollision));
    assert_eq!(l.total_micro_of(1), total_before);
}

#[test]
fn malformed_rows_are_refused_whole() {
    // History out of order.
    let acts = vec![ActivityRecord { id: 1, name: "A".to_string(), micro: 0 }];
    let hist = vec![
        timetracker::DayEntry { id: 1, date: d(2024, 5, 7), isoweek: 19, isoweekyear: 2024, micro: 1 },
        timetracker::DayEntry { id: 1, date: d(2024, 5, 6), isoweek: 19, isoweekyear: 2024, micro: 1 },
    ];
    assert_eq!(
        Ledger::from_rows(acts, hist).err(),
        Some(LedgerError::MalformedRows)
    );
    // Wrong denormalized ISO fields.
    let acts = vec![ActivityRecord { id: 1, name: "A".to_string(), micro: 0 }];
    let hist = vec![timetracker::DayEntry {
        id: 1,
        date: d(2024, 5, 6),
        isoweek: 18,
        isoweekyear: 2024,
        micro: 1,
    }];
    assert_eq!(
        Ledger::from_rows(acts, hist).err(),
        Some(LedgerError::MalformedRows)
    );
    // An activity id of zero.
    let acts = vec![ActivityRecord { id: 0, name: "A".to_string(), micro: 0 }];
    assert_eq!(
        Ledger::from_rows(acts, Vec::new()).err(),
        Some(LedgerError::MalformedRows)
    );
}

#[test]
fn totals_beyond_the_stored_width_are_refused() {
    let acts = vec![ActivityRecord { id: 1, name: "A".to_string(), micro: u64::MAX - 10 }];
    let mut l = Ledger::from_rows(acts, Vec::new()).unwrap();
    let day = chrono::NaiveDate::from_ymd_opt(2024, 5, 6).unwrap();
    let beg = ts(day.and_hms_opt(9, 0, 0).unwrap());
    let end = ts(day.and_hms_opt(10, 0, 0).unwrap());
    assert_eq!(l.enter(beg, end, 1), Err(LedgerError::Overflow));
    assert_eq!(l.total_micro_of(1), u64::MAX - 10);
}

#[test]
fn activity_names_are_found_by_id() {
    let l = ledger_with_four_activities();
    assert_eq!(timetracker::ledger::get_activityname_for_id(&l, 2).unwrap(), "B");
    assert_eq!(
        timetracker::ledger::get_activityname_for_id(&l, 7),
        Err(LedgerError::NoSuchActivity)
    );
}
