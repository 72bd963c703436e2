use chrono::Datelike;
use timetracker::calendar::date_valid;
use timetracker::calendar::iso_week_of;
use timetracker::calendar::prev_date;
use timetracker::calendar::weekday0;
use timetracker::days_in_month;
use timetracker::days_in_year;
use timetracker::max_iso_week;
use timetracker::Date;

fn d(year: i32, month: u8, day: u8) -> Date {
    Date { year, month, day }
}

#[test]
fn days_in_month_works() {
    assert_eq!(days_in_month(2024, 1), 31);
    assert_eq!(days_in_month(2024, 2), 29);
    assert_eq!(days_in_month(2025, 2), 28);
}

#[test]
fn days_in_year_works() {
    assert_eq!(days_in_year(2023), 365);
    assert_eq!(days_in_year(2024), 366);
}

#[test]
fn weekdays_and_iso_weeks_agree_with_chrono() {
    // Every day of a fifty-year span, checked against chrono's calendar.
    let mut nd = chrono::NaiveDate::from_ymd_opt(1990, 1, 1).unwrap();
    let last = chrono::NaiveDate::from_ymd_opt(2040, 12, 31).unwrap();
    while nd <= last {
        let own = d(nd.year(), nd.month() as u8, nd.day() as u8);
        assert!(date_valid(own));
        assert_eq!(
            weekday0(own) as u32,
            nd.weekday().num_days_from_monday(),
            "weekday mismatch at {}",
            nd
        );
        let (wk, wy) = iso_week_of(own);
        assert_eq!(wk as u32, nd.iso_week().week(), "iso week mismatch at {}", nd);
        assert_eq!(wy, nd.iso_week().year(), "iso week-year mismatch at {}", nd);
        nd = nd.succ_opt().unwrap();
    }
}

#[test]
fn max_iso_week_agrees_with_chrono() {
    for year in 1990..=2040 {
        // The ISO week of the year's last Thursday: chrono's view of the
        // highest week number of the year.
        let mut nd = chrono::NaiveDate::from_ymd_opt(year, 12, 31).unwrap();
        while nd.weekday() != chrono::Weekday::Thu {
            nd = nd.pred_opt().unwrap();
        }
        assert_eq!(max_iso_week(year) as u32, nd.iso_week().week(), "year {}", year);
    }
}

#[test]
fn prev_date_steps_one_day() {
    let mut nd = chrono::NaiveDate::from_ymd_opt(2026, 12, 31).unwrap();
    let first = chrono::NaiveDate::from_ymd_opt(2023, 1, 1).unwrap();
    while nd > first {
        let own = d(nd.year(), nd.month() as u8, nd.day() as u8);
        let p = prev_date(own);
        let np = nd.pred_opt().unwrap();
        assert_eq!((p.year, p.month as u32, p.day as u32), (np.year(), np.month(), np.day()));
        nd = np;
    }
}

#[test]
fn month_lengths_cover_leap_rules() {
    assert_eq!(days_in_month(1900, 2), 28);
    assert_eq!(days_in_month(2000, 2), 29);
    assert_eq!(days_in_month(2024, 4), 30);
    assert_eq!(days_in_month(2024, 12), 31);
    assert_eq!(days_in_year(1900), 365);
    assert_eq!(days_in_year(2000), 366);
}
