use hours::date::Date;
use hours::errors::HoursError;
use hours::remaining_work::{IncludeToday, RemainingWork};
use hours::util::Duration;
use hours::working_days::WorkDays;

fn ymd(y: u32, m: u32, d: u32) -> Date {
    Date::new(y, m, d).unwrap()
}

#[test]
fn test_remaining_work() {
    let cases = vec![
        (
            ymd(2021, 7, 17),
            Duration::hours(10),
            IncludeToday::Yes,
            10,
            Duration::hours(1),
        ),
        (
            ymd(2021, 8, 20),
            Duration::hours(4),
            IncludeToday::Yes,
            8,
            Duration::minutes(30),
        ),
        (
            ymd(2021, 8, 19),
            Duration::hours(4),
            IncludeToday::No,
            8,
            Duration::minutes(30),
        ),
    ];

    for (date, remaining_time, include_today, expected_num_days, expected_time_per_day) in cases
    {
        let remaining_work = RemainingWork::new(date, remaining_time);

        let num_days = remaining_work.num_working_days(include_today);
        let time_per_day = remaining_work.time_per_day(include_today).unwrap();

        assert_eq!(num_days, expected_num_days);
        assert_eq!(time_per_day, expected_time_per_day);
    }
}

#[test]
fn test_remaining_days() {
    let cases = vec![
        (ymd(2021, 7, 17), Duration::hours(10), 10, Duration::hours(1)),
        (ymd(2021, 8, 20), Duration::hours(4), 8, Duration::minutes(30)),
    ];

    for (date, work, expected_remaining_days, expected_remaining_work_per_day) in cases {
        let work_days = WorkDays::new(date, work);

        let remaining_days = work_days.remaining_days_in_month();
        let remaining_work = work_days.remaining_work_per_day().unwrap();

        assert_eq!(remaining_days, expected_remaining_days);
        assert_eq!(remaining_work, expected_remaining_work_per_day);
    }
}

#[test]
fn test_time_per_day_with_no_working_days_left() {
    // 2021-08-31 is a Tuesday; excluding it, no working day remains in
    // August.
    let work = RemainingWork::new(ymd(2021, 8, 31), Duration::hours(4));
    assert_eq!(work.num_working_days(IncludeToday::No), 0);
    assert_eq!(
        work.time_per_day(IncludeToday::No).unwrap_err(),
        HoursError::DivisionError
    );
    assert_eq!(work.num_working_days(IncludeToday::Yes), 1);
    assert_eq!(
        work.time_per_day(IncludeToday::Yes).unwrap(),
        Duration::hours(4)
    );
}

#[test]
fn test_weekends_are_not_working_days() {
    // 2021-08-28 is a Saturday, 2021-08-29 a Sunday: anchored on either,
    // the count excluding the anchor equals the count from Monday the 30th.
    let saturday = RemainingWork::new(ymd(2021, 8, 28), Duration::hours(2));
    assert_eq!(saturday.num_working_days(IncludeToday::Yes), 2);
    let sunday = RemainingWork::new(ymd(2021, 8, 29), Duration::hours(2));
    assert_eq!(sunday.num_working_days(IncludeToday::Yes), 2);
}
