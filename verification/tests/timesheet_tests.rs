use hours::date::Date;
use hours::errors::HoursError;
use hours::report::Report;
use hours::timesheet::{Entry, Timesheet};
use hours::util::Duration;

fn ymd(y: u32, m: u32, d: u32) -> Date {
    Date::new(y, m, d).unwrap()
}

fn entry(y: u32, m: u32, d: u32, secs: u64) -> Entry {
    Entry {
        date: ymd(y, m, d),
        worked: Duration::seconds(secs),
    }
}

#[test]
fn test_parse_empty_report() {
    let timesheet = Timesheet::parse_report(&Report("".to_owned())).unwrap();

    assert_eq!(timesheet.entries().len(), 0);
}

#[test]
fn test_timesheet_reporting() {
    let cases = vec![
        (
            "
03.02.2021 05:00:12
Total for February 2021 05:00:12
",
            vec![entry(2021, 2, 3, 5 * 3600 + 12)],
        ),
        (
            "
01.01.2021 07:00:12
Total for January 2021 07:00:12

01.02.2021 07:00:12
02.02.2021 09:17:12
03.02.2021 05:00:12
11.02.2021 05:01:13
Total for February 2021 26:18:49
",
            vec![
                entry(2021, 1, 1, 7 * 3600 + 12),
                entry(2021, 2, 1, 7 * 3600 + 12),
                entry(2021, 2, 2, 9 * 3600 + 17 * 60 + 12),
                entry(2021, 2, 3, 5 * 3600 + 12),
                entry(2021, 2, 11, 5 * 3600 + 60 + 13),
            ],
        ),
        (
            "
01.01.2021 07:00:12
04.01.2021 07:00:12
Total for January 2021 14:00:24

01.02.2021 07:00:12
02.02.2021 09:17:12
03.02.2021 05:00:12
11.02.2021 05:01:13
Total for February 2021 26:18:49
",
            vec![
                entry(2021, 1, 1, 7 * 3600 + 12),
                entry(2021, 1, 4, 7 * 3600 + 12),
                entry(2021, 2, 1, 7 * 3600 + 12),
                entry(2021, 2, 2, 9 * 3600 + 17 * 60 + 12),
                entry(2021, 2, 3, 5 * 3600 + 12),
                entry(2021, 2, 11, 5 * 3600 + 60 + 13),
            ],
        ),
        (
            "
01.02.2021 07:00:12
02.02.2021 09:17:12
03.02.2021 05:00:12
11.02.2021 05:01:13
Total for February 2021 26:18:49
",
            vec![
                entry(2021, 2, 1, 7 * 3600 + 12),
                entry(2021, 2, 2, 9 * 3600 + 17 * 60 + 12),
                entry(2021, 2, 3, 5 * 3600 + 12),
                entry(2021, 2, 11, 5 * 3600 + 60 + 13),
            ],
        ),
        (
            "
01.03.2021 01:00:00
02.03.2021 01:14:00
03.03.2021 02:00:01
11.03.2021 01:01:00
31.03.2021 01:01:00
Total for March 2021 06:16:01
",
            vec![
                entry(2021, 3, 1, 3600),
                entry(2021, 3, 2, 3600 + 14 * 60),
                entry(2021, 3, 3, 2 * 3600 + 1),
                entry(2021, 3, 11, 3600 + 60),
                entry(2021, 3, 31, 3600 + 60),
            ],
        ),
    ];

    for (i, (report, expected_entries)) in cases.into_iter().enumerate() {
        println!("{}", i);

        let timesheet = Timesheet::parse_report(&Report(report.to_owned())).unwrap();

        assert_eq!(timesheet.entries(), &expected_entries);
        assert_eq!(timesheet.generate_report().0.trim(), report.trim());
    }
}

fn create_sample_timesheet() -> Timesheet {
    Timesheet::parse_report(&Report(
        "
01.03.2021 01:00:00
02.03.2021 01:14:00
03.03.2021 02:00:01
11.03.2021 01:01:00
31.03.2021 01:01:00
Total for March 2021 06:16:01
                "
        .to_owned(),
    ))
    .unwrap()
}

#[test]
fn test_timesheet_add_hours_existing_date() {
    let mut timesheet = create_sample_timesheet();

    timesheet.add_hours(&ymd(2021, 3, 11), &Duration::from_hms(2, 12, 0));

    let report = timesheet.generate_report();
    assert_eq!(
        report.0,
        "01.03.2021 01:00:00
02.03.2021 01:14:00
03.03.2021 02:00:01
11.03.2021 03:13:00
31.03.2021 01:01:00
Total for March 2021 08:28:01
"
    );
}

#[test]
fn test_timesheet_add_hours_new_date() {
    let mut timesheet = create_sample_timesheet();

    timesheet.add_hours(&ymd(2021, 3, 12), &Duration::from_hms(2, 12, 0));

    let report = timesheet.generate_report();
    assert_eq!(
        report.0,
        "01.03.2021 01:00:00
02.03.2021 01:14:00
03.03.2021 02:00:01
11.03.2021 01:01:00
12.03.2021 02:12:00
31.03.2021 01:01:00
Total for March 2021 08:28:01
"
    );
}

#[test]
fn test_add_hours_inserts_at_date_order_position() {
    let mut timesheet = create_sample_timesheet();

    timesheet.add_hours(&ymd(2021, 3, 12), &Duration::from_hms(2, 12, 0));

    let entries = timesheet.entries();
    assert_eq!(entries.len(), 6);
    assert_eq!(entries[3].date, ymd(2021, 3, 11));
    assert_eq!(entries[4].date, ymd(2021, 3, 12));
    assert_eq!(entries[4].worked, Duration::from_hms(2, 12, 0));
    assert_eq!(entries[5].date, ymd(2021, 3, 31));
}

#[test]
fn test_two_entry_report_with_subtotal() {
    let text = "01.02.2021 07:00:12\n02.02.2021 09:17:12\n";
    let timesheet = Timesheet::parse_report(&Report(text.to_owned())).unwrap();

    let entries = timesheet.entries();
    assert_eq!(entries.len(), 2);
    assert_eq!(entries[0], entry(2021, 2, 1, 7 * 3600 + 12));
    assert_eq!(entries[1], entry(2021, 2, 2, 9 * 3600 + 17 * 60 + 12));

    assert_eq!(
        timesheet.generate_report().0,
        "01.02.2021 07:00:12\n02.02.2021 09:17:12\nTotal for February 2021 16:17:24\n"
    );
}

#[test]
fn test_round_trip_from_entries() {
    let entries = vec![
        entry(2020, 12, 31, 59),
        entry(2021, 1, 1, 3600),
        entry(2021, 1, 2, 2 * 3600 + 30 * 60),
        entry(2021, 3, 15, 12),
    ];
    let timesheet = Timesheet::from_entries(entries.clone());

    let report = timesheet.generate_report();
    let reparsed = Timesheet::parse_report(&report).unwrap();

    assert_eq!(reparsed.entries(), &entries);
}

#[test]
fn test_parse_report_names_offending_line() {
    let err = Timesheet::parse_report(&Report("nonsense\n".to_owned())).unwrap_err();
    assert_eq!(err, HoursError::ParseError { line: 1 });

    let err = Timesheet::parse_report(&Report(
        "01.02.2021 07:00:12\nnonsense\n".to_owned(),
    ))
    .unwrap_err();
    assert_eq!(err, HoursError::ParseError { line: 2 });
}

#[test]
fn test_parse_report_rejects_wrong_field_count() {
    let err =
        Timesheet::parse_report(&Report("01.02.2021 07:00:12 extra\n".to_owned())).unwrap_err();
    assert_eq!(err, HoursError::ParseError { line: 1 });

    let err = Timesheet::parse_report(&Report("01.02.2021\n".to_owned())).unwrap_err();
    assert_eq!(err, HoursError::ParseError { line: 1 });
}

#[test]
fn test_parse_report_rejects_bad_date_or_duration() {
    for bad in [
        "32.01.2021 01:00:00\n",
        "31.02.2021 01:00:00\n",
        "01.13.2021 01:00:00\n",
        "00.01.2021 01:00:00\n",
        "01.01.2021 01:00\n",
        "01.01.2021 99999999999999999999:00:00\n",
    ] {
        let err = Timesheet::parse_report(&Report(bad.to_owned())).unwrap_err();
        assert_eq!(err, HoursError::ParseError { line: 1 });
    }

    // A leap-year February 29th is a real day.
    assert!(Timesheet::parse_report(&Report("29.02.2020 01:00:00\n".to_owned())).is_ok());
}

#[test]
fn test_parse_report_rejects_out_of_order_dates() {
    let err = Timesheet::parse_report(&Report(
        "02.01.2021 01:00:00\n01.01.2021 01:00:00\n".to_owned(),
    ))
    .unwrap_err();
    assert_eq!(err, HoursError::ParseError { line: 2 });

    let err = Timesheet::parse_report(&Report(
        "01.01.2021 01:00:00\n01.01.2021 01:00:00\n".to_owned(),
    ))
    .unwrap_err();
    assert_eq!(err, HoursError::ParseError { line: 2 });
}

#[test]
fn test_parse_report_skips_annotations_and_blank_lines() {
    let timesheet = Timesheet::parse_report(&Report(
        "\n  \nTOTAL anything at all\ntotal again\n01.01.2021 01:00:00\n".to_owned(),
    ))
    .unwrap();
    assert_eq!(timesheet.entries(), &vec![entry(2021, 1, 1, 3600)]);
}

#[test]
fn test_get_hours_present_and_absent() {
    let timesheet = create_sample_timesheet();

    assert_eq!(
        timesheet.get_hours(&ymd(2021, 3, 2)),
        Duration::from_hms(1, 14, 0)
    );
    assert_eq!(timesheet.get_hours(&ymd(2021, 3, 12)), Duration::seconds(0));
}

#[test]
fn test_remaining_work_from_timesheet() {
    let timesheet = create_sample_timesheet();

    let work = timesheet.remaining_work().unwrap();
    assert_eq!(work.date, ymd(2021, 3, 31));
    // 160h quota minus the 6:16:01 worked in March.
    assert_eq!(
        work.remaining_time,
        Duration::seconds(160 * 3600 - (6 * 3600 + 16 * 60 + 1))
    );

    let empty = Timesheet::parse_report(&Report("".to_owned())).unwrap();
    assert!(empty.remaining_work().is_none());
}

#[test]
fn test_remaining_work_for_explicit_quota() {
    let timesheet = create_sample_timesheet();

    // A 10h quota minus the 6:16:01 worked in March leaves 3:43:59.
    let work = timesheet
        .remaining_work_for_quota(&Duration::hours(10))
        .unwrap();
    assert_eq!(work.remaining_time, Duration::from_hms(3, 43, 59));
}

#[test]
fn test_remaining_work_clamps_at_zero() {
    let timesheet = Timesheet::parse_report(&Report(
        "01.03.2021 100:00:00\n02.03.2021 100:00:00\n".to_owned(),
    ))
    .unwrap();

    let work = timesheet.remaining_work().unwrap();
    assert_eq!(work.remaining_time, Duration::seconds(0));
}
