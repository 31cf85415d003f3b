use chrono::Datelike;
use tracker::calendar::{Date, DateTime, IsoWeek, Time};
use tracker::config::WorkWeekConfig;
use tracker::document::{Day, Document, Line};
use tracker::report::Report;

fn naive_date(year: i32, month: u32, day: u32) -> Date {
    Date { year, month, day }
}

fn naive_time(hour: u32, minute: u32) -> Time {
    Time::hm(hour, minute)
}

fn naive_date_time(year: i32, month: u32, day: u32, hour: u32, minute: u32) -> DateTime {
    DateTime { date: naive_date(year, month, day), time: naive_time(hour, minute) }
}

fn to_date(d: chrono::NaiveDate) -> Date {
    naive_date(d.year(), d.month(), d.day())
}

fn iso_date(year: i32, week: u32, weekday: chrono::Weekday) -> Date {
    to_date(chrono::NaiveDate::from_isoywd_opt(year, week, weekday).unwrap())
}

fn iso_week(year: i32, week: u32) -> IsoWeek {
    IsoWeek { monday: iso_date(year, week, chrono::Weekday::Mon) }
}

fn week_of(date: Date) -> IsoWeek {
    let d = chrono::NaiveDate::from_ymd_opt(date.year, date.month, date.day).unwrap();
    IsoWeek { monday: to_date(d.week(chrono::Weekday::Mon).first_day()) }
}

const HOUR: i128 = 3600;
const MINUTE: i128 = 60;

#[test]
fn report_tests_empty_report() {
    let now = naive_date_time(2023, 12, 18, 12, 0);
    let document = Document::new(iso_week(2023, 51), vec![], vec![]);
    assert_eq!(
        Report { duration_today: 0, duration_week: 0, is_ongoing: false, balance: -8 * HOUR },
        Report::from_document(&document, &now, &WorkWeekConfig::default())
    )
}

#[test]
fn report_tests_simple_report() {
    let document = Document::new(
        iso_week(2023, 51),
        vec![],
        vec![Day {
            date: naive_date(2023, 12, 18),
            lines: vec![Line::ClosedShift {
                start_time: naive_time(8, 0),
                stop_time: naive_time(12, 0),
            }],
        }],
    );
    let now = naive_date_time(2023, 12, 18, 12, 0);
    assert_eq!(
        Report {
            duration_today: 4 * HOUR,
            duration_week: 4 * HOUR,
            is_ongoing: false,
            balance: -4 * HOUR
        },
        Report::from_document(&document, &now, &WorkWeekConfig::default())
    )
}

#[test]
fn special_days_are_counted() {
    let document = Document::new(
        week_of(naive_date(2023, 12, 18)),
        vec![],
        vec![Day {
            date: naive_date(2023, 12, 18),
            lines: vec![Line::SpecialDay { text: String::from("vacation") }],
        }],
    );
    let now = naive_date_time(2023, 12, 18, 12, 0);
    assert_eq!(
        Report { duration_today: 8 * HOUR, duration_week: 8 * HOUR, is_ongoing: false, balance: 0 },
        Report::from_document(&document, &now, &WorkWeekConfig::default())
    )
}

#[test]
fn special_shifts_are_counted() {
    let document = Document::new(
        week_of(naive_date(2023, 12, 18)),
        vec![],
        vec![Day {
            date: naive_date(2023, 12, 18),
            lines: vec![Line::SpecialShift {
                text: String::from("vacation"),
                start_time: naive_time(11, 10),
                stop_time: naive_time(11, 50),
            }],
        }],
    );
    let now = naive_date_time(2023, 12, 18, 12, 0);
    assert_eq!(
        Report {
            duration_today: 40 * MINUTE,
            duration_week: 40 * MINUTE,
            is_ongoing: false,
            balance: (40 - 8 * 60) * MINUTE
        },
        Report::from_document(&document, &now, &WorkWeekConfig::default())
    )
}

#[test]
fn shifts_are_summed_correctly() {
    let document = Document::new(
        week_of(naive_date(2023, 12, 18)),
        vec![],
        vec![
            Day {
                date: naive_date(2023, 12, 18),
                lines: vec![
                    Line::SpecialShift {
                        text: String::from("vacation"),
                        start_time: naive_time(11, 10),
                        stop_time: naive_time(11, 50),
                    },
                    Line::ClosedShift { start_time: naive_time(13, 5), stop_time: naive_time(13, 10) },
                ],
            },
            Day {
                date: naive_date(2023, 12, 19),
                lines: vec![Line::ClosedShift {
                    start_time: naive_time(8, 0),
                    stop_time: naive_time(12, 0),
                }],
            },
        ],
    );
    let now = naive_date_time(2023, 12, 19, 12, 0);
    assert_eq!(
        Report {
            duration_today: 4 * HOUR,
            duration_week: 285 * MINUTE,
            is_ongoing: false,
            balance: (285 - 2 * 8 * 60) * MINUTE
        },
        Report::from_document(&document, &now, &WorkWeekConfig::default())
    )
}

fn full_day(date: Date) -> Day {
    Day {
        date,
        lines: vec![Line::ClosedShift { start_time: naive_time(8, 0), stop_time: naive_time(16, 0) }],
    }
}

#[test]
fn report_for_earlier_week() {
    let document = Document::new(
        iso_week(2023, 50),
        vec![],
        vec![
            full_day(iso_date(2023, 50, chrono::Weekday::Mon)),
            full_day(iso_date(2023, 50, chrono::Weekday::Tue)),
            full_day(iso_date(2023, 50, chrono::Weekday::Wed)),
            full_day(iso_date(2023, 50, chrono::Weekday::Thu)),
            full_day(iso_date(2023, 50, chrono::Weekday::Fri)),
        ],
    );
    let now = naive_date_time(2023, 12, 20, 12, 0);
    assert_eq!(
        Report { duration_today: 0, duration_week: 40 * HOUR, is_ongoing: false, balance: 0 },
        Report::from_document(&document, &now, &WorkWeekConfig::default())
    )
}

#[test]
fn report_empty_report() {
    let document = Document::new(week_of(naive_date(2021, 1, 1)), vec![], vec![]);
    let now = naive_date_time(2021, 1, 1, 12, 0);
    let report = Report::from_document(&document, &now, &WorkWeekConfig::default());
    assert_eq!(0, report.duration_today);
    assert_eq!(0, report.duration_week);
    assert!(!report.is_ongoing);
}

#[test]
fn report_simple_report() {
    let document = Document::new(
        week_of(naive_date(2021, 1, 1)),
        vec![],
        vec![Day {
            date: naive_date(2021, 1, 1),
            lines: vec![Line::ClosedShift {
                start_time: naive_time(8, 0),
                stop_time: naive_time(12, 0),
            }],
        }],
    );
    let now = naive_date_time(2021, 1, 1, 12, 0);
    let report = Report::from_document(&document, &now, &WorkWeekConfig::default());
    assert_eq!(4 * HOUR, report.duration_today);
    assert_eq!(4 * HOUR, report.duration_week);
    assert!(!report.is_ongoing);
}

#[test]
fn open_shift_counts_up_to_now_on_today_only() {
    let document = Document::new(
        week_of(naive_date(2023, 12, 18)),
        vec![Line::DurationShift { text: String::from("carry"), duration: -90 * 60 }],
        vec![
            Day {
                date: naive_date(2023, 12, 18),
                lines: vec![Line::OpenShift { start_time: naive_time(9, 0) }],
            },
            Day {
                date: naive_date(2023, 12, 19),
                lines: vec![Line::OpenShift { start_time: naive_time(8, 0) }],
            },
        ],
    );
    let now = DateTime {
        date: naive_date(2023, 12, 19),
        time: Time { hour: 10, minute: 30, second: 15 },
    };
    let report = Report::from_document(&document, &now, &WorkWeekConfig::default());
    assert_eq!(2 * HOUR + 30 * MINUTE + 15, report.duration_today);
    assert_eq!(2 * HOUR + 30 * MINUTE + 15, report.duration_week);
    assert!(report.is_ongoing);
    assert_eq!(2 * HOUR + 30 * MINUTE + 15 - 16 * HOUR - 90 * MINUTE, report.balance);
}

#[test]
fn report_before_the_week_expects_no_days() {
    let document = Document::new(iso_week(2023, 51), vec![], vec![]);
    let now = naive_date_time(2023, 12, 14, 12, 0);
    let workweek = WorkWeekConfig { days_per_week: 4, hours_per_day: 5 };
    let report = Report::from_document(&document, &now, &workweek);
    assert_eq!(0, report.balance);
}
