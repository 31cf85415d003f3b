use chrono::Datelike;
use tracker::calendar::{Date, DateTime, IsoWeek, Time};
use tracker::document::{Day, Document, Line};
use tracker::paths::TrackerDirs;
use tracker::tracker::{DocumentError, Tracker};

fn naive_date(year: i32, month: u32, day: u32) -> Date {
    Date { year, month, day }
}

fn naive_time(hour: u32, minute: u32) -> Time {
    Time::hm(hour, minute)
}

fn week_of(date: Date) -> IsoWeek {
    let d = chrono::NaiveDate::from_ymd_opt(date.year, date.month, date.day).unwrap();
    let m = d.week(chrono::Weekday::Mon).first_day();
    IsoWeek { monday: naive_date(m.year(), m.month(), m.day()) }
}

fn tracker() -> Tracker {
    let now = DateTime { date: naive_date(2023, 12, 2), time: naive_time(12, 0) };
    Tracker::builder(now, TrackerDirs::fixed("/tmp/tracker-test")).build()
}


#[test]
fn tests_start_a_new_shift_in_empty_document() {
    let tracker = tracker();
    let week = week_of(naive_date(2019, 12, 3));
    let document = Document::empty(week);
    let new_document = tracker
        .document_with_tracking_started(&document, naive_date(2019, 12, 3), naive_time(8, 0))
        .unwrap();
    assert_eq!(
        Document::new(
            week,
            vec![],
            vec![Day {
                date: naive_date(2019, 12, 3),
                lines: vec![Line::OpenShift { start_time: naive_time(8, 0) }]
            }]
        ),
        new_document
    )
}

fn blank_line_case() {
    let tracker = tracker();
    let week = week_of(naive_date(2019, 12, 2));
    let document = Document::new(
        week,
        vec![],
        vec![Day {
            date: naive_date(2019, 12, 2),
            lines: vec![Line::ClosedShift {
                start_time: naive_time(10, 0),
                stop_time: naive_time(10, 30),
            }],
        }],
    );
    let new_document = tracker
        .document_with_tracking_started(&document, naive_date(2019, 12, 3), naive_time(8, 0))
        .unwrap();
    assert_eq!(
        Document::new(
            week,
            vec![],
            vec![
                Day {
                    date: naive_date(2019, 12, 2),
                    lines: vec![
                        Line::ClosedShift {
                            start_time: naive_time(10, 0),
                            stop_time: naive_time(10, 30)
                        },
                        Line::Blank
                    ]
                },
                Day {
                    date: naive_date(2019, 12, 3),
                    lines: vec![Line::OpenShift { start_time: naive_time(8, 0) }]
                }
            ]
        ),
        new_document
    )
}

#[test]
fn tests_blank_line_is_created_before_inserted_date() {
    blank_line_case();
}

#[test]
fn tracker_blank_line_is_created_before_inserted_date() {
    blank_line_case();
}

fn existing_date_case() {
    let tracker = tracker();
    let week = week_of(naive_date(2019, 12, 2));
    let document = Document::new(
        week,
        vec![],
        vec![
            Day {
                date: naive_date(2019, 12, 2),
                lines: vec![Line::ClosedShift {
                    start_time: naive_time(10, 0),
                    stop_time: naive_time(10, 30),
                }],
            },
            Day {
                date: naive_date(2019, 12, 3),
                lines: vec![Line::ClosedShift {
                    start_time: naive_time(11, 0),
                    stop_time: naive_time(11, 40),
                }],
            },
        ],
    );
    let new_document = tracker
        .document_with_tracking_started(&document, naive_date(2019, 12, 3), naive_time(12, 0))
        .unwrap();
    assert_eq!(
        Document::new(
            week,
            vec![],
            vec![
                Day {
                    date: naive_date(2019, 12, 2),
                    lines: vec![Line::ClosedShift {
                        start_time: naive_time(10, 0),
                        stop_time: naive_time(10, 30)
                    }]
                },
                Day {
                    date: naive_date(2019, 12, 3),
                    lines: vec![
                        Line::ClosedShift {
                            start_time: naive_time(11, 0),
                            stop_time: naive_time(11, 40)
                        },
                        Line::OpenShift { start_time: naive_time(12, 0) }
                    ]
                }
            ]
        ),
        new_document
    )
}

#[test]
fn tests_can_start_a_shift_on_an_already_existing_date() {
    existing_date_case();
}

#[test]
fn tracker_can_start_a_shift_on_an_already_existing_date() {
    existing_date_case();
}

fn after_last_shift_case() {
    let tracker = tracker();
    let week = week_of(naive_date(2019, 12, 2));
    let document = Document::new(
        week,
        vec![],
        vec![Day {
            date: naive_date(2019, 12, 2),
            lines: vec![
                Line::ClosedShift { start_time: naive_time(10, 0), stop_time: naive_time(10, 30) },
                Line::Blank,
            ],
        }],
    );
    let new_document = tracker
        .document_with_tracking_started(&document, naive_date(2019, 12, 2), naive_time(12, 0))
        .unwrap();
    assert_eq!(
        Document::new(
            week,
            vec![],
            vec![Day {
                date: naive_date(2019, 12, 2),
                lines: vec![
                    Line::ClosedShift {
                        start_time: naive_time(10, 0),
                        stop_time: naive_time(10, 30)
                    },
                    Line::OpenShift { start_time: naive_time(12, 0) },
                    Line::Blank
                ]
            },]
        ),
        new_document
    );
}

#[test]
fn tests_new_open_shifts_are_added_right_after_last_existing_shift() {
    after_last_shift_case();
}

#[test]
fn tracker_new_open_shifts_are_added_right_after_last_existing_shift() {
    after_last_shift_case();
}

fn already_started_case() {
    let tracker = tracker();
    let result = tracker.document_with_tracking_started(
        &Document::new(
            week_of(naive_date(2019, 12, 2)),
            vec![],
            vec![Day {
                date: naive_date(2019, 12, 2),
                lines: vec![Line::OpenShift { start_time: naive_time(10, 0) }],
            }],
        ),
        naive_date(2019, 12, 2),
        naive_time(12, 0),
    );
    assert!(result.is_err());
}

#[test]
fn tests_we_can_not_start_a_shift_if_one_is_already_started() {
    already_started_case();
}

#[test]
fn tracker_we_can_not_start_a_shift_if_one_is_already_started() {
    already_started_case();
}

#[test]
fn tracker_start_a_new_shift_in_empty_document() {
    let tracker = tracker();
    let week = week_of(naive_date(2019, 12, 3));
    let new_document = tracker
        .document_with_tracking_started(
            &Document::empty(week),
            naive_date(2019, 12, 3),
            naive_time(8, 0),
        )
        .unwrap();
    assert_eq!(
        Document::new(
            week,
            vec![],
            vec![Day {
                date: naive_date(2019, 12, 3),
                lines: vec![Line::OpenShift { start_time: naive_time(8, 0) }]
            }]
        ),
        new_document
    )
}

#[test]
fn we_can_stop_a_shift() {
    let tracker = tracker();
    let week = week_of(naive_date(2019, 12, 2));
    let document = Document::new(
        week,
        vec![],
        vec![Day {
            date: naive_date(2019, 12, 2),
            lines: vec![Line::OpenShift { start_time: naive_time(10, 0) }],
        }],
    );
    let new_document = tracker
        .document_with_tracking_stopped(&document, naive_date(2019, 12, 2), naive_time(12, 0))
        .unwrap();
    assert_eq!(
        Document::new(
            week,
            vec![],
            vec![Day {
                date: naive_date(2019, 12, 2),
                lines: vec![Line::ClosedShift {
                    start_time: naive_time(10, 0),
                    stop_time: naive_time(12, 0)
                }]
            },]
        ),
        new_document
    );
}

#[test]
fn stopping_without_open_shift_is_refused() {
    let tracker = tracker();
    let document = Document::new(
        week_of(naive_date(2019, 12, 2)),
        vec![],
        vec![Day { date: naive_date(2019, 12, 2), lines: vec![] }],
    );
    let result =
        tracker.document_with_tracking_stopped(&document, naive_date(2019, 12, 2), naive_time(12, 0));
    assert_eq!(Err(DocumentError::TrackerFileDoesNotHaveOpenShift), result);
}

#[test]
fn stopping_on_a_day_without_entry_is_refused() {
    let tracker = tracker();
    let document = Document::new(
        week_of(naive_date(2019, 12, 2)),
        vec![],
        vec![Day {
            date: naive_date(2019, 12, 2),
            lines: vec![Line::OpenShift { start_time: naive_time(10, 0) }],
        }],
    );
    let result =
        tracker.document_with_tracking_stopped(&document, naive_date(2019, 12, 3), naive_time(1, 0));
    assert_eq!(Err(DocumentError::TrackerFileDoesNotHaveOpenShift), result);
}

#[test]
fn start_twice_is_refused_and_start_then_stop_closes() {
    let tracker = tracker();
    let document = Document::empty(week_of(naive_date(2019, 12, 2)));
    let started = tracker
        .document_with_tracking_started(&document, naive_date(2019, 12, 4), naive_time(9, 15))
        .unwrap();
    assert_eq!(
        Err(DocumentError::TrackerFileAlreadyHasOpenShift),
        tracker.document_with_tracking_started(&started, naive_date(2019, 12, 4), naive_time(9, 20))
    );
    let stopped = tracker
        .document_with_tracking_stopped(&started, naive_date(2019, 12, 4), naive_time(17, 0))
        .unwrap();
    assert!(!stopped.has_open_shift());
    assert_eq!(
        vec![Line::ClosedShift { start_time: naive_time(9, 15), stop_time: naive_time(17, 0) }],
        stopped.days[0].lines
    );
}

#[test]
fn no_op_test() {
    let _tracker = tracker();
    assert_eq!(true, true);
}

fn open_shift_days(document: &Document) -> Vec<usize> {
    document
        .days
        .iter()
        .map(|day| day.lines.iter().filter(|l| matches!(l, Line::OpenShift { .. })).count())
        .collect()
}

#[test]
fn at_most_one_open_shift_over_starts_and_stops() {
    let tracker = tracker();
    let mut document = Document::empty(week_of(naive_date(2019, 12, 2)));
    let steps = [(2, 8, true), (2, 12, false), (4, 9, true), (4, 17, false), (2, 13, true)];
    for (day, hour, start) in steps {
        let date = naive_date(2019, 12, day);
        document = if start {
            tracker.document_with_tracking_started(&document, date, naive_time(hour, 0)).unwrap()
        } else {
            tracker.document_with_tracking_stopped(&document, date, naive_time(hour, 0)).unwrap()
        };
        let counts = open_shift_days(&document);
        let total: usize = counts.iter().sum();
        assert_eq!(start, document.has_open_shift());
        assert_eq!(if start { 1 } else { 0 }, total);
        assert_eq!(if start { 1 } else { 0 }, counts.iter().filter(|c| **c == 1).count());
    }
    assert_eq!(vec![naive_date(2019, 12, 2), naive_date(2019, 12, 4)], document.days.iter().map(|d| d.date).collect::<Vec<_>>());
}
