use chrono::Datelike;
use tracker::calendar::{Date, IsoWeek, Time};
use tracker::document::{Day, Document, Line};
use tracker::grammar::Parser;

fn date(year: i32, month: u32, day: u32) -> Date {
    Date { year, month, day }
}

fn time_hm(hour: u32, minute: u32) -> Time {
    Time::hm(hour, minute)
}

fn week_of(year: i32, month: u32, day: u32) -> IsoWeek {
    let d = chrono::NaiveDate::from_ymd_opt(year, month, day).unwrap();
    let monday = d.week(chrono::Weekday::Mon).first_day();
    IsoWeek { monday: date(monday.year(), monday.month(), monday.day()) }
}

fn example_1_week() -> IsoWeek {
    week_of(2020, 7, 3)
}

fn example_1_document() -> Document {
    Document {
        week: example_1_week(),
        preamble: vec![
            Line::Comment { text: String::from("Preamble") },
            Line::DurationShift { text: String::from("carry"), duration: 70 * 60 },
            Line::Blank,
        ],
        days: vec![
            Day {
                date: date(2020, 7, 13),
                lines: vec![
                    Line::SpecialDay { text: String::from("Vacation") },
                    Line::Comment { text: String::from("Came back from Jämtland") },
                    Line::Blank,
                ],
            },
            Day {
                date: date(2020, 7, 14),
                lines: vec![
                    Line::ClosedShift { start_time: time_hm(8, 32), stop_time: time_hm(12, 2) },
                    Line::ClosedShift { start_time: time_hm(12, 30), stop_time: time_hm(13, 1) },
                    Line::ClosedShift { start_time: time_hm(13, 45), stop_time: time_hm(18, 3) },
                    Line::Blank,
                ],
            },
            Day {
                date: date(2020, 7, 15),
                lines: vec![
                    Line::ClosedShift { start_time: time_hm(11, 0), stop_time: time_hm(18, 0) },
                    Line::Blank,
                ],
            },
            Day {
                date: date(2020, 7, 16),
                lines: vec![
                    Line::ClosedShift { start_time: time_hm(8, 0), stop_time: time_hm(12, 0) },
                    Line::SpecialShift {
                        text: String::from("VAB"),
                        start_time: time_hm(13, 0),
                        stop_time: time_hm(17, 0),
                    },
                    Line::Blank,
                ],
            },
            Day {
                date: date(2020, 7, 17),
                lines: vec![Line::OpenShift { start_time: time_hm(8, 12) }],
            },
        ],
    }
}

fn example_1_text() -> String {
    String::from(
        "# Preamble
* carry 1h 10m

[monday 2020-07-13]
* Vacation
# Came back from Jämtland

[tuesday 2020-07-14]
* 08:32-12:02
* 12:30-13:01
* 13:45-18:03

[wednesday 2020-07-15]
* 11:00-18:00

[thursday 2020-07-16]
* 08:00-12:00
* VAB 13:00-17:00

[friday 2020-07-17]
* 08:12-
",
    )
}

#[test]
fn tests_read_line() {
    let parser = Parser::new();
    assert_eq!(
        Some(Line::Comment { text: String::from("hello") }),
        parser.parse_line("# hello")
    );
    assert_eq!(
        Some(Line::DayHeader { date: date(2021, 9, 13) }),
        parser.parse_line("[monday 2021-09-13]")
    );
    assert_eq!(
        Some(Line::OpenShift { start_time: time_hm(8, 12) }),
        parser.parse_line("* 08:12-")
    );
    assert_eq!(
        Some(Line::ClosedShift { start_time: time_hm(8, 24), stop_time: time_hm(9, 12) }),
        parser.parse_line("* 08:24-09:12")
    );
    assert_eq!(
        Some(Line::SpecialDay { text: String::from("hello") }),
        parser.parse_line("* hello")
    );
    assert_eq!(
        Some(Line::SpecialShift {
            text: String::from("VAB"),
            start_time: time_hm(13, 5),
            stop_time: time_hm(20, 2)
        }),
        parser.parse_line("* VAB 13:05-20:02")
    );
    assert_eq!(
        Some(Line::DurationShift { text: String::from("balance"), duration: 20 * 3600 }),
        parser.parse_line("* balance 20 h 0 m")
    );
    assert_eq!(Some(Line::Blank), parser.parse_line(""));
}

#[test]
fn document_read_line() {
    let parser = Parser::new();
    assert_eq!(
        Some(Line::Comment { text: String::from("hello") }),
        parser.parse_line("# hello")
    );
    assert_eq!(
        Some(Line::DayHeader { date: date(2021, 9, 13) }),
        parser.parse_line("[monday 2021-09-13]")
    );
    assert_eq!(
        Some(Line::OpenShift { start_time: time_hm(8, 12) }),
        parser.parse_line("* 08:12-")
    );
    assert_eq!(
        Some(Line::ClosedShift { start_time: time_hm(8, 24), stop_time: time_hm(9, 12) }),
        parser.parse_line("* 08:24-09:12")
    );
    assert_eq!(
        Some(Line::SpecialDay { text: String::from("hello") }),
        parser.parse_line("* hello")
    );
    assert_eq!(
        Some(Line::SpecialShift {
            text: String::from("VAB"),
            start_time: time_hm(13, 5),
            stop_time: time_hm(20, 2)
        }),
        parser.parse_line("* VAB 13:05-20:02")
    );
    assert_eq!(Some(Line::Blank), parser.parse_line(""));
}

#[test]
fn deserialize() {
    let parser = Parser::new();
    let parsed = parser.parse_document(example_1_week(), &example_1_text()).unwrap();
    assert_eq!(example_1_document(), parsed)
}

#[test]
fn serialize() {
    assert_eq!(example_1_text(), example_1_document().to_string())
}

#[test]
fn serialize_deserialize() {
    let serialized_form = "# Preamble
[monday 2020-07-13]
* Vacation
# Came back from Jämtland

[tuesday 2020-07-14]
* 08:32-12:02
* 12:30-13:01
* 13:45-18:03

[wednesday 2020-07-15]
* 11:00-18:00

[thursday 2020-07-16]
* 08:00-12:00
* VAB 13:00-17:00

[friday 2020-07-17]
* 08:12-
";
    let mut document = example_1_document();
    document.preamble = vec![Line::Comment { text: String::from("Preamble") }];
    let parsed = Parser::new().parse_document(example_1_week(), serialized_form).unwrap();
    assert_eq!(document, parsed)
}

#[test]
fn tests_replacing_day_that_does_not_exist() {
    let document = Document { week: week_of(2020, 7, 13), preamble: vec![], days: vec![] };
    let new_document =
        document.replacing_day(date(2020, 7, 13), Day { date: date(2020, 7, 13), lines: vec![] });
    assert_eq!(document, new_document)
}

#[test]
fn document_replacing_day_that_does_not_exist() {
    let document = Document { week: week_of(2020, 7, 13), preamble: vec![], days: vec![] };
    let new_document =
        document.replacing_day(date(2020, 7, 13), Day { date: date(2020, 7, 13), lines: vec![] });
    assert_eq!(document, new_document)
}

#[test]
fn inserting_a_day_after_the_only_day_adds_a_blank_line() {
    let document = Document::new(
        week_of(2019, 12, 2),
        vec![],
        vec![Day { date: date(2019, 12, 2), lines: vec![] }],
    );
    let inserted = document.inserting_day(Day {
        date: date(2019, 12, 3),
        lines: vec![Line::OpenShift { start_time: time_hm(8, 0) }],
    });
    assert_eq!(
        vec![
            Day { date: date(2019, 12, 2), lines: vec![Line::Blank] },
            Day {
                date: date(2019, 12, 3),
                lines: vec![Line::OpenShift { start_time: time_hm(8, 0) }]
            },
        ],
        inserted.days
    );
}

#[test]
fn inserting_a_day_first_adds_no_blank_line_and_drops_a_same_date_day() {
    let document = Document::new(
        week_of(2019, 12, 2),
        vec![],
        vec![
            Day { date: date(2019, 12, 3), lines: vec![Line::Blank] },
            Day { date: date(2019, 12, 5), lines: vec![] },
        ],
    );
    let inserted = document.inserting_day(Day { date: date(2019, 12, 3), lines: vec![] });
    assert_eq!(
        vec![
            Day { date: date(2019, 12, 3), lines: vec![] },
            Day { date: date(2019, 12, 5), lines: vec![] },
        ],
        inserted.days
    );
}

#[test]
fn closing_a_shift_changes_only_the_open_shift() {
    let day = Day {
        date: date(2019, 12, 2),
        lines: vec![
            Line::ClosedShift { start_time: time_hm(7, 0), stop_time: time_hm(8, 0) },
            Line::OpenShift { start_time: time_hm(9, 0) },
            Line::Comment { text: String::from("x") },
        ],
    };
    assert!(day.has_open_shift());
    let closed = day.closing_shift(time_hm(10, 15));
    assert!(!closed.has_open_shift());
    assert_eq!(
        vec![
            Line::ClosedShift { start_time: time_hm(7, 0), stop_time: time_hm(8, 0) },
            Line::ClosedShift { start_time: time_hm(9, 0), stop_time: time_hm(10, 15) },
            Line::Comment { text: String::from("x") },
        ],
        closed.lines
    );
}

#[test]
fn get_day_finds_the_first_day_of_a_date() {
    let document = example_1_document();
    assert_eq!(Some(&document.days[1]), document.get_day(date(2020, 7, 14)));
    assert_eq!(None, document.get_day(date(2020, 7, 18)));
    assert!(document.has_open_shift());
}
