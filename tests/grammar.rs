use tracker::calendar::{Date, IsoWeek, Time};
use tracker::document::{Day, Document, Line};
use tracker::grammar::Parser;

fn date(year: i32, month: u32, day: u32) -> Date {
    Date { year, month, day }
}

fn week() -> IsoWeek {
    IsoWeek { monday: date(2019, 12, 2) }
}

#[test]
fn trailing_whitespace_is_accepted_after_shifts_and_headers() {
    let parser = Parser::new();
    assert_eq!(
        Some(Line::OpenShift { start_time: Time::hm(8, 5) }),
        parser.parse_line("* 08:05-  \t")
    );
    assert_eq!(
        Some(Line::DayHeader { date: date(2024, 2, 29) }),
        parser.parse_line("[whatever   2024-02-29] ")
    );
    assert_eq!(Some(Line::Blank), parser.parse_line(" \t "));
}

#[test]
fn invalid_values_do_not_read() {
    let parser = Parser::new();
    assert_eq!(None, parser.parse_line("* 24:00-"));
    assert_eq!(None, parser.parse_line("* 08:60-09:00"));
    assert_eq!(None, parser.parse_line("[monday 2023-02-29]"));
    assert_eq!(None, parser.parse_line("[Monday 2023-02-27]"));
    assert_eq!(None, parser.parse_line("* VAB2"));
    assert_eq!(None, parser.parse_line("#no space"));
    assert_eq!(None, parser.parse_line("* balance 20h 0"));
}

#[test]
fn durations_carry_the_sign_of_the_hours() {
    let parser = Parser::new();
    assert_eq!(
        Some(Line::DurationShift { text: String::from("carry"), duration: -(90 * 60) }),
        parser.parse_line("* carry -1h 30m")
    );
    assert_eq!(
        Some(Line::DurationShift { text: String::from("carry"), duration: 0 }),
        parser.parse_line("* carry 0h 30m")
    );
    assert_eq!(
        Some(Line::DurationShift { text: String::from("carry"), duration: 12 * 3600 + 5 * 60 }),
        parser.parse_line("* carry 12h 5m")
    );
}

#[test]
fn special_lines_need_a_label_of_letters() {
    let parser = Parser::new();
    assert_eq!(
        Some(Line::SpecialDay { text: String::from("Vacation") }),
        parser.parse_line("* Vacation  ")
    );
    assert_eq!(
        Some(Line::SpecialShift {
            text: String::from("sick"),
            start_time: Time::hm(9, 0),
            stop_time: Time::hm(11, 30)
        }),
        parser.parse_line("* sick 09:00-11:30")
    );
}

#[test]
fn durations_are_written_with_the_sign_on_the_hours() {
    let line = Line::DurationShift { text: String::from("carry"), duration: -(90 * 60) };
    assert_eq!("* carry -1h 30m", line.to_string());
    let line = Line::DurationShift { text: String::from("carry"), duration: 125 * 60 };
    assert_eq!("* carry 2h 5m", line.to_string());
}

#[test]
fn headers_are_written_with_the_weekday_of_the_date() {
    let line = Line::DayHeader { date: date(2024, 1, 7) };
    assert_eq!("[sunday 2024-01-07]", line.to_string());
    let line = Line::DayHeader { date: date(812, 3, 4) };
    assert_eq!("[sunday 0812-03-04]", line.to_string());
    let line = Line::DayHeader { date: date(2000, 1, 1) };
    assert_eq!("[saturday 2000-01-01]", line.to_string());
}

#[test]
fn first_unreadable_line_is_reported() {
    let parser = Parser::new();
    let err = parser
        .parse_document(week(), "# fine\n[monday 2019-12-02]\n* 08:00-\nnot a line\n* 09:00-10:00\n")
        .unwrap_err();
    assert_eq!(3, err.line_number);
    assert_eq!("not a line", err.text);
}

#[test]
fn carriage_returns_end_lines() {
    let parser = Parser::new();
    let document =
        parser.parse_document(week(), "# a\r\n[monday 2019-12-02]\r\n* 08:00-09:00\r\n").unwrap();
    assert_eq!(
        Document {
            week: week(),
            preamble: vec![Line::Comment { text: String::from("a") }],
            days: vec![Day {
                date: date(2019, 12, 2),
                lines: vec![Line::ClosedShift {
                    start_time: Time::hm(8, 0),
                    stop_time: Time::hm(9, 0)
                }]
            }]
        },
        document
    );
}

#[test]
fn reading_the_written_text_gives_the_same_document() {
    let parser = Parser::new();
    let text = "# carried\n* carry -3h 15m\n\n[tuesday 2019-12-03]\n* 08:00-12:00\n* VAB 13:00-14:00\n* sick\n# note\n\n[wednesday 2019-12-04]\n* 07:30-\n";
    let document = parser.parse_document(week(), text).unwrap();
    let written = document.to_string();
    assert_eq!(text, written);
    assert_eq!(document, parser.parse_document(week(), &written).unwrap());
}

#[test]
fn days_keep_the_order_of_the_text() {
    let parser = Parser::new();
    let document = parser
        .parse_document(week(), "[friday 2019-12-06]\n[monday 2019-12-02]\n* 08:00-09:00")
        .unwrap();
    assert_eq!(2, document.days.len());
    assert_eq!(date(2019, 12, 6), document.days[0].date);
    assert!(document.days[0].lines.is_empty());
    assert_eq!(date(2019, 12, 2), document.days[1].date);
}

#[test]
fn empty_text_is_an_empty_document() {
    let document = Parser::new().parse_document(week(), "").unwrap();
    assert_eq!(Document::empty(week()), document);
    assert_eq!("", document.to_string());
}
