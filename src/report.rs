//! The report: time worked today and this week, and the balance against the
//! configured work week.

use vstd::prelude::*;
use crate::calendar::{day_count, days_from_ce, DateTime, IsoWeek, Time};
use crate::config::WorkWeekConfig;
use crate::document::{find_day, has_day, DayView, Document, DocumentView, Line, LineView};
use crate::tracker::day_of;

verus! {

/// A bound on what one line adds to a day, in seconds.
pub const LINE_BOUND: i128 = 35184372088832;

/// A bound on what one day of at most `u32::MAX` lines adds up to, in seconds.
pub const DAY_BOUND: i128 = 151115727451828646838272;

/// Worked time and balance, all in seconds.
#[derive(Clone, Copy, Debug, PartialEq, Eq, Structural)]
pub struct Report {
    pub duration_today: i128,
    pub duration_week: i128,
    pub is_ongoing: bool,
    pub balance: i128,
}

/// What one line adds to the worked time of its day. `now` is the time of
/// day when the line's day is today, and `None` otherwise.
pub open spec fn line_seconds(line: LineView, now: Option<Time>, hours_per_day: int) -> int {
    match line {
        LineView::ClosedShift { start_time, stop_time } => stop_time.seconds() - start_time.seconds(),
        LineView::SpecialShift { start_time, stop_time, .. } => stop_time.seconds()
            - start_time.seconds(),
        LineView::OpenShift { start_time } => match now {
            Some(t) => t.seconds() - start_time.seconds(),
            None => 0,
        },
        LineView::SpecialDay { .. } => hours_per_day * 3600,
        _ => 0,
    }
}

/// The worked time of a list of lines.
pub open spec fn lines_seconds(lines: Seq<LineView>, now: Option<Time>, hours_per_day: int) -> int
    decreases lines.len(),
{
    if lines.len() == 0 {
        0
    } else {
        lines_seconds(lines.drop_last(), now, hours_per_day) + line_seconds(
            lines.last(),
            now,
            hours_per_day,
        )
    }
}

/// The worked time of the days whose date is not `today`.
pub open spec fn other_days_seconds(days: Seq<DayView>, today: crate::calendar::Date, hours_per_day: int) -> int
    decreases days.len(),
{
    if days.len() == 0 {
        0
    } else {
        other_days_seconds(days.drop_last(), today, hours_per_day) + if days.last().date == today {
            0
        } else {
            lines_seconds(days.last().lines, None, hours_per_day)
        }
    }
}

/// The sum of the hand-entered durations among the lines.
pub open spec fn carried_seconds(lines: Seq<LineView>) -> int
    decreases lines.len(),
{
    if lines.len() == 0 {
        0
    } else {
        carried_seconds(lines.drop_last()) + match lines.last() {
            LineView::DurationShift { duration, .. } => duration,
            _ => 0,
        }
    }
}

/// `x` held to the range `low ..= high`.
pub open spec fn clamp(x: int, low: int, high: int) -> int {
    if x < low {
        low
    } else if x > high {
        high
    } else {
        x
    }
}

/// The days of the week that count as worked by `now`: the days from the
/// week's Monday to `now`, both included, held to `0 ..= days_per_week`.
pub open spec fn expected_days(week: IsoWeek, now: DateTime, days_per_week: int) -> int {
    let m = week.monday;
    let d = now.date;
    clamp(
        day_count(d.year as int, d.month as int, d.day as int) - day_count(
            m.year as int,
            m.month as int,
            m.day as int,
        ) + 1,
        0,
        days_per_week,
    )
}

/// The worked time of the day of `now`, with its open shift counted up to now.
pub open spec fn today_seconds(doc: DocumentView, now: DateTime, hours_per_day: int) -> int {
    if has_day(doc.days, now.date) {
        lines_seconds(day_of(doc.days, now.date).lines, Some(now.time), hours_per_day)
    } else {
        0
    }
}

/// The worked time of the whole document.
pub open spec fn week_seconds(doc: DocumentView, now: DateTime, hours_per_day: int) -> int {
    other_days_seconds(doc.days, now.date, hours_per_day) + today_seconds(doc, now, hours_per_day)
}

/// The document is small enough for the report's arithmetic: at most
/// `u32::MAX` days, and as many lines in the preamble and in each day.
pub open spec fn within_report_limits(doc: DocumentView) -> bool {
    &&& doc.preamble.len() <= u32::MAX
    &&& doc.days.len() <= u32::MAX
    &&& forall|i: int| 0 <= i < doc.days.len() ==> (#[trigger] doc.days[i]).lines.len() <= u32::MAX
}

proof fn lemma_line_bound(line: LineView, now: Option<Time>, hours_per_day: int)
    requires
        0 <= hours_per_day <= u32::MAX,
        now matches Some(t) ==> t.hour <= u32::MAX && t.minute <= u32::MAX && t.second <= u32::MAX,
    ensures
        -LINE_BOUND <= line_seconds(line, now, hours_per_day) <= LINE_BOUND,
{
}

proof fn lemma_lines_bound(lines: Seq<LineView>, now: Option<Time>, hours_per_day: int)
    requires
        0 <= hours_per_day <= u32::MAX,
    ensures
        -LINE_BOUND * lines.len() <= lines_seconds(lines, now, hours_per_day) <= LINE_BOUND
            * lines.len(),
    decreases lines.len(),
{
    if lines.len() > 0 {
        lemma_lines_bound(lines.drop_last(), now, hours_per_day);
        lemma_line_bound(lines.last(), now, hours_per_day);
    }
}

proof fn lemma_other_days_bound(days: Seq<DayView>, today: crate::calendar::Date, hours_per_day: int)
    requires
        0 <= hours_per_day <= u32::MAX,
        forall|i: int| 0 <= i < days.len() ==> (#[trigger] days[i]).lines.len() <= u32::MAX,
    ensures
        -DAY_BOUND * days.len() <= other_days_seconds(days, today, hours_per_day) <= DAY_BOUND
            * days.len(),
    decreases days.len(),
{
    if days.len() > 0 {
        assert(days.last() == days[days.len() - 1]);
        lemma_other_days_bound(days.drop_last(), today, hours_per_day);
        lemma_lines_bound(days.last().lines, None, hours_per_day);
        let n = days.last().lines.len();
        assert(LINE_BOUND * n <= DAY_BOUND) by (nonlinear_arith)
            requires n <= u32::MAX;
    }
}

/// The worked time of a day's lines.
fn duration_of_lines(lines: &Vec<Line>, now: Option<Time>, hours_per_day: u32) -> (r: i128)
    requires
        lines@.len() <= u32::MAX,
    ensures
        r == lines_seconds(crate::document::lines_view(lines@), now, hours_per_day as int),
{
    let ghost view = crate::document::lines_view(lines@);
    let n = lines.len();
    let mut total: i128 = 0;
    for i in 0..n
        invariant
            n == lines@.len(),
            n <= u32::MAX,
            view == crate::document::lines_view(lines@),
            total == lines_seconds(view.take(i as int), now, hours_per_day as int),
    {
        proof {
            lemma_lines_bound(view.take(i as int), now, hours_per_day as int);
            lemma_line_bound(view[i as int], now, hours_per_day as int);
            assert(view.take(i + 1).drop_last() =~= view.take(i as int));
        }
        let part: i128 = match &lines[i] {
            Line::ClosedShift { start_time, stop_time } => stop_time.seconds_since(start_time) as i128,
            Line::SpecialShift { start_time, stop_time, .. } => stop_time.seconds_since(
                start_time,
            ) as i128,
            Line::OpenShift { start_time } => match now {
                Some(t) => t.seconds_since(start_time) as i128,
                None => 0,
            },
            Line::SpecialDay { .. } => (hours_per_day as i128) * 3600,
            _ => 0,
        };
        total = total + part;
    }
    assert(view.take(n as int) =~= view);
    total
}

impl Report {
    /// The report on `document` at the instant `now`.
    pub fn from_document(document: &Document, now: &DateTime, workweek: &WorkWeekConfig) -> (r:
        Report)
        requires
            document.week.wf(),
            now.date.wf(),
            within_report_limits(document@),
        ensures
            r.duration_today == today_seconds(document@, *now, workweek.hours_per_day as int),
            r.duration_week == week_seconds(document@, *now, workweek.hours_per_day as int),
            r.is_ongoing == (has_day(document@.days, now.date) && day_of(
                document@.days,
                now.date,
            ).has_open_shift()),
            r.balance == week_seconds(document@, *now, workweek.hours_per_day as int)
                - expected_days(document.week, *now, workweek.days_per_week as int)
                * workweek.hours_per_day * 3600 + carried_seconds(document@.preamble),
    {
        let hours = workweek.hours_per_day;
        let ghost days = document@.days;
        let (duration_today, is_ongoing) = match document.get_day(now.date) {
            Some(day) => {
                proof {
                    let i = find_day(days, now.date, 0);
                    assert(days[i] == document.days@[i]@);
                    lemma_lines_bound(day@.lines, Some(now.time), hours as int);
                }
                (duration_of_lines(&day.lines, Some(now.time), hours), day.has_open_shift())
            },
            None => (0i128, false),
        };
        let n = document.days.len();
        let mut others: i128 = 0;
        for i in 0..n
            invariant
                n == document.days@.len(),
                days == document@.days,
                within_report_limits(document@),
                others == other_days_seconds(days.take(i as int), now.date, hours as int),
        {
            proof {
                assert(days.take(i + 1).drop_last() =~= days.take(i as int));
                assert(days[i as int] == document.days@[i as int]@);
                lemma_other_days_bound(days.take(i as int), now.date, hours as int);
                lemma_lines_bound(days[i as int].lines, None, hours as int);
                let m = days[i as int].lines.len();
                assert(LINE_BOUND * m <= DAY_BOUND) by (nonlinear_arith)
                    requires m <= u32::MAX;
            }
            if document.days[i].date != now.date {
                let part = duration_of_lines(&document.days[i].lines, None, hours);
                others = others + part;
            }
        }
        assert(days.take(n as int) =~= days);
        proof {
            lemma_other_days_bound(days, now.date, hours as int);
        }
        let duration_week = others + duration_today;

        let today_number = days_from_ce(&now.date) as i64;
        let monday_number = days_from_ce(&document.week.monday) as i64;
        let since = today_number - monday_number + 1;
        let expected: i64 = if since < 0 {
            0
        } else if since > workweek.days_per_week as i64 {
            workweek.days_per_week as i64
        } else {
            since
        };
        let e = expected as i128;
        let h = hours as i128;
        assert(0 <= e * h <= 4294967295 * 4294967295) by (nonlinear_arith)
            requires
                0 <= e <= 4294967295,
                0 <= h <= 4294967295;
        let expected_seconds = e * h * 3600;

        let ghost pre = document@.preamble;
        let p = document.preamble.len();
        let mut carried: i128 = 0;
        for i in 0..p
            invariant
                p == document.preamble@.len(),
                p <= u32::MAX,
                pre == document@.preamble,
                carried == carried_seconds(pre.take(i as int)),
                -9223372036854775808 * i <= carried <= 9223372036854775808 * i,
        {
            proof {
                assert(pre.take(i + 1).drop_last() =~= pre.take(i as int));
            }
            match &document.preamble[i] {
                Line::DurationShift { duration, .. } => {
                    carried = carried + *duration as i128;
                },
                _ => {},
            }
        }
        assert(pre.take(p as int) =~= pre);
        Report {
            duration_today,
            duration_week,
            is_ongoing,
            balance: duration_week - expected_seconds + carried,
        }
    }
}

} // verus!
