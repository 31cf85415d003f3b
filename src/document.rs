//! The data model of a week file: lines, days and the document, with the
//! operations that derive new values from them.

use vstd::prelude::*;
use crate::calendar::{Date, IsoWeek, Time};

verus! {

/// One line of a week file.
#[derive(Debug, PartialEq)]
pub enum Line {
    Comment { text: String },
    DayHeader { date: Date },
    OpenShift { start_time: Time },
    ClosedShift { start_time: Time, stop_time: Time },
    /// A worked span entered by hand; `duration` is in seconds.
    DurationShift { text: String, duration: i64 },
    SpecialDay { text: String },
    SpecialShift { text: String, start_time: Time, stop_time: Time },
    Blank,
}

/// What a `Line` holds, with its texts as character sequences.
pub ghost enum LineView {
    Comment { text: Seq<char> },
    DayHeader { date: Date },
    OpenShift { start_time: Time },
    ClosedShift { start_time: Time, stop_time: Time },
    DurationShift { text: Seq<char>, duration: int },
    SpecialDay { text: Seq<char> },
    SpecialShift { text: Seq<char>, start_time: Time, stop_time: Time },
    Blank,
}

impl LineView {
    /// Shift lines are the ones that stand in a clock range.
    pub open spec fn is_shift(self) -> bool {
        self is OpenShift || self is ClosedShift || self is SpecialShift
    }
}

impl View for Line {
    type V = LineView;

    open spec fn view(&self) -> LineView {
        match self {
            Line::Comment { text } => LineView::Comment { text: text@ },
            Line::DayHeader { date } => LineView::DayHeader { date: *date },
            Line::OpenShift { start_time } => LineView::OpenShift { start_time: *start_time },
            Line::ClosedShift { start_time, stop_time } => LineView::ClosedShift {
                start_time: *start_time,
                stop_time: *stop_time,
            },
            Line::DurationShift { text, duration } => LineView::DurationShift {
                text: text@,
                duration: *duration as int,
            },
            Line::SpecialDay { text } => LineView::SpecialDay { text: text@ },
            Line::SpecialShift { text, start_time, stop_time } => LineView::SpecialShift {
                text: text@,
                start_time: *start_time,
                stop_time: *stop_time,
            },
            Line::Blank => LineView::Blank,
        }
    }
}

impl Clone for Line {
    fn clone(&self) -> (r: Line)
        ensures
            r == *self,
    {
        match self {
            Line::Comment { text } => Line::Comment { text: text.clone() },
            Line::DayHeader { date } => Line::DayHeader { date: *date },
            Line::OpenShift { start_time } => Line::OpenShift { start_time: *start_time },
            Line::ClosedShift { start_time, stop_time } => Line::ClosedShift {
                start_time: *start_time,
                stop_time: *stop_time,
            },
            Line::DurationShift { text, duration } => Line::DurationShift {
                text: text.clone(),
                duration: *duration,
            },
            Line::SpecialDay { text } => Line::SpecialDay { text: text.clone() },
            Line::SpecialShift { text, start_time, stop_time } => Line::SpecialShift {
                text: text.clone(),
                start_time: *start_time,
                stop_time: *stop_time,
            },
            Line::Blank => Line::Blank,
        }
    }
}

impl Line {
    /// Whether the line is an open, closed or special shift.
    pub fn is_shift(&self) -> (r: bool)
        ensures
            r == self@.is_shift(),
    {
        match self {
            Line::OpenShift { .. } | Line::ClosedShift { .. } | Line::SpecialShift { .. } => true,
            _ => false,
        }
    }

    /// Whether the line is an open shift.
    pub fn is_open_shift(&self) -> (r: bool)
        ensures
            r == self@ is OpenShift,
    {
        match self {
            Line::OpenShift { .. } => true,
            _ => false,
        }
    }
}

/// The views of a list of lines.
pub open spec fn lines_view(lines: Seq<Line>) -> Seq<LineView> {
    lines.map_values(|l: Line| l@)
}

/// Copies a list of lines.
pub fn clone_lines(lines: &Vec<Line>) -> (r: Vec<Line>)
    ensures
        r@ == lines@,
{
    let mut out: Vec<Line> = Vec::new();
    let n = lines.len();
    for i in 0..n
        invariant
            n == lines@.len(),
            out@ == lines@.take(i as int),
    {
        out.push(lines[i].clone());
        assert(lines@.take(i + 1) =~= lines@.take(i as int).push(lines@[i as int]));
    }
    assert(lines@.take(n as int) =~= lines@);
    out
}

/// Index of the first line at or after `i` that is not a shift, or the length.
pub open spec fn end_of_shifts(lines: Seq<LineView>, i: int) -> int
    decreases lines.len() - i,
{
    if 0 <= i < lines.len() && lines[i].is_shift() {
        end_of_shifts(lines, i + 1)
    } else {
        i
    }
}

/// Whether some line is an open shift.
pub open spec fn lines_have_open_shift(lines: Seq<LineView>) -> bool {
    exists|i: int| 0 <= i < lines.len() && (#[trigger] lines[i]) is OpenShift
}

/// The number of open shifts among the lines.
pub open spec fn open_shift_count(lines: Seq<LineView>) -> nat
    decreases lines.len(),
{
    if lines.len() == 0 {
        0
    } else {
        open_shift_count(lines.drop_last()) + if lines.last() is OpenShift {
            1nat
        } else {
            0nat
        }
    }
}

/// The line after closing: an open shift becomes a closed one ending at `stop`.
pub open spec fn closed_line(line: LineView, stop: Time) -> LineView {
    match line {
        LineView::OpenShift { start_time } => LineView::ClosedShift { start_time, stop_time: stop },
        _ => line,
    }
}

/// One day of a week file: its date and the lines under its header.
#[derive(Debug, PartialEq)]
pub struct Day {
    pub date: Date,
    pub lines: Vec<Line>,
}

/// What a `Day` holds.
pub ghost struct DayView {
    pub date: Date,
    pub lines: Seq<LineView>,
}

impl View for Day {
    type V = DayView;

    open spec fn view(&self) -> DayView {
        DayView { date: self.date, lines: lines_view(self.lines@) }
    }
}

impl Clone for Day {
    fn clone(&self) -> (r: Day)
        ensures
            r@ == self@,
    {
        let lines = clone_lines(&self.lines);
        Day { date: self.date, lines }
    }
}

impl DayView {
    pub open spec fn has_open_shift(self) -> bool {
        lines_have_open_shift(self.lines)
    }
}

impl Day {
    /// Whether any line of the day is an open shift.
    pub fn has_open_shift(&self) -> (r: bool)
        ensures
            r == self@.has_open_shift(),
    {
        let n = self.lines.len();
        for i in 0..n
            invariant
                n == self.lines@.len(),
                forall|j: int| 0 <= j < i ==> !(self@.lines[j] is OpenShift),
        {
            if self.lines[i].is_open_shift() {
                assert(self@.lines[i as int] is OpenShift);
                return true;
            }
        }
        false
    }

    /// The day with `line` placed right after the shifts that open its body,
    /// before the first line that is not a shift.
    pub fn adding_shift(&self, line: Line) -> (r: Day)
        ensures
            r.date == self.date,
            ({
                let k = end_of_shifts(self@.lines, 0);
                r@.lines == self@.lines.take(k).push(line@) + self@.lines.skip(k)
            }),
    {
        let ghost view = self@.lines;
        let n = self.lines.len();
        let mut k: usize = 0;
        while k < n && self.lines[k].is_shift()
            invariant
                n == view.len(),
                view == self@.lines,
                k <= n,
                end_of_shifts(view, 0) == end_of_shifts(view, k as int),
            decreases n - k,
        {
            k = k + 1;
        }
        let mut lines: Vec<Line> = Vec::new();
        for i in 0..k
            invariant
                k <= n,
                n == view.len(),
                view == self@.lines,
                lines_view(lines@) == view.take(i as int),
        {
            lines.push(self.lines[i].clone());
            assert(view.take(i + 1) =~= view.take(i as int).push(view[i as int]));
            assert(lines_view(lines@) =~= view.take(i + 1));
        }
        let ghost mid = lines_view(lines@);
        lines.push(line);
        assert(lines_view(lines@) =~= mid.push(line@));
        for i in k..n
            invariant
                k <= n,
                n == view.len(),
                view == self@.lines,
                lines_view(lines@) == view.take(k as int).push(line@) + view.subrange(k as int, i as int),
        {
            let ghost before = lines_view(lines@);
            lines.push(self.lines[i].clone());
            assert(lines_view(lines@) =~= before.push(view[i as int]));
            assert(view.subrange(k as int, i + 1) =~= view.subrange(k as int, i as int).push(view[i as int]));
        }
        assert(view.subrange(k as int, n as int) =~= view.skip(k as int));
        Day { date: self.date, lines }
    }

    /// The day with its one open shift closed at `closing_time`; every other
    /// line stays as it is.
    pub fn closing_shift(&self, closing_time: Time) -> (r: Day)
        requires
            open_shift_count(self@.lines) == 1,
        ensures
            r.date == self.date,
            r@.lines == self@.lines.map_values(|l: LineView| closed_line(l, closing_time)),
    {
        let ghost view = self@.lines;
        let n = self.lines.len();
        let mut lines: Vec<Line> = Vec::new();
        for i in 0..n
            invariant
                n == view.len(),
                view == self@.lines,
                lines_view(lines@) == view.take(i as int).map_values(|l: LineView| closed_line(l, closing_time)),
        {
            let ghost before = lines_view(lines@);
            let line = match &self.lines[i] {
                Line::OpenShift { start_time } => Line::ClosedShift {
                    start_time: *start_time,
                    stop_time: closing_time,
                },
                other => other.clone(),
            };
            lines.push(line);
            assert(lines_view(lines@) =~= before.push(closed_line(view[i as int], closing_time)));
            assert(view.take(i + 1) =~= view.take(i as int).push(view[i as int]));
            assert(view.take(i + 1).map_values(|l: LineView| closed_line(l, closing_time)) =~=
                view.take(i as int).map_values(|l: LineView| closed_line(l, closing_time)).push(closed_line(view[i as int], closing_time)));
        }
        assert(view.take(n as int) =~= view);
        Day { date: self.date, lines }
    }

    /// A day with the given date and lines.
    pub fn create(date: Date, lines: Vec<Line>) -> (r: Day)
        ensures
            r.date == date,
            r.lines@ == lines@,
    {
        Day { date, lines }
    }
}

/// The views of a list of days.
pub open spec fn days_view(days: Seq<Day>) -> Seq<DayView> {
    days.map_values(|d: Day| d@)
}

/// Copies a list of days.
pub fn clone_days(days: &Vec<Day>) -> (r: Vec<Day>)
    ensures
        days_view(r@) == days_view(days@),
{
    let mut out: Vec<Day> = Vec::new();
    let n = days.len();
    for i in 0..n
        invariant
            n == days@.len(),
            days_view(out@) == days_view(days@).take(i as int),
    {
        let ghost before = days_view(out@);
        out.push(days[i].clone());
        assert(days_view(out@) =~= before.push(days[i as int]@));
        assert(days_view(days@).take(i + 1) =~= days_view(days@).take(i as int).push(days[i as int]@));
    }
    assert(days_view(days@).take(n as int) =~= days_view(days@));
    out
}

/// Index of the first day at or after `i` with the given date, or the length.
pub open spec fn find_day(days: Seq<DayView>, date: Date, i: int) -> int
    decreases days.len() - i,
{
    if i < 0 || i >= days.len() {
        days.len() as int
    } else if days[i].date == date {
        i
    } else {
        find_day(days, date, i + 1)
    }
}

/// Whether a day has the given date.
pub open spec fn has_day(days: Seq<DayView>, date: Date) -> bool {
    exists|i: int| 0 <= i < days.len() && (#[trigger] days[i]).date == date
}

/// Whether some day holds an open shift.
pub open spec fn days_have_open_shift(days: Seq<DayView>) -> bool {
    exists|i: int| 0 <= i < days.len() && (#[trigger] days[i]).has_open_shift()
}

/// The days that come strictly before `date`, each kept as it is.
pub open spec fn days_before(days: Seq<DayView>, date: Date) -> Seq<DayView> {
    days.filter(|d: DayView| d.date.spec_before(date))
}

/// The days that come strictly after `date`, each kept as it is.
pub open spec fn days_after(days: Seq<DayView>, date: Date) -> Seq<DayView> {
    days.filter(|d: DayView| date.spec_before(d.date))
}

/// The day with a blank line added at the end of its body.
pub open spec fn with_trailing_blank(day: DayView) -> DayView {
    DayView { date: day.date, lines: day.lines.push(LineView::Blank) }
}

/// A whole week file: the lines before the first day, then the days.
#[derive(Debug, PartialEq)]
pub struct Document {
    pub week: IsoWeek,
    pub preamble: Vec<Line>,
    pub days: Vec<Day>,
}

/// What a `Document` holds.
pub ghost struct DocumentView {
    pub week: IsoWeek,
    pub preamble: Seq<LineView>,
    pub days: Seq<DayView>,
}

impl View for Document {
    type V = DocumentView;

    open spec fn view(&self) -> DocumentView {
        DocumentView {
            week: self.week,
            preamble: lines_view(self.preamble@),
            days: days_view(self.days@),
        }
    }
}

impl Clone for Document {
    fn clone(&self) -> (r: Document)
        ensures
            r@ == self@,
    {
        Document {
            week: self.week,
            preamble: clone_lines(&self.preamble),
            days: clone_days(&self.days),
        }
    }
}

impl DocumentView {
    pub open spec fn has_open_shift(self) -> bool {
        days_have_open_shift(self.days)
    }

    /// The days with the day of `date` swapped for `day`.
    pub open spec fn replacing_day(self, date: Date, day: DayView) -> DocumentView {
        DocumentView {
            week: self.week,
            preamble: self.preamble,
            days: self.days.map_values(|d: DayView| if d.date == date { day } else { d }),
        }
    }

    /// The days before `day`, the last of them given a trailing blank line,
    /// then `day`, then the days after it.
    pub open spec fn inserting_day(self, day: DayView) -> DocumentView {
        let before = days_before(self.days, day.date);
        let after = days_after(self.days, day.date);
        let before = if before.len() > 0 {
            before.update(before.len() - 1, with_trailing_blank(before.last()))
        } else {
            before
        };
        DocumentView { week: self.week, preamble: self.preamble, days: before.push(day) + after }
    }
}

impl Document {
    /// A document of the given parts.
    pub fn new(week: IsoWeek, preamble: Vec<Line>, days: Vec<Day>) -> (r: Document)
        ensures
            r.week == week,
            r.preamble@ == preamble@,
            r.days@ == days@,
    {
        Document { week, preamble, days }
    }

    /// A document of the given week with no lines at all.
    pub fn empty(week: IsoWeek) -> (r: Document)
        ensures
            r@ == (DocumentView { week, preamble: Seq::empty(), days: Seq::empty() }),
    {
        let r = Document::new(week, Vec::new(), Vec::new());
        assert(r@.preamble =~= Seq::empty());
        assert(r@.days =~= Seq::empty());
        r
    }

    /// Whether any day holds an open shift.
    pub fn has_open_shift(&self) -> (r: bool)
        ensures
            r == self@.has_open_shift(),
    {
        let n = self.days.len();
        for i in 0..n
            invariant
                n == self.days@.len(),
                forall|j: int| 0 <= j < i ==> !(#[trigger] self@.days[j]).has_open_shift(),
        {
            if self.days[i].has_open_shift() {
                assert(self@.days[i as int].has_open_shift());
                return true;
            }
        }
        false
    }

    /// The first day with the given date, if there is one.
    pub fn get_day(&self, date: Date) -> (r: Option<&Day>)
        ensures
            match r {
                Some(d) => {
                    let i = find_day(self@.days, date, 0);
                    0 <= i < self@.days.len() && d@ == self@.days[i] && d.date == date
                },
                None => !has_day(self@.days, date),
            },
    {
        let n = self.days.len();
        let mut i: usize = 0;
        while i < n
            invariant
                n == self.days@.len(),
                i <= n,
                find_day(self@.days, date, 0) == find_day(self@.days, date, i as int),
                forall|j: int| 0 <= j < i ==> (#[trigger] self@.days[j]).date != date,
            decreases n - i,
        {
            if self.days[i].date == date {
                return Some(&self.days[i]);
            }
            i = i + 1;
        }
        None
    }

    /// The same document with the day of `date` swapped for `day`; the
    /// same document when no day has that date.
    pub fn replacing_day(&self, date: Date, day: Day) -> (r: Document)
        ensures
            r@ == self@.replacing_day(date, day@),
    {
        let ghost view = self@.days;
        let ghost f = |d: DayView| if d.date == date { day@ } else { d };
        let n = self.days.len();
        let mut days: Vec<Day> = Vec::new();
        for i in 0..n
            invariant
                n == view.len(),
                view == self@.days,
                f == (|d: DayView| if d.date == date { day@ } else { d }),
                days_view(days@) == view.take(i as int).map_values(f),
        {
            let ghost before = days_view(days@);
            let next = if self.days[i].date == date {
                day.clone()
            } else {
                self.days[i].clone()
            };
            days.push(next);
            assert(days_view(days@) =~= before.push(f(view[i as int])));
            assert(view.take(i + 1) =~= view.take(i as int).push(view[i as int]));
            assert(view.take(i + 1).map_values(f) =~= view.take(i as int).map_values(f).push(f(view[i as int])));
        }
        assert(view.take(n as int) =~= view);
        let r = Document { week: self.week, preamble: clone_lines(&self.preamble), days };
        assert(r@.days =~= self@.replacing_day(date, day@).days);
        r
    }

    /// The same document with `day` put in its place by date. Days before
    /// it and after it are kept; the last day before it gets a trailing blank
    /// line; a day of the same date is dropped.
    pub fn inserting_day(&self, day: Day) -> (r: Document)
        ensures
            r@ == self@.inserting_day(day@),
    {
        let ghost view = self@.days;
        let ghost pb = |d: DayView| d.date.spec_before(day.date);
        let ghost pa = |d: DayView| day.date.spec_before(d.date);
        let n = self.days.len();
        let mut before: Vec<Day> = Vec::new();
        let mut after: Vec<Day> = Vec::new();
        for i in 0..n
            invariant
                n == view.len(),
                view == self@.days,
                pb == (|d: DayView| d.date.spec_before(day.date)),
                pa == (|d: DayView| day.date.spec_before(d.date)),
                days_view(before@) == view.take(i as int).filter(pb),
                days_view(after@) == view.take(i as int).filter(pa),
        {
            let ghost b0 = days_view(before@);
            let ghost a0 = days_view(after@);
            assert(view.take(i + 1).drop_last() =~= view.take(i as int));
            reveal(Seq::filter);
            if self.days[i].date.before(&day.date) {
                before.push(self.days[i].clone());
                assert(days_view(before@) =~= b0.push(view[i as int]));
            }
            if day.date.before(&self.days[i].date) {
                after.push(self.days[i].clone());
                assert(days_view(after@) =~= a0.push(view[i as int]));
            }
        }
        assert(view.take(n as int) =~= view);
        let ghost b1 = days_view(before@);
        let count = before.len();
        if count > 0 {
            let mut last = before.pop().unwrap();
            let ghost old_lines = last.lines@;
            last.lines.push(Line::Blank);
            assert(lines_view(last.lines@) =~= lines_view(old_lines).push(LineView::Blank));
            assert(last@ == with_trailing_blank(b1.last()));
            let ghost b_short = days_view(before@);
            assert(b_short =~= b1.drop_last());
            before.push(last);
            assert(days_view(before@) =~= b_short.push(last@));
            assert(days_view(before@) =~= b1.update(b1.len() - 1, with_trailing_blank(b1.last())));
        }
        let ghost b2 = days_view(before@);
        before.push(day);
        assert(days_view(before@) =~= b2.push(day@));
        let ghost b3 = days_view(before@);
        let mut days = before;
        let mut after = after;
        days.append(&mut after);
        assert(days_view(days@) =~= b3 + view.filter(pa));
        let r = Document { week: self.week, preamble: clone_lines(&self.preamble), days };
        r
    }
}

} // verus!
