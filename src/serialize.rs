//! Writing lines, days and documents back to the text of a week file.

use vstd::prelude::*;
use crate::calendar::{weekday_index, weekday_of, Date, Time};
use crate::document::{Day, DayView, Document, DocumentView, Line, LineView, lines_view};
use crate::text::{decimal, digit_char, push_char, signed_decimal};

verus! {

/// `n` with a leading zero when it has one digit.
pub open spec fn padded2(n: nat) -> Seq<char> {
    if n < 10 {
        seq!['0'] + decimal(n)
    } else {
        decimal(n)
    }
}

/// `n` with leading zeros up to four digits.
pub open spec fn padded4(n: nat) -> Seq<char> {
    if n < 10 {
        seq!['0', '0', '0'] + decimal(n)
    } else if n < 100 {
        seq!['0', '0'] + decimal(n)
    } else if n < 1000 {
        seq!['0'] + decimal(n)
    } else {
        decimal(n)
    }
}

/// `HH:MM`.
pub open spec fn time_text(t: Time) -> Seq<char> {
    padded2(t.hour as nat) + seq![':'] + padded2(t.minute as nat)
}

/// `YYYY-MM-DD`.
pub open spec fn date_text(d: Date) -> Seq<char> {
    padded4(d.year as nat) + seq!['-'] + padded2(d.month as nat) + seq!['-'] + padded2(
        d.day as nat,
    )
}

/// The English name, in lower case, of the weekday of index `i` (Monday is 0).
pub open spec fn weekday_name(i: int) -> Seq<char> {
    if i == 0 {
        seq!['m', 'o', 'n', 'd', 'a', 'y']
    } else if i == 1 {
        seq!['t', 'u', 'e', 's', 'd', 'a', 'y']
    } else if i == 2 {
        seq!['w', 'e', 'd', 'n', 'e', 's', 'd', 'a', 'y']
    } else if i == 3 {
        seq!['t', 'h', 'u', 'r', 's', 'd', 'a', 'y']
    } else if i == 4 {
        seq!['f', 'r', 'i', 'd', 'a', 'y']
    } else if i == 5 {
        seq!['s', 'a', 't', 'u', 'r', 'd', 'a', 'y']
    } else {
        seq!['s', 'u', 'n', 'd', 'a', 'y']
    }
}

/// `[<weekday> YYYY-MM-DD]`, the weekday taken from the calendar.
pub open spec fn header_text(d: Date) -> Seq<char> {
    seq!['['] + weekday_name(weekday_index(d.year as int, d.month as int, d.day as int)) + seq![
        ' ',
    ] + date_text(d) + seq![']']
}

/// The whole hours of a duration in seconds, rounded toward zero.
pub open spec fn entry_hours(seconds: int) -> int {
    if seconds < 0 {
        -((-seconds) / 3600)
    } else {
        seconds / 3600
    }
}

/// The minutes left over after the whole hours, without sign.
pub open spec fn entry_minutes(seconds: int) -> nat {
    let a = if seconds < 0 {
        -seconds
    } else {
        seconds
    };
    ((a / 60) % 60) as nat
}

/// The text of one line.
pub open spec fn line_text(line: LineView) -> Seq<char> {
    match line {
        LineView::Comment { text } => seq!['#', ' '] + text,
        LineView::DayHeader { date } => header_text(date),
        LineView::OpenShift { start_time } => seq!['*', ' '] + time_text(start_time) + seq!['-'],
        LineView::ClosedShift { start_time, stop_time } => seq!['*', ' '] + time_text(start_time)
            + seq!['-'] + time_text(stop_time),
        LineView::DurationShift { text, duration } => seq!['*', ' '] + text + seq![' ']
            + signed_decimal(entry_hours(duration)) + seq!['h', ' '] + decimal(
            entry_minutes(duration),
        ) + seq!['m'],
        LineView::SpecialDay { text } => seq!['*', ' '] + text,
        LineView::SpecialShift { text, start_time, stop_time } => seq!['*', ' '] + text + seq![' ']
            + time_text(start_time) + seq!['-'] + time_text(stop_time),
        LineView::Blank => Seq::empty(),
    }
}

/// A line can be written: a header's date is well formed.
pub open spec fn printable(line: LineView) -> bool {
    line matches LineView::DayHeader { date } ==> date.wf()
}

/// Each line's text followed by a newline.
pub open spec fn lines_text(lines: Seq<LineView>) -> Seq<char>
    decreases lines.len(),
{
    if lines.len() == 0 {
        Seq::empty()
    } else {
        lines_text(lines.drop_last()) + line_text(lines.last()) + seq!['\n']
    }
}

/// The header line of a day, then its lines.
pub open spec fn day_text(day: DayView) -> Seq<char> {
    header_text(day.date) + seq!['\n'] + lines_text(day.lines)
}

/// The texts of the days, one after the other.
pub open spec fn days_text(days: Seq<DayView>) -> Seq<char>
    decreases days.len(),
{
    if days.len() == 0 {
        Seq::empty()
    } else {
        days_text(days.drop_last()) + day_text(days.last())
    }
}

/// The text of a document: its preamble lines, then its days.
pub open spec fn document_text(doc: DocumentView) -> Seq<char> {
    lines_text(doc.preamble) + days_text(doc.days)
}

/// A day can be written: its date and each of its lines.
pub open spec fn day_printable(day: DayView) -> bool {
    day.date.wf() && forall|i: int| 0 <= i < day.lines.len() ==> printable(#[trigger] day.lines[i])
}

/// A document can be written: each line and each day.
pub open spec fn document_printable(doc: DocumentView) -> bool {
    &&& forall|i: int| 0 <= i < doc.preamble.len() ==> printable(#[trigger] doc.preamble[i])
    &&& forall|i: int| 0 <= i < doc.days.len() ==> day_printable(#[trigger] doc.days[i])
}

fn push_chars(s: &mut String, v: &Vec<char>)
    ensures
        final(s)@ == old(s)@ + v@,
{
    let n = v.len();
    for i in 0..n
        invariant
            n == v@.len(),
            s@ == old(s)@ + v@.take(i as int),
    {
        push_char(s, v[i]);
        assert(v@.take(i + 1) =~= v@.take(i as int).push(v@[i as int]));
    }
    assert(v@.take(n as int) =~= v@);
}

fn push_text(s: &mut String, t: &String)
    ensures
        final(s)@ == old(s)@ + t@,
{
    s.append(t.as_str());
}

/// Appends the decimal digits of `n`.
fn push_decimal(s: &mut String, n: u64)
    ensures
        final(s)@ == old(s)@ + decimal(n as nat),
    decreases n,
{
    if n >= 10 {
        push_decimal(s, n / 10);
    }
    push_char(s, (('0' as u8) + ((n % 10) as u8)) as char);
    assert(digit_char((n % 10) as int) == (('0' as u8) + ((n % 10) as u8)) as char);
    if n >= 10 {
        assert(decimal(n as nat) == decimal((n / 10) as nat).push(digit_char((n % 10) as int)));
    } else {
        assert(decimal(n as nat) =~= seq![digit_char(n as int)]);
    }
    assert(final(s)@ =~= old(s)@ + decimal(n as nat));
}

fn push_padded2(s: &mut String, n: u32)
    ensures
        final(s)@ == old(s)@ + padded2(n as nat),
{
    if n < 10 {
        push_char(s, '0');
    }
    push_decimal(s, n as u64);
    assert(final(s)@ =~= old(s)@ + padded2(n as nat));
}

fn push_padded4(s: &mut String, n: u32)
    ensures
        final(s)@ == old(s)@ + padded4(n as nat),
{
    if n < 10 {
        push_char(s, '0');
    }
    if n < 100 {
        push_char(s, '0');
    }
    if n < 1000 {
        push_char(s, '0');
    }
    push_decimal(s, n as u64);
    assert(final(s)@ =~= old(s)@ + padded4(n as nat));
}

fn push_time(s: &mut String, t: &Time)
    ensures
        final(s)@ == old(s)@ + time_text(*t),
{
    push_padded2(s, t.hour);
    push_char(s, ':');
    push_padded2(s, t.minute);
    assert(final(s)@ =~= old(s)@ + time_text(*t));
}

fn push_weekday(s: &mut String, i: u32)
    ensures
        final(s)@ == old(s)@ + weekday_name(i as int),
{
    let name: Vec<char> = if i == 0 {
        vec!['m', 'o', 'n', 'd', 'a', 'y']
    } else if i == 1 {
        vec!['t', 'u', 'e', 's', 'd', 'a', 'y']
    } else if i == 2 {
        vec!['w', 'e', 'd', 'n', 'e', 's', 'd', 'a', 'y']
    } else if i == 3 {
        vec!['t', 'h', 'u', 'r', 's', 'd', 'a', 'y']
    } else if i == 4 {
        vec!['f', 'r', 'i', 'd', 'a', 'y']
    } else if i == 5 {
        vec!['s', 'a', 't', 'u', 'r', 'd', 'a', 'y']
    } else {
        vec!['s', 'u', 'n', 'd', 'a', 'y']
    };
    assert(name@ =~= weekday_name(i as int));
    push_chars(s, &name);
}

fn push_header(s: &mut String, d: &Date)
    requires
        d.wf(),
    ensures
        final(s)@ == old(s)@ + header_text(*d),
{
    push_char(s, '[');
    let w = weekday_of(d);
    push_weekday(s, w);
    push_char(s, ' ');
    push_padded4(s, d.year as u32);
    push_char(s, '-');
    push_padded2(s, d.month);
    push_char(s, '-');
    push_padded2(s, d.day);
    push_char(s, ']');
    assert(final(s)@ =~= old(s)@ + header_text(*d));
}

impl Line {
    /// The text of the line, without a line ending.
    pub fn to_string(&self) -> (r: String)
        requires
            printable(self@),
        ensures
            r@ == line_text(self@),
    {
        let mut s = String::new();
        match self {
            Line::Comment { text } => {
                push_char(&mut s, '#');
                push_char(&mut s, ' ');
                push_text(&mut s, text);
            },
            Line::DayHeader { date } => {
                push_header(&mut s, date);
            },
            Line::OpenShift { start_time } => {
                push_char(&mut s, '*');
                push_char(&mut s, ' ');
                push_time(&mut s, start_time);
                push_char(&mut s, '-');
            },
            Line::ClosedShift { start_time, stop_time } => {
                push_char(&mut s, '*');
                push_char(&mut s, ' ');
                push_time(&mut s, start_time);
                push_char(&mut s, '-');
                push_time(&mut s, stop_time);
            },
            Line::DurationShift { text, duration } => {
                push_char(&mut s, '*');
                push_char(&mut s, ' ');
                push_text(&mut s, text);
                push_char(&mut s, ' ');
                let d = *duration as i128;
                let a: u64 = if d < 0 {
                    (-d) as u64
                } else {
                    d as u64
                };
                let hours = a / 3600;
                let minutes = (a / 60) % 60;
                if d < 0 && hours > 0 {
                    push_char(&mut s, '-');
                }
                push_decimal(&mut s, hours);
                push_char(&mut s, 'h');
                push_char(&mut s, ' ');
                push_decimal(&mut s, minutes);
                push_char(&mut s, 'm');
            },
            Line::SpecialDay { text } => {
                push_char(&mut s, '*');
                push_char(&mut s, ' ');
                push_text(&mut s, text);
            },
            Line::SpecialShift { text, start_time, stop_time } => {
                push_char(&mut s, '*');
                push_char(&mut s, ' ');
                push_text(&mut s, text);
                push_char(&mut s, ' ');
                push_time(&mut s, start_time);
                push_char(&mut s, '-');
                push_time(&mut s, stop_time);
            },
            Line::Blank => {},
        }
        assert(s@ =~= line_text(self@));
        s
    }
}

fn push_lines(s: &mut String, lines: &Vec<Line>)
    requires
        forall|i: int|
            0 <= i < lines_view(lines@).len() ==> printable(#[trigger] lines_view(lines@)[i]),
    ensures
        final(s)@ == old(s)@ + lines_text(lines_view(lines@)),
{
    let ghost view = lines_view(lines@);
    let n = lines.len();
    for i in 0..n
        invariant
            n == lines@.len(),
            view == lines_view(lines@),
            forall|i: int| 0 <= i < view.len() ==> printable(#[trigger] view[i]),
            s@ == old(s)@ + lines_text(view.take(i as int)),
    {
        assert(view[i as int] == lines@[i as int]@);
        let t = lines[i].to_string();
        push_text(s, &t);
        push_char(s, '\n');
        assert(view.take(i + 1).drop_last() =~= view.take(i as int));
        assert(s@ =~= old(s)@ + lines_text(view.take(i + 1)));
    }
    assert(view.take(n as int) =~= view);
}

fn lines_printable(lines: &Vec<Line>) -> (r: bool)
    ensures
        r == forall|i: int|
            0 <= i < lines_view(lines@).len() ==> printable(#[trigger] lines_view(lines@)[i]),
{
    let ghost view = lines_view(lines@);
    let n = lines.len();
    for i in 0..n
        invariant
            n == lines@.len(),
            view == lines_view(lines@),
            forall|j: int| 0 <= j < i ==> printable(#[trigger] view[j]),
    {
        assert(view[i as int] == lines@[i as int]@);
        match &lines[i] {
            Line::DayHeader { date } => {
                if !Date::is_valid(date.year, date.month, date.day) {
                    return false;
                }
            },
            _ => {},
        }
    }
    true
}

impl Day {
    /// Whether the day can be written: its date and the dates of any header
    /// lines in its body are well formed.
    pub fn is_printable(&self) -> (r: bool)
        ensures
            r == day_printable(self@),
    {
        assert(self@.lines == lines_view(self.lines@));
        Date::is_valid(self.date.year, self.date.month, self.date.day) && lines_printable(
            &self.lines,
        )
    }

    /// The text of the day: its header, then each line, each line ending
    /// with a newline.
    pub fn to_string(&self) -> (r: String)
        requires
            day_printable(self@),
        ensures
            r@ == day_text(self@),
    {
        let mut s = String::new();
        push_header(&mut s, &self.date);
        push_char(&mut s, '\n');
        assert(self@.lines == lines_view(self.lines@));
        push_lines(&mut s, &self.lines);
        assert(s@ =~= day_text(self@));
        s
    }
}

impl Document {
    /// Whether the document can be written: every date in it is well formed.
    pub fn is_printable(&self) -> (r: bool)
        ensures
            r == document_printable(self@),
    {
        assert(self@.preamble == lines_view(self.preamble@));
        if !lines_printable(&self.preamble) {
            return false;
        }
        let n = self.days.len();
        for i in 0..n
            invariant
                n == self.days@.len(),
                forall|j: int| 0 <= j < i ==> day_printable(#[trigger] self@.days[j]),
        {
            assert(self@.days[i as int] == self.days@[i as int]@);
            if !self.days[i].is_printable() {
                return false;
            }
        }
        true
    }

    /// The text of the document: the preamble lines, then each day.
    pub fn to_string(&self) -> (r: String)
        requires
            document_printable(self@),
        ensures
            r@ == document_text(self@),
    {
        let mut s = String::new();
        assert(self@.preamble == lines_view(self.preamble@));
        push_lines(&mut s, &self.preamble);
        let ghost view = self@.days;
        let ghost pre = s@;
        let n = self.days.len();
        for i in 0..n
            invariant
                n == self.days@.len(),
                view == self@.days,
                document_printable(self@),
                s@ == pre + days_text(view.take(i as int)),
        {
            assert(view[i as int] == self.days@[i as int]@);
            let t = self.days[i].to_string();
            push_text(&mut s, &t);
            assert(view.take(i + 1).drop_last() =~= view.take(i as int));
            assert(s@ =~= pre + days_text(view.take(i + 1)));
        }
        assert(view.take(n as int) =~= view);
        s
    }
}

} // verus!
