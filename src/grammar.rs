//! The line grammar of week files and the parser that reads a file into a
//! document.

use vstd::prelude::*;
use crate::calendar::{Date, IsoWeek, Time};
use crate::document::{Day, DayView, Document, DocumentView, Line, LineView, lines_view, days_view};
use crate::text::{
    chars_of, digit_value, digits_end, digits_value, is_digit, is_digit_char, is_letter_char,
    is_lower_char, is_ws_char, letters_end, lowers_end, string_of, ws_end,
};

verus! {

/// The largest hand-entered duration, in minutes, that the grammar reads.
pub const MAX_ENTRY_MINUTES: u64 = 1000000000;

/// The view of an optional line.
pub open spec fn option_view(r: Option<Line>) -> Option<LineView> {
    match r {
        Some(l) => Some(l@),
        None => None,
    }
}

/// Nothing but whitespace from `i` to the end.
pub open spec fn blank_from(s: Seq<char>, i: int) -> bool {
    ws_end(s, i) == s.len()
}

/// `s` opens with a star and a space, as every shift and special line does.
pub open spec fn starts_entry(s: Seq<char>) -> bool {
    s.len() >= 2 && s[0] == '*' && s[1] == ' '
}

/// The value of the two digits at `i`.
pub open spec fn two_digits_at(s: Seq<char>, i: int) -> int {
    digit_value(s[i]) * 10 + digit_value(s[i + 1])
}

/// A valid clock time `HH:MM` stands at `i`.
pub open spec fn time_at(s: Seq<char>, i: int) -> bool {
    &&& 0 <= i
    &&& i + 5 <= s.len()
    &&& is_digit(s[i])
    &&& is_digit(s[i + 1])
    &&& s[i + 2] == ':'
    &&& is_digit(s[i + 3])
    &&& is_digit(s[i + 4])
    &&& two_digits_at(s, i) < 24
    &&& two_digits_at(s, i + 3) < 60
}

/// The clock time written at `i`.
pub open spec fn time_from(s: Seq<char>, i: int) -> Time {
    Time { hour: two_digits_at(s, i) as u32, minute: two_digits_at(s, i + 3) as u32, second: 0 }
}

/// `# <text>`.
pub open spec fn comment_line(s: Seq<char>) -> Option<LineView> {
    if s.len() >= 2 && s[0] == '#' && s[1] == ' ' && (forall|j: int|
        2 <= j < s.len() ==> s[j] != '\n') {
        Some(LineView::Comment { text: s.skip(2) })
    } else {
        None
    }
}

/// The date written as `YYYY-MM-DD` at `i`.
pub open spec fn date_from(s: Seq<char>, i: int) -> Date {
    Date {
        year: digits_value(s, i, i + 4) as i32,
        month: digits_value(s, i + 5, i + 7) as u32,
        day: digits_value(s, i + 8, i + 10) as u32,
    }
}

/// `[<weekday> YYYY-MM-DD]`; the weekday word is read and dropped.
pub open spec fn day_header_line(s: Seq<char>) -> Option<LineView> {
    let e = lowers_end(s, 1);
    let w = ws_end(s, e);
    if {
        &&& s.len() > 0
        &&& s[0] == '['
        &&& e > 1
        &&& w > e
        &&& w + 11 <= s.len()
        &&& (forall|j: int| w <= j < w + 4 ==> is_digit(#[trigger] s[j]))
        &&& s[w + 4] == '-'
        &&& is_digit(s[w + 5])
        &&& is_digit(s[w + 6])
        &&& s[w + 7] == '-'
        &&& is_digit(s[w + 8])
        &&& is_digit(s[w + 9])
        &&& s[w + 10] == ']'
        &&& blank_from(s, w + 11)
        &&& date_from(s, w).wf()
    } {
        Some(LineView::DayHeader { date: date_from(s, w) })
    } else {
        None
    }
}

/// `* HH:MM-`.
pub open spec fn open_shift_line(s: Seq<char>) -> Option<LineView> {
    if starts_entry(s) && time_at(s, 2) && s.len() > 7 && s[7] == '-' && blank_from(s, 8) {
        Some(LineView::OpenShift { start_time: time_from(s, 2) })
    } else {
        None
    }
}

/// `* HH:MM-HH:MM`.
pub open spec fn closed_shift_line(s: Seq<char>) -> Option<LineView> {
    if starts_entry(s) && time_at(s, 2) && s.len() > 7 && s[7] == '-' && time_at(s, 8) && blank_from(
        s,
        13,
    ) {
        Some(LineView::ClosedShift { start_time: time_from(s, 2), stop_time: time_from(s, 8) })
    } else {
        None
    }
}

/// `* <Label> HH:MM-HH:MM`, the label made of ASCII letters.
pub open spec fn special_shift_line(s: Seq<char>) -> Option<LineView> {
    let e = letters_end(s, 2);
    if starts_entry(s) && e > 2 && e < s.len() && s[e] == ' ' && time_at(s, e + 1) && s.len() > e
        + 6 && s[e + 6] == '-' && time_at(s, e + 7) && blank_from(s, e + 12) {
        Some(
            LineView::SpecialShift {
                text: s.subrange(2, e),
                start_time: time_from(s, e + 1),
                stop_time: time_from(s, e + 7),
            },
        )
    } else {
        None
    }
}

/// The seconds of a hand-entered `<hours>h <minutes>m`: the sign of the
/// hours carries over to the minutes, and zero hours make zero.
pub open spec fn entry_seconds(negative: bool, hours: nat, minutes: nat) -> int {
    if hours == 0 {
        0
    } else if negative {
        -((hours * 60 + minutes) * 60)
    } else {
        ((hours * 60 + minutes) * 60) as int
    }
}

/// `* <Label> <±H>h <M>m`, with whitespace allowed around the numbers.
pub open spec fn duration_shift_line(s: Seq<char>) -> Option<LineView> {
    let e = letters_end(s, 2);
    let w = ws_end(s, e);
    let negative = w < s.len() && s[w] == '-';
    let d0 = if negative { w + 1 } else { w };
    let d1 = digits_end(s, d0);
    let h0 = ws_end(s, d1);
    let h1 = ws_end(s, h0 + 1);
    let m1 = digits_end(s, h1);
    let m2 = ws_end(s, m1);
    let hours = digits_value(s, d0, d1);
    let minutes = digits_value(s, h1, m1);
    if {
        &&& starts_entry(s)
        &&& e > 2
        &&& w > e
        &&& d1 > d0
        &&& h0 < s.len()
        &&& s[h0] == 'h'
        &&& h1 > h0 + 1
        &&& m1 > h1
        &&& m2 < s.len()
        &&& s[m2] == 'm'
        &&& blank_from(s, m2 + 1)
        &&& hours * 60 + minutes <= MAX_ENTRY_MINUTES
    } {
        Some(
            LineView::DurationShift {
                text: s.subrange(2, e),
                duration: entry_seconds(negative, hours, minutes),
            },
        )
    } else {
        None
    }
}

/// `* <Label>`.
pub open spec fn special_day_line(s: Seq<char>) -> Option<LineView> {
    let e = letters_end(s, 2);
    if starts_entry(s) && e > 2 && blank_from(s, e) {
        Some(LineView::SpecialDay { text: s.subrange(2, e) })
    } else {
        None
    }
}

/// A line of whitespace only, or an empty line.
pub open spec fn blank_line(s: Seq<char>) -> Option<LineView> {
    if blank_from(s, 0) {
        Some(LineView::Blank)
    } else {
        None
    }
}

/// The first of `a` and `b` that is present.
pub open spec fn or_else(a: Option<LineView>, b: Option<LineView>) -> Option<LineView> {
    if a is Some {
        a
    } else {
        b
    }
}

/// The line that `s` reads as: the patterns are tried in order, and the
/// first that matches decides.
pub open spec fn parse_line_spec(s: Seq<char>) -> Option<LineView> {
    or_else(
        comment_line(s),
        or_else(
            day_header_line(s),
            or_else(
                open_shift_line(s),
                or_else(
                    closed_shift_line(s),
                    or_else(
                        special_shift_line(s),
                        or_else(
                            duration_shift_line(s),
                            or_else(special_day_line(s), blank_line(s)),
                        ),
                    ),
                ),
            ),
        ),
    )
}

fn ws_end_at(v: &Vec<char>, i: usize) -> (r: usize)
    requires
        i <= v@.len(),
    ensures
        r == ws_end(v@, i as int),
        i <= r <= v@.len(),
{
    let n = v.len();
    let mut j = i;
    while j < n && is_ws_char(v[j])
        invariant
            n == v@.len(),
            i <= j <= n,
            ws_end(v@, i as int) == ws_end(v@, j as int),
        decreases n - j,
    {
        j = j + 1;
    }
    j
}

fn digits_end_at(v: &Vec<char>, i: usize) -> (r: usize)
    requires
        i <= v@.len(),
    ensures
        r == digits_end(v@, i as int),
        i <= r <= v@.len(),
{
    let n = v.len();
    let mut j = i;
    while j < n && is_digit_char(v[j])
        invariant
            n == v@.len(),
            i <= j <= n,
            digits_end(v@, i as int) == digits_end(v@, j as int),
        decreases n - j,
    {
        j = j + 1;
    }
    j
}

fn letters_end_at(v: &Vec<char>, i: usize) -> (r: usize)
    requires
        i <= v@.len(),
    ensures
        r == letters_end(v@, i as int),
        i <= r <= v@.len(),
{
    let n = v.len();
    let mut j = i;
    while j < n && is_letter_char(v[j])
        invariant
            n == v@.len(),
            i <= j <= n,
            letters_end(v@, i as int) == letters_end(v@, j as int),
        decreases n - j,
    {
        j = j + 1;
    }
    j
}

fn lowers_end_at(v: &Vec<char>, i: usize) -> (r: usize)
    requires
        i <= v@.len(),
    ensures
        r == lowers_end(v@, i as int),
        i <= r <= v@.len(),
{
    let n = v.len();
    let mut j = i;
    while j < n && is_lower_char(v[j])
        invariant
            n == v@.len(),
            i <= j <= n,
            lowers_end(v@, i as int) == lowers_end(v@, j as int),
        decreases n - j,
    {
        j = j + 1;
    }
    j
}

fn blank_from_at(v: &Vec<char>, i: usize) -> (r: bool)
    requires
        i <= v@.len(),
    ensures
        r == blank_from(v@, i as int),
{
    ws_end_at(v, i) == v.len()
}

proof fn lemma_digits_value_grows(s: Seq<char>, lo: int, i: int, j: int)
    requires
        lo <= i <= j,
        forall|k: int| lo <= k < j ==> is_digit(#[trigger] s[k]),
    ensures
        digits_value(s, lo, i) <= digits_value(s, lo, j),
    decreases j - i,
{
    if i < j {
        lemma_digits_value_grows(s, lo, i, j - 1);
    }
}

proof fn lemma_digits_end_all_digits(s: Seq<char>, i: int, k: int)
    requires
        0 <= i <= k < digits_end(s, i),
    ensures
        is_digit(s[k]),
    decreases k - i,
{
    if i < k {
        lemma_digits_end_all_digits(s, i + 1, k);
    }
}

/// The number written by the digits `v[lo..hi]`, when it is at most `cap`.
fn read_number(v: &Vec<char>, lo: usize, hi: usize, cap: u64) -> (r: Option<u64>)
    requires
        lo <= hi <= v@.len(),
        cap <= 1000000000,
        forall|k: int| lo <= k < hi ==> is_digit(#[trigger] v@[k]),
    ensures
        match r {
            Some(x) => x == digits_value(v@, lo as int, hi as int) && x <= cap,
            None => digits_value(v@, lo as int, hi as int) > cap,
        },
{
    let mut value: u64 = 0;
    let mut i = lo;
    while i < hi
        invariant
            lo <= i <= hi <= v@.len(),
            cap <= 1000000000,
            forall|k: int| lo <= k < hi ==> is_digit(#[trigger] v@[k]),
            value == digits_value(v@, lo as int, i as int),
            value <= cap,
        decreases hi - i,
    {
        let d = (v[i] as u32 - '0' as u32) as u64;
        value = value * 10 + d;
        i = i + 1;
        if value > cap {
            proof {
                lemma_digits_value_grows(v@, lo as int, i as int, hi as int);
            }
            return None;
        }
    }
    Some(value)
}

/// The value of the two digits at `i`.
fn two_digits(v: &Vec<char>, i: usize) -> (r: u32)
    requires
        i + 2 <= v@.len(),
        is_digit(v@[i as int]),
        is_digit(v@[i + 1]),
    ensures
        r == two_digits_at(v@, i as int),
{
    let n = v.len();
    assert(i + 1 < n);
    let j = i + 1;
    let x = v[i];
    let y = v[j];
    assert(is_digit(x) && is_digit(y));
    let a = x as u32 - '0' as u32;
    let b = y as u32 - '0' as u32;
    assert(a <= 9 && b <= 9);
    a * 10 + b
}

/// The valid clock time written at `i`, if there is one.
fn time_at_exec(v: &Vec<char>, i: usize) -> (r: Option<Time>)
    requires
        i <= v@.len(),
    ensures
        r is Some == time_at(v@, i as int),
        r matches Some(t) ==> t == time_from(v@, i as int),
{
    if v.len() < 5 || i > v.len() - 5 {
        return None;
    }
    if !(is_digit_char(v[i]) && is_digit_char(v[i + 1]) && v[i + 2] == ':' && is_digit_char(
        v[i + 3],
    ) && is_digit_char(v[i + 4])) {
        return None;
    }
    let hour = two_digits(v, i);
    let minute = two_digits(v, i + 3);
    if hour < 24 && minute < 60 {
        Some(Time { hour, minute, second: 0 })
    } else {
        None
    }
}

fn starts_entry_exec(v: &Vec<char>) -> (r: bool)
    ensures
        r == starts_entry(v@),
{
    v.len() >= 2 && v[0] == '*' && v[1] == ' '
}

fn parse_comment(v: &Vec<char>) -> (r: Option<Line>)
    ensures
        option_view(r) == comment_line(v@),
{
    let n = v.len();
    if n < 2 || v[0] != '#' || v[1] != ' ' {
        return None;
    }
    for j in 2..n
        invariant
            n == v@.len(),
            forall|k: int| 2 <= k < j ==> v@[k] != '\n',
    {
        if v[j] == '\n' {
            return None;
        }
    }
    let text = string_of(v, 2, n);
    assert(v@.subrange(2, n as int) =~= v@.skip(2));
    Some(Line::Comment { text })
}

fn parse_day_header(v: &Vec<char>) -> (r: Option<Line>)
    ensures
        option_view(r) == day_header_line(v@),
{
    let n = v.len();
    if n == 0 || v[0] != '[' {
        return None;
    }
    let e = lowers_end_at(v, 1);
    let w = ws_end_at(v, e);
    if e <= 1 || w <= e || n < 11 || w > n - 11 {
        return None;
    }
    if !(is_digit_char(v[w]) && is_digit_char(v[w + 1]) && is_digit_char(v[w + 2])
        && is_digit_char(v[w + 3])) {
        assert(!(forall|j: int| w <= j < w + 4 ==> is_digit(#[trigger] v@[j]))) by {
            if !is_digit(v@[w as int]) {
                assert(w <= w < w + 4);
            } else if !is_digit(v@[w + 1]) {
                assert(w <= w + 1 < w + 4);
            } else if !is_digit(v@[w + 2]) {
                assert(w <= w + 2 < w + 4);
            } else {
                assert(w <= w + 3 < w + 4);
            }
        }
        return None;
    }
    if !(v[w + 4] == '-' && is_digit_char(v[w + 5]) && is_digit_char(v[w + 6]) && v[w + 7] == '-'
        && is_digit_char(v[w + 8]) && is_digit_char(v[w + 9]) && v[w + 10] == ']') {
        return None;
    }
    if !blank_from_at(v, w + 11) {
        return None;
    }
    let high = two_digits(v, w);
    let low = two_digits(v, w + 2);
    let year = (high * 100 + low) as i32;
    let month = two_digits(v, w + 5);
    let day = two_digits(v, w + 8);
    proof {
        let s = v@;
        let wi = w as int;
        assert(digits_value(s, wi, wi) == 0);
        assert(digits_value(s, wi, wi + 1) == digit_value(s[wi]));
        assert(digits_value(s, wi, wi + 2) == high);
        assert(digits_value(s, wi, wi + 3) == high * 10 + digit_value(s[wi + 2]));
        assert(digits_value(s, wi, wi + 4) == high * 100 + low);
        assert(digits_value(s, wi + 5, wi + 5) == 0);
        assert(digits_value(s, wi + 5, wi + 6) == digit_value(s[wi + 5]));
        assert(digits_value(s, wi + 5, wi + 7) == month);
        assert(digits_value(s, wi + 8, wi + 8) == 0);
        assert(digits_value(s, wi + 8, wi + 9) == digit_value(s[wi + 8]));
        assert(digits_value(s, wi + 8, wi + 10) == day);
    }
    if !Date::is_valid(year, month, day) {
        return None;
    }
    Some(Line::DayHeader { date: Date { year, month, day } })
}

fn parse_open_shift(v: &Vec<char>) -> (r: Option<Line>)
    ensures
        option_view(r) == open_shift_line(v@),
{
    if !starts_entry_exec(v) {
        return None;
    }
    match time_at_exec(v, 2) {
        Some(start_time) => {
            if v.len() > 7 && v[7] == '-' && blank_from_at(v, 8) {
                Some(Line::OpenShift { start_time })
            } else {
                None
            }
        },
        None => None,
    }
}

fn parse_closed_shift(v: &Vec<char>) -> (r: Option<Line>)
    ensures
        option_view(r) == closed_shift_line(v@),
{
    if !starts_entry_exec(v) {
        return None;
    }
    match time_at_exec(v, 2) {
        Some(start_time) => {
            if v.len() > 7 && v[7] == '-' {
                match time_at_exec(v, 8) {
                    Some(stop_time) => {
                        if blank_from_at(v, 13) {
                            Some(Line::ClosedShift { start_time, stop_time })
                        } else {
                            None
                        }
                    },
                    None => None,
                }
            } else {
                None
            }
        },
        None => None,
    }
}

fn parse_special_shift(v: &Vec<char>) -> (r: Option<Line>)
    ensures
        option_view(r) == special_shift_line(v@),
{
    if !starts_entry_exec(v) {
        return None;
    }
    let n = v.len();
    let e = letters_end_at(v, 2);
    if e <= 2 || e >= n || v[e] != ' ' {
        return None;
    }
    match time_at_exec(v, e + 1) {
        Some(start_time) => {
            if n > e + 6 && v[e + 6] == '-' {
                match time_at_exec(v, e + 7) {
                    Some(stop_time) => {
                        if blank_from_at(v, e + 12) {
                            let text = string_of(v, 2, e);
                            Some(Line::SpecialShift { text, start_time, stop_time })
                        } else {
                            None
                        }
                    },
                    None => None,
                }
            } else {
                None
            }
        },
        None => None,
    }
}

fn parse_duration_shift(v: &Vec<char>) -> (r: Option<Line>)
    ensures
        option_view(r) == duration_shift_line(v@),
{
    if !starts_entry_exec(v) {
        return None;
    }
    let n = v.len();
    let e = letters_end_at(v, 2);
    let w = ws_end_at(v, e);
    if e <= 2 || w <= e {
        return None;
    }
    let negative = w < n && v[w] == '-';
    let d0 = if negative { w + 1 } else { w };
    let d1 = digits_end_at(v, d0);
    if d1 <= d0 {
        return None;
    }
    let h0 = ws_end_at(v, d1);
    if h0 >= n || v[h0] != 'h' {
        return None;
    }
    let h1 = ws_end_at(v, h0 + 1);
    if h1 <= h0 + 1 {
        return None;
    }
    let m1 = digits_end_at(v, h1);
    if m1 <= h1 {
        return None;
    }
    let m2 = ws_end_at(v, m1);
    if m2 >= n || v[m2] != 'm' || !blank_from_at(v, m2 + 1) {
        return None;
    }
    proof {
        assert forall|k: int| d0 <= k < d1 implies is_digit(#[trigger] v@[k]) by {
            lemma_digits_end_all_digits(v@, d0 as int, k);
        }
        assert forall|k: int| h1 <= k < m1 implies is_digit(#[trigger] v@[k]) by {
            lemma_digits_end_all_digits(v@, h1 as int, k);
        }
    }
    let hours = match read_number(v, d0, d1, MAX_ENTRY_MINUTES) {
        Some(x) => x,
        None => {
            return None;
        },
    };
    let minutes = match read_number(v, h1, m1, MAX_ENTRY_MINUTES) {
        Some(x) => x,
        None => {
            return None;
        },
    };
    if hours > MAX_ENTRY_MINUTES / 60 || hours * 60 + minutes > MAX_ENTRY_MINUTES {
        return None;
    }
    let total = ((hours * 60 + minutes) * 60) as i64;
    let duration: i64 = if hours == 0 {
        0
    } else if negative {
        -total
    } else {
        total
    };
    let text = string_of(v, 2, e);
    Some(Line::DurationShift { text, duration })
}

fn parse_special_day(v: &Vec<char>) -> (r: Option<Line>)
    ensures
        option_view(r) == special_day_line(v@),
{
    if !starts_entry_exec(v) {
        return None;
    }
    let e = letters_end_at(v, 2);
    if e > 2 && blank_from_at(v, e) {
        let text = string_of(v, 2, e);
        Some(Line::SpecialDay { text })
    } else {
        None
    }
}

/// The line that the characters `v` read as, if any.
pub fn parse_chars(v: &Vec<char>) -> (r: Option<Line>)
    ensures
        option_view(r) == parse_line_spec(v@),
{
    let r = parse_comment(v);
    if r.is_some() {
        return r;
    }
    let r = parse_day_header(v);
    if r.is_some() {
        return r;
    }
    let r = parse_open_shift(v);
    if r.is_some() {
        return r;
    }
    let r = parse_closed_shift(v);
    if r.is_some() {
        return r;
    }
    let r = parse_special_shift(v);
    if r.is_some() {
        return r;
    }
    let r = parse_duration_shift(v);
    if r.is_some() {
        return r;
    }
    let r = parse_special_day(v);
    if r.is_some() {
        return r;
    }
    if blank_from_at(v, 0) {
        Some(Line::Blank)
    } else {
        None
    }
}

/// The line with a carriage return at its end removed.
pub open spec fn strip_cr(line: Seq<char>) -> Seq<char> {
    if line.len() > 0 && line.last() == '\r' {
        line.drop_last()
    } else {
        line
    }
}

/// The lines of `s` from position `i` on, where the current line began at
/// `start`: lines end at `\n` or `\r\n`, and the final line ending is optional.
pub open spec fn lines_from(s: Seq<char>, start: int, i: int) -> Seq<Seq<char>>
    decreases s.len() - i,
{
    if i >= s.len() {
        if start < s.len() {
            seq![s.subrange(start, s.len() as int)]
        } else {
            Seq::empty()
        }
    } else if s[i] == '\n' {
        seq![strip_cr(s.subrange(start, i))] + lines_from(s, i + 1, i + 1)
    } else {
        lines_from(s, start, i + 1)
    }
}

/// The lines of a text, as std's `str::lines` yields them.
pub open spec fn split_lines(s: Seq<char>) -> Seq<Seq<char>> {
    lines_from(s, 0, 0)
}

/// The views of a list of character vectors.
pub open spec fn rows_view(rows: Seq<Vec<char>>) -> Seq<Seq<char>> {
    rows.map_values(|r: Vec<char>| r@)
}

/// The lines of the characters `v`.
fn split_rows(v: &Vec<char>) -> (r: Vec<Vec<char>>)
    ensures
        rows_view(r@) == split_lines(v@),
{
    let n = v.len();
    let mut rows: Vec<Vec<char>> = Vec::new();
    let mut row: Vec<char> = Vec::new();
    let mut start: usize = 0;
    for i in 0..n
        invariant
            n == v@.len(),
            start <= i,
            row@ == v@.subrange(start as int, i as int),
            rows_view(rows@) + lines_from(v@, start as int, i as int) == split_lines(v@),
    {
        let ghost before = rows_view(rows@);
        if v[i] == '\n' {
            let ghost piece = row@;
            if row.len() > 0 && row[row.len() - 1] == '\r' {
                row.pop();
            }
            assert(row@ == strip_cr(piece));
            rows.push(row);
            assert(rows_view(rows@) =~= before.push(strip_cr(v@.subrange(start as int, i as int))));
            assert(rows_view(rows@) + lines_from(v@, i + 1, i + 1) =~= before + (seq![strip_cr(v@.subrange(start as int, i as int))] + lines_from(v@, i + 1, i + 1)));
            row = Vec::new();
            start = i + 1;
            assert(row@ =~= v@.subrange(start as int, i + 1));
        } else {
            row.push(v[i]);
            assert(row@ =~= v@.subrange(start as int, i + 1));
        }
    }
    if start < n {
        let ghost before = rows_view(rows@);
        rows.push(row);
        assert(rows_view(rows@) =~= before.push(v@.subrange(start as int, n as int)));
        assert(rows_view(rows@) =~= before + lines_from(v@, start as int, n as int));
    } else {
        assert(rows_view(rows@) =~= rows_view(rows@) + lines_from(v@, start as int, n as int));
    }
    rows
}

/// The state of assembling lines into a document: the preamble so far, the
/// finished days, and the day being filled, if a header was seen.
pub ghost struct Assembly {
    pub preamble: Seq<LineView>,
    pub days: Seq<DayView>,
    pub current: Option<DayView>,
}

/// One line taken into the assembly: a header finishes the current day and
/// opens a new one; any other line goes to the current day, or to the
/// preamble before the first header.
pub open spec fn assemble_step(a: Assembly, line: LineView) -> Assembly {
    match line {
        LineView::DayHeader { date } => Assembly {
            preamble: a.preamble,
            days: match a.current {
                Some(d) => a.days.push(d),
                None => a.days,
            },
            current: Some(DayView { date, lines: Seq::empty() }),
        },
        _ => match a.current {
            Some(d) => Assembly {
                preamble: a.preamble,
                days: a.days,
                current: Some(DayView { date: d.date, lines: d.lines.push(line) }),
            },
            None => Assembly { preamble: a.preamble.push(line), days: a.days, current: None },
        },
    }
}

/// The assembly after taking in all of `lines`.
pub open spec fn assemble(lines: Seq<LineView>) -> Assembly
    decreases lines.len(),
{
    if lines.len() == 0 {
        Assembly { preamble: Seq::empty(), days: Seq::empty(), current: None }
    } else {
        assemble_step(assemble(lines.drop_last()), lines.last())
    }
}

/// The document that `lines` make up, the last day finished.
pub open spec fn assembled(week: IsoWeek, lines: Seq<LineView>) -> DocumentView {
    let a = assemble(lines);
    DocumentView {
        week,
        preamble: a.preamble,
        days: match a.current {
            Some(d) => a.days.push(d),
            None => a.days,
        },
    }
}

/// Index of the first line at or after `i` that no pattern matches, or the length.
pub open spec fn first_unreadable(lines: Seq<Seq<char>>, i: int) -> int
    decreases lines.len() - i,
{
    if i < 0 || i >= lines.len() {
        lines.len() as int
    } else if parse_line_spec(lines[i]) is None {
        i
    } else {
        first_unreadable(lines, i + 1)
    }
}

/// The lines as read, each of them readable.
pub open spec fn read_lines(lines: Seq<Seq<char>>) -> Seq<LineView> {
    lines.map_values(|l: Seq<char>| parse_line_spec(l)->0)
}

/// The document that `text` reads as, or the index and text of its first
/// line that no pattern matches.
pub open spec fn parse_document_spec(week: IsoWeek, text: Seq<char>) -> Result<
    DocumentView,
    (int, Seq<char>),
> {
    let lines = split_lines(text);
    let k = first_unreadable(lines, 0);
    if k < lines.len() {
        Err((k, lines[k]))
    } else {
        Ok(assembled(week, read_lines(lines)))
    }
}

/// A line that no pattern matches: its index, counted from zero, and its text.
#[derive(Clone, Debug, PartialEq, Eq)]
pub struct ParseError {
    pub line_number: usize,
    pub text: String,
}

/// Reads lines and week files.
#[derive(Clone, Copy, Debug)]
pub struct Parser {}

impl Parser {
    pub fn new() -> (r: Parser) {
        Parser {  }
    }

    /// The line that `string` reads as, if any pattern matches it.
    pub fn parse_line(&self, string: &str) -> (r: Option<Line>)
        ensures
            option_view(r) == parse_line_spec(string@),
    {
        let v = chars_of(string);
        parse_chars(&v)
    }

    /// The document of the given week that `string` reads as; the first line
    /// that no pattern matches is an error.
    pub fn parse_document(&self, week: IsoWeek, string: &str) -> (r: Result<Document, ParseError>)
        ensures
            match (r, parse_document_spec(week, string@)) {
                (Ok(d), Ok(v)) => d@ == v,
                (Err(e), Err((k, t))) => e.line_number == k && e.text@ == t,
                _ => false,
            },
    {
        let chars = chars_of(string);
        let rows = split_rows(&chars);
        let ghost lines = split_lines(string@);
        let n = rows.len();
        let mut preamble: Vec<Line> = Vec::new();
        let mut days: Vec<Day> = Vec::new();
        let mut current: Option<Day> = None;
        for i in 0..n
            invariant
                n == rows@.len(),
                lines == rows_view(rows@),
                lines == split_lines(string@),
                first_unreadable(lines, 0) == first_unreadable(lines, i as int),
                ({
                    let a = assemble(read_lines(lines).take(i as int));
                    &&& lines_view(preamble@) == a.preamble
                    &&& days_view(days@) == a.days
                    &&& match current {
                        Some(d) => a.current == Some(d@),
                        None => a.current is None,
                    }
                }),
        {
            let ghost a0 = assemble(read_lines(lines).take(i as int));
            assert(rows@[i as int]@ == lines[i as int]);
            let line = match parse_chars(&rows[i]) {
                Some(l) => l,
                None => {
                    let text = string_of(&rows[i], 0, rows[i].len());
                    assert(rows@[i as int]@.subrange(0, rows@[i as int]@.len() as int) =~= lines[i as int]);
                    assert(parse_line_spec(lines[i as int]) is None);
                    assert(first_unreadable(lines, i as int) == i);

                    return Err(ParseError { line_number: i, text });
                },
            };
            assert(read_lines(lines).take(i + 1).drop_last() =~= read_lines(lines).take(i as int));
            assert(read_lines(lines)[i as int] == line@);
            match line {
                Line::DayHeader { date } => {
                    match current {
                        Some(d) => {
                            let ghost dv = d@;
                            days.push(d);
                            assert(days_view(days@) =~= a0.days.push(dv));
                        },
                        None => {},
                    }
                    let fresh = Day { date, lines: Vec::new() };
                    assert(fresh@.lines =~= Seq::empty());
                    current = Some(fresh);
                },
                other => {
                    match current {
                        Some(d) => {
                            let mut d = d;
                            let ghost dv = d@;
                            let ghost lv = other@;
                            d.lines.push(other);
                            assert(d@.lines =~= dv.lines.push(lv));
                            current = Some(d);
                        },
                        None => {
                            let ghost lv = other@;
                            preamble.push(other);
                            assert(lines_view(preamble@) =~= a0.preamble.push(lv));
                            current = None;
                        },
                    }
                },
            }
        }
        assert(read_lines(lines).take(n as int) =~= read_lines(lines));
        match current {
            Some(d) => {
                let ghost before = days_view(days@);
                days.push(d);
                assert(days_view(days@) =~= before.push(d@));
            },
            None => {},
        }
        Ok(Document { week, preamble, days })
    }
}

} // verus!
