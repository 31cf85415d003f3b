//! The law that ties the serializer to the parser: a document read from a
//! week file is written back to a text that reads as the same document.

use vstd::prelude::*;
use crate::calendar::{Date, IsoWeek, Time};
use crate::document::{DayView, DocumentView, LineView};
use crate::grammar::{
    assemble, assemble_step, assembled, first_unreadable, lines_from, parse_document_spec,
    parse_line_spec, read_lines, split_lines, strip_cr, Assembly,
};
use crate::serialize::{day_text, days_text, document_text, header_text, line_text, lines_text};
use crate::text::{
    decimal, digit_char, digit_value, digits_end, digits_value, is_digit, is_letter, is_lower,
    is_ws, letters_end, lowers_end, ws_end,
};

verus! {

proof fn lemma_decimal(n: nat)
    ensures
        decimal(n).len() >= 1,
        forall|k: int| 0 <= k < decimal(n).len() ==> is_digit(#[trigger] decimal(n)[k]),
        digits_value(decimal(n), 0, decimal(n).len() as int) == n,
    decreases n,
{
    let d = decimal(n);
    if n < 10 {
        assert(digits_value(d, 0, 0) == 0);
    } else {
        lemma_decimal(n / 10);
        let p = decimal(n / 10);
        assert(d == p.push(digit_char((n % 10) as int)));
        lemma_digits_value_prefix(d, p.len() as int);
        assert(d.subrange(0, p.len() as int) =~= p);
    }
}

/// The value of a prefix of digits depends on that prefix alone.
proof fn lemma_digits_value_prefix(s: Seq<char>, hi: int)
    requires
        0 <= hi <= s.len(),
    ensures
        digits_value(s, 0, hi) == digits_value(s.subrange(0, hi), 0, hi),
    decreases hi,
{
    if hi > 0 {
        lemma_digits_value_prefix(s, hi - 1);
        lemma_digits_value_prefix(s.subrange(0, hi), hi - 1);
        assert(s.subrange(0, hi).subrange(0, hi - 1) =~= s.subrange(0, hi - 1));
    }
}

/// The value of digits standing at `lo` in `s` is the value of those digits alone.
proof fn lemma_digits_value_shift(s: Seq<char>, t: Seq<char>, lo: int)
    requires
        0 <= lo,
        lo + t.len() <= s.len(),
        s.subrange(lo, lo + t.len()) == t,
    ensures
        digits_value(s, lo, lo + t.len()) == digits_value(t, 0, t.len() as int),
    decreases t.len(),
{
    if t.len() > 0 {
        let t2 = t.drop_last();
        assert(s.subrange(lo, lo + t2.len()) =~= t2) by {
            assert forall|k: int| 0 <= k < t2.len() implies s.subrange(lo, lo + t2.len())[k] == t2[k] by {
                assert(s.subrange(lo, lo + t.len())[k] == t[k]);
            }
        }
        lemma_digits_value_shift(s, t2, lo);
        lemma_digits_value_prefix(t, t.len() - 1);
        assert(t.subrange(0, t.len() - 1) =~= t2);
        assert(s[lo + t.len() - 1] == t[t.len() - 1]) by {
            assert(s.subrange(lo, lo + t.len())[t.len() - 1] == t[t.len() - 1]);
        }
    }
}

proof fn lemma_digits_end(s: Seq<char>, i: int, j: int)
    requires
        0 <= i <= j <= s.len(),
        forall|k: int| i <= k < j ==> is_digit(#[trigger] s[k]),
        j == s.len() || !is_digit(s[j]),
    ensures
        digits_end(s, i) == j,
    decreases j - i,
{
    if i < j {
        lemma_digits_end(s, i + 1, j);
    }
}

proof fn lemma_letters_end(s: Seq<char>, i: int, j: int)
    requires
        0 <= i <= j <= s.len(),
        forall|k: int| i <= k < j ==> is_letter(#[trigger] s[k]),
        j == s.len() || !is_letter(s[j]),
    ensures
        letters_end(s, i) == j,
    decreases j - i,
{
    if i < j {
        lemma_letters_end(s, i + 1, j);
    }
}

proof fn lemma_lowers_end(s: Seq<char>, i: int, j: int)
    requires
        0 <= i <= j <= s.len(),
        forall|k: int| i <= k < j ==> is_lower(#[trigger] s[k]),
        j == s.len() || !is_lower(s[j]),
    ensures
        lowers_end(s, i) == j,
    decreases j - i,
{
    if i < j {
        lemma_lowers_end(s, i + 1, j);
    }
}

proof fn lemma_ws_end(s: Seq<char>, i: int, j: int)
    requires
        0 <= i <= j <= s.len(),
        forall|k: int| i <= k < j ==> is_ws(#[trigger] s[k]),
        j == s.len() || !is_ws(s[j]),
    ensures
        ws_end(s, i) == j,
    decreases j - i,
{
    if i < j {
        lemma_ws_end(s, i + 1, j);
    }
}

/// Everything in a run found by `letters_end` is a letter.
proof fn lemma_letters_run(s: Seq<char>, i: int, k: int)
    requires
        0 <= i <= k < letters_end(s, i),
    ensures
        is_letter(s[k]),
    decreases k - i,
{
    if i < k {
        lemma_letters_run(s, i + 1, k);
    }
}

proof fn lemma_letters_end_range(s: Seq<char>, i: int)
    requires
        0 <= i <= s.len(),
    ensures
        i <= letters_end(s, i) <= s.len(),
    decreases s.len() - i,
{
    if i < s.len() && is_letter(s[i]) {
        lemma_letters_end_range(s, i + 1);
    }
}

// Splitting the text of a list of lines.

proof fn lemma_lines_from_line(s: Seq<char>, start: int, i: int, j: int)
    requires
        0 <= start <= i <= j < s.len(),
        forall|k: int| i <= k < j ==> s[k] != '\n',
        s[j] == '\n',
    ensures
        lines_from(s, start, i) == seq![strip_cr(s.subrange(start, j))] + lines_from(s, j + 1, j + 1),
    decreases j - i,
{
    if i < j {
        lemma_lines_from_line(s, start, i + 1, j);
    }
}

/// The text of lines `a` then `b` is the text of `a` followed by the text of `b`.
pub proof fn lemma_lines_text_add(a: Seq<LineView>, b: Seq<LineView>)
    ensures
        lines_text(a + b) == lines_text(a) + lines_text(b),
    decreases b.len(),
{
    if b.len() == 0 {
        assert(a + b =~= a);
        assert(lines_text(a) + lines_text(b) =~= lines_text(a));
    } else {
        assert((a + b).drop_last() =~= a + b.drop_last());
        lemma_lines_text_add(a, b.drop_last());
        assert((a + b).last() == b.last());
        assert(lines_text(a + b) =~= lines_text(a) + lines_text(b));
    }
}

/// A line text that splits back as itself: no line feed inside, no carriage
/// return at its end.
pub open spec fn clean_row(t: Seq<char>) -> bool {
    &&& forall|k: int| 0 <= k < t.len() ==> t[k] != '\n'
    &&& !(t.len() > 0 && t.last() == '\r')
}

proof fn lemma_split_from(ls: Seq<LineView>, k: int)
    requires
        0 <= k <= ls.len(),
        forall|j: int| 0 <= j < ls.len() ==> clean_row(#[trigger] line_text(ls[j])),
    ensures
        ({
            let s = lines_text(ls);
            let off = lines_text(ls.take(k)).len() as int;
            lines_from(s, off, off) == ls.skip(k).map_values(|l: LineView| line_text(l))
        }),
    decreases ls.len() - k,
{
    let s = lines_text(ls);
    let off = lines_text(ls.take(k)).len() as int;
    lemma_lines_text_add(ls.take(k), ls.skip(k));
    assert(ls.take(k) + ls.skip(k) =~= ls);
    if k == ls.len() {
        assert(ls.skip(k).map_values(|l: LineView| line_text(l)) =~= Seq::<Seq<char>>::empty());
        assert(lines_text(ls.skip(k)) =~= Seq::<char>::empty()) by {
            assert(ls.skip(k) =~= Seq::<LineView>::empty());
        }
    } else {
        let t = line_text(ls[k]);
        let p = lines_text(ls.take(k));
        assert(ls.take(k + 1).drop_last() =~= ls.take(k));
        assert(ls.take(k + 1).last() == ls[k]);
        let q = lines_text(ls.take(k + 1));
        assert(q == p + t + seq!['\n']);
        lemma_lines_text_add(ls.take(k + 1), ls.skip(k + 1));
        assert(ls.take(k + 1) + ls.skip(k + 1) =~= ls);
        let j = off + t.len();
        assert(s == q + lines_text(ls.skip(k + 1)));
        assert forall|m: int| off <= m < j implies s[m] != '\n' by {
            assert(s[m] == t[m - off]);
        }
        assert(s[j] == '\n');
        lemma_lines_from_line(s, off, off, j);
        assert(s.subrange(off, j) =~= t);
        assert(strip_cr(t) == t);
        lemma_split_from(ls, k + 1);
        assert(ls.skip(k).map_values(|l: LineView| line_text(l)) =~= seq![t] + ls.skip(k + 1).map_values(|l: LineView| line_text(l)));
    }
}

/// The text of clean lines splits back into their texts.
pub proof fn lemma_split_lines_text(ls: Seq<LineView>)
    requires
        forall|j: int| 0 <= j < ls.len() ==> clean_row(#[trigger] line_text(ls[j])),
    ensures
        split_lines(lines_text(ls)) == ls.map_values(|l: LineView| line_text(l)),
{
    lemma_split_from(ls, 0);
    assert(ls.take(0) =~= Seq::<LineView>::empty());
    assert(ls.skip(0) =~= ls);
}

// Assembling the lines of a document.

/// The lines of a day, its header first.
pub open spec fn day_lines(d: DayView) -> Seq<LineView> {
    seq![LineView::DayHeader { date: d.date }] + d.lines
}

/// The lines of the days, one day after the other.
pub open spec fn days_lines(days: Seq<DayView>) -> Seq<LineView>
    decreases days.len(),
{
    if days.len() == 0 {
        Seq::empty()
    } else {
        days_lines(days.drop_last()) + day_lines(days.last())
    }
}

/// The lines of a document as they stand in its text.
pub open spec fn doc_lines(doc: DocumentView) -> Seq<LineView> {
    doc.preamble + days_lines(doc.days)
}

proof fn lemma_days_text(days: Seq<DayView>)
    ensures
        lines_text(days_lines(days)) == days_text(days),
    decreases days.len(),
{
    if days.len() > 0 {
        let d = days.last();
        lemma_days_text(days.drop_last());
        lemma_lines_text_add(days_lines(days.drop_last()), day_lines(d));
        let h = seq![LineView::DayHeader { date: d.date }];
        lemma_lines_text_add(h, d.lines);
        assert(h.drop_last() =~= Seq::<LineView>::empty());
        assert(lines_text(Seq::<LineView>::empty()) =~= Seq::<char>::empty());
        assert(h.last() == LineView::DayHeader { date: d.date });
        assert(lines_text(h) =~= header_text(d.date) + seq!['\n']);
        assert(lines_text(day_lines(d)) =~= day_text(d));
    } else {
        assert(lines_text(Seq::<LineView>::empty()) =~= Seq::<char>::empty());
    }
}

/// The text of a document is the text of its lines.
pub proof fn lemma_document_text(doc: DocumentView)
    ensures
        document_text(doc) == lines_text(doc_lines(doc)),
{
    lemma_days_text(doc.days);
    lemma_lines_text_add(doc.preamble, days_lines(doc.days));
}

/// The assembly after taking in `b` from the state `st`.
pub open spec fn assemble_from(st: Assembly, b: Seq<LineView>) -> Assembly
    decreases b.len(),
{
    if b.len() == 0 {
        st
    } else {
        assemble_step(assemble_from(st, b.drop_last()), b.last())
    }
}

proof fn lemma_assemble_add(a: Seq<LineView>, b: Seq<LineView>)
    ensures
        assemble(a + b) == assemble_from(assemble(a), b),
    decreases b.len(),
{
    if b.len() == 0 {
        assert(a + b =~= a);
    } else {
        assert((a + b).drop_last() =~= a + b.drop_last());
        assert((a + b).last() == b.last());
        lemma_assemble_add(a, b.drop_last());
    }
}

/// No line is a day header.
pub open spec fn no_headers(b: Seq<LineView>) -> bool {
    forall|i: int| 0 <= i < b.len() ==> !((#[trigger] b[i]) is DayHeader)
}

proof fn lemma_assemble_plain(st: Assembly, b: Seq<LineView>)
    requires
        no_headers(b),
    ensures
        assemble_from(st, b) == match st.current {
            Some(d) => Assembly {
                preamble: st.preamble,
                days: st.days,
                current: Some(DayView { date: d.date, lines: d.lines + b }),
            },
            None => Assembly { preamble: st.preamble + b, days: st.days, current: None },
        },
    decreases b.len(),
{
    if b.len() == 0 {
        assert(st.preamble + b =~= st.preamble);
        match st.current {
            Some(d) => {
                assert(d.lines + b =~= d.lines);
            },
            None => {},
        }
    } else {
        lemma_assemble_plain(st, b.drop_last());
        assert(!(b.last() is DayHeader)) by {
            assert(b.last() == b[b.len() - 1]);
        }
        match st.current {
            Some(d) => {
                assert((d.lines + b.drop_last()).push(b.last()) =~= d.lines + b);
            },
            None => {
                assert((st.preamble + b.drop_last()).push(b.last()) =~= st.preamble + b);
            },
        }
    }
}

proof fn lemma_assemble_days(pre: Seq<LineView>, days: Seq<DayView>)
    requires
        no_headers(pre),
        forall|i: int| 0 <= i < days.len() ==> no_headers(#[trigger] days[i].lines),
    ensures
        assemble(pre + days_lines(days)) == (if days.len() == 0 {
            Assembly { preamble: pre, days: Seq::empty(), current: None }
        } else {
            Assembly { preamble: pre, days: days.drop_last(), current: Some(days.last()) }
        }),
    decreases days.len(),
{
    if days.len() == 0 {
        assert(pre + days_lines(days) =~= pre);
        let st0 = Assembly { preamble: Seq::empty(), days: Seq::empty(), current: None };
        lemma_assemble_add(Seq::empty(), pre);
        assert(Seq::<LineView>::empty() + pre =~= pre);
        assert(assemble(Seq::<LineView>::empty()) == st0);
        lemma_assemble_plain(st0, pre);
        assert(Seq::<LineView>::empty() + pre =~= pre);
        assert(assemble(pre) == Assembly { preamble: pre, days: Seq::<DayView>::empty(), current: None });
    } else {
        let dl = days.drop_last();
        let d = days.last();
        assert forall|i: int| 0 <= i < dl.len() implies no_headers(#[trigger] dl[i].lines) by {
            assert(dl[i] == days[i]);
        }
        assert(no_headers(d.lines)) by {
            assert(d == days[days.len() - 1]);
        }
        lemma_assemble_days(pre, dl);
        let x = pre + days_lines(dl);
        let h = LineView::DayHeader { date: d.date };
        assert(pre + days_lines(days) =~= x.push(h) + d.lines);
        lemma_assemble_add(x.push(h), d.lines);
        assert(x.push(h).drop_last() =~= x);
        let st1 = assemble(x.push(h));
        lemma_assemble_plain(st1, d.lines);
        assert(Seq::<LineView>::empty() + d.lines =~= d.lines);
        assert(DayView { date: d.date, lines: Seq::<LineView>::empty() + d.lines } == d);
        if dl.len() > 0 {
            assert(dl.drop_last().push(dl.last()) =~= dl);
            assert(st1 == Assembly { preamble: pre, days: dl, current: Some(DayView { date: d.date, lines: Seq::empty() }) });
        } else {
            assert(st1 == Assembly { preamble: pre, days: dl, current: Some(DayView { date: d.date, lines: Seq::empty() }) }) by {
                assert(dl =~= Seq::<DayView>::empty());
            }
        }
        assert(assemble(pre + days_lines(days)) == Assembly { preamble: pre, days: dl, current: Some(d) });
    }
}

/// The lines of a document assemble back into it.
pub proof fn lemma_assembled_doc_lines(doc: DocumentView)
    requires
        no_headers(doc.preamble),
        forall|i: int| 0 <= i < doc.days.len() ==> no_headers(#[trigger] doc.days[i].lines),
    ensures
        assembled(doc.week, doc_lines(doc)) == doc,
{
    lemma_assemble_days(doc.preamble, doc.days);
    if doc.days.len() > 0 {
        assert(doc.days.drop_last().push(doc.days.last()) =~= doc.days);
    } else {
        assert(doc.days =~= Seq::<DayView>::empty());
    }
    assert(assembled(doc.week, doc_lines(doc)).days =~= doc.days);
}

// Reading back the text of one line.

proof fn lemma_read_special_shift(text: Seq<char>, a: Time, b: Time)
    requires
        is_label(text),
        clock_time(a),
        clock_time(b),
    ensures
        parse_line_spec(line_text(LineView::SpecialShift { text, start_time: a, stop_time: b }))
            == Some(LineView::SpecialShift { text, start_time: a, stop_time: b }),
        clean_row(line_text(LineView::SpecialShift { text, start_time: a, stop_time: b })),
{
    let s = line_text(LineView::SpecialShift { text, start_time: a, stop_time: b });
    let ta = crate::serialize::time_text(a);
    let tb = crate::serialize::time_text(b);
    lemma_padded2(a.hour as nat);
    lemma_padded2(a.minute as nat);
    lemma_padded2(b.hour as nat);
    lemma_padded2(b.minute as nat);
    let n = text.len() as int;
    let e = 2 + n;
    assert(s.len() == e + 12);
    assert forall|k: int| 2 <= k < e implies is_letter(#[trigger] s[k]) by {
        assert(s[k] == text[k - 2]);
    }
    assert(s[e] == ' ');
    lemma_letters_end(s, 2, e);
    assert(s[2] == text[0]);
    assert(s.subrange(e + 1, e + 6) =~= ta);
    assert(s.subrange(e + 7, e + 12) =~= tb);
    lemma_time_at(s, e + 1, a);
    lemma_time_at(s, e + 7, b);
    assert(ws_end(s, e + 12) == e + 12);
    assert(s.subrange(2, e) =~= text);
    assert forall|k: int| 0 <= k < s.len() implies s[k] != '\n' by {
        if 2 <= k < e {
            assert(s[k] == text[k - 2]);
        } else if e + 1 <= k < e + 6 {
            assert(s[k] == ta[k - e - 1]);
        } else if e + 7 <= k < e + 12 {
            assert(s[k] == tb[k - e - 7]);
        }
    }
    assert(s.last() == tb[4]);
}

proof fn lemma_entry_arith(d: int)
    requires
        entry_shape(d),
    ensures
        ({
            let a = if d < 0 { -d } else { d };
            let h = a / 3600;
            let m = (a / 60) % 60;
            &&& h >= 0 && m >= 0
            &&& h * 60 + m == a / 60
            &&& h * 60 + m <= crate::grammar::MAX_ENTRY_MINUTES
            &&& crate::grammar::entry_seconds(d < 0 && h > 0, h as nat, m as nat) == d
            &&& crate::serialize::entry_hours(d) == if d < 0 { -h } else { h }
            &&& crate::serialize::entry_minutes(d) == m
        }),
{
    let a = if d < 0 { -d } else { d };
    let h = a / 3600;
    let m = (a / 60) % 60;
    assert(a % 60 == 0);
    assert(a / 3600 == (a / 60) / 60) by (nonlinear_arith)
        requires a >= 0;
    assert((a / 60) == ((a / 60) / 60) * 60 + (a / 60) % 60) by (nonlinear_arith)
        requires a >= 0;
    assert((a / 60) * 60 == a) by (nonlinear_arith)
        requires a >= 0, a % 60 == 0;
    assert(a / 60 <= crate::grammar::MAX_ENTRY_MINUTES) by (nonlinear_arith)
        requires 0 <= a <= 1000000000 * 60;
    if h == 0 {
        assert(a < 3600) by (nonlinear_arith)
            requires a >= 0, a / 3600 == 0;
    }
}

/// Where the parts of a duration line's text stand.
#[verifier::rlimit(80)]
proof fn lemma_duration_layout(text: Seq<char>, d: int)
    requires
        is_label(text),
        entry_shape(d),
    ensures
        ({
            let s = line_text(LineView::DurationShift { text, duration: d });
            let a = if d < 0 { -d } else { d };
            let h = a / 3600;
            let m = (a / 60) % 60;
            let negative = d < 0 && h > 0;
            let e = 2 + text.len() as int;
            let w = e + 1;
            let d0 = if negative { w + 1 } else { w };
            let d1 = digits_end(s, d0);
            let h1 = d1 + 2;
            let m1 = digits_end(s, h1);
            &&& letters_end(s, 2) == e
            &&& s.subrange(2, e) == text
            &&& ws_end(s, e) == w
            &&& (w < s.len() && s[w] == '-') == negative
            &&& d1 > d0
            &&& ws_end(s, d1) == d1
            &&& d1 < s.len() && s[d1] == 'h'
            &&& ws_end(s, d1 + 1) == h1
            &&& m1 > h1
            &&& ws_end(s, m1) == m1
            &&& m1 < s.len() && s[m1] == 'm'
            &&& ws_end(s, m1 + 1) == s.len()
            &&& digits_value(s, d0, d1) == h
            &&& digits_value(s, h1, m1) == m
            &&& !crate::grammar::time_at(s, e + 1)
            &&& clean_row(s)
            &&& s.len() > 2 && s[0] == '*' && s[1] == ' ' && is_letter(s[2])
        }),
{
    lemma_entry_arith(d);
    let s = line_text(LineView::DurationShift { text, duration: d });
    let a = if d < 0 { -d } else { d };
    let h = a / 3600;
    let m = (a / 60) % 60;
    let negative = d < 0 && h > 0;
    let hd = decimal(h as nat);
    let md = decimal(m as nat);
    lemma_decimal(h as nat);
    lemma_decimal(m as nat);
    let sd = crate::text::signed_decimal(crate::serialize::entry_hours(d));
    assert(sd == if negative { seq!['-'] + hd } else { hd });
    let n = text.len() as int;
    let e = 2 + n;
    let w = e + 1;
    let d0 = if negative { w + 1 } else { w };
    let d1 = d0 + hd.len();
    let h1 = d1 + 2;
    let m1 = h1 + md.len();
    assert(s =~= seq!['*', ' '] + text + seq![' '] + sd + seq!['h', ' '] + md + seq!['m']);
    assert(s.len() == m1 + 1);
    assert forall|k: int| 2 <= k < e implies is_letter(#[trigger] s[k]) by {
        assert(s[k] == text[k - 2]);
    }
    assert(s[e] == ' ');
    lemma_letters_end(s, 2, e);
    assert(s[2] == text[0]);
    assert forall|k: int| d0 <= k < d1 implies is_digit(#[trigger] s[k]) by {
        assert(s[k] == hd[k - d0]);
    }
    assert(s[d1] == 'h');
    assert(s[d1 + 1] == ' ');
    assert(s[m1] == 'm');
    assert forall|k: int| h1 <= k < m1 implies is_digit(#[trigger] s[k]) by {
        assert(s[k] == md[k - h1]);
    }
    assert(s[w] == sd[0]);
    assert(s[d0] == hd[0]);
    assert(s[h1] == md[0]);
    lemma_ws_end(s, e, w);
    lemma_digits_end(s, d0, d1);
    lemma_ws_end(s, d1, d1);
    lemma_ws_end(s, d1 + 1, h1);
    lemma_digits_end(s, h1, m1);
    lemma_ws_end(s, m1, m1);
    lemma_ws_end(s, m1 + 1, m1 + 1);
    assert(s.subrange(d0, d1) =~= hd);
    assert(s.subrange(h1, m1) =~= md);
    lemma_digits_value_shift(s, hd, d0);
    lemma_digits_value_shift(s, md, h1);
    assert(s.subrange(2, e) =~= text);
    assert(!crate::grammar::time_at(s, e + 1)) by {
        if negative {
            assert(s[e + 1] == '-');
        } else if hd.len() == 1 {
            assert(s[e + 2] == 'h');
        } else if hd.len() == 2 {
            assert(s[e + 3] == 'h');
        } else {
            assert(s[e + 3] == hd[2]);
        }
    }
    assert forall|k: int| 0 <= k < s.len() implies s[k] != '\n' by {
        if 2 <= k < e {
            assert(s[k] == text[k - 2]);
        } else if d0 <= k < d1 {
            assert(s[k] == hd[k - d0]);
        } else if h1 <= k < m1 {
            assert(s[k] == md[k - h1]);
        }
    }
}

proof fn lemma_read_duration(text: Seq<char>, d: int)
    requires
        is_label(text),
        entry_shape(d),
    ensures
        parse_line_spec(line_text(LineView::DurationShift { text, duration: d })) == Some(
            LineView::DurationShift { text, duration: d },
        ),
        clean_row(line_text(LineView::DurationShift { text, duration: d })),
{
    lemma_entry_arith(d);
    lemma_duration_layout(text, d);
    let s = line_text(LineView::DurationShift { text, duration: d });
    assert(crate::grammar::comment_line(s) is None);
    assert(crate::grammar::day_header_line(s) is None);
    assert(crate::grammar::open_shift_line(s) is None);
    assert(crate::grammar::closed_shift_line(s) is None);
    assert(crate::grammar::special_shift_line(s) is None);
    assert(crate::grammar::duration_shift_line(s) == Some(LineView::DurationShift { text, duration: d }));
}


/// A clock time as week files write it: whole minutes.
pub open spec fn clock_time(t: Time) -> bool {
    t.hour < 24 && t.minute < 60 && t.second == 0
}

/// A label: one or more ASCII letters.
pub open spec fn is_label(t: Seq<char>) -> bool {
    t.len() > 0 && forall|k: int| 0 <= k < t.len() ==> is_letter(#[trigger] t[k])
}

/// A duration that the grammar can yield: whole minutes, no hours only when
/// zero, within the largest entry.
pub open spec fn entry_shape(d: int) -> bool {
    &&& d % 60 == 0
    &&& d == 0 || d >= 3600 || d <= -3600
    &&& -(crate::grammar::MAX_ENTRY_MINUTES as int) * 60 <= d <= (crate::grammar::MAX_ENTRY_MINUTES as int) * 60
}

/// A line of a day or of the preamble whose text reads back as itself.
pub open spec fn readable(l: LineView) -> bool {
    match l {
        LineView::Comment { text } => clean_row(text),
        LineView::DayHeader { .. } => false,
        LineView::OpenShift { start_time } => clock_time(start_time),
        LineView::ClosedShift { start_time, stop_time } => clock_time(start_time) && clock_time(
            stop_time,
        ),
        LineView::DurationShift { text, duration } => is_label(text) && entry_shape(duration),
        LineView::SpecialDay { text } => is_label(text),
        LineView::SpecialShift { text, start_time, stop_time } => is_label(text) && clock_time(
            start_time,
        ) && clock_time(stop_time),
        LineView::Blank => true,
    }
}

proof fn lemma_padded2(n: nat)
    requires
        n < 100,
    ensures
        crate::serialize::padded2(n) == seq![digit_char((n / 10) as int), digit_char((n % 10) as int)],
        is_digit(digit_char((n / 10) as int)),
        is_digit(digit_char((n % 10) as int)),
        digit_value(digit_char((n / 10) as int)) == n / 10,
        digit_value(digit_char((n % 10) as int)) == n % 10,
{
    if n < 10 {
        assert(crate::serialize::padded2(n) =~= seq!['0', digit_char(n as int)]);
    } else {
        assert(decimal(n / 10) == seq![digit_char((n / 10) as int)]);
        assert(decimal(n) =~= seq![digit_char((n / 10) as int), digit_char((n % 10) as int)]);
    }
}

/// A clock time written at `i` reads back as itself.
proof fn lemma_time_at(s: Seq<char>, i: int, t: Time)
    requires
        clock_time(t),
        0 <= i,
        i + 5 <= s.len(),
        s.subrange(i, i + 5) == crate::serialize::time_text(t),
    ensures
        crate::grammar::time_at(s, i),
        crate::grammar::time_from(s, i) == t,
{
    lemma_padded2(t.hour as nat);
    lemma_padded2(t.minute as nat);
    let tt = crate::serialize::time_text(t);
    assert(tt.len() == 5);
    assert forall|k: int| 0 <= k < 5 implies s[i + k] == tt[k] by {
        assert(s.subrange(i, i + 5)[k] == tt[k]);
    }
    assert(s[i] == tt[0] && s[i + 1] == tt[1] && s[i + 2] == tt[2] && s[i + 3] == tt[3] && s[i + 4] == tt[4]);
}

proof fn lemma_read_blank()
    ensures
        parse_line_spec(line_text(LineView::Blank)) == Some(LineView::Blank),
        clean_row(line_text(LineView::Blank)),
{
    let s = line_text(LineView::Blank);
    assert(s.len() == 0);
    assert(ws_end(s, 0) == 0);
}

proof fn lemma_read_comment(text: Seq<char>)
    requires
        clean_row(text),
    ensures
        parse_line_spec(line_text(LineView::Comment { text })) == Some(LineView::Comment { text }),
        clean_row(line_text(LineView::Comment { text })),
{
    let s = line_text(LineView::Comment { text });
    assert(s.skip(2) =~= text);
    assert forall|j: int| 2 <= j < s.len() implies s[j] != '\n' by {
        assert(s[j] == text[j - 2]);
    }
    if text.len() > 0 {
        assert(s.last() == text.last());
    }
}

proof fn lemma_read_open(t: Time)
    requires
        clock_time(t),
    ensures
        parse_line_spec(line_text(LineView::OpenShift { start_time: t })) == Some(
            LineView::OpenShift { start_time: t },
        ),
        clean_row(line_text(LineView::OpenShift { start_time: t })),
{
    let s = line_text(LineView::OpenShift { start_time: t });
    let tt = crate::serialize::time_text(t);
    lemma_padded2(t.hour as nat);
    lemma_padded2(t.minute as nat);
    assert(s.len() == 8);
    assert(s.subrange(2, 7) =~= tt);
    lemma_time_at(s, 2, t);
    assert(ws_end(s, 8) == 8);
    assert forall|k: int| 0 <= k < s.len() implies s[k] != '\n' by {
        if 2 <= k < 7 {
            assert(s[k] == tt[k - 2]);
        }
    }
}

proof fn lemma_read_closed(a: Time, b: Time)
    requires
        clock_time(a),
        clock_time(b),
    ensures
        parse_line_spec(line_text(LineView::ClosedShift { start_time: a, stop_time: b })) == Some(
            LineView::ClosedShift { start_time: a, stop_time: b },
        ),
        clean_row(line_text(LineView::ClosedShift { start_time: a, stop_time: b })),
{
    let s = line_text(LineView::ClosedShift { start_time: a, stop_time: b });
    let ta = crate::serialize::time_text(a);
    let tb = crate::serialize::time_text(b);
    lemma_padded2(a.hour as nat);
    lemma_padded2(a.minute as nat);
    lemma_padded2(b.hour as nat);
    lemma_padded2(b.minute as nat);
    assert(s.len() == 13);
    assert(s.subrange(2, 7) =~= ta);
    assert(s.subrange(8, 13) =~= tb);
    lemma_time_at(s, 2, a);
    lemma_time_at(s, 8, b);
    assert(s[8] == tb[0]);
    assert(ws_end(s, 8) == 8);
    assert(ws_end(s, 13) == 13);
    assert forall|k: int| 0 <= k < s.len() implies s[k] != '\n' by {
        if 2 <= k < 7 {
            assert(s[k] == ta[k - 2]);
        } else if 8 <= k < 13 {
            assert(s[k] == tb[k - 8]);
        }
    }
    assert(s.last() == tb[4]);
}

proof fn lemma_read_special_day(text: Seq<char>)
    requires
        is_label(text),
    ensures
        parse_line_spec(line_text(LineView::SpecialDay { text })) == Some(
            LineView::SpecialDay { text },
        ),
        clean_row(line_text(LineView::SpecialDay { text })),
{
    let s = line_text(LineView::SpecialDay { text });
    assert forall|k: int| 2 <= k < s.len() implies is_letter(#[trigger] s[k]) by {
        assert(s[k] == text[k - 2]);
    }
    lemma_letters_end(s, 2, s.len() as int);
    assert(s[2] == text[0]);
    assert(ws_end(s, s.len() as int) == s.len());
    assert(s.subrange(2, s.len() as int) =~= text);
    assert(s.last() == text.last());
    assert forall|k: int| 0 <= k < s.len() implies s[k] != '\n' by {
        if 2 <= k {
            assert(s[k] == text[k - 2]);
        }
    }
}

proof fn lemma_padded4(n: nat)
    requires
        n < 10000,
    ensures
        crate::serialize::padded4(n) == seq![
            digit_char((n / 1000) as int),
            digit_char(((n / 100) % 10) as int),
            digit_char(((n / 10) % 10) as int),
            digit_char((n % 10) as int),
        ],
        digits_value(crate::serialize::padded4(n), 0, 4) == n,
        forall|k: int| 0 <= k < 4 ==> is_digit(#[trigger] crate::serialize::padded4(n)[k]),
{
    let a = n / 1000;
    let b = (n / 100) % 10;
    let c = (n / 10) % 10;
    let d = n % 10;
    assert(n / 10 / 10 == n / 100) by (nonlinear_arith)
        requires n >= 0;
    assert(n / 100 / 10 == n / 1000) by (nonlinear_arith)
        requires n >= 0;
    assert(((a * 10 + b) * 10 + c) * 10 + d == n) by (nonlinear_arith)
        requires a == n / 1000, b == (n / 100) % 10, c == (n / 10) % 10, d == n % 10, n >= 0;
    let p = crate::serialize::padded4(n);
    if n < 10 {
        assert(p =~= seq!['0', '0', '0', digit_char(n as int)]);
    } else if n < 100 {
        assert(decimal(n / 10) == seq![digit_char((n / 10) as int)]);
        assert(p =~= seq!['0', '0', digit_char((n / 10) as int), digit_char(d as int)]);
    } else if n < 1000 {
        assert(decimal(n / 100) == seq![digit_char((n / 100) as int)]);
        assert(decimal(n / 10) =~= seq![digit_char((n / 100) as int), digit_char(c as int)]);
        assert(p =~= seq!['0', digit_char((n / 100) as int), digit_char(c as int), digit_char(d as int)]);
    } else {
        assert(decimal(n / 1000) == seq![digit_char(a as int)]);
        assert(decimal(n / 100) =~= seq![digit_char(a as int), digit_char(b as int)]);
        assert(decimal(n / 10) =~= seq![digit_char(a as int), digit_char(b as int), digit_char(c as int)]);
    }
    assert(p =~= seq![digit_char(a as int), digit_char(b as int), digit_char(c as int), digit_char(d as int)]);
    assert(digits_value(p, 0, 0) == 0);
    assert(digits_value(p, 0, 1) == a);
    assert(digits_value(p, 0, 2) == a * 10 + b);
    assert(digits_value(p, 0, 3) == (a * 10 + b) * 10 + c);
}

/// Every weekday name is a run of lowercase letters.
proof fn lemma_weekday_name(i: int)
    ensures
        crate::serialize::weekday_name(i).len() >= 6,
        forall|k: int|
            0 <= k < crate::serialize::weekday_name(i).len() ==> is_lower(
                #[trigger] crate::serialize::weekday_name(i)[k],
            ),
{
}

proof fn lemma_header_layout(date: Date)
    requires
        date.wf(),
    ensures
        ({
            let s = header_text(date);
            let w = lowers_end(s, 1) + 1;
            &&& lowers_end(s, 1) > 1
            &&& ws_end(s, lowers_end(s, 1)) == w
            &&& w + 11 == s.len()
            &&& forall|j: int| w <= j < w + 4 ==> is_digit(#[trigger] s[j])
            &&& s[w + 4] == '-'
            &&& is_digit(s[w + 5])
            &&& is_digit(s[w + 6])
            &&& s[w + 7] == '-'
            &&& is_digit(s[w + 8])
            &&& is_digit(s[w + 9])
            &&& s[w + 10] == ']'
            &&& crate::grammar::date_from(s, w) == date
            &&& clean_row(s)
            &&& s[0] == '['
        }),
{
    let s = header_text(date);
    let name = crate::serialize::weekday_name(
        crate::calendar::weekday_index(date.year as int, date.month as int, date.day as int),
    );
    lemma_weekday_name(crate::calendar::weekday_index(date.year as int, date.month as int, date.day as int));
    let y = crate::serialize::padded4(date.year as nat);
    let mo = crate::serialize::padded2(date.month as nat);
    let da = crate::serialize::padded2(date.day as nat);
    lemma_padded4(date.year as nat);
    lemma_padded2(date.month as nat);
    lemma_padded2(date.day as nat);
    let e = 1 + name.len() as int;
    let w = e + 1;
    assert(s =~= seq!['['] + name + seq![' '] + y + seq!['-'] + mo + seq!['-'] + da + seq![']']);
    assert(s.len() == w + 11);
    assert forall|k: int| 1 <= k < e implies is_lower(#[trigger] s[k]) by {
        assert(s[k] == name[k - 1]);
    }
    assert(s[e] == ' ');
    lemma_lowers_end(s, 1, e);
    assert(s[w] == y[0]);
    lemma_ws_end(s, e, w);
    assert forall|j: int| w <= j < w + 4 implies is_digit(#[trigger] s[j]) by {
        assert(s[j] == y[j - w]);
    }
    assert(s[w + 5] == mo[0] && s[w + 6] == mo[1]);
    assert(s[w + 8] == da[0] && s[w + 9] == da[1]);
    assert(s.subrange(w, w + 4) =~= y);
    lemma_digits_value_shift(s, y, w);
    assert(s.subrange(w + 5, w + 7) =~= mo);
    lemma_digits_value_shift(s, mo, w + 5);
    assert(digits_value(mo, 0, 0) == 0);
    assert(digits_value(mo, 0, 1) == date.month / 10);
    assert(digits_value(mo, 0, 2) == date.month);
    assert(s.subrange(w + 8, w + 10) =~= da);
    lemma_digits_value_shift(s, da, w + 8);
    assert(digits_value(da, 0, 0) == 0);
    assert(digits_value(da, 0, 1) == date.day / 10);
    assert(digits_value(da, 0, 2) == date.day);
    assert forall|k: int| 0 <= k < s.len() implies s[k] != '\n' by {
        if 1 <= k < e {
            assert(s[k] == name[k - 1]);
        } else if w <= k < w + 4 {
            assert(s[k] == y[k - w]);
        }
    }
}

/// A day header reads back as itself.
proof fn lemma_read_header(date: Date)
    requires
        date.wf(),
    ensures
        parse_line_spec(header_text(date)) == Some(LineView::DayHeader { date }),
        clean_row(header_text(date)),
{
    lemma_header_layout(date);
    let s = header_text(date);
    let w = lowers_end(s, 1) + 1;
    assert(ws_end(s, w + 11) == w + 11);
    assert(crate::grammar::comment_line(s) is None);
    assert(crate::grammar::day_header_line(s) == Some(LineView::DayHeader { date }));
}

/// A readable line is written to a text that reads back as the same line.
pub proof fn lemma_read_line(l: LineView)
    requires
        readable(l),
    ensures
        parse_line_spec(line_text(l)) == Some(l),
        clean_row(line_text(l)),
{
    match l {
        LineView::Comment { text } => lemma_read_comment(text),
        LineView::DayHeader { .. } => {},
        LineView::OpenShift { start_time } => lemma_read_open(start_time),
        LineView::ClosedShift { start_time, stop_time } => lemma_read_closed(start_time, stop_time),
        LineView::DurationShift { text, duration } => lemma_read_duration(text, duration),
        LineView::SpecialDay { text } => lemma_read_special_day(text),
        LineView::SpecialShift { text, start_time, stop_time } => lemma_read_special_shift(
            text,
            start_time,
            stop_time,
        ),
        LineView::Blank => lemma_read_blank(),
    }
}

/// A comment whose text ends in a carriage return; written back, the return
/// is taken for part of the line ending.
pub open spec fn cr_comment(l: LineView) -> bool {
    l matches LineView::Comment { text } && text.len() > 0 && text.last() == '\r'
}

/// What the grammar reads a line of text as, other than a day header, can be
/// written back, save a comment that ends in a carriage return.
proof fn lemma_read_is_readable(s: Seq<char>)
    requires
        parse_line_spec(s) is Some,
    ensures
        ({
            let l = parse_line_spec(s)->0;
            &&& l matches LineView::DayHeader { date } ==> date.wf()
            &&& !(l is DayHeader) && !cr_comment(l) ==> readable(l)
        }),
{
    let l = parse_line_spec(s)->0;
    let e = letters_end(s, 2);
    if s.len() >= 2 {
        lemma_letters_end_range(s, 2);
    }
    if crate::grammar::comment_line(s) is Some {
        assert(l == LineView::Comment { text: s.skip(2) });
        assert forall|k: int| 0 <= k < s.skip(2).len() implies s.skip(2)[k] != '\n' by {
            assert(s.skip(2)[k] == s[k + 2]);
        }
    } else if crate::grammar::day_header_line(s) is Some {
    } else if crate::grammar::open_shift_line(s) is Some {
    } else if crate::grammar::closed_shift_line(s) is Some {
    } else if crate::grammar::special_shift_line(s) is Some {
        assert forall|k: int| 0 <= k < s.subrange(2, e).len() implies is_letter(#[trigger] s.subrange(2, e)[k]) by {
            lemma_letters_run(s, 2, k + 2);
        }
    } else if crate::grammar::duration_shift_line(s) is Some {
        assert forall|k: int| 0 <= k < s.subrange(2, e).len() implies is_letter(#[trigger] s.subrange(2, e)[k]) by {
            lemma_letters_run(s, 2, k + 2);
        }
        let w = ws_end(s, e);
        let negative = w < s.len() && s[w] == '-';
        let d0 = if negative { w + 1 } else { w };
        let d1 = digits_end(s, d0);
        let h0 = ws_end(s, d1);
        let h1 = ws_end(s, h0 + 1);
        let m1 = digits_end(s, h1);
        let hours = digits_value(s, d0, d1);
        let minutes = digits_value(s, h1, m1);
        let t = hours * 60 + minutes;
        let d = crate::grammar::entry_seconds(negative, hours, minutes);
        assert(l == LineView::DurationShift { text: s.subrange(2, e), duration: d });
        assert(t <= 1000000000);
        assert((t * 60) % 60 == 0) by (nonlinear_arith);
        assert((-(t * 60)) % 60 == 0) by (nonlinear_arith);
        if hours > 0 {
            assert(t * 60 >= 3600) by (nonlinear_arith)
                requires t == hours * 60 + minutes, hours >= 1, minutes >= 0;
        }
        assert(t * 60 <= 1000000000 * 60);
    } else if crate::grammar::special_day_line(s) is Some {
        assert forall|k: int| 0 <= k < s.subrange(2, e).len() implies is_letter(#[trigger] s.subrange(2, e)[k]) by {
            lemma_letters_run(s, 2, k + 2);
        }
    }
}

/// A line of a document's text as it may stand: a header of a valid date,
/// or a readable line.
pub open spec fn good_line(l: LineView) -> bool {
    &&& l matches LineView::DayHeader { date } ==> date.wf()
    &&& !(l is DayHeader) ==> readable(l)
}

pub open spec fn all_good(ls: Seq<LineView>) -> bool {
    forall|i: int| 0 <= i < ls.len() ==> good_line(#[trigger] ls[i])
}

/// No comment of the document ends in a carriage return.
pub open spec fn no_cr_comments(doc: DocumentView) -> bool {
    &&& forall|i: int| 0 <= i < doc.preamble.len() ==> !cr_comment(#[trigger] doc.preamble[i])
    &&& forall|i: int, j: int|
        0 <= i < doc.days.len() && 0 <= j < doc.days[i].lines.len() ==> !cr_comment(
            #[trigger] doc.days[i].lines[j],
        )
}

/// The shape of an assembly of read lines: no headers among the lines, days
/// of valid dates, and lines that can be written back save comments ending
/// in a carriage return.
pub open spec fn good_assembly(a: Assembly) -> bool {
    &&& no_headers(a.preamble)
    &&& forall|i: int| 0 <= i < a.preamble.len() ==> (#[trigger] a.preamble[i]) is DayHeader || cr_comment(a.preamble[i]) || readable(a.preamble[i])
    &&& forall|i: int| 0 <= i < a.days.len() ==> good_day(#[trigger] a.days[i])
    &&& a.current matches Some(d) ==> good_day(d)
}

pub open spec fn good_day(d: DayView) -> bool {
    &&& d.date.wf()
    &&& no_headers(d.lines)
    &&& forall|j: int| 0 <= j < d.lines.len() ==> cr_comment(#[trigger] d.lines[j]) || readable(d.lines[j])
}

proof fn lemma_assemble_good(ls: Seq<LineView>)
    requires
        forall|i: int| 0 <= i < ls.len() ==> ((#[trigger] ls[i]) matches LineView::DayHeader { date } ==> date.wf()) && (!(ls[i] is DayHeader) && !cr_comment(ls[i]) ==> readable(ls[i])),
    ensures
        good_assembly(assemble(ls)),
    decreases ls.len(),
{
    if ls.len() > 0 {
        let init = ls.drop_last();
        assert forall|i: int| 0 <= i < init.len() implies ((#[trigger] init[i]) matches LineView::DayHeader { date } ==> date.wf()) && (!(init[i] is DayHeader) && !cr_comment(init[i]) ==> readable(init[i])) by {
            assert(init[i] == ls[i]);
        }
        lemma_assemble_good(init);
        let a = assemble(init);
        let l = ls.last();
        assert(l == ls[ls.len() - 1]);
        let b = assemble(ls);
        match l {
            LineView::DayHeader { date } => {
                assert(good_day(DayView { date, lines: Seq::empty() }));
                match a.current {
                    Some(d) => {
                        assert forall|i: int| 0 <= i < b.days.len() implies good_day(#[trigger] b.days[i]) by {
                            if i < a.days.len() {
                                assert(b.days[i] == a.days[i]);
                            }
                        }
                    },
                    None => {},
                }
            },
            _ => {
                match a.current {
                    Some(d) => {
                        let nd = DayView { date: d.date, lines: d.lines.push(l) };
                        assert forall|j: int| 0 <= j < nd.lines.len() implies !((#[trigger] nd.lines[j]) is DayHeader) by {
                            if j < d.lines.len() {
                                assert(nd.lines[j] == d.lines[j]);
                            }
                        }
                        assert forall|j: int| 0 <= j < nd.lines.len() implies cr_comment(#[trigger] nd.lines[j]) || readable(nd.lines[j]) by {
                            if j < d.lines.len() {
                                assert(nd.lines[j] == d.lines[j]);
                            }
                        }
                        assert(good_day(nd));
                    },
                    None => {
                        let np = a.preamble.push(l);
                        assert forall|j: int| 0 <= j < np.len() implies !((#[trigger] np[j]) is DayHeader) by {
                            if j < a.preamble.len() {
                                assert(np[j] == a.preamble[j]);
                            }
                        }
                        assert forall|j: int| 0 <= j < np.len() implies (#[trigger] np[j]) is DayHeader || cr_comment(np[j]) || readable(np[j]) by {
                            if j < a.preamble.len() {
                                assert(np[j] == a.preamble[j]);
                            }
                        }
                    },
                }
            },
        }
    }
}

proof fn lemma_days_lines_good(days: Seq<DayView>)
    requires
        forall|i: int| 0 <= i < days.len() ==> good_day(#[trigger] days[i]),
        forall|i: int, j: int|
            0 <= i < days.len() && 0 <= j < days[i].lines.len() ==> !cr_comment(
                #[trigger] days[i].lines[j],
            ),
    ensures
        all_good(days_lines(days)),
    decreases days.len(),
{
    if days.len() > 0 {
        let init = days.drop_last();
        assert forall|i: int, j: int|
            0 <= i < init.len() && 0 <= j < init[i].lines.len() implies !cr_comment(
                #[trigger] init[i].lines[j],
            ) by {
            assert(init[i] == days[i]);
        }
        assert forall|i: int| 0 <= i < init.len() implies good_day(#[trigger] init[i]) by {
            assert(init[i] == days[i]);
        }
        lemma_days_lines_good(init);
        let d = days.last();
        assert(d == days[days.len() - 1]);
        assert(good_day(d));
        let dl = day_lines(d);
        let all = days_lines(days);
        assert(all == days_lines(init) + dl);
        assert forall|i: int| 0 <= i < all.len() implies good_line(#[trigger] all[i]) by {
            let n = days_lines(init).len();
            if i < n {
                assert(all[i] == days_lines(init)[i]);
            } else if i > n {
                assert(all[i] == d.lines[i - n - 1]);
                assert(!cr_comment(days[days.len() - 1].lines[i - n - 1]));
            }
        }
    }
}

proof fn lemma_first_unreadable_all(lines: Seq<Seq<char>>, i: int)
    requires
        0 <= i <= lines.len(),
    ensures
        first_unreadable(lines, i) <= lines.len(),
        first_unreadable(lines, i) == lines.len() <==> forall|j: int|
            i <= j < lines.len() ==> parse_line_spec(#[trigger] lines[j]) is Some,
    decreases lines.len() - i,
{
    if i < lines.len() {
        lemma_first_unreadable_all(lines, i + 1);
        assert((forall|j: int| i <= j < lines.len() ==> parse_line_spec(#[trigger] lines[j]) is Some)
            ==> parse_line_spec(lines[i]) is Some);
    }
}

proof fn lemma_good_line_reads(l: LineView)
    requires
        good_line(l),
    ensures
        parse_line_spec(line_text(l)) == Some(l),
        clean_row(line_text(l)),
{
    match l {
        LineView::DayHeader { date } => lemma_read_header(date),
        _ => lemma_read_line(l),
    }
}

/// Round trip: a document read from a text is written back to a text that
/// reads as the same document. A comment whose text ends in a carriage
/// return is left out: written back, its return is taken for part of the
/// line ending.
pub proof fn lemma_round_trip(week: IsoWeek, text: Seq<char>)
    requires
        parse_document_spec(week, text) is Ok,
        no_cr_comments(parse_document_spec(week, text)->Ok_0),
    ensures
        crate::serialize::document_printable(parse_document_spec(week, text)->Ok_0),
        parse_document_spec(
            week,
            document_text(parse_document_spec(week, text)->Ok_0),
        ) == parse_document_spec(week, text),
{
    let doc = parse_document_spec(week, text)->Ok_0;
    let lines = split_lines(text);
    let ls = read_lines(lines);
    lemma_first_unreadable_all(lines, 0);
    assert forall|i: int| 0 <= i < ls.len() implies ((#[trigger] ls[i]) matches LineView::DayHeader { date } ==> date.wf()) && (!(ls[i] is DayHeader) && !cr_comment(ls[i]) ==> readable(ls[i])) by {
        assert(parse_line_spec(lines[i]) is Some);
        lemma_read_is_readable(lines[i]);
    }
    lemma_assemble_good(ls);
    let a = assemble(ls);
    assert(doc == assembled(week, ls));
    assert(doc.preamble == a.preamble);
    assert forall|i: int| 0 <= i < doc.days.len() implies good_day(#[trigger] doc.days[i]) by {
        if i < a.days.len() {
            assert(doc.days[i] == a.days[i]);
        }
    }
    // Every line of the document can be written and read back.
    let dl = doc_lines(doc);
    lemma_days_lines_good(doc.days);
    assert forall|i: int| 0 <= i < dl.len() implies good_line(#[trigger] dl[i]) by {
        let n = doc.preamble.len() as int;
        if i < n {
            assert(dl[i] == doc.preamble[i]);
            assert(!cr_comment(doc.preamble[i]));
        } else {
            assert(dl[i] == days_lines(doc.days)[i - n]);
        }
    }
    assert forall|j: int| 0 <= j < dl.len() implies clean_row(#[trigger] line_text(dl[j])) by {
        lemma_good_line_reads(dl[j]);
    }
    lemma_document_text(doc);
    lemma_split_lines_text(dl);
    let rows = dl.map_values(|l: LineView| line_text(l));
    assert(split_lines(document_text(doc)) == rows);
    assert forall|j: int| 0 <= j < rows.len() implies parse_line_spec(#[trigger] rows[j]) is Some by {
        lemma_good_line_reads(dl[j]);
    }
    lemma_first_unreadable_all(rows, 0);
    assert(read_lines(rows) =~= dl) by {
        assert forall|j: int| 0 <= j < rows.len() implies read_lines(rows)[j] == dl[j] by {
            lemma_good_line_reads(dl[j]);
        }
    }
    assert(no_headers(doc.preamble));
    lemma_assembled_doc_lines(doc);
    assert(doc.week == week);
    assert forall|i: int| 0 <= i < doc.preamble.len() implies crate::serialize::printable(#[trigger] doc.preamble[i]) by {}
    assert forall|i: int| 0 <= i < doc.days.len() implies crate::serialize::day_printable(#[trigger] doc.days[i]) by {
        assert(good_day(doc.days[i]));
    }
}

} // verus!
