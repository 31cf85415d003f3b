//! The two tracking transitions, start and stop, and the tracker that
//! carries the settings of one run.

use vstd::prelude::*;
use crate::calendar::{Date, DateTime, Time};
use crate::document::{lines_have_open_shift, with_trailing_blank};
use crate::config::Config;
use crate::document::{
    closed_line, end_of_shifts, find_day, has_day, open_shift_count, Day, DayView, Document,
    DocumentView, Line, LineView,
};
use crate::grammar::Parser;
use crate::paths::TrackerDirs;

verus! {

/// Why a tracking transition was refused.
#[derive(Clone, Copy, Debug, PartialEq, Eq, Structural)]
pub enum DocumentError {
    TrackerFileAlreadyHasOpenShift,
    TrackerFileDoesNotHaveOpenShift,
}

/// The first day of the given date.
pub open spec fn day_of(days: Seq<DayView>, date: Date) -> DayView {
    days[find_day(days, date, 0)]
}

/// The day with `line` placed after the shifts that open its body.
pub open spec fn day_adding_shift(day: DayView, line: LineView) -> DayView {
    let k = end_of_shifts(day.lines, 0);
    DayView { date: day.date, lines: day.lines.take(k).push(line) + day.lines.skip(k) }
}

/// The day with its open shift closed at `stop`.
pub open spec fn day_closing_shift(day: DayView, stop: Time) -> DayView {
    DayView { date: day.date, lines: day.lines.map_values(|l: LineView| closed_line(l, stop)) }
}

/// The outcome of starting a shift at `time` on `date`.
pub open spec fn tracking_started(doc: DocumentView, date: Date, time: Time) -> Result<
    DocumentView,
    DocumentError,
> {
    if doc.has_open_shift() {
        Err(DocumentError::TrackerFileAlreadyHasOpenShift)
    } else if has_day(doc.days, date) {
        Ok(
            doc.replacing_day(
                date,
                day_adding_shift(day_of(doc.days, date), LineView::OpenShift { start_time: time }),
            ),
        )
    } else {
        Ok(
            doc.inserting_day(
                DayView { date, lines: seq![LineView::OpenShift { start_time: time }] },
            ),
        )
    }
}

/// The outcome of stopping the open shift at `time` on `date`.
pub open spec fn tracking_stopped(doc: DocumentView, date: Date, time: Time) -> Result<
    DocumentView,
    DocumentError,
> {
    if !doc.has_open_shift() {
        Err(DocumentError::TrackerFileDoesNotHaveOpenShift)
    } else if has_day(doc.days, date) {
        Ok(doc.replacing_day(date, day_closing_shift(day_of(doc.days, date), time)))
    } else {
        Err(DocumentError::TrackerFileDoesNotHaveOpenShift)
    }
}

/// Stopping on `date` is defined: where the document has an open shift and a
/// day of that date, that day holds exactly one open shift.
pub open spec fn can_stop_on(doc: DocumentView, date: Date) -> bool {
    doc.has_open_shift() && has_day(doc.days, date) ==> open_shift_count(
        day_of(doc.days, date).lines,
    ) == 1
}

proof fn lemma_find_day(days: Seq<DayView>, date: Date, i: int)
    requires
        0 <= i,
    ensures
        i <= find_day(days, date, i) <= days.len() || days.len() < i,
        find_day(days, date, i) < days.len() ==> days[find_day(days, date, i)].date == date,
        forall|j: int| i <= j < find_day(days, date, i) && j < days.len() ==> days[j].date != date,
        (exists|j: int| i <= j < days.len() && (#[trigger] days[j]).date == date) ==> find_day(
            days,
            date,
            i,
        ) < days.len(),
    decreases days.len() - i,
{
    if i < days.len() && days[i].date != date {
        lemma_find_day(days, date, i + 1);
        assert forall|j: int| i <= j < days.len() && (#[trigger] days[j]).date == date implies i
            + 1 <= j by {}
    }
}

proof fn lemma_find_day_of_same_dates(a: Seq<DayView>, b: Seq<DayView>, date: Date, i: int)
    requires
        a.len() == b.len(),
        forall|j: int| 0 <= j < a.len() ==> (#[trigger] a[j]).date == b[j].date,
    ensures
        find_day(a, date, i) == find_day(b, date, i),
    decreases a.len() - i,
{
    if 0 <= i < a.len() && a[i].date != date {
        lemma_find_day_of_same_dates(a, b, date, i + 1);
    }
}

proof fn lemma_count_add(a: Seq<LineView>, b: Seq<LineView>)
    ensures
        open_shift_count(a + b) == open_shift_count(a) + open_shift_count(b),
    decreases b.len(),
{
    if b.len() > 0 {
        assert((a + b).drop_last() =~= a + b.drop_last());
        lemma_count_add(a, b.drop_last());
    } else {
        assert(a + b =~= a);
    }
}

proof fn lemma_no_open_count(s: Seq<LineView>)
    requires
        !lines_have_open_shift(s),
    ensures
        open_shift_count(s) == 0,
    decreases s.len(),
{
    if s.len() > 0 {
        assert(s.last() == s[s.len() - 1]);
        assert(!lines_have_open_shift(s.drop_last())) by {
            if lines_have_open_shift(s.drop_last()) {
                let i = choose|i: int| 0 <= i < s.drop_last().len() && (#[trigger] s.drop_last()[i]) is OpenShift;
                assert(s[i] is OpenShift);
            }
        }
        lemma_no_open_count(s.drop_last());
    }
}

/// A day with the open shift added holds exactly that open shift, at the
/// position where it was put.
proof fn lemma_added_shift(day: DayView, t: Time)
    requires
        !day.has_open_shift(),
    ensures
        ({
            let added = day_adding_shift(day, LineView::OpenShift { start_time: t });
            let k = end_of_shifts(day.lines, 0);
            &&& 0 <= k <= day.lines.len()
            &&& added.lines[k] == LineView::OpenShift { start_time: t }
            &&& 0 <= k < added.lines.len()
            &&& open_shift_count(added.lines) == 1
            &&& added.date == day.date
        }),
{
    let k = end_of_shifts(day.lines, 0);
    lemma_end_of_shifts_range(day.lines, 0);
    let a = day.lines.take(k);
    let b = day.lines.skip(k);
    assert(!lines_have_open_shift(a)) by {
        if lines_have_open_shift(a) {
            let i = choose|i: int| 0 <= i < a.len() && (#[trigger] a[i]) is OpenShift;
            assert(day.lines[i] is OpenShift);
        }
    }
    assert(!lines_have_open_shift(b)) by {
        if lines_have_open_shift(b) {
            let i = choose|i: int| 0 <= i < b.len() && (#[trigger] b[i]) is OpenShift;
            assert(day.lines[i + k] is OpenShift);
        }
    }
    lemma_no_open_count(a);
    lemma_no_open_count(b);
    let o = LineView::OpenShift { start_time: t };
    lemma_count_add(a, seq![o]);
    assert(a + seq![o] =~= a.push(o));
    lemma_count_add(a.push(o), b);
    lemma_single_open(t);
}

proof fn lemma_single_open(t: Time)
    ensures
        open_shift_count(seq![LineView::OpenShift { start_time: t }]) == 1,
{
    let s = seq![LineView::OpenShift { start_time: t }];
    assert(s.drop_last() =~= Seq::<LineView>::empty());
    assert(open_shift_count(Seq::<LineView>::empty()) == 0);
    assert(s.last() is OpenShift);
}

proof fn lemma_end_of_shifts_range(lines: Seq<LineView>, i: int)
    requires
        0 <= i <= lines.len(),
    ensures
        i <= end_of_shifts(lines, i) <= lines.len(),
    decreases lines.len() - i,
{
    if i < lines.len() && lines[i].is_shift() {
        lemma_end_of_shifts_range(lines, i + 1);
    }
}

/// After closing, no line of the day is an open shift.
proof fn lemma_closed_day(day: DayView, t: Time)
    ensures
        !day_closing_shift(day, t).has_open_shift(),
{
    let c = day_closing_shift(day, t);
    if c.has_open_shift() {
        let i = choose|i: int| 0 <= i < c.lines.len() && (#[trigger] c.lines[i]) is OpenShift;
        assert(c.lines[i] == closed_line(day.lines[i], t));
    }
}

/// The document after a successful start: the day of `date` holds the one
/// open shift of the document, and no other day holds one.
proof fn lemma_started(doc: DocumentView, date: Date, t: Time)
    requires
        tracking_started(doc, date, t) is Ok,
    ensures
        ({
            let d1 = tracking_started(doc, date, t)->Ok_0;
            &&& d1.has_open_shift()
            &&& has_day(d1.days, date)
            &&& can_stop_on(d1, date)
            &&& (exists|j: int|
                0 <= j < day_of(d1.days, date).lines.len() && day_of(d1.days, date).lines[j]
                    == LineView::OpenShift { start_time: t })
            &&& forall|i: int|
                0 <= i < d1.days.len() && (#[trigger] d1.days[i]).date != date
                    ==> !d1.days[i].has_open_shift()
        }),
{
    let d1 = tracking_started(doc, date, t)->Ok_0;
    let o = LineView::OpenShift { start_time: t };
    assert forall|i: int| 0 <= i < doc.days.len() implies !(#[trigger] doc.days[i]).has_open_shift() by {
    }
    if has_day(doc.days, date) {
        lemma_find_day(doc.days, date, 0);
        let k = find_day(doc.days, date, 0);
        let day = day_of(doc.days, date);
        let added = day_adding_shift(day, o);
        lemma_added_shift(day, t);
        assert(d1.days[k] == added);
        assert forall|j: int| 0 <= j < d1.days.len() implies (#[trigger] d1.days[j]).date
            == doc.days[j].date by {}
        lemma_find_day_of_same_dates(d1.days, doc.days, date, 0);
        let e = end_of_shifts(day.lines, 0);
        assert(added.lines[e] is OpenShift);
        assert(d1.days[k].has_open_shift());
        assert(d1.days[k].date == date);
        assert forall|i: int| 0 <= i < d1.days.len() && (#[trigger] d1.days[i]).date != date
            implies !d1.days[i].has_open_shift() by {
            assert(d1.days[i] == doc.days[i]);
        }
        assert(day_of(d1.days, date) == added);
        assert(day_of(d1.days, date).lines[e] == o);
        assert(has_day(d1.days, date));
        assert(can_stop_on(d1, date));
    } else {
        let day = DayView { date, lines: seq![o] };
        let pb = |d: DayView| d.date.spec_before(date);
        let pa = |d: DayView| date.spec_before(d.date);
        let before = doc.days.filter(pb);
        let after = doc.days.filter(pa);
        broadcast use vstd::seq_lib::group_filter_ensures;
        let before2 = if before.len() > 0 {
            before.update(before.len() - 1, with_trailing_blank(before.last()))
        } else {
            before
        };
        assert(d1.days == before2.push(day) + after);
        let k = before2.len() as int;
        assert(d1.days[k] == day);
        assert(day.lines[0] is OpenShift);
        assert(d1.days[k].has_open_shift());
        assert forall|i: int| 0 <= i < k implies (#[trigger] d1.days[i]).date.spec_before(date) by {
            assert(pb(before[i]));
        }
        lemma_find_day(d1.days, date, 0);
        assert(has_day(d1.days, date)) by {
            assert(d1.days[k].date == date);
        }
        assert(find_day(d1.days, date, 0) == k);
        lemma_single_open(t);
        assert(day_of(d1.days, date) == day);
        assert(day_of(d1.days, date).lines[0] == o);
        assert(can_stop_on(d1, date));
        assert forall|i: int| 0 <= i < d1.days.len() && (#[trigger] d1.days[i]).date != date
            implies !d1.days[i].has_open_shift() by {
            if i < k - 1 {
                assert(d1.days[i] == before[i]);
                assert(before.contains(before[i]));
                doc.days.lemma_filter_contains_rev(pb, before[i]);
                let j = choose|j: int| 0 <= j < doc.days.len() && doc.days[j] == before[i];
                assert(!doc.days[j].has_open_shift());
            } else if i == k - 1 {
                let b = before.last();
                assert(before.contains(b));
                doc.days.lemma_filter_contains_rev(pb, b);
                assert(doc.days.contains(b));
                let j = choose|j: int| 0 <= j < doc.days.len() && doc.days[j] == b;
                assert(!doc.days[j].has_open_shift());
                assert(d1.days[i] == with_trailing_blank(b));
                if d1.days[i].has_open_shift() {
                    let m = choose|m: int| 0 <= m < d1.days[i].lines.len() && (#[trigger] d1.days[i].lines[m]) is OpenShift;
                    assert(b.lines.push(LineView::Blank)[m] is OpenShift);
                    assert(b.lines[m] is OpenShift);
                }
            } else {
                assert(i > k);
                let a = after[i - k - 1];
                assert(d1.days[i] == a);
                assert(after.contains(a));
                doc.days.lemma_filter_contains_rev(pa, a);
                let j = choose|j: int| 0 <= j < doc.days.len() && doc.days[j] == a;
                assert(!doc.days[j].has_open_shift());
            }
        }
    }
}

/// Starting a shift twice in a row is refused the second time, whatever its
/// date and time.
pub proof fn lemma_start_twice_refused(doc: DocumentView, date: Date, t: Time, date2: Date, t2: Time)
    requires
        tracking_started(doc, date, t) is Ok,
    ensures
        tracking_started(tracking_started(doc, date, t)->Ok_0, date2, t2) == Err::<
            DocumentView,
            DocumentError,
        >(DocumentError::TrackerFileAlreadyHasOpenShift),
{
    lemma_started(doc, date, t);
}

/// Starting a shift at `t` on `date` and then stopping it at `t2` on the
/// same date leaves no open shift, and the day holds the closed shift from
/// `t` to `t2`.
pub proof fn lemma_start_then_stop(doc: DocumentView, date: Date, t: Time, t2: Time)
    requires
        tracking_started(doc, date, t) is Ok,
    ensures
        can_stop_on(tracking_started(doc, date, t)->Ok_0, date),
        ({
            let d2 = tracking_stopped(tracking_started(doc, date, t)->Ok_0, date, t2);
            &&& d2 is Ok
            &&& !d2->Ok_0.has_open_shift()
            &&& has_day(d2->Ok_0.days, date)
            &&& exists|j: int|
                0 <= j < day_of(d2->Ok_0.days, date).lines.len() && day_of(
                    d2->Ok_0.days,
                    date,
                ).lines[j] == LineView::ClosedShift { start_time: t, stop_time: t2 }
        }),
{
    lemma_started(doc, date, t);
    let d1 = tracking_started(doc, date, t)->Ok_0;
    let closed = day_closing_shift(day_of(d1.days, date), t2);
    let d2 = d1.replacing_day(date, closed);
    lemma_find_day(d1.days, date, 0);
    let k = find_day(d1.days, date, 0);
    lemma_closed_day(day_of(d1.days, date), t2);
    assert forall|j: int| 0 <= j < d2.days.len() implies (#[trigger] d2.days[j]).date
        == d1.days[j].date by {}
    lemma_find_day_of_same_dates(d2.days, d1.days, date, 0);
    assert(d2.days[k] == closed);
    assert(has_day(d2.days, date));
    assert(!d2.has_open_shift()) by {
        if d2.has_open_shift() {
            let i = choose|i: int| 0 <= i < d2.days.len() && (#[trigger] d2.days[i]).has_open_shift();
            if d1.days[i].date != date {
                assert(d2.days[i] == d1.days[i]);
            }
        }
    }
    let j = choose|j: int|
        0 <= j < day_of(d1.days, date).lines.len() && day_of(d1.days, date).lines[j]
            == LineView::OpenShift { start_time: t };
    assert(closed.lines[j] == closed_line(day_of(d1.days, date).lines[j], t2));
    assert(tracking_stopped(d1, date, t2) == Ok::<DocumentView, DocumentError>(d2));
    assert(day_of(d2.days, date) == closed);
    assert(closed.lines[j] == LineView::ClosedShift { start_time: t, stop_time: t2 });
}

/// No two days share a date.
pub open spec fn distinct_dates(days: Seq<DayView>) -> bool {
    forall|i: int, j: int| 0 <= i < j < days.len() ==> (#[trigger] days[i]).date != (#[trigger] days[j]).date
}

/// Exactly one day holds an open shift, and it holds exactly one.
pub open spec fn one_open_shift(doc: DocumentView) -> bool {
    exists|i: int|
        0 <= i < doc.days.len() && open_shift_count((#[trigger] doc.days[i]).lines) == 1 && forall|j: int|
            0 <= j < doc.days.len() && j != i ==> !(#[trigger] doc.days[j]).has_open_shift()
}

/// What start and stop keep: days of distinct dates, and at most one open
/// shift in the whole document.
pub open spec fn tracking_invariant(doc: DocumentView) -> bool {
    &&& distinct_dates(doc.days)
    &&& doc.has_open_shift() ==> one_open_shift(doc)
}

proof fn lemma_count_positive(s: Seq<LineView>)
    requires
        open_shift_count(s) > 0,
    ensures
        lines_have_open_shift(s),
{
    if !lines_have_open_shift(s) {
        lemma_no_open_count(s);
    }
}

proof fn lemma_filter_distinct(s: Seq<DayView>, p: spec_fn(DayView) -> bool)
    requires
        distinct_dates(s),
    ensures
        distinct_dates(s.filter(p)),
    decreases s.len(),
{
    reveal(Seq::filter);
    if s.len() > 0 {
        let init = s.drop_last();
        assert forall|i: int, j: int| 0 <= i < j < init.len() implies (#[trigger] init[i]).date != (#[trigger] init[j]).date by {
            assert(init[i] == s[i] && init[j] == s[j]);
        }
        lemma_filter_distinct(init, p);
        let f = init.filter(p);
        if p(s.last()) {
            let g = f.push(s.last());
            assert forall|i: int, j: int| 0 <= i < j < g.len() implies (#[trigger] g[i]).date != (#[trigger] g[j]).date by {
                if j == g.len() - 1 {
                    assert(f.contains(g[i]));
                    init.lemma_filter_contains_rev(p, g[i]);
                    let m = choose|m: int| 0 <= m < init.len() && init[m] == g[i];
                    assert(s[m] == g[i]);
                    assert(s[s.len() - 1] == s.last());
                } else {
                    assert(g[i] == f[i] && g[j] == f[j]);
                }
            }
        }
    }
}

/// A document without days keeps the invariant.
pub proof fn lemma_invariant_empty(doc: DocumentView)
    requires
        doc.days.len() == 0,
    ensures
        tracking_invariant(doc),
{
}

/// Under the invariant, the document has an open shift exactly when one day
/// holds one, and no other day holds any.
pub proof fn lemma_invariant_open_shift(doc: DocumentView)
    requires
        tracking_invariant(doc),
    ensures
        doc.has_open_shift() <==> one_open_shift(doc),
{
    if one_open_shift(doc) {
        let i = choose|i: int|
            0 <= i < doc.days.len() && open_shift_count((#[trigger] doc.days[i]).lines) == 1 && forall|j: int|
                0 <= j < doc.days.len() && j != i ==> !(#[trigger] doc.days[j]).has_open_shift();
        lemma_count_positive(doc.days[i].lines);
        assert(doc.days[i].has_open_shift());
    }
}

/// Starting a shift keeps the invariant.
pub proof fn lemma_invariant_start(doc: DocumentView, date: Date, t: Time)
    requires
        tracking_invariant(doc),
        tracking_started(doc, date, t) is Ok,
    ensures
        tracking_invariant(tracking_started(doc, date, t)->Ok_0),
{
    lemma_started(doc, date, t);
    let d1 = tracking_started(doc, date, t)->Ok_0;
    if has_day(doc.days, date) {
        assert forall|j: int| 0 <= j < d1.days.len() implies (#[trigger] d1.days[j]).date
            == doc.days[j].date by {}
    } else {
        let day = DayView { date, lines: seq![LineView::OpenShift { start_time: t }] };
        let pb = |d: DayView| d.date.spec_before(date);
        let pa = |d: DayView| date.spec_before(d.date);
        let before = doc.days.filter(pb);
        let after = doc.days.filter(pa);
        broadcast use vstd::seq_lib::group_filter_ensures;
        lemma_filter_distinct(doc.days, pb);
        lemma_filter_distinct(doc.days, pa);
        let before2 = if before.len() > 0 {
            before.update(before.len() - 1, with_trailing_blank(before.last()))
        } else {
            before
        };
        let k = before2.len() as int;
        assert(d1.days == before2.push(day) + after);
        assert forall|i: int| 0 <= i < k implies (#[trigger] d1.days[i]).date == before[i].date by {}
        assert forall|i: int| 0 <= i < k implies (#[trigger] before[i]).date.spec_before(date) by {
            assert(pb(before[i]));
        }
        assert forall|i: int| k < i < d1.days.len() implies date.spec_before((#[trigger] d1.days[i]).date) by {
            assert(d1.days[i] == after[i - k - 1]);
            assert(pa(after[i - k - 1]));
        }
        assert forall|i: int, j: int| 0 <= i < j < d1.days.len() implies (#[trigger] d1.days[i]).date != (#[trigger] d1.days[j]).date by {
            if j < k {
                assert(before[i].date != before[j].date);
            } else if j == k {
                assert(before[i].date.spec_before(date));
            } else if i == k {
            } else if i < k {
                assert(before[i].date.spec_before(date));
            } else {
                assert(d1.days[i] == after[i - k - 1] && d1.days[j] == after[j - k - 1]);
            }
        }
    }
    lemma_find_day(d1.days, date, 0);
    let i = find_day(d1.days, date, 0);
    assert forall|j: int| 0 <= j < d1.days.len() && j != i implies !(#[trigger] d1.days[j]).has_open_shift() by {
        if d1.days[j].date == date {
            if j < i {
            } else {
                assert(d1.days[i].date == d1.days[j].date);
            }
        }
    }
    assert(open_shift_count(d1.days[i].lines) == 1);
}

/// Stopping a shift keeps the invariant, and leaves no open shift.
pub proof fn lemma_invariant_stop(doc: DocumentView, date: Date, t: Time)
    requires
        tracking_invariant(doc),
        can_stop_on(doc, date),
        tracking_stopped(doc, date, t) is Ok,
    ensures
        tracking_invariant(tracking_stopped(doc, date, t)->Ok_0),
        !tracking_stopped(doc, date, t)->Ok_0.has_open_shift(),
{
    let d2 = tracking_stopped(doc, date, t)->Ok_0;
    lemma_find_day(doc.days, date, 0);
    let k = find_day(doc.days, date, 0);
    let closed = day_closing_shift(day_of(doc.days, date), t);
    lemma_closed_day(day_of(doc.days, date), t);
    let i = choose|i: int|
        0 <= i < doc.days.len() && open_shift_count((#[trigger] doc.days[i]).lines) == 1 && forall|j: int|
            0 <= j < doc.days.len() && j != i ==> !(#[trigger] doc.days[j]).has_open_shift();
    lemma_count_positive(doc.days[k].lines);
    assert(k == i);
    assert forall|j: int| 0 <= j < d2.days.len() implies (#[trigger] d2.days[j]).date
        == doc.days[j].date by {}
    assert(!d2.has_open_shift()) by {
        if d2.has_open_shift() {
            let j = choose|j: int| 0 <= j < d2.days.len() && (#[trigger] d2.days[j]).has_open_shift();
            if doc.days[j].date == date {
                assert(d2.days[j] == closed);
            } else {
                assert(d2.days[j] == doc.days[j]);
                assert(j != k);
            }
        }
    }
}

/// The settings of one run of the tracker.
#[derive(Debug)]
pub struct Tracker {
    explicit_weekfile: Option<String>,
    weekdiff: Option<i32>,
    parser: Parser,
    now: DateTime,
    dirs: TrackerDirs,
    config: Config,
}

/// The view of an optional string.
pub open spec fn optional_text(s: Option<String>) -> Option<Seq<char>> {
    match s {
        Some(t) => Some(t@),
        None => None,
    }
}

impl Tracker {
    pub closed spec fn spec_explicit_weekfile(&self) -> Option<Seq<char>> {
        optional_text(self.explicit_weekfile)
    }

    pub closed spec fn spec_weekdiff(&self) -> Option<i32> {
        self.weekdiff
    }

    pub closed spec fn spec_now(&self) -> DateTime {
        self.now
    }

    pub closed spec fn spec_dirs(&self) -> TrackerDirs {
        self.dirs
    }

    pub closed spec fn spec_config(&self) -> Config {
        self.config
    }

    /// A builder for a tracker at the instant `now` with the given directories.
    pub fn builder(now: DateTime, dirs: TrackerDirs) -> (r: TrackerBuilder)
        ensures
            r.spec_explicit_weekfile() is None,
            r.spec_weekdiff() is None,
            r.spec_now() == now,
            r.spec_dirs() == dirs,
            r.spec_config() is None,
    {
        TrackerBuilder { explicit_weekfile: None, weekdiff: None, now, dirs, config: None }
    }

    /// The week file named on the command line, which takes precedence over
    /// the week offset.
    pub fn explicit_weekfile(&self) -> (r: Option<&String>)
        ensures
            match r {
                Some(t) => self.spec_explicit_weekfile() == Some(t@),
                None => self.spec_explicit_weekfile() is None,
            },
    {
        match &self.explicit_weekfile {
            Some(t) => Some(t),
            None => None,
        }
    }

    /// The offset in weeks from the current one, if any.
    pub fn weekdiff(&self) -> (r: Option<i32>)
        ensures
            r == self.spec_weekdiff(),
    {
        self.weekdiff
    }

    /// The parser of week files.
    pub fn parser(&self) -> (r: &Parser) {
        &self.parser
    }

    /// The instant the tracker works at.
    pub fn now(&self) -> (r: DateTime)
        ensures
            r == self.spec_now(),
    {
        self.now
    }

    /// The directories of configuration and data.
    pub fn dirs(&self) -> (r: &TrackerDirs)
        ensures
            *r == self.spec_dirs(),
    {
        &self.dirs
    }

    /// The settings in force.
    pub fn config(&self) -> (r: Config)
        ensures
            r == self.spec_config(),
    {
        self.config
    }

    /// The document with a shift opened at `time` on `date`: added to the day
    /// of that date, or in a new day put in its place. Refused when the
    /// document already has an open shift on any day.
    pub fn document_with_tracking_started(
        &self,
        document: &Document,
        date: Date,
        time: Time,
    ) -> (r: Result<Document, DocumentError>)
        ensures
            match (r, tracking_started(document@, date, time)) {
                (Ok(d), Ok(v)) => d@ == v,
                (Err(e), Err(f)) => e == f,
                _ => false,
            },
    {
        if document.has_open_shift() {
            return Err(DocumentError::TrackerFileAlreadyHasOpenShift);
        }
        match document.get_day(date) {
            Some(day) => {
                let added = day.adding_shift(Line::OpenShift { start_time: time });
                Ok(document.replacing_day(date, added))
            },
            None => {
                let day = Day::create(date, vec![Line::OpenShift { start_time: time }]);
                assert(day@.lines =~= seq![LineView::OpenShift { start_time: time }]);
                Ok(document.inserting_day(day))
            },
        }
    }

    /// The document with the open shift of the day `date` closed at `time`.
    /// Refused when the document has no open shift, or no day of that date.
    pub fn document_with_tracking_stopped(
        &self,
        document: &Document,
        date: Date,
        time: Time,
    ) -> (r: Result<Document, DocumentError>)
        requires
            can_stop_on(document@, date),
        ensures
            match (r, tracking_stopped(document@, date, time)) {
                (Ok(d), Ok(v)) => d@ == v,
                (Err(e), Err(f)) => e == f,
                _ => false,
            },
    {
        if !document.has_open_shift() {
            return Err(DocumentError::TrackerFileDoesNotHaveOpenShift);
        }
        match document.get_day(date) {
            Some(day) => Ok(document.replacing_day(date, day.closing_shift(time))),
            None => Err(DocumentError::TrackerFileDoesNotHaveOpenShift),
        }
    }
}

/// Collects the settings of a tracker before it is built.
#[derive(Debug)]
pub struct TrackerBuilder {
    explicit_weekfile: Option<String>,
    weekdiff: Option<i32>,
    now: DateTime,
    dirs: TrackerDirs,
    config: Option<Config>,
}

impl TrackerBuilder {
    pub closed spec fn spec_explicit_weekfile(&self) -> Option<Seq<char>> {
        optional_text(self.explicit_weekfile)
    }

    pub closed spec fn spec_weekdiff(&self) -> Option<i32> {
        self.weekdiff
    }

    pub closed spec fn spec_now(&self) -> DateTime {
        self.now
    }

    pub closed spec fn spec_dirs(&self) -> TrackerDirs {
        self.dirs
    }

    pub closed spec fn spec_config(&self) -> Option<Config> {
        self.config
    }

    /// Sets the week file to use instead of the one of the current week.
    pub fn explicit_weekfile(self, explicit_weekfile: Option<String>) -> (r: TrackerBuilder)
        ensures
            r.spec_explicit_weekfile() == optional_text(explicit_weekfile),
            r.spec_weekdiff() == self.spec_weekdiff(),
            r.spec_now() == self.spec_now(),
            r.spec_dirs() == self.spec_dirs(),
            r.spec_config() == self.spec_config(),
    {
        TrackerBuilder { explicit_weekfile, ..self }
    }

    /// Sets the offset in weeks from the current week.
    pub fn weekdiff(self, weekdiff: Option<i32>) -> (r: TrackerBuilder)
        ensures
            r.spec_explicit_weekfile() == self.spec_explicit_weekfile(),
            r.spec_weekdiff() == weekdiff,
            r.spec_now() == self.spec_now(),
            r.spec_dirs() == self.spec_dirs(),
            r.spec_config() == self.spec_config(),
    {
        TrackerBuilder { weekdiff, ..self }
    }

    /// Sets the instant to work at.
    pub fn now(self, now: DateTime) -> (r: TrackerBuilder)
        ensures
            r.spec_explicit_weekfile() == self.spec_explicit_weekfile(),
            r.spec_weekdiff() == self.spec_weekdiff(),
            r.spec_now() == now,
            r.spec_dirs() == self.spec_dirs(),
            r.spec_config() == self.spec_config(),
    {
        TrackerBuilder { now, ..self }
    }

    /// Sets the directories of configuration and data.
    pub fn dirs(self, dirs: TrackerDirs) -> (r: TrackerBuilder)
        ensures
            r.spec_explicit_weekfile() == self.spec_explicit_weekfile(),
            r.spec_weekdiff() == self.spec_weekdiff(),
            r.spec_now() == self.spec_now(),
            r.spec_dirs() == dirs,
            r.spec_config() == self.spec_config(),
    {
        TrackerBuilder { dirs, ..self }
    }

    /// Sets the configuration.
    pub fn config(self, config: Config) -> (r: TrackerBuilder)
        ensures
            r.spec_explicit_weekfile() == self.spec_explicit_weekfile(),
            r.spec_weekdiff() == self.spec_weekdiff(),
            r.spec_now() == self.spec_now(),
            r.spec_dirs() == self.spec_dirs(),
            r.spec_config() == Some(config),
    {
        TrackerBuilder { config: Some(config), ..self }
    }

    /// The tracker of these settings; without a configuration, the default one.
    pub fn build(self) -> (r: Tracker)
        ensures
            r.spec_explicit_weekfile() == self.spec_explicit_weekfile(),
            r.spec_weekdiff() == self.spec_weekdiff(),
            r.spec_now() == self.spec_now(),
            r.spec_dirs() == self.spec_dirs(),
            r.spec_config().workweek.days_per_week == match self.spec_config() {
                Some(c) => c.workweek.days_per_week,
                None => crate::config::DEFAULT_WORK_DAYS_PER_WEEK,
            },
            r.spec_config().workweek.hours_per_day == match self.spec_config() {
                Some(c) => c.workweek.hours_per_day,
                None => crate::config::DEFAULT_WORK_HOURS_PER_DAY,
            },
    {
        let config = match self.config {
            Some(c) => c,
            None => Config::default(),
        };
        Tracker {
            explicit_weekfile: self.explicit_weekfile,
            weekdiff: self.weekdiff,
            parser: Parser::new(),
            now: self.now,
            dirs: self.dirs,
            config,
        }
    }
}

} // verus!
