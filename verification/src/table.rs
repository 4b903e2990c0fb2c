//! Fixed-width textual rendering of a week: the distinct time-of-day
//! boundaries across the week form the rows of a grid, short uninformative
//! slots are dropped, and each surviving slot is printed as one row per
//! selected column kind with per-cell truncation.
use vstd::prelude::*;
use crate::model::{
    DayView, EntityView, LessonBlock, LessonView, TrackedView, WeekTimeTable, WeekView,
};
use crate::text::{dashes, hhmm, push_dashes, push_hhmm, push_spaces, spaces};

verus! {

/// Width of one day cell in the text grid.
pub const CELL_WIDTH: usize = 12;

/// Slots shorter than this many minutes are dropped unless they carry
/// information of their own.
pub const SHORT_SLOT: u64 = 35;

/// The column kinds the caller can select.
#[derive(Clone, Copy, PartialEq, Eq, Structural, Debug)]
pub enum ColumnKind {
    Subject,
    Teacher,
    Class,
    Room,
    Status,
}

// ------------------------------------------------------------------
// Boundary points
// ------------------------------------------------------------------

/// Minute of the day at which a block starts.
pub open spec fn start_tod(l: LessonView) -> u64 {
    (l.time_range.start % 1440) as u64
}

/// Minute of the day at which a block ends.
pub open spec fn end_tod(l: LessonView) -> u64 {
    (l.time_range.end % 1440) as u64
}

pub open spec fn lessons_tods(ls: Seq<LessonView>) -> Seq<u64>
    decreases ls.len(),
{
    if ls.len() == 0 {
        Seq::empty()
    } else {
        lessons_tods(ls.drop_last()) + seq![start_tod(ls.last()), end_tod(ls.last())]
    }
}

/// Every start and end minute of the week, in scan order, with duplicates.
pub open spec fn week_tods(w: WeekView) -> Seq<u64>
    decreases w.days.len(),
{
    if w.days.len() == 0 {
        Seq::empty()
    } else {
        week_tods(WeekView { days: w.days.drop_last() }) + lessons_tods(w.days.last().lessons)
    }
}

pub open spec fn sorted_strict(b: Seq<u64>) -> bool {
    forall|i: int, j: int| 0 <= i < j < b.len() ==> b[i] < b[j]
}

/// The boundary points of the grid: the distinct start and end minutes of
/// the week, ascending.
pub open spec fn is_boundaries(w: WeekView, b: Seq<u64>) -> bool {
    sorted_strict(b) && forall|t: u64| b.contains(t) <==> week_tods(w).contains(t)
}

/// Two strictly ascending sequences with the same members are equal.
pub proof fn lemma_boundaries_unique(a: Seq<u64>, b: Seq<u64>)
    requires
        sorted_strict(a),
        sorted_strict(b),
        forall|t: u64| a.contains(t) <==> b.contains(t),
    ensures
        a == b,
    decreases a.len(),
{
    if a.len() == 0 {
        if b.len() > 0 {
            assert(b.contains(b[0]));
            assert(a.contains(b[0]));
            assert(false);
        }
        assert(a =~= b);
    } else {
        assert(a.contains(a.last()));
        assert(b.len() > 0) by {
            assert(b.contains(a.last()));
        }
        // the last element of each is its unique maximum, so they agree
        assert(a.last() == b.last()) by {
            assert(b.contains(a.last()));
            let i = choose|i: int| 0 <= i < b.len() && b[i] == a.last();
            if i < b.len() - 1 {
                assert(b[i] < b.last());
            }
            assert(a.last() <= b.last());
            assert(b.contains(b.last()));
            assert(a.contains(b.last()));
            let j = choose|j: int| 0 <= j < a.len() && a[j] == b.last();
            if j < a.len() - 1 {
                assert(a[j] < a.last());
            }
            assert(b.last() <= a.last());
        }
        assert forall|t: u64| a.drop_last().contains(t) <==> b.drop_last().contains(t) by {
            if a.drop_last().contains(t) {
                let i = choose|i: int| 0 <= i < a.drop_last().len() && a.drop_last()[i] == t;
                assert(a[i] == t);
                assert(t < a.last());
                assert(a.contains(t));
                assert(b.contains(t));
                let j = choose|j: int| 0 <= j < b.len() && b[j] == t;
                assert(j < b.len() - 1) by {
                    if j == b.len() - 1 {
                        assert(t == b.last());
                    }
                }
                assert(b.drop_last()[j] == t);
            }
            if b.drop_last().contains(t) {
                let i = choose|i: int| 0 <= i < b.drop_last().len() && b.drop_last()[i] == t;
                assert(b[i] == t);
                assert(t < b.last());
                assert(b.contains(t));
                assert(a.contains(t));
                let j = choose|j: int| 0 <= j < a.len() && a[j] == t;
                assert(j < a.len() - 1) by {
                    if j == a.len() - 1 {
                        assert(t == a.last());
                    }
                }
                assert(a.drop_last()[j] == t);
            }
        }
        assert(sorted_strict(a.drop_last())) by {
            assert(forall|i: int, j: int|
                0 <= i < j < a.drop_last().len() ==> a.drop_last()[i] == a[i] && a.drop_last()[j]
                    == a[j]);
        }
        assert(sorted_strict(b.drop_last())) by {
            assert(forall|i: int, j: int|
                0 <= i < j < b.drop_last().len() ==> b.drop_last()[i] == b[i] && b.drop_last()[j]
                    == b[j]);
        }
        lemma_boundaries_unique(a.drop_last(), b.drop_last());
        assert(a.len() == b.len());
        assert forall|i: int| 0 <= i < a.len() implies a[i] == b[i] by {
            if i < a.len() - 1 {
                assert(a.drop_last()[i] == b.drop_last()[i]);
            }
        }
        assert(a =~= b);
    }
}

fn collect_tods(w: &WeekTimeTable) -> (r: Vec<u64>)
    ensures
        r@ == week_tods(w@),
{
    let mut out: Vec<u64> = Vec::new();
    let mut i: usize = 0;
    proof {
        assert(out@ =~= week_tods(WeekView { days: w@.days.take(0) }));
    }
    while i < w.days.len()
        invariant
            i <= w.days.len(),
            w@.days.len() == w.days.len(),
            out@ == week_tods(WeekView { days: w@.days.take(i as int) }),
        decreases w.days.len() - i,
    {
        let d = &w.days[i];
        let ghost base = out@;
        let mut k: usize = 0;
        proof {
            assert(out@ =~= base + lessons_tods(d@.lessons.take(0)));
        }
        while k < d.lessons.len()
            invariant
                k <= d.lessons.len(),
                d@.lessons.len() == d.lessons.len(),
                d@ == w@.days[i as int],
                i < w.days.len(),
                out@ == base + lessons_tods(d@.lessons.take(k as int)),
            decreases d.lessons.len() - k,
        {
            let ghost prev = out@;
            out.push(d.lessons[k].time_range.start % 1440);
            out.push(d.lessons[k].time_range.end % 1440);
            proof {
                let ls = d@.lessons;
                assert(ls.take(k + 1).drop_last() =~= ls.take(k as int));
                assert(ls.take(k + 1).last() == ls[k as int]);
                assert(ls[k as int] == d.lessons@[k as int]@);
                assert(out@ =~= prev + seq![start_tod(ls[k as int]), end_tod(ls[k as int])]);
                assert(out@ =~= base + lessons_tods(ls.take(k + 1)));
            }
            k += 1;
        }
        proof {
            assert(d@.lessons.take(d.lessons.len() as int) =~= d@.lessons);
            let ds = w@.days;
            assert(ds.take(i + 1).drop_last() =~= ds.take(i as int));
            assert(ds.take(i + 1).last() == ds[i as int]);
            assert((WeekView { days: ds.take(i + 1) }).days.drop_last() =~= ds.take(i as int));
            assert(out@ =~= week_tods(WeekView { days: ds.take(i + 1) }));
        }
        i += 1;
    }
    proof {
        assert(w@.days.take(w.days.len() as int) =~= w@.days);
    }
    out
}

/// The distinct start and end minutes of the week, ascending.
pub fn boundary_points(w: &WeekTimeTable) -> (r: Vec<u64>)
    ensures
        is_boundaries(w@, r@),
{
    let tods = collect_tods(w);
    let mut out: Vec<u64> = Vec::new();
    let mut i: usize = 0;
    proof {
        assert(forall|t: u64| out@.contains(t) <==> tods@.take(0).contains(t));
    }
    while i < tods.len()
        invariant
            i <= tods.len(),
            sorted_strict(out@),
            forall|t: u64| out@.contains(t) <==> tods@.take(i as int).contains(t),
        decreases tods.len() - i,
    {
        let x = tods[i];
        let mut j: usize = 0;
        while j < out.len() && out[j] < x
            invariant
                j <= out.len(),
                sorted_strict(out@),
                forall|k: int| 0 <= k < j ==> out@[k] < x,
            decreases out.len() - j,
        {
            j += 1;
        }
        let ghost prev = out@;
        let present = j < out.len() && out[j] == x;
        if !present {
            out.insert(j, x);
        }
        proof {
            let tv = tods@;
            assert(tv.take(i + 1).drop_last() =~= tv.take(i as int));
            assert(tv.take(i + 1).last() == tv[i as int]);
            if !present {
                assert(out@ =~= prev.take(j as int) + seq![x] + prev.skip(j as int));
                assert forall|a: int, b: int| 0 <= a < b < out@.len() implies out@[a] < out@[b] by {
                    let pa = if a < j {
                        a
                    } else {
                        a - 1
                    };
                    let pb = if b < j {
                        b
                    } else {
                        b - 1
                    };
                    if a == j {
                        assert(out@[a] == x);
                        assert(out@[b] == prev[pb]);
                        assert(pb >= j);
                        if pb == j {
                            assert(!(prev[pb] < x) && prev[pb] != x);
                        } else {
                            assert(prev[j as int] <= prev[pb]) by {
                                assert(!(prev[j as int] < x) && prev[j as int] != x);
                            }
                        }
                    } else if b == j {
                        assert(out@[b] == x);
                        assert(out@[a] == prev[pa]);
                        assert(pa < j);
                    } else {
                        assert(out@[a] == prev[pa] && out@[b] == prev[pb]);
                        if pa < pb {
                        } else {
                            assert(pa == pb && a < j && b > j);
                            assert(prev[pa] < x && !(prev[pb] < x));
                        }
                    }
                }
                assert forall|t: u64| out@.contains(t) <==> tods@.take(i + 1).contains(t) by {
                    if out@.contains(t) {
                        let k = choose|k: int| 0 <= k < out@.len() && out@[k] == t;
                        if k == j {
                            assert(tods@.take(i + 1)[i as int] == x);
                        } else {
                            let pk = if k < j {
                                k
                            } else {
                                k - 1
                            };
                            assert(prev[pk] == t);
                            assert(prev.contains(t));
                            assert(tods@.take(i as int).contains(t));
                            let n = choose|n: int|
                                0 <= n < tods@.take(i as int).len() && #[trigger] tods@.take(
                                    i as int,
                                )[n] == t;
                            assert(tods@.take(i + 1)[n] == t);
                        }
                    }
                    if tods@.take(i + 1).contains(t) {
                        let n = choose|n: int|
                            0 <= n < tods@.take(i + 1).len() && #[trigger] tods@.take(i + 1)[n]
                                == t;
                        if n < i {
                            assert(tods@.take(i as int)[n] == t);
                            assert(tods@.take(i as int).contains(t));
                            assert(prev.contains(t));
                            let k = choose|k: int| 0 <= k < prev.len() && prev[k] == t;
                            if k < j {
                                assert(out@[k] == t);
                            } else {
                                assert(out@[k + 1] == t);
                            }
                        } else {
                            assert(t == x);
                            assert(out@[j as int] == x);
                        }
                    }
                }
            } else {
                assert(out@.contains(x)) by {
                    assert(out@[j as int] == x);
                }
                assert forall|t: u64| out@.contains(t) <==> tods@.take(i + 1).contains(t) by {
                    if out@.contains(t) {
                        assert(tods@.take(i as int).contains(t));
                        let n = choose|n: int|
                            0 <= n < tods@.take(i as int).len() && tods@.take(i as int)[n] == t;
                        assert(tods@.take(i + 1)[n] == t);
                    }
                    if tods@.take(i + 1).contains(t) {
                        let n = choose|n: int|
                            0 <= n < tods@.take(i + 1).len() && #[trigger] tods@.take(i + 1)[n]
                                == t;
                        if n < i {
                            assert(tods@.take(i as int)[n] == t);
                            assert(tods@.take(i as int).contains(t));
                        } else {
                            assert(t == x);
                        }
                    }
                }
            }
        }
        i += 1;
    }
    proof {
        assert(tods@.take(tods.len() as int) =~= tods@);
    }
    out
}

// ------------------------------------------------------------------
// Slot selection
// ------------------------------------------------------------------

/// A lesson's time-of-day interval intersects the slot `[s, e)`.
pub open spec fn intersects(l: LessonView, s: u64, e: u64) -> bool {
    start_tod(l) < e && s < end_tod(l)
}

/// A lesson strictly spans past both ends of the slot.
pub open spec fn spans(l: LessonView, s: u64, e: u64) -> bool {
    start_tod(l) < s && end_tod(l) > e
}

pub open spec fn week_has_intersecting(w: WeekView, s: u64, e: u64) -> bool {
    exists|j: int, k: int|
        0 <= j < w.days.len() && 0 <= k < w.days[j].lessons.len() && intersects(
            #[trigger] w.days[j].lessons[k],
            s,
            e,
        )
}

/// Some lesson meets the slot without strictly spanning past both of its
/// ends: the slot carries information of its own.
pub open spec fn week_has_informative(w: WeekView, s: u64, e: u64) -> bool {
    exists|j: int, k: int|
        0 <= j < w.days.len() && 0 <= k < w.days[j].lessons.len() && intersects(
            #[trigger] w.days[j].lessons[k],
            s,
            e,
        ) && !spans(w.days[j].lessons[k], s, e)
}

/// A candidate slot survives: some lesson meets it, and short slots must be
/// informative.
pub open spec fn slot_kept(w: WeekView, s: u64, e: u64) -> bool {
    week_has_intersecting(w, s, e) && (e - s >= SHORT_SLOT || week_has_informative(w, s, e))
}

fn check_intersecting(w: &WeekTimeTable, s: u64, e: u64) -> (r: bool)
    ensures
        r == week_has_intersecting(w@, s, e),
{
    let mut j: usize = 0;
    while j < w.days.len()
        invariant
            j <= w.days.len(),
            w@.days.len() == w.days.len(),
            forall|a: int, b: int|
                0 <= a < j && 0 <= b < w@.days[a].lessons.len() ==> !intersects(
                    #[trigger] w@.days[a].lessons[b],
                    s,
                    e,
                ),
        decreases w.days.len() - j,
    {
        let d = &w.days[j];
        let mut k: usize = 0;
        while k < d.lessons.len()
            invariant
                k <= d.lessons.len(),
                d@.lessons.len() == d.lessons.len(),
                d@ == w@.days[j as int],
                j < w.days.len(),
                forall|b: int| 0 <= b < k ==> !intersects(#[trigger] d@.lessons[b], s, e),
            decreases d.lessons.len() - k,
        {
            let l = &d.lessons[k];
            if l.time_range.start % 1440 < e && s < l.time_range.end % 1440 {
                proof {
                    assert(intersects(w@.days[j as int].lessons[k as int], s, e));
                }
                return true;
            }
            k += 1;
        }
        j += 1;
    }
    false
}

fn check_informative(w: &WeekTimeTable, s: u64, e: u64) -> (r: bool)
    ensures
        r == week_has_informative(w@, s, e),
{
    let mut j: usize = 0;
    while j < w.days.len()
        invariant
            j <= w.days.len(),
            w@.days.len() == w.days.len(),
            forall|a: int, b: int|
                0 <= a < j && 0 <= b < w@.days[a].lessons.len() ==> !(intersects(
                    #[trigger] w@.days[a].lessons[b],
                    s,
                    e,
                ) && !spans(w@.days[a].lessons[b], s, e)),
        decreases w.days.len() - j,
    {
        let d = &w.days[j];
        let mut k: usize = 0;
        while k < d.lessons.len()
            invariant
                k <= d.lessons.len(),
                d@.lessons.len() == d.lessons.len(),
                d@ == w@.days[j as int],
                j < w.days.len(),
                forall|b: int|
                    0 <= b < k ==> !(intersects(#[trigger] d@.lessons[b], s, e) && !spans(
                        d@.lessons[b],
                        s,
                        e,
                    )),
            decreases d.lessons.len() - k,
        {
            let l = &d.lessons[k];
            let stod = l.time_range.start % 1440;
            let etod = l.time_range.end % 1440;
            if stod < e && s < etod && !(stod < s && etod > e) {
                proof {
                    assert(intersects(w@.days[j as int].lessons[k as int], s, e));
                    assert(!spans(w@.days[j as int].lessons[k as int], s, e));
                }
                return true;
            }
            k += 1;
        }
        j += 1;
    }
    false
}

// ------------------------------------------------------------------
// Cell and row text
// ------------------------------------------------------------------

/// The value an entity contributes to a column, if any.
pub open spec fn entity_value(e: EntityView, c: ColumnKind) -> Option<Seq<char>> {
    match (c, e) {
        (ColumnKind::Subject, EntityView::Subject(sn, _, _)) => Some(sn),
        (ColumnKind::Teacher, EntityView::Teacher(t)) => Some(t.short_name),
        (ColumnKind::Class, EntityView::Class(cl)) => Some(cl.name),
        (ColumnKind::Room, EntityView::Room(n)) => Some(n),
        _ => None,
    }
}

pub open spec fn tracked_values(ts: Seq<TrackedView>, c: ColumnKind) -> Seq<Seq<char>>
    decreases ts.len(),
{
    if ts.len() == 0 {
        Seq::empty()
    } else {
        tracked_values(ts.drop_last(), c) + match entity_value(ts.last().inner, c) {
            Some(v) => seq![v],
            None => Seq::empty(),
        }
    }
}

/// The values one lesson contributes to a column.
pub open spec fn lesson_values(l: LessonView, c: ColumnKind) -> Seq<Seq<char>> {
    if c == ColumnKind::Status {
        seq![l.status]
    } else {
        tracked_values(l.entities, c)
    }
}

/// Join pieces with a separator.
pub open spec fn join(parts: Seq<Seq<char>>, sep: Seq<char>) -> Seq<char>
    decreases parts.len(),
{
    if parts.len() == 0 {
        Seq::empty()
    } else if parts.len() == 1 {
        parts[0]
    } else {
        join(parts.drop_last(), sep) + sep + parts.last()
    }
}

/// One lesson's text for a column: its values joined with ",".
pub open spec fn lesson_cell_text(l: LessonView, c: ColumnKind) -> Seq<char> {
    join(lesson_values(l, c), ","@)
}

/// The texts of the lessons of one day that meet the slot, in order.
pub open spec fn day_parts(ls: Seq<LessonView>, c: ColumnKind, s: u64, e: u64) -> Seq<Seq<char>>
    decreases ls.len(),
{
    if ls.len() == 0 {
        Seq::empty()
    } else {
        day_parts(ls.drop_last(), c, s, e) + if intersects(ls.last(), s, e) {
            seq![lesson_cell_text(ls.last(), c)]
        } else {
            Seq::empty()
        }
    }
}

/// A cell, truncated with a trailing ellipsis or padded to the fixed width.
pub open spec fn truncate_pad(t: Seq<char>) -> Seq<char> {
    if t.len() > CELL_WIDTH {
        t.take(CELL_WIDTH - 3) + "..."@
    } else {
        t + spaces(CELL_WIDTH - t.len())
    }
}

/// The finished cell of one day for one column and slot.
pub open spec fn day_cell(d: DayView, c: ColumnKind, s: u64, e: u64) -> Seq<char> {
    truncate_pad(join(day_parts(d.lessons, c, s, e), " / "@))
}

/// The cells of a row: a "|" before each day's cell.
pub open spec fn row_cells(ds: Seq<DayView>, c: ColumnKind, s: u64, e: u64) -> Seq<char>
    decreases ds.len(),
{
    if ds.len() == 0 {
        Seq::empty()
    } else {
        row_cells(ds.drop_last(), c, s, e) + "|"@ + day_cell(ds.last(), c, s, e)
    }
}

/// The time field of row `idx`: the slot's start on the first row, its end on
/// the second, blank after that.
pub open spec fn time_field(idx: int, s: u64, e: u64) -> Seq<char> {
    if idx == 0 {
        hhmm(s as int)
    } else if idx == 1 {
        hhmm(e as int)
    } else {
        spaces(5)
    }
}

/// One full row of the grid.
pub open spec fn row_text(w: WeekView, c: ColumnKind, s: u64, e: u64, idx: int) -> Seq<char> {
    time_field(idx, s, e) + row_cells(w.days, c, s, e) + "|\n"@
}

/// The rows of one slot, one per selected column.
pub open spec fn slot_rows(w: WeekView, cs: Seq<ColumnKind>, s: u64, e: u64) -> Seq<char>
    decreases cs.len(),
{
    if cs.len() == 0 {
        Seq::empty()
    } else {
        slot_rows(w, cs.drop_last(), s, e) + row_text(w, cs.last(), s, e, cs.len() - 1)
    }
}

/// Total width of one row, without the newline.
pub open spec fn row_width(w: WeekView) -> int {
    5 + w.days.len() * (CELL_WIDTH + 1) + 1
}

/// One slot's row group followed by its border row.
pub open spec fn group_text(w: WeekView, cs: Seq<ColumnKind>, s: u64, e: u64) -> Seq<char> {
    slot_rows(w, cs, s, e) + dashes(row_width(w)) + "\n"@
}

/// The whole table over the boundary list: the groups of the surviving
/// slots, in order.
pub open spec fn slots_text(w: WeekView, cs: Seq<ColumnKind>, b: Seq<u64>) -> Seq<char>
    decreases b.len(),
{
    if b.len() <= 1 {
        Seq::empty()
    } else {
        slots_text(w, cs, b.drop_last()) + if slot_kept(w, b[b.len() - 2], b[b.len() - 1]) {
            group_text(w, cs, b[b.len() - 2], b[b.len() - 1])
        } else {
            Seq::empty()
        }
    }
}

/// The selected columns, in their fixed order.
pub open spec fn enabled_columns(
    subject: bool,
    teacher: bool,
    class: bool,
    room: bool,
    status: bool,
) -> Seq<ColumnKind> {
    (if subject {
        seq![ColumnKind::Subject]
    } else {
        Seq::empty()
    }) + (if teacher {
        seq![ColumnKind::Teacher]
    } else {
        Seq::empty()
    }) + (if class {
        seq![ColumnKind::Class]
    } else {
        Seq::empty()
    }) + (if room {
        seq![ColumnKind::Room]
    } else {
        Seq::empty()
    }) + (if status {
        seq![ColumnKind::Status]
    } else {
        Seq::empty()
    })
}

pub open spec fn week_has_any_lesson(w: WeekView) -> bool {
    exists|j: int| 0 <= j < w.days.len() && (#[trigger] w.days[j]).lessons.len() > 0
}

// ------------------------------------------------------------------
// Executable rendering
// ------------------------------------------------------------------

fn lesson_cell(l: &LessonBlock, c: ColumnKind) -> (r: String)
    ensures
        r@ == lesson_cell_text(l@, c),
{
    let mut parts: Vec<String> = Vec::new();
    if matches!(c, ColumnKind::Status) {
        parts.push(l.status.clone());
        proof {
            assert(parts.deep_view() =~= lesson_values(l@, c));
        }
    } else {
        let mut i: usize = 0;
        proof {
            assert(parts.deep_view() =~= tracked_values(l@.entities.take(0), c));
        }
        while i < l.entities.len()
            invariant
                i <= l.entities.len(),
                l@.entities.len() == l.entities.len(),
                !(c matches ColumnKind::Status),
                parts.deep_view() == tracked_values(l@.entities.take(i as int), c),
            decreases l.entities.len() - i,
        {
            let ghost prev = parts.deep_view();
            let t = &l.entities[i];
            match (&c, &t.inner) {
                (ColumnKind::Subject, crate::model::Entity::Subject(sub)) => {
                    parts.push(sub.short_name.clone());
                },
                (ColumnKind::Teacher, crate::model::Entity::Teacher(te)) => {
                    parts.push(te.short_name.clone());
                },
                (ColumnKind::Class, crate::model::Entity::Class(cl)) => {
                    parts.push(cl.name.clone());
                },
                (ColumnKind::Room, crate::model::Entity::Room(ro)) => {
                    parts.push(ro.name.clone());
                },
                _ => {},
            }
            proof {
                let ts = l@.entities;
                assert(ts.take(i + 1).drop_last() =~= ts.take(i as int));
                assert(ts.take(i + 1).last() == ts[i as int]);
                assert(ts[i as int] == l.entities@[i as int]@);
                assert(parts.deep_view() =~= tracked_values(ts.take(i + 1), c));
            }
            i += 1;
        }
        proof {
            assert(l@.entities.take(l.entities.len() as int) =~= l@.entities);
        }
    }
    join_strings(&parts, ",")
}

fn join_strings(parts: &Vec<String>, sep: &str) -> (r: String)
    ensures
        r@ == join(parts.deep_view(), sep@),
{
    let mut out = String::new();
    let mut i: usize = 0;
    proof {
        assert(out@ =~= join(parts.deep_view().take(0), sep@));
    }
    while i < parts.len()
        invariant
            i <= parts.len(),
            parts.deep_view().len() == parts.len(),
            out@ == join(parts.deep_view().take(i as int), sep@),
        decreases parts.len() - i,
    {
        if i > 0 {
            out.append(sep);
        }
        out.append(parts[i].as_str());
        proof {
            let pv = parts.deep_view();
            assert(pv.take(i + 1).drop_last() =~= pv.take(i as int));
            assert(pv.take(i + 1).last() == pv[i as int]);
            assert(pv[i as int] == parts@[i as int]@);
            if i == 0 {
                assert(pv.take(1).len() == 1);
                assert(out@ =~= join(pv.take(1), sep@));
            } else {
                assert(out@ =~= join(pv.take(i + 1), sep@));
            }
        }
        i += 1;
    }
    proof {
        assert(parts.deep_view().take(parts.len() as int) =~= parts.deep_view());
    }
    out
}

fn day_cell_string(d: &crate::model::DayTimeTable, c: ColumnKind, s: u64, e: u64) -> (r: String)
    ensures
        r@ == day_cell(d@, c, s, e),
{
    let mut parts: Vec<String> = Vec::new();
    let mut k: usize = 0;
    proof {
        assert(parts.deep_view() =~= day_parts(d@.lessons.take(0), c, s, e));
    }
    while k < d.lessons.len()
        invariant
            k <= d.lessons.len(),
            d@.lessons.len() == d.lessons.len(),
            parts.deep_view() == day_parts(d@.lessons.take(k as int), c, s, e),
        decreases d.lessons.len() - k,
    {
        let ghost prev = parts.deep_view();
        let l = &d.lessons[k];
        if l.time_range.start % 1440 < e && s < l.time_range.end % 1440 {
            parts.push(lesson_cell(l, c));
        }
        proof {
            let ls = d@.lessons;
            assert(ls.take(k + 1).drop_last() =~= ls.take(k as int));
            assert(ls.take(k + 1).last() == ls[k as int]);
            assert(ls[k as int] == d.lessons@[k as int]@);
            assert(parts.deep_view() =~= day_parts(ls.take(k + 1), c, s, e));
        }
        k += 1;
    }
    proof {
        assert(d@.lessons.take(d.lessons.len() as int) =~= d@.lessons);
    }
    let raw = join_strings(&parts, " / ");
    let n = raw.as_str().unicode_len();
    let mut out = String::new();
    if n > CELL_WIDTH {
        let head = raw.as_str().substring_char(0, CELL_WIDTH - 3);
        out.append(head);
        out.append("...");
        proof {
            assert(out@ =~= truncate_pad(raw@));
        }
    } else {
        out.append(raw.as_str());
        push_spaces(&mut out, CELL_WIDTH - n);
        proof {
            assert(out@ =~= truncate_pad(raw@));
        }
    }
    out
}

/// Render a week as a fixed-width text grid.  Every distinct start or end
/// minute across the week becomes a boundary; each surviving slot between
/// consecutive boundaries is printed as one row per selected column, with the
/// slot's start and end times in the first column and a border row after each
/// slot.  A week without lessons renders as "No lessons".
#[verifier::rlimit(100)]
pub fn render_table(
    week: &WeekTimeTable,
    subject: bool,
    teacher: bool,
    class: bool,
    room: bool,
    status: bool,
) -> (r: String)
    requires
        week@.days.len() <= 1024,
    ensures
        !week_has_any_lesson(week@) ==> r@ == "No lessons"@,
        week_has_any_lesson(week@) ==> forall|b: Seq<u64>|
            is_boundaries(week@, b) ==> r@ == slots_text(
                week@,
                enabled_columns(subject, teacher, class, room, status),
                b,
            ),
{
    let mut any = false;
    let mut j: usize = 0;
    while j < week.days.len()
        invariant
            j <= week.days.len(),
            week@.days.len() == week.days.len(),
            any == exists|a: int| 0 <= a < j && (#[trigger] week@.days[a]).lessons.len() > 0,
        decreases week.days.len() - j,
    {
        if week.days[j].lessons.len() > 0 {
            proof {
                assert(week@.days[j as int].lessons.len() > 0);
            }
            any = true;
        }
        j += 1;
    }
    if !any {
        let r = "No lessons".to_owned();
        return r;
    }
    let mut cols: Vec<ColumnKind> = Vec::new();
    if subject {
        cols.push(ColumnKind::Subject);
    }
    if teacher {
        cols.push(ColumnKind::Teacher);
    }
    if class {
        cols.push(ColumnKind::Class);
    }
    if room {
        cols.push(ColumnKind::Room);
    }
    if status {
        cols.push(ColumnKind::Status);
    }
    proof {
        assert(cols@ =~= enabled_columns(subject, teacher, class, room, status));
    }
    let b = boundary_points(week);
    let ghost bv = b@;
    let mut out = String::new();
    if b.len() == 0 {
        proof {
            assert forall|bb: Seq<u64>| is_boundaries(week@, bb) implies out@ == slots_text(
                week@,
                cols@,
                bb,
            ) by {
                lemma_boundaries_unique(bv, bb);
                assert(out@ =~= slots_text(week@, cols@, bb));
            }
        }
        return out;
    }
    let mut i: usize = 1;
    proof {
        assert(bv.take(1).len() == 1);
        assert(out@ =~= slots_text(week@, cols@, bv.take(1)));
    }
    while i < b.len()
        invariant
            1 <= i <= b.len(),
            bv == b@,
            is_boundaries(week@, bv),
            week@.days.len() == week.days.len(),
            week@.days.len() <= 1024,
            cols@ == enabled_columns(subject, teacher, class, room, status),
            out@ == slots_text(week@, cols@, bv.take(i as int)),
        decreases b.len() - i,
    {
        let s = b[i - 1];
        let e = b[i];
        proof {
            assert(sorted_strict(bv));
            assert(bv[i - 1] < bv[i as int]);
            assert(bv.contains(s)) by {
                assert(bv[i - 1] == s);
            }
            assert(bv.contains(e)) by {
                assert(bv[i as int] == e);
            }
            lemma_tods_bounded(week@, s);
            lemma_tods_bounded(week@, e);
        }
        let keep = check_intersecting(week, s, e) && (e - s >= SHORT_SLOT || check_informative(
            week,
            s,
            e,
        ));
        proof {
            assert(keep == slot_kept(week@, s, e));
        }
        let ghost prev_out = out@;
        if keep {
            let mut ci: usize = 0;
            proof {
                assert(out@ =~= prev_out + slot_rows(week@, cols@.take(0), s, e));
            }
            while ci < cols.len()
                invariant
                    ci <= cols.len(),
                    cols@.len() == cols.len(),
                    week@.days.len() == week.days.len(),
                    week@.days.len() <= 1024,
                    s < 1440,
                    e < 1440,
                    out@ == prev_out + slot_rows(week@, cols@.take(ci as int), s, e),
                decreases cols.len() - ci,
            {
                push_row(&mut out, week, cols[ci], s, e, ci);
                proof {
                    assert(cols@.take(ci + 1).drop_last() =~= cols@.take(ci as int));
                    assert(cols@.take(ci + 1).last() == cols@[ci as int]);
                    assert(cols@.take(ci + 1).len() - 1 == ci as int);
                    assert(out@ =~= prev_out + slot_rows(week@, cols@.take(ci + 1), s, e));
                }
                ci += 1;
            }
            proof {
                assert(cols@.take(cols.len() as int) =~= cols@);
            }
            let width = 5 + week.days.len() * (CELL_WIDTH + 1) + 1;
            push_dashes(&mut out, width);
            out.append("\n");
            proof {
                assert(out@ =~= prev_out + group_text(week@, cols@, s, e));
            }
        }
        proof {
            assert(bv.take(i + 1).drop_last() =~= bv.take(i as int));
            assert(bv.take(i + 1)[i as int] == e);
            assert(bv.take(i + 1)[i - 1] == s);
            assert(bv.take(i + 1).len() == i + 1);
            assert(out@ =~= slots_text(week@, cols@, bv.take(i + 1)));
        }
        i += 1;
    }
    proof {
        assert(bv.take(b.len() as int) =~= bv);
        assert(out@ == slots_text(week@, cols@, bv));
        assert forall|bb: Seq<u64>| is_boundaries(week@, bb) implies out@ == slots_text(
            week@,
            cols@,
            bb,
        ) by {
            lemma_boundaries_unique(bv, bb);
        }
    }
    out
}

/// Append one full row: the time field, one cell per day, a closing pipe and
/// a newline.
fn push_row(out: &mut String, week: &WeekTimeTable, c: ColumnKind, s: u64, e: u64, idx: usize)
    requires
        s < 1440,
        e < 1440,
    ensures
        final(out)@ == old(out)@ + row_text(week@, c, s, e, idx as int),
{
    let ghost row_base = out@;
    if idx == 0 {
        push_hhmm(out, s);
    } else if idx == 1 {
        push_hhmm(out, e);
    } else {
        push_spaces(out, 5);
    }
    proof {
        assert(out@ =~= row_base + time_field(idx as int, s, e));
    }
    let ghost cells_base = out@;
    let mut dj: usize = 0;
    proof {
        assert(out@ =~= cells_base + row_cells(week@.days.take(0), c, s, e));
    }
    while dj < week.days.len()
        invariant
            dj <= week.days.len(),
            week@.days.len() == week.days.len(),
            out@ == cells_base + row_cells(week@.days.take(dj as int), c, s, e),
        decreases week.days.len() - dj,
    {
        out.append("|");
        let cell = day_cell_string(&week.days[dj], c, s, e);
        out.append(cell.as_str());
        proof {
            let ds = week@.days;
            assert(ds.take(dj + 1).drop_last() =~= ds.take(dj as int));
            assert(ds.take(dj + 1).last() == ds[dj as int]);
            assert(ds[dj as int] == week.days@[dj as int]@);
            assert(out@ =~= cells_base + row_cells(ds.take(dj + 1), c, s, e));
        }
        dj += 1;
    }
    out.append("|\n");
    proof {
        assert(week@.days.take(week.days.len() as int) =~= week@.days);
        reveal_strlit("|\n");
        assert(out@ =~= row_base + row_text(week@, c, s, e, idx as int));
    }
}

/// Every boundary minute is a minute of the day.
proof fn lemma_tods_bounded(w: WeekView, t: u64)
    requires
        week_tods(w).contains(t),
    ensures
        t < 1440,
    decreases w.days.len(),
{
    if w.days.len() > 0 {
        let prefix = WeekView { days: w.days.drop_last() };
        let tail = lessons_tods(w.days.last().lessons);
        let k = choose|k: int| 0 <= k < week_tods(w).len() && week_tods(w)[k] == t;
        if k < week_tods(prefix).len() {
            assert(week_tods(prefix)[k] == t);
            assert(week_tods(prefix).contains(t));
            lemma_tods_bounded(prefix, t);
        } else {
            assert(tail[k - week_tods(prefix).len()] == t);
            assert(tail.contains(t));
            lemma_lessons_tods_bounded(w.days.last().lessons, t);
        }
    }
}

proof fn lemma_lessons_tods_bounded(ls: Seq<LessonView>, t: u64)
    requires
        lessons_tods(ls).contains(t),
    ensures
        t < 1440,
    decreases ls.len(),
{
    if ls.len() > 0 {
        let prefix = lessons_tods(ls.drop_last());
        let k = choose|k: int| 0 <= k < lessons_tods(ls).len() && lessons_tods(ls)[k] == t;
        if k < prefix.len() {
            assert(prefix[k] == t);
            assert(prefix.contains(t));
            lemma_lessons_tods_bounded(ls.drop_last(), t);
        } else {
            assert(seq![start_tod(ls.last()), end_tod(ls.last())][k - prefix.len()] == t);
        }
    }
}

} // verus!
