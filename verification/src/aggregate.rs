//! Schedule aggregation: derive per-teacher and per-room weekly views from a
//! set of per-class weekly views.  The output keeps every class entry
//! unchanged and adds one entry per teacher or room referenced by a
//! non-removed tracked entity, holding exactly the lessons that reference it,
//! grouped by date.
use vstd::prelude::*;
use crate::errors::UntisError;
use crate::model::{
    clone_class, clone_entity, clone_lesson, clone_week, eq_entity, ChangeStatus, Class,
    ClassView, DayTimeTable, DayView, Entity, EntityView, LessonBlock, LessonView, TrackedView,
    WeekTimeTable, WeekView,
};

verus! {

/// An occurrence of an entity inside a lesson: the entity, the day the
/// lesson is on, and the lesson itself.
pub type RefView = (EntityView, u64, LessonView);

/// Only teachers and rooms get derived views of their own.
pub open spec fn expandable(e: EntityView) -> bool {
    match e {
        EntityView::Teacher(_) => true,
        EntityView::Room(_) => true,
        _ => false,
    }
}

/// A tracked entry counts when it is not removed and names a teacher or room.
pub open spec fn keep_ref(t: TrackedView) -> bool {
    t.status != ChangeStatus::Removed && expandable(t.inner)
}

/// Occurrences contributed by the tracked entities of one lesson, in order.
pub open spec fn entity_refs(ts: Seq<TrackedView>, date: u64, l: LessonView) -> Seq<RefView>
    decreases ts.len(),
{
    if ts.len() == 0 {
        Seq::empty()
    } else {
        entity_refs(ts.drop_last(), date, l) + if keep_ref(ts.last()) {
            seq![(ts.last().inner, date, l)]
        } else {
            Seq::empty()
        }
    }
}

pub open spec fn lesson_refs(l: LessonView, date: u64) -> Seq<RefView> {
    entity_refs(l.entities, date, l)
}

pub open spec fn lessons_refs(ls: Seq<LessonView>, date: u64) -> Seq<RefView>
    decreases ls.len(),
{
    if ls.len() == 0 {
        Seq::empty()
    } else {
        lessons_refs(ls.drop_last(), date) + lesson_refs(ls.last(), date)
    }
}

pub open spec fn days_refs(ds: Seq<DayView>) -> Seq<RefView>
    decreases ds.len(),
{
    if ds.len() == 0 {
        Seq::empty()
    } else {
        days_refs(ds.drop_last()) + lessons_refs(ds.last().lessons, ds.last().date)
    }
}

pub open spec fn week_refs(w: WeekView) -> Seq<RefView> {
    days_refs(w.days)
}

/// Every occurrence of a teacher or room across the whole input, in scan
/// order.
pub open spec fn all_refs(m: Seq<(ClassView, WeekView)>) -> Seq<RefView>
    decreases m.len(),
{
    if m.len() == 0 {
        Seq::empty()
    } else {
        all_refs(m.drop_last()) + week_refs(m.last().1)
    }
}

/// The distinct entities of the occurrence list, in order of first
/// appearance.
pub open spec fn refs_entities(refs: Seq<RefView>) -> Seq<EntityView>
    decreases refs.len(),
{
    if refs.len() == 0 {
        Seq::empty()
    } else {
        let p = refs_entities(refs.drop_last());
        if p.contains(refs.last().0) {
            p
        } else {
            p.push(refs.last().0)
        }
    }
}

/// The distinct dates on which `e` occurs, in order of first appearance.
pub open spec fn entity_dates(refs: Seq<RefView>, e: EntityView) -> Seq<u64>
    decreases refs.len(),
{
    if refs.len() == 0 {
        Seq::empty()
    } else {
        let p = entity_dates(refs.drop_last(), e);
        if refs.last().0 == e && !p.contains(refs.last().1) {
            p.push(refs.last().1)
        } else {
            p
        }
    }
}

/// The lessons in which `e` occurs on date `d`, in scan order; a lesson that
/// references `e` twice appears twice.
pub open spec fn entity_date_lessons(refs: Seq<RefView>, e: EntityView, d: u64) -> Seq<LessonView>
    decreases refs.len(),
{
    if refs.len() == 0 {
        Seq::empty()
    } else {
        entity_date_lessons(refs.drop_last(), e, d) + if refs.last().0 == e && refs.last().1
            == d {
            seq![refs.last().2]
        } else {
            Seq::empty()
        }
    }
}

/// The derived weekly view of one entity: one day per date that has at least
/// one occurrence, days in order of first appearance.
pub open spec fn derived_week(refs: Seq<RefView>, e: EntityView) -> WeekView {
    WeekView {
        days: entity_dates(refs, e).map_values(
            |d: u64| DayView { date: d, lessons: entity_date_lessons(refs, e, d) },
        ),
    }
}

/// The class entries of the output: the input, keyed as class entities.
pub open spec fn class_entries(m: Seq<(ClassView, WeekView)>) -> Seq<(EntityView, WeekView)> {
    m.map_values(|p: (ClassView, WeekView)| (EntityView::Class(p.0), p.1))
}

/// The derived entries of the output, one per distinct teacher or room.
pub open spec fn derived_entries(m: Seq<(ClassView, WeekView)>) -> Seq<(EntityView, WeekView)> {
    refs_entities(all_refs(m)).map_values(
        |e: EntityView| (e, derived_week(all_refs(m), e)),
    )
}

/// What the aggregator returns: the class entries followed by the derived
/// entries.
pub open spec fn aggregate_spec(m: Seq<(ClassView, WeekView)>) -> Seq<(EntityView, WeekView)> {
    class_entries(m) + derived_entries(m)
}

// ------------------------------------------------------------------
// Collecting the occurrences
// ------------------------------------------------------------------

fn expandable_entity(e: &Entity) -> (r: bool)
    ensures
        r == expandable(e@),
{
    match e {
        Entity::Teacher(_) => true,
        Entity::Room(_) => true,
        _ => false,
    }
}

fn collect_lesson_refs(out: &mut Vec<(Entity, u64, LessonBlock)>, l: &LessonBlock, date: u64)
    ensures
        final(out).deep_view() == old(out).deep_view() + lesson_refs(l@, date),
{
    let ghost base = out.deep_view();
    let mut i: usize = 0;
    proof {
        assert(l@.entities.take(0) =~= Seq::<TrackedView>::empty());
        assert(out.deep_view() =~= base + entity_refs(l@.entities.take(0), date, l@));
    }
    while i < l.entities.len()
        invariant
            i <= l.entities.len(),
            l@.entities.len() == l.entities.len(),
            out.deep_view() == base + entity_refs(l@.entities.take(i as int), date, l@),
        decreases l.entities.len() - i,
    {
        let t = &l.entities[i];
        let ghost prev = out.deep_view();
        let keep = !matches!(t.status, ChangeStatus::Removed) && expandable_entity(&t.inner);
        if keep {
            let e = clone_entity(&t.inner);
            let lc = clone_lesson(l);
            out.push((e, date, lc));
        }
        proof {
            let ts = l@.entities;
            assert(ts.take(i + 1).drop_last() =~= ts.take(i as int));
            assert(ts.take(i + 1).last() == ts[i as int]);
            assert(ts[i as int] == l.entities@[i as int]@);
            assert(keep == keep_ref(ts[i as int]));
            if keep {
                assert(out.deep_view() =~= prev.push((ts[i as int].inner, date, l@)));
                assert(out.deep_view() =~= base + entity_refs(ts.take(i + 1), date, l@));
            } else {
                assert(out.deep_view() =~= base + entity_refs(ts.take(i + 1), date, l@));
            }
        }
        i += 1;
    }
    proof {
        assert(l@.entities.take(l.entities.len() as int) =~= l@.entities);
    }
}

fn collect_day_refs(out: &mut Vec<(Entity, u64, LessonBlock)>, d: &DayTimeTable)
    ensures
        final(out).deep_view() == old(out).deep_view() + lessons_refs(d@.lessons, d@.date),
{
    let ghost base = out.deep_view();
    let mut i: usize = 0;
    proof {
        assert(d@.lessons.take(0) =~= Seq::<LessonView>::empty());
        assert(out.deep_view() =~= base + lessons_refs(d@.lessons.take(0), d@.date));
    }
    while i < d.lessons.len()
        invariant
            i <= d.lessons.len(),
            d@.lessons.len() == d.lessons.len(),
            out.deep_view() == base + lessons_refs(d@.lessons.take(i as int), d@.date),
        decreases d.lessons.len() - i,
    {
        collect_lesson_refs(out, &d.lessons[i], d.date);
        proof {
            let ls = d@.lessons;
            assert(ls.take(i + 1).drop_last() =~= ls.take(i as int));
            assert(ls.take(i + 1).last() == ls[i as int]);
            assert(ls[i as int] == d.lessons@[i as int]@);
        }
        i += 1;
    }
    proof {
        assert(d@.lessons.take(d.lessons.len() as int) =~= d@.lessons);
    }
}

fn collect_week_refs(out: &mut Vec<(Entity, u64, LessonBlock)>, w: &WeekTimeTable)
    ensures
        final(out).deep_view() == old(out).deep_view() + week_refs(w@),
{
    let ghost base = out.deep_view();
    let mut i: usize = 0;
    proof {
        assert(w@.days.take(0) =~= Seq::<DayView>::empty());
        assert(out.deep_view() =~= base + days_refs(w@.days.take(0)));
    }
    while i < w.days.len()
        invariant
            i <= w.days.len(),
            w@.days.len() == w.days.len(),
            out.deep_view() == base + days_refs(w@.days.take(i as int)),
        decreases w.days.len() - i,
    {
        collect_day_refs(out, &w.days[i]);
        proof {
            let ds = w@.days;
            assert(ds.take(i + 1).drop_last() =~= ds.take(i as int));
            assert(ds.take(i + 1).last() == ds[i as int]);
            assert(ds[i as int] == w.days@[i as int]@);
        }
        i += 1;
    }
    proof {
        assert(w@.days.take(w.days.len() as int) =~= w@.days);
    }
}

fn collect_refs(m: &Vec<(Class, WeekTimeTable)>) -> (r: Vec<(Entity, u64, LessonBlock)>)
    ensures
        r.deep_view() == all_refs(m.deep_view()),
{
    let mut out: Vec<(Entity, u64, LessonBlock)> = Vec::new();
    let mut i: usize = 0;
    proof {
        assert(m.deep_view().take(0) =~= Seq::<(ClassView, WeekView)>::empty());
        assert(out.deep_view() =~= Seq::<RefView>::empty() + all_refs(m.deep_view().take(0)));
        assert(Seq::<RefView>::empty() + all_refs(m.deep_view().take(0)) =~= all_refs(
            m.deep_view().take(0),
        ));
    }
    while i < m.len()
        invariant
            i <= m.len(),
            m.deep_view().len() == m.len(),
            out.deep_view() == all_refs(m.deep_view().take(i as int)),
        decreases m.len() - i,
    {
        collect_week_refs(&mut out, &m[i].1);
        proof {
            let mv = m.deep_view();
            assert(mv.take(i + 1).drop_last() =~= mv.take(i as int));
            assert(mv.take(i + 1).last() == mv[i as int]);
            assert(mv[i as int].1 == m@[i as int].1@);
        }
        i += 1;
    }
    proof {
        assert(m.deep_view().take(m.len() as int) =~= m.deep_view());
    }
    out
}

// ------------------------------------------------------------------
// Grouping the occurrences
// ------------------------------------------------------------------

fn contains_entity(v: &Vec<Entity>, e: &Entity) -> (r: bool)
    ensures
        r == v.deep_view().contains(e@),
{
    let mut i: usize = 0;
    while i < v.len()
        invariant
            i <= v.len(),
            forall|k: int| 0 <= k < i ==> v.deep_view()[k] != e@,
        decreases v.len() - i,
    {
        if eq_entity(&v[i], e) {
            proof {
                assert(v.deep_view()[i as int] == e@);
            }
            return true;
        }
        i += 1;
    }
    false
}

fn contains_date(v: &Vec<u64>, d: u64) -> (r: bool)
    ensures
        r == v@.contains(d),
{
    let mut i: usize = 0;
    while i < v.len()
        invariant
            i <= v.len(),
            forall|k: int| 0 <= k < i ==> v@[k] != d,
        decreases v.len() - i,
    {
        if v[i] == d {
            return true;
        }
        i += 1;
    }
    false
}

fn dedup_entities(refs: &Vec<(Entity, u64, LessonBlock)>) -> (r: Vec<Entity>)
    ensures
        r.deep_view() == refs_entities(refs.deep_view()),
{
    let mut out: Vec<Entity> = Vec::new();
    let mut i: usize = 0;
    proof {
        assert(refs.deep_view().take(0) =~= Seq::<RefView>::empty());
        assert(out.deep_view() =~= refs_entities(refs.deep_view().take(0)));
    }
    while i < refs.len()
        invariant
            i <= refs.len(),
            refs.deep_view().len() == refs.len(),
            out.deep_view() == refs_entities(refs.deep_view().take(i as int)),
        decreases refs.len() - i,
    {
        let ghost prev = out.deep_view();
        let seen = contains_entity(&out, &refs[i].0);
        if !seen {
            out.push(clone_entity(&refs[i].0));
        }
        proof {
            let rv = refs.deep_view();
            assert(rv.take(i + 1).drop_last() =~= rv.take(i as int));
            assert(rv.take(i + 1).last() == rv[i as int]);
            assert(rv[i as int].0 == refs@[i as int].0@);
            if !seen {
                assert(out.deep_view() =~= prev.push(rv[i as int].0));
            }
        }
        i += 1;
    }
    proof {
        assert(refs.deep_view().take(refs.len() as int) =~= refs.deep_view());
    }
    out
}

fn dates_for(refs: &Vec<(Entity, u64, LessonBlock)>, e: &Entity) -> (r: Vec<u64>)
    ensures
        r@ == entity_dates(refs.deep_view(), e@),
{
    let mut out: Vec<u64> = Vec::new();
    let mut i: usize = 0;
    proof {
        assert(refs.deep_view().take(0) =~= Seq::<RefView>::empty());
        assert(out@ =~= entity_dates(refs.deep_view().take(0), e@));
    }
    while i < refs.len()
        invariant
            i <= refs.len(),
            refs.deep_view().len() == refs.len(),
            out@ == entity_dates(refs.deep_view().take(i as int), e@),
        decreases refs.len() - i,
    {
        let same = eq_entity(&refs[i].0, e);
        if same {
            let seen = contains_date(&out, refs[i].1);
            if !seen {
                out.push(refs[i].1);
            }
        }
        proof {
            let rv = refs.deep_view();
            assert(rv.take(i + 1).drop_last() =~= rv.take(i as int));
            assert(rv.take(i + 1).last() == rv[i as int]);
            assert(rv[i as int].0 == refs@[i as int].0@);
            assert(rv[i as int].1 == refs@[i as int].1);
        }
        i += 1;
    }
    proof {
        assert(refs.deep_view().take(refs.len() as int) =~= refs.deep_view());
    }
    out
}

fn lessons_for(refs: &Vec<(Entity, u64, LessonBlock)>, e: &Entity, d: u64) -> (r: Vec<LessonBlock>)
    ensures
        r.deep_view() == entity_date_lessons(refs.deep_view(), e@, d),
{
    let mut out: Vec<LessonBlock> = Vec::new();
    let mut i: usize = 0;
    proof {
        assert(refs.deep_view().take(0) =~= Seq::<RefView>::empty());
        assert(out.deep_view() =~= entity_date_lessons(refs.deep_view().take(0), e@, d));
    }
    while i < refs.len()
        invariant
            i <= refs.len(),
            refs.deep_view().len() == refs.len(),
            out.deep_view() == entity_date_lessons(refs.deep_view().take(i as int), e@, d),
        decreases refs.len() - i,
    {
        let ghost prev = out.deep_view();
        let same = eq_entity(&refs[i].0, e);
        if same && refs[i].1 == d {
            out.push(clone_lesson(&refs[i].2));
        }
        proof {
            let rv = refs.deep_view();
            assert(rv.take(i + 1).drop_last() =~= rv.take(i as int));
            assert(rv.take(i + 1).last() == rv[i as int]);
            assert(rv[i as int].0 == refs@[i as int].0@);
            assert(rv[i as int].1 == refs@[i as int].1);
            assert(rv[i as int].2 == refs@[i as int].2@);
            if same && rv[i as int].1 == d {
                assert(out.deep_view() =~= prev.push(rv[i as int].2));
            }
        }
        i += 1;
    }
    proof {
        assert(refs.deep_view().take(refs.len() as int) =~= refs.deep_view());
    }
    out
}

/// Build the full output map: one entry per input class, unchanged, plus one
/// derived entry per teacher or room that a non-removed tracked entity
/// references anywhere in the input.  The selection passes through untouched.
pub fn gen_all_timetables(
    class_results: Vec<(Class, WeekTimeTable)>,
    pre_selected: Option<i32>,
) -> (r: Result<(Vec<(Entity, WeekTimeTable)>, Option<i32>), UntisError>)
    ensures
        r matches Ok(v) && v.0.deep_view() == aggregate_spec(class_results.deep_view()) && v.1
            == pre_selected,
{
    let ghost m = class_results.deep_view();
    let mut out: Vec<(Entity, WeekTimeTable)> = Vec::new();
    let mut i: usize = 0;
    proof {
        assert(out.deep_view() =~= class_entries(m).take(0));
    }
    while i < class_results.len()
        invariant
            i <= class_results.len(),
            m == class_results.deep_view(),
            m.len() == class_results.len(),
            out.deep_view() == class_entries(m).take(i as int),
        decreases class_results.len() - i,
    {
        let ghost prev = out.deep_view();
        let c = clone_class(&class_results[i].0);
        let w = clone_week(&class_results[i].1);
        out.push((Entity::Class(c), w));
        proof {
            assert(m[i as int].0 == class_results@[i as int].0@);
            assert(m[i as int].1 == class_results@[i as int].1@);
            assert(out.deep_view() =~= prev.push((EntityView::Class(m[i as int].0), m[i as int].1)));
            assert(class_entries(m)[i as int] == (EntityView::Class(m[i as int].0), m[i as int].1));
            assert(out.deep_view() =~= class_entries(m).take(i + 1));
        }
        i += 1;
    }
    proof {
        assert(class_entries(m).take(class_entries(m).len() as int) =~= class_entries(m));
    }
    let refs = collect_refs(&class_results);
    let ents = dedup_entities(&refs);
    let ghost rv = refs.deep_view();
    let mut j: usize = 0;
    while j < ents.len()
        invariant
            j <= ents.len(),
            rv == refs.deep_view(),
            rv == all_refs(m),
            ents.deep_view() == refs_entities(rv),
            ents.deep_view().len() == ents.len(),
            out.deep_view() == class_entries(m) + derived_entries(m).take(j as int),
        decreases ents.len() - j,
    {
        let ghost prev = out.deep_view();
        let ghost ev = ents.deep_view()[j as int];
        proof {
            assert(ev == ents@[j as int]@);
        }
        let dates = dates_for(&refs, &ents[j]);
        proof {
            assert(dates@ == entity_dates(rv, ev));
        }
        let mut days: Vec<DayTimeTable> = Vec::new();
        let mut k: usize = 0;
        while k < dates.len()
            invariant
                k <= dates.len(),
                rv == refs.deep_view(),
                j < ents.len(),
                ents.deep_view().len() == ents.len(),
                ev == ents.deep_view()[j as int],
                ev == ents@[j as int]@,
                dates@ == entity_dates(rv, ev),
                days.deep_view().len() == k,
                forall|n: int|
                    0 <= n < k ==> #[trigger] days.deep_view()[n] == (DayView {
                        date: dates@[n],
                        lessons: entity_date_lessons(rv, ev, dates@[n]),
                    }),
            decreases dates.len() - k,
        {
            let ghost prevd = days.deep_view();
            let lessons = lessons_for(&refs, &ents[j], dates[k]);
            proof {
                assert(lessons.deep_view() == entity_date_lessons(rv, ev, dates@[k as int]));
            }
            let day = DayTimeTable { date: dates[k], lessons };
            proof {
                assert(day@ == (DayView {
                    date: dates@[k as int],
                    lessons: entity_date_lessons(rv, ev, dates@[k as int]),
                }));
            }
            days.push(day);
            proof {
                assert(days.deep_view() =~= prevd.push(
                    DayView {
                        date: dates@[k as int],
                        lessons: entity_date_lessons(rv, ev, dates@[k as int]),
                    },
                ));
                assert forall|n: int| 0 <= n < k + 1 implies #[trigger] days.deep_view()[n]
                    == (DayView {
                    date: dates@[n],
                    lessons: entity_date_lessons(rv, ev, dates@[n]),
                }) by {
                    if n < k {
                        assert(days.deep_view()[n] == prevd[n]);
                    }
                }
            }
            k += 1;
        }
        let e = clone_entity(&ents[j]);
        let week = WeekTimeTable { days };
        proof {
            assert(week@.days =~= derived_week(rv, ev).days);
            assert(week@ == derived_week(rv, ev));
            assert(e@ == ev);
        }
        out.push((e, week));
        proof {
            assert(out.deep_view() =~= prev.push((ev, derived_week(rv, ev))));
            assert(derived_entries(m)[j as int] == (ev, derived_week(rv, ev)));
            assert(out.deep_view() =~= class_entries(m) + derived_entries(m).take(j + 1));
        }
        j += 1;
    }
    proof {
        assert(derived_entries(m).take(derived_entries(m).len() as int) =~= derived_entries(m));
        assert(out.deep_view() =~= aggregate_spec(m));
    }
    Ok((out, pre_selected))
}

// ------------------------------------------------------------------
// Completeness and determinism
// ------------------------------------------------------------------

/// A lesson references entity `e` through a tracked entry that is not
/// removed and names a teacher or room.
pub open spec fn lesson_mentions(l: LessonView, e: EntityView) -> bool {
    exists|n: int|
        0 <= n < l.entities.len() && keep_ref(#[trigger] l.entities[n]) && l.entities[n].inner
            == e
}

/// A week holds lesson `l` on a day with date `date`.
pub open spec fn week_has_lesson(w: WeekView, date: u64, l: LessonView) -> bool {
    exists|j: int, k: int|
        0 <= j < w.days.len() && 0 <= k < w.days[j].lessons.len() && w.days[j].date == date && (
        #[trigger] w.days[j].lessons[k]) == l
}

/// Some class schedule of the input holds lesson `l` on date `date`.
pub open spec fn map_has_lesson(m: Seq<(ClassView, WeekView)>, date: u64, l: LessonView) -> bool {
    exists|i: int| 0 <= i < m.len() && week_has_lesson((#[trigger] m[i]).1, date, l)
}

proof fn lemma_concat_contains(a: Seq<RefView>, b: Seq<RefView>, x: RefView)
    ensures
        (a + b).contains(x) <==> a.contains(x) || b.contains(x),
{
    if a.contains(x) {
        let k = choose|k: int| 0 <= k < a.len() && a[k] == x;
        assert((a + b)[k] == x);
    }
    if b.contains(x) {
        let k = choose|k: int| 0 <= k < b.len() && b[k] == x;
        assert((a + b)[a.len() + k] == x);
    }
    if (a + b).contains(x) {
        let k = choose|k: int| 0 <= k < (a + b).len() && (a + b)[k] == x;
        if k < a.len() {
            assert(a[k] == x);
        } else {
            assert(b[k - a.len()] == x);
        }
    }
}

/// The occurrences of one lesson are exactly its qualifying tracked entries.
proof fn lemma_entity_refs_iff(ts: Seq<TrackedView>, date: u64, l: LessonView, x: RefView)
    ensures
        entity_refs(ts, date, l).contains(x) <==> exists|n: int|
            0 <= n < ts.len() && keep_ref(#[trigger] ts[n]) && x == (ts[n].inner, date, l),
    decreases ts.len(),
{
    if ts.len() > 0 {
        lemma_entity_refs_iff(ts.drop_last(), date, l, x);
        let tail = if keep_ref(ts.last()) {
            seq![(ts.last().inner, date, l)]
        } else {
            Seq::<RefView>::empty()
        };
        lemma_concat_contains(entity_refs(ts.drop_last(), date, l), tail, x);
        if entity_refs(ts, date, l).contains(x) {
            if entity_refs(ts.drop_last(), date, l).contains(x) {
                let n = choose|n: int|
                    0 <= n < ts.drop_last().len() && keep_ref(#[trigger] ts.drop_last()[n]) && x
                        == (ts.drop_last()[n].inner, date, l);
                assert(ts[n] == ts.drop_last()[n]);
            } else {
                assert(tail.contains(x));
                assert(x == (ts.last().inner, date, l));
                assert(keep_ref(ts[ts.len() - 1]));
            }
        }
        if exists|n: int|
            0 <= n < ts.len() && keep_ref(#[trigger] ts[n]) && x == (ts[n].inner, date, l) {
            let n = choose|n: int|
                0 <= n < ts.len() && keep_ref(#[trigger] ts[n]) && x == (ts[n].inner, date, l);
            if n < ts.len() - 1 {
                assert(ts.drop_last()[n] == ts[n]);
                assert(entity_refs(ts.drop_last(), date, l).contains(x));
            } else {
                assert(tail[0] == x);
                assert(tail.contains(x));
            }
        }
    }
}

/// The occurrences of a day are exactly those of its lessons.
proof fn lemma_lessons_refs_iff(ls: Seq<LessonView>, date: u64, x: RefView)
    ensures
        lessons_refs(ls, date).contains(x) <==> exists|k: int|
            0 <= k < ls.len() && lesson_refs(#[trigger] ls[k], date).contains(x),
    decreases ls.len(),
{
    if ls.len() > 0 {
        lemma_lessons_refs_iff(ls.drop_last(), date, x);
        lemma_concat_contains(lessons_refs(ls.drop_last(), date), lesson_refs(ls.last(), date), x);
        if lessons_refs(ls, date).contains(x) {
            if lessons_refs(ls.drop_last(), date).contains(x) {
                let k = choose|k: int|
                    0 <= k < ls.drop_last().len() && lesson_refs(
                        #[trigger] ls.drop_last()[k],
                        date,
                    ).contains(x);
                assert(ls[k] == ls.drop_last()[k]);
                assert(lesson_refs(ls[k], date).contains(x));
            } else {
                assert(lesson_refs(ls[ls.len() - 1], date).contains(x));
            }
        }
        if exists|k: int| 0 <= k < ls.len() && lesson_refs(#[trigger] ls[k], date).contains(x) {
            let k = choose|k: int|
                0 <= k < ls.len() && lesson_refs(#[trigger] ls[k], date).contains(x);
            if k < ls.len() - 1 {
                assert(ls.drop_last()[k] == ls[k]);
                assert(lesson_refs(ls.drop_last()[k], date).contains(x));
            }
        }
    }
}

/// The occurrences of a week are exactly those of its days.
proof fn lemma_days_refs_iff(ds: Seq<DayView>, x: RefView)
    ensures
        days_refs(ds).contains(x) <==> exists|j: int|
            0 <= j < ds.len() && lessons_refs((#[trigger] ds[j]).lessons, ds[j].date).contains(x),
    decreases ds.len(),
{
    if ds.len() > 0 {
        lemma_days_refs_iff(ds.drop_last(), x);
        lemma_concat_contains(
            days_refs(ds.drop_last()),
            lessons_refs(ds.last().lessons, ds.last().date),
            x,
        );
        if days_refs(ds).contains(x) {
            if days_refs(ds.drop_last()).contains(x) {
                let j = choose|j: int|
                    0 <= j < ds.drop_last().len() && lessons_refs(
                        (#[trigger] ds.drop_last()[j]).lessons,
                        ds.drop_last()[j].date,
                    ).contains(x);
                assert(ds[j] == ds.drop_last()[j]);
                assert(lessons_refs(ds[j].lessons, ds[j].date).contains(x));
            } else {
                assert(lessons_refs(ds[ds.len() - 1].lessons, ds[ds.len() - 1].date).contains(x));
            }
        }
        if exists|j: int|
            0 <= j < ds.len() && lessons_refs((#[trigger] ds[j]).lessons, ds[j].date).contains(
                x,
            ) {
            let j = choose|j: int|
                0 <= j < ds.len() && lessons_refs(
                    (#[trigger] ds[j]).lessons,
                    ds[j].date,
                ).contains(x);
            if j < ds.len() - 1 {
                assert(ds.drop_last()[j] == ds[j]);
                assert(lessons_refs(ds.drop_last()[j].lessons, ds.drop_last()[j].date).contains(
                    x,
                ));
            }
        }
    }
}

/// The occurrence list holds exactly the qualifying references of the whole
/// input.
proof fn lemma_all_refs_iff(m: Seq<(ClassView, WeekView)>, x: RefView)
    ensures
        all_refs(m).contains(x) <==> exists|i: int|
            0 <= i < m.len() && week_refs((#[trigger] m[i]).1).contains(x),
    decreases m.len(),
{
    if m.len() > 0 {
        lemma_all_refs_iff(m.drop_last(), x);
        lemma_concat_contains(all_refs(m.drop_last()), week_refs(m.last().1), x);
        if all_refs(m).contains(x) {
            if all_refs(m.drop_last()).contains(x) {
                let i = choose|i: int|
                    0 <= i < m.drop_last().len() && week_refs(
                        (#[trigger] m.drop_last()[i]).1,
                    ).contains(x);
                assert(m[i] == m.drop_last()[i]);
                assert(week_refs(m[i].1).contains(x));
            } else {
                assert(week_refs(m[m.len() - 1].1).contains(x));
            }
        }
        if exists|i: int| 0 <= i < m.len() && week_refs((#[trigger] m[i]).1).contains(x) {
            let i = choose|i: int| 0 <= i < m.len() && week_refs((#[trigger] m[i]).1).contains(x);
            if i < m.len() - 1 {
                assert(m.drop_last()[i] == m[i]);
                assert(week_refs(m.drop_last()[i].1).contains(x));
            }
        }
    }
}

/// A reference is in the occurrence list exactly when its lesson stands in
/// the input on its date and mentions its entity.
proof fn lemma_refs_characterize(m: Seq<(ClassView, WeekView)>, x: RefView)
    ensures
        all_refs(m).contains(x) <==> map_has_lesson(m, x.1, x.2) && lesson_mentions(x.2, x.0),
{
    lemma_all_refs_iff(m, x);
    if all_refs(m).contains(x) {
        let i = choose|i: int| 0 <= i < m.len() && week_refs((#[trigger] m[i]).1).contains(x);
        lemma_days_refs_iff(m[i].1.days, x);
        let j = choose|j: int|
            0 <= j < m[i].1.days.len() && lessons_refs(
                (#[trigger] m[i].1.days[j]).lessons,
                m[i].1.days[j].date,
            ).contains(x);
        lemma_lessons_refs_iff(m[i].1.days[j].lessons, m[i].1.days[j].date, x);
        let k = choose|k: int|
            0 <= k < m[i].1.days[j].lessons.len() && lesson_refs(
                #[trigger] m[i].1.days[j].lessons[k],
                m[i].1.days[j].date,
            ).contains(x);
        lemma_entity_refs_iff(
            m[i].1.days[j].lessons[k].entities,
            m[i].1.days[j].date,
            m[i].1.days[j].lessons[k],
            x,
        );
        let n = choose|n: int|
            0 <= n < m[i].1.days[j].lessons[k].entities.len() && keep_ref(
                #[trigger] m[i].1.days[j].lessons[k].entities[n],
            ) && x == (
                m[i].1.days[j].lessons[k].entities[n].inner,
                m[i].1.days[j].date,
                m[i].1.days[j].lessons[k],
            );
        assert(week_has_lesson(m[i].1, x.1, x.2));
        assert(map_has_lesson(m, x.1, x.2));
        assert(lesson_mentions(x.2, x.0));
    }
    if map_has_lesson(m, x.1, x.2) && lesson_mentions(x.2, x.0) {
        let i = choose|i: int| 0 <= i < m.len() && week_has_lesson((#[trigger] m[i]).1, x.1, x.2);
        let (j, k) = choose|j: int, k: int|
            0 <= j < m[i].1.days.len() && 0 <= k < m[i].1.days[j].lessons.len()
                && m[i].1.days[j].date == x.1 && (#[trigger] m[i].1.days[j].lessons[k]) == x.2;
        let n = choose|n: int|
            0 <= n < x.2.entities.len() && keep_ref(#[trigger] x.2.entities[n])
                && x.2.entities[n].inner == x.0;
        lemma_entity_refs_iff(x.2.entities, x.1, x.2, x);
        assert(x == (x.2.entities[n].inner, x.1, x.2));
        assert(lesson_refs(m[i].1.days[j].lessons[k], m[i].1.days[j].date).contains(x));
        lemma_lessons_refs_iff(m[i].1.days[j].lessons, m[i].1.days[j].date, x);
        lemma_days_refs_iff(m[i].1.days, x);
        assert(week_refs(m[i].1).contains(x));
    }
}

/// The first-appearance entity list holds exactly the entities of the
/// occurrence list.
proof fn lemma_refs_entities_iff(refs: Seq<RefView>, e: EntityView)
    ensures
        refs_entities(refs).contains(e) <==> exists|k: int|
            0 <= k < refs.len() && (#[trigger] refs[k]).0 == e,
    decreases refs.len(),
{
    if refs.len() > 0 {
        lemma_refs_entities_iff(refs.drop_last(), e);
        let p = refs_entities(refs.drop_last());
        if refs_entities(refs).contains(e) {
            if p.contains(e) {
                let k = choose|k: int|
                    0 <= k < refs.drop_last().len() && (#[trigger] refs.drop_last()[k]).0 == e;
                assert(refs[k].0 == e);
            } else {
                assert(refs_entities(refs) == p.push(refs.last().0));
                let k = choose|k: int| 0 <= k < p.push(refs.last().0).len() && p.push(
                    refs.last().0,
                )[k] == e;
                if k < p.len() {
                    assert(p.contains(e));
                    assert(false);
                }
                assert(refs[refs.len() - 1].0 == e);
            }
        }
        if exists|k: int| 0 <= k < refs.len() && (#[trigger] refs[k]).0 == e {
            let k = choose|k: int| 0 <= k < refs.len() && (#[trigger] refs[k]).0 == e;
            if k < refs.len() - 1 {
                assert(refs.drop_last()[k].0 == e);
                assert(p.contains(e));
                if !p.contains(refs.last().0) {
                    assert(refs_entities(refs) == p.push(refs.last().0));
                    let n = choose|n: int| 0 <= n < p.len() && p[n] == e;
                    assert(refs_entities(refs)[n] == e);
                }
            } else {
                if p.contains(e) {
                    let n = choose|n: int| 0 <= n < p.len() && p[n] == e;
                    if !p.contains(refs.last().0) {
                        assert(refs_entities(refs)[n] == e);
                    }
                } else {
                    assert(refs_entities(refs) == p.push(e));
                    assert(refs_entities(refs).last() == e);
                }
            }
        }
    }
}

/// Every lesson of a derived day comes from the occurrence list.
proof fn lemma_entity_date_lessons_sound(refs: Seq<RefView>, e: EntityView, d: u64, l: LessonView)
    ensures
        entity_date_lessons(refs, e, d).contains(l) ==> refs.contains((e, d, l)),
    decreases refs.len(),
{
    if refs.len() > 0 {
        lemma_entity_date_lessons_sound(refs.drop_last(), e, d, l);
        let p = entity_date_lessons(refs.drop_last(), e, d);
        let tail = if refs.last().0 == e && refs.last().1 == d {
            seq![refs.last().2]
        } else {
            Seq::<LessonView>::empty()
        };
        if entity_date_lessons(refs, e, d).contains(l) {
            let k = choose|k: int| 0 <= k < (p + tail).len() && (p + tail)[k] == l;
            if k < p.len() {
                assert(p[k] == l);
                assert(p.contains(l));
                assert(refs.drop_last().contains((e, d, l)));
                let n = choose|n: int|
                    0 <= n < refs.drop_last().len() && refs.drop_last()[n] == (e, d, l);
                assert(refs[n] == (e, d, l));
            } else {
                assert(tail[k - p.len()] == l);
                assert(refs.last() == (e, d, l));
                assert(refs[refs.len() - 1] == (e, d, l));
            }
        }
    }
}

/// Aggregator completeness: every teacher or room referenced by a
/// non-removed tracked entity anywhere in the input appears as a key of the
/// output, carrying its derived week; and every lesson under such a key is
/// drawn from some input schedule on that very date, referencing that
/// entity.
pub proof fn lemma_aggregator_completeness(m: Seq<(ClassView, WeekView)>)
    ensures
        forall|date: u64, l: LessonView, e: EntityView|
            #[trigger] map_has_lesson(m, date, l) && #[trigger] lesson_mentions(l, e) ==> exists|
                j: int,
            |
                0 <= j < aggregate_spec(m).len() && (#[trigger] aggregate_spec(m)[j]) == (
                    e,
                    derived_week(all_refs(m), e),
                ),
        forall|e: EntityView, di: int, li: int|
            0 <= di < derived_week(all_refs(m), e).days.len() && 0 <= li < derived_week(
                all_refs(m),
                e,
            ).days[di].lessons.len() ==> map_has_lesson(
                m,
                derived_week(all_refs(m), e).days[di].date,
                #[trigger] derived_week(all_refs(m), e).days[di].lessons[li],
            ) && lesson_mentions(derived_week(all_refs(m), e).days[di].lessons[li], e),
{
    assert forall|date: u64, l: LessonView, e: EntityView|
        #[trigger] map_has_lesson(m, date, l) && #[trigger] lesson_mentions(l, e) implies exists|
        j: int,
    |
        0 <= j < aggregate_spec(m).len() && (#[trigger] aggregate_spec(m)[j]) == (
            e,
            derived_week(all_refs(m), e),
        ) by {
        let x = (e, date, l);
        lemma_refs_characterize(m, x);
        assert(all_refs(m).contains(x));
        let k = choose|k: int| 0 <= k < all_refs(m).len() && all_refs(m)[k] == x;
        lemma_refs_entities_iff(all_refs(m), e);
        assert(refs_entities(all_refs(m)).contains(e));
        let n = choose|n: int|
            0 <= n < refs_entities(all_refs(m)).len() && refs_entities(all_refs(m))[n] == e;
        let j = class_entries(m).len() + n;
        assert(derived_entries(m)[n] == (e, derived_week(all_refs(m), e)));
        assert(aggregate_spec(m)[j] == (e, derived_week(all_refs(m), e)));
    }
    assert forall|e: EntityView, di: int, li: int|
        0 <= di < derived_week(all_refs(m), e).days.len() && 0 <= li < derived_week(
            all_refs(m),
            e,
        ).days[di].lessons.len() implies map_has_lesson(
        m,
        derived_week(all_refs(m), e).days[di].date,
        #[trigger] derived_week(all_refs(m), e).days[di].lessons[li],
    ) && lesson_mentions(derived_week(all_refs(m), e).days[di].lessons[li], e) by {
        let w = derived_week(all_refs(m), e);
        let d = entity_dates(all_refs(m), e)[di];
        assert(w.days[di] == (DayView {
            date: d,
            lessons: entity_date_lessons(all_refs(m), e, d),
        }));
        let l = w.days[di].lessons[li];
        assert(entity_date_lessons(all_refs(m), e, d).contains(l));
        lemma_entity_date_lessons_sound(all_refs(m), e, d, l);
        lemma_refs_characterize(m, (e, d, l));
    }
}

/// Idempotence: the aggregator's output is a function of the input alone, so
/// two runs over the same map yield equal results.
pub proof fn lemma_aggregator_deterministic(
    m: Seq<(ClassView, WeekView)>,
    r1: Seq<(EntityView, WeekView)>,
    r2: Seq<(EntityView, WeekView)>,
)
    requires
        r1 == aggregate_spec(m),
        r2 == aggregate_spec(m),
    ensures
        r1 == r2,
{
}

} // verus!
