//! Answer shapes of the remote timetable service and their cleaning into the
//! engine's own model: resources become entities, positions become tracked
//! entities, grid entries become lesson blocks and day entries become day
//! tables.  Malformed data is rejected here, before it reaches the engine.
use vstd::prelude::*;
use crate::errors::UntisError;
use crate::model::{
    ChangeStatus, Class, ClassView, DayTimeTable, DayView, Department, DepartmentView, Entity,
    EntityView, Info, LessonBlock, LessonView, Room, Subject, Teacher, TeacherView, TextEntry,
    TextEntryView, TimeRange, TrackedEntity, TrackedView,
};
use crate::text::str_eq;

verus! {

// ------------------------------------------------------------------
// Answer shapes
// ------------------------------------------------------------------

#[derive(Clone, Debug)]
pub struct UntisPreSelected {
    pub id: i32,
    pub short_name: String,
    pub long_name: String,
    pub display_name: String,
}

#[derive(Clone, Debug)]
pub struct UntisClassInfo {
    pub id: i32,
    pub short_name: String,
    pub long_name: String,
    pub display_name: String,
}

#[derive(Clone, Debug)]
pub struct UntisTeacher {
    pub id: i32,
    pub short_name: String,
    pub long_name: String,
    pub display_name: String,
}

#[derive(Clone, Debug)]
pub struct UntisDepartment {
    pub id: i32,
    pub short_name: String,
    pub long_name: String,
    pub display_name: String,
}

#[derive(Clone, Debug)]
pub struct UntisClassEntry {
    pub class_info: UntisClassInfo,
    pub class_teacher1: Option<UntisTeacher>,
    pub class_teacher2: Option<UntisTeacher>,
    pub department: UntisDepartment,
}

/// A scheduled interval as the service's date-time strings.
#[derive(Clone, Debug)]
pub struct UntisDuration {
    pub start: String,
    pub end: String,
}

/// One resource named inside a lesson; `kind` tags it as a teacher, subject,
/// room, class or info text.
#[derive(Clone, Debug)]
pub struct UntisResource {
    pub kind: String,
    pub status: String,
    pub short_name: String,
    pub long_name: String,
    pub display_name: String,
    pub display_name_label: Option<String>,
    pub text: Option<String>,
}

/// A slot of a grid entry: the current resource and the one it replaced.
#[derive(Clone, Debug)]
pub struct UntisPosition {
    pub current: Option<UntisResource>,
    pub removed: Option<UntisResource>,
}

#[derive(Clone, Debug)]
pub struct UntisGridEntry {
    pub ids: Vec<i64>,
    pub duration: UntisDuration,
    pub kind: String,
    pub status: String,
    pub status_detail: Option<String>,
    pub name: Option<String>,
    pub layout_start_position: i32,
    pub layout_width: i32,
    pub layout_group: i32,
    pub color: String,
    pub notes_all: String,
    pub icons: Vec<String>,
    pub position1: Option<Vec<UntisPosition>>,
    pub position2: Option<Vec<UntisPosition>>,
    pub position3: Option<Vec<UntisPosition>>,
    pub position4: Option<Vec<UntisPosition>>,
    pub position5: Option<Vec<UntisPosition>>,
    pub position6: Option<Vec<UntisPosition>>,
    pub position7: Option<Vec<UntisPosition>>,
    pub lesson_text: String,
    pub lesson_info: Option<String>,
    pub substitution_text: String,
    pub user_name: Option<String>,
    pub link: Option<String>,
}

#[derive(Clone, Debug)]
pub struct UntisDayEntry {
    pub date: String,
    pub resource_type: String,
    pub resource: UntisClassInfo,
    pub status: String,
    pub grid_entries: Vec<UntisGridEntry>,
}

pub ghost struct UntisResourceView {
    pub kind: Seq<char>,
    pub status: Seq<char>,
    pub short_name: Seq<char>,
    pub long_name: Seq<char>,
    pub display_name: Seq<char>,
    pub text: Option<Seq<char>>,
}

impl View for UntisResource {
    type V = UntisResourceView;

    open spec fn view(&self) -> UntisResourceView {
        UntisResourceView {
            kind: self.kind@,
            status: self.status@,
            short_name: self.short_name@,
            long_name: self.long_name@,
            display_name: self.display_name@,
            text: match self.text {
                Some(t) => Some(t@),
                None => None,
            },
        }
    }
}

impl DeepView for UntisResource {
    type V = UntisResourceView;

    open spec fn deep_view(&self) -> UntisResourceView {
        self.view()
    }
}

pub ghost struct UntisPositionView {
    pub current: Option<UntisResourceView>,
    pub removed: Option<UntisResourceView>,
}

impl View for UntisPosition {
    type V = UntisPositionView;

    open spec fn view(&self) -> UntisPositionView {
        UntisPositionView {
            current: match &self.current {
                Some(r) => Some(r@),
                None => None,
            },
            removed: match &self.removed {
                Some(r) => Some(r@),
                None => None,
            },
        }
    }
}

impl DeepView for UntisPosition {
    type V = UntisPositionView;

    open spec fn deep_view(&self) -> UntisPositionView {
        self.view()
    }
}

// ------------------------------------------------------------------
// Names for the outside computations
// ------------------------------------------------------------------

/// What lower-casing a string yields.
pub uninterp spec fn lower_of(s: Seq<char>) -> Seq<char>;

/// Relies on std's `str::to_lowercase`: the result depends on the characters
/// alone.
#[verifier::external_body]
fn to_lower(s: &str) -> (r: String)
    ensures
        r@ == lower_of(s@),
{
    s.to_lowercase()
}

/// What parsing a "%Y-%m-%dT%H:%M" string yields: day number, hour and
/// minute.
pub uninterp spec fn datetime_of_text(s: Seq<char>) -> Option<(u32, u32, u32)>;

/// Relies on chrono's `NaiveDateTime::parse_from_str` with "%Y-%m-%dT%H:%M"
/// and the `Datelike`/`Timelike` accessors: the outcome depends on the text
/// alone; valid dates stay below day 100 000 000, hours below 24 and minutes
/// below 60.
#[verifier::external_body]
fn parse_datetime(s: &str) -> (r: Option<(u32, u32, u32)>)
    ensures
        r == datetime_of_text(s@),
        r matches Some(t) ==> t.0 < 100_000_000 && t.1 < 24 && t.2 < 60,
{
    chrono::NaiveDateTime::parse_from_str(s, "%Y-%m-%dT%H:%M").ok().and_then(
        |dt| {
            let day = u32::try_from(chrono::Datelike::num_days_from_ce(&dt.date())).ok()?;
            Some((day, chrono::Timelike::hour(&dt.time()), chrono::Timelike::minute(&dt.time())))
        },
    )
}

// ------------------------------------------------------------------
// Cleaning
// ------------------------------------------------------------------

/// The absolute minute a parsed date-time stands for.
pub open spec fn minute_stamp(t: (u32, u32, u32)) -> int {
    t.0 * 1440 + t.1 * 60 + t.2
}

/// The entity a resource cleans into, by its lower-cased kind tag; an
/// unknown tag cleans into nothing.
pub open spec fn resource_entity(r: UntisResourceView) -> Option<EntityView> {
    let tag = lower_of(r.kind);
    if tag == "teacher"@ {
        Some(
            EntityView::Teacher(
                TeacherView {
                    id: None,
                    short_name: r.short_name,
                    long_name: r.long_name,
                    display_name: r.display_name,
                },
            ),
        )
    } else if tag == "subject"@ {
        Some(EntityView::Subject(r.short_name, r.long_name, r.display_name))
    } else if tag == "room"@ {
        Some(EntityView::Room(r.short_name))
    } else if tag == "klasse"@ || tag == "class"@ {
        Some(
            EntityView::Class(
                ClassView {
                    id: 0,
                    name: r.short_name,
                    class_teacher: None,
                    department: DepartmentView {
                        id: 0,
                        short_name: Seq::empty(),
                        long_name: Seq::empty(),
                        display_name: Seq::empty(),
                    },
                },
            ),
        )
    } else if tag == "lesson_info"@ || tag == "info"@ {
        Some(
            EntityView::Info(
                match r.text {
                    Some(t) => t,
                    None => Seq::empty(),
                },
            ),
        )
    } else {
        None
    }
}

impl Entity {
    /// Clean one resource into an entity.  The service does not hand out
    /// teacher ids inside lessons, so a teacher cleans to one without id.
    /// An unknown kind tag is rejected.
    pub fn from_resource(res: &UntisResource) -> (r: Result<Entity, UntisError>)
        ensures
            r matches Ok(e) ==> resource_entity(res@) == Some(e@),
            r is Err ==> resource_entity(res@) is None,
    {
        let tag = to_lower(res.kind.as_str());
        if str_eq(tag.as_str(), "teacher") {
            Ok(
                Entity::Teacher(
                    Teacher {
                        id: None,
                        short_name: res.short_name.clone(),
                        long_name: res.long_name.clone(),
                        display_name: res.display_name.clone(),
                    },
                ),
            )
        } else if str_eq(tag.as_str(), "subject") {
            Ok(
                Entity::Subject(
                    Subject {
                        short_name: res.short_name.clone(),
                        long_name: res.long_name.clone(),
                        display_name: res.display_name.clone(),
                    },
                ),
            )
        } else if str_eq(tag.as_str(), "room") {
            Ok(Entity::Room(Room { name: res.short_name.clone() }))
        } else if str_eq(tag.as_str(), "klasse") || str_eq(tag.as_str(), "class") {
            let r = Entity::Class(
                Class {
                    id: 0,
                    name: res.short_name.clone(),
                    class_teacher: None,
                    department: Department {
                        id: 0,
                        short_name: String::new(),
                        long_name: String::new(),
                        display_name: String::new(),
                    },
                },
            );
            Ok(r)
        } else if str_eq(tag.as_str(), "lesson_info") || str_eq(tag.as_str(), "info") {
            let text = match &res.text {
                Some(t) => t.clone(),
                None => String::new(),
            };
            Ok(Entity::Info(Info { text }))
        } else {
            let mut msg = "Unrecognized resource type: ".to_owned();
            msg.append(res.kind.as_str());
            Err(UntisError::Parsing(msg))
        }
    }
}

/// The tracked entities a position cleans into: the current entity, marked
/// changed when it replaces a removed one, then the removed entity.
pub open spec fn position_tracked(p: UntisPositionView) -> Option<Seq<TrackedView>> {
    let current_part = match p.current {
        Some(r) => match resource_entity(r) {
            Some(e) => Some(
                seq![
                    TrackedView {
                        inner: e,
                        status: if p.removed is Some {
                            ChangeStatus::Changed
                        } else {
                            ChangeStatus::Regular
                        },
                    },
                ],
            ),
            None => None,
        },
        None => Some(Seq::empty()),
    };
    let removed_part = match p.removed {
        Some(r) => match resource_entity(r) {
            Some(e) => Some(seq![TrackedView { inner: e, status: ChangeStatus::Removed }]),
            None => None,
        },
        None => Some(Seq::empty()),
    };
    match (current_part, removed_part) {
        (Some(a), Some(b)) => Some(a + b),
        _ => None,
    }
}

/// Clean one position into its tracked entities.
pub fn tracked_from_position(pos: &UntisPosition) -> (r: Result<Vec<TrackedEntity>, UntisError>)
    ensures
        r matches Ok(v) ==> position_tracked(pos@) == Some(v.deep_view()),
        r is Err ==> position_tracked(pos@) is None,
{
    let mut out: Vec<TrackedEntity> = Vec::new();
    match &pos.current {
        Some(res) => {
            match Entity::from_resource(res) {
                Ok(e) => {
                    let status = if pos.removed.is_some() {
                        ChangeStatus::Changed
                    } else {
                        ChangeStatus::Regular
                    };
                    out.push(TrackedEntity { inner: e, status });
                },
                Err(e) => {
                    return Err(e);
                },
            }
        },
        None => {},
    }
    match &pos.removed {
        Some(res) => {
            match Entity::from_resource(res) {
                Ok(e) => {
                    out.push(TrackedEntity { inner: e, status: ChangeStatus::Removed });
                },
                Err(e) => {
                    return Err(e);
                },
            }
        },
        None => {},
    }
    proof {
        assert(position_tracked(pos@) matches Some(v) && v =~= out.deep_view());
    }
    Ok(out)
}

/// The tracked entities of a run of positions, in order; nothing when any
/// position is malformed.
pub open spec fn positions_tracked(ps: Seq<UntisPositionView>) -> Option<Seq<TrackedView>>
    decreases ps.len(),
{
    if ps.len() == 0 {
        Some(Seq::empty())
    } else {
        match (positions_tracked(ps.drop_last()), position_tracked(ps.last())) {
            (Some(a), Some(b)) => Some(a + b),
            _ => None,
        }
    }
}

/// The positions a grid entry holds, in slot order.
pub open spec fn grid_positions(g: UntisGridEntry) -> Seq<UntisPositionView> {
    opt_positions(g.position1) + opt_positions(g.position2) + opt_positions(g.position3)
        + opt_positions(g.position4) + opt_positions(g.position5) + opt_positions(g.position6)
        + opt_positions(g.position7)
}

pub open spec fn opt_positions(o: Option<Vec<UntisPosition>>) -> Seq<UntisPositionView> {
    match o {
        Some(v) => v.deep_view(),
        None => Seq::empty(),
    }
}

fn append_positions(
    out: &mut Vec<TrackedEntity>,
    o: &Option<Vec<UntisPosition>>,
) -> (r: Result<(), UntisError>)
    ensures
        r is Ok ==> (positions_tracked(opt_positions(*o)) matches Some(t)
            && final(out).deep_view() == old(out).deep_view() + t),
        r is Err ==> positions_tracked(opt_positions(*o)) is None,
{
    let ghost base = out.deep_view();
    match o {
        Some(ps) => {
            let mut i: usize = 0;
            proof {
                assert(ps.deep_view().take(0) =~= Seq::<UntisPositionView>::empty());
                assert(out.deep_view() =~= base + Seq::<TrackedView>::empty());
            }
            while i < ps.len()
                invariant
                    i <= ps.len(),
                    *o is Some,
                    (*o)->Some_0 == *ps,
                    ps.deep_view().len() == ps.len(),
                    positions_tracked(ps.deep_view().take(i as int)) matches Some(t)
                        && out.deep_view() == base + t,
                decreases ps.len() - i,
            {
                let ghost prev = out.deep_view();
                match tracked_from_position(&ps[i]) {
                    Ok(mut v) => {
                        let ghost tv = v.deep_view();
                        let mut n: usize = 0;
                        while n < v.len()
                            invariant
                                n <= v.len(),
                                tv == v.deep_view(),
                                tv.len() == v.len(),
                                out.deep_view() == prev + tv.take(n as int),
                            decreases v.len() - n,
                        {
                            let ghost ob = out.deep_view();
                            let t = crate::model::clone_tracked(&v[n]);
                            out.push(t);
                            proof {
                                assert(out.deep_view() =~= ob.push(tv[n as int]));
                                assert(out.deep_view() =~= prev + tv.take(n + 1));
                            }
                            n += 1;
                        }
                        proof {
                            assert(tv.take(v.len() as int) =~= tv);
                            let pv = ps.deep_view();
                            assert(pv.take(i + 1).drop_last() =~= pv.take(i as int));
                            assert(pv.take(i + 1).last() == pv[i as int]);
                            assert(pv[i as int] == ps@[i as int]@);
                        }
                    },
                    Err(e) => {
                        proof {
                            let pv = ps.deep_view();
                            assert(position_tracked(pv[i as int]) is None) by {
                                assert(pv[i as int] == ps@[i as int]@);
                            }
                            lemma_positions_tracked_none(pv, i as int);
                            assert(*o is Some);
                            assert((*o)->Some_0 == *ps);
                            assert(opt_positions(*o) == ps.deep_view());
                        }
                        return Err(e);
                    },
                }
                i += 1;
            }
            proof {
                assert(ps.deep_view().take(ps.len() as int) =~= ps.deep_view());
            }
            Ok(())
        },
        None => {
            proof {
                assert(out.deep_view() =~= base + Seq::<TrackedView>::empty());
            }
            Ok(())
        },
    }
}

/// A malformed position poisons the whole run.
proof fn lemma_positions_tracked_none(ps: Seq<UntisPositionView>, i: int)
    requires
        0 <= i < ps.len(),
        position_tracked(ps[i]) is None,
    ensures
        positions_tracked(ps) is None,
    decreases ps.len(),
{
    if ps.len() > 0 {
        if i == ps.len() - 1 {
        } else {
            assert(ps.drop_last()[i] == ps[i]);
            lemma_positions_tracked_none(ps.drop_last(), i);
        }
    }
}

/// The notes of a grid entry, in their fixed order: the always-present notes
/// first, then the optional ones that are set.
pub open spec fn grid_texts(g: UntisGridEntry) -> Seq<TextEntryView> {
    seq![
        TextEntryView { key: "notesAll"@, value: g.notes_all@ },
        TextEntryView { key: "lessonText"@, value: g.lesson_text@ },
        TextEntryView { key: "substitutionText"@, value: g.substitution_text@ },
    ] + (match g.status_detail {
        Some(ref sd) => seq![TextEntryView { key: "statusDetail"@, value: sd@ }],
        None => Seq::empty(),
    }) + (match g.name {
        Some(ref n) => seq![TextEntryView { key: "name"@, value: n@ }],
        None => Seq::empty(),
    }) + (match g.user_name {
        Some(ref un) => seq![TextEntryView { key: "userName"@, value: un@ }],
        None => Seq::empty(),
    })
}

/// The time range a duration cleans into, when both stamps parse and the
/// interval is non-empty.
pub open spec fn duration_range(d: UntisDuration) -> Option<TimeRange> {
    match (datetime_of_text(d.start@), datetime_of_text(d.end@)) {
        (Some(a), Some(b)) => {
            if minute_stamp(a) < minute_stamp(b) {
                Some(TimeRange { start: minute_stamp(a) as u64, end: minute_stamp(b) as u64 })
            } else {
                None
            }
        },
        _ => None,
    }
}

impl TimeRange {
    /// Clean a duration into a time range; unparseable stamps and empty
    /// intervals are rejected.
    pub fn from_duration(d: &UntisDuration) -> (r: Result<TimeRange, UntisError>)
        ensures
            r matches Ok(t) ==> duration_range(*d) == Some(t) && t.wf(),
            r is Err ==> duration_range(*d) is None,
    {
        let a = parse_datetime(d.start.as_str());
        let b = parse_datetime(d.end.as_str());
        match (a, b) {
            (Some(x), Some(y)) => {
                let start = x.0 as u64 * 1440 + x.1 as u64 * 60 + x.2 as u64;
                let end = y.0 as u64 * 1440 + y.1 as u64 * 60 + y.2 as u64;
                if start < end {
                    Ok(TimeRange { start, end })
                } else {
                    Err(UntisError::Parsing("Lesson ends before it starts".to_owned()))
                }
            },
            _ => Err(UntisError::Parsing("Failed to parse lesson time".to_owned())),
        }
    }
}

/// The lesson block a grid entry cleans into.
pub open spec fn grid_lesson(g: UntisGridEntry) -> Option<LessonView> {
    match (duration_range(g.duration), positions_tracked(grid_positions(g))) {
        (Some(tr), Some(ents)) => Some(
            LessonView {
                time_range: tr,
                entities: ents,
                kind: g.kind@,
                status: g.status@,
                color_hex: g.color@,
                icons: g.icons.deep_view(),
                texts: grid_texts(g),
                link: match g.link {
                    Some(l) => l@,
                    None => Seq::empty(),
                },
            },
        ),
        _ => None,
    }
}

/// Runs of positions clean independently and concatenate.
proof fn lemma_positions_tracked_concat(a: Seq<UntisPositionView>, b: Seq<UntisPositionView>)
    ensures
        positions_tracked(a + b) == match (positions_tracked(a), positions_tracked(b)) {
            (Some(x), Some(y)) => Some(x + y),
            _ => None,
        },
    decreases b.len(),
{
    if b.len() == 0 {
        assert(a + b =~= a);
        if positions_tracked(a) is Some {
            let x = positions_tracked(a)->Some_0;
            assert(x + Seq::<TrackedView>::empty() =~= x);
        }
    } else {
        lemma_positions_tracked_concat(a, b.drop_last());
        assert((a + b).drop_last() =~= a + b.drop_last());
        assert((a + b).last() == b.last());
        if positions_tracked(a) is Some && positions_tracked(b.drop_last()) is Some
            && position_tracked(b.last()) is Some {
            let x = positions_tracked(a)->Some_0;
            let y = positions_tracked(b.drop_last())->Some_0;
            let z = position_tracked(b.last())->Some_0;
            assert((x + y) + z =~= x + (y + z));
        }
    }
}

impl LessonBlock {
    /// Clean one grid entry into a lesson block: its time range, the tracked
    /// entities of its position slots in order, and its display data.
    pub fn from_grid(entry: &UntisGridEntry) -> (r: Result<LessonBlock, UntisError>)
        ensures
            r matches Ok(l) ==> grid_lesson(*entry) == Some(l@) && l.time_range.wf(),
            r is Err ==> grid_lesson(*entry) is None,
    {
        let time_range = match TimeRange::from_duration(&entry.duration) {
            Ok(t) => t,
            Err(e) => {
                return Err(e);
            },
        };
        let mut entities: Vec<TrackedEntity> = Vec::new();
        let ghost p12 = opt_positions(entry.position1) + opt_positions(entry.position2);
        let ghost p13 = p12 + opt_positions(entry.position3);
        let ghost p14 = p13 + opt_positions(entry.position4);
        let ghost p15 = p14 + opt_positions(entry.position5);
        let ghost p16 = p15 + opt_positions(entry.position6);
        let ghost all = grid_positions(*entry);
        if let Err(e) = append_positions(&mut entities, &entry.position1) {
            proof {
                lemma_grid_positions_none(*entry);
            }
            return Err(e);
        }
        if let Err(e) = append_positions(&mut entities, &entry.position2) {
            proof {
                lemma_grid_positions_none(*entry);
            }
            return Err(e);
        }
        if let Err(e) = append_positions(&mut entities, &entry.position3) {
            proof {
                lemma_grid_positions_none(*entry);
            }
            return Err(e);
        }
        if let Err(e) = append_positions(&mut entities, &entry.position4) {
            proof {
                lemma_grid_positions_none(*entry);
            }
            return Err(e);
        }
        if let Err(e) = append_positions(&mut entities, &entry.position5) {
            proof {
                lemma_grid_positions_none(*entry);
            }
            return Err(e);
        }
        if let Err(e) = append_positions(&mut entities, &entry.position6) {
            proof {
                lemma_grid_positions_none(*entry);
            }
            return Err(e);
        }
        if let Err(e) = append_positions(&mut entities, &entry.position7) {
            proof {
                lemma_grid_positions_none(*entry);
            }
            return Err(e);
        }
        proof {
            lemma_positions_tracked_concat(opt_positions(entry.position1), opt_positions(entry.position2));
            lemma_positions_tracked_concat(p12, opt_positions(entry.position3));
            lemma_positions_tracked_concat(p13, opt_positions(entry.position4));
            lemma_positions_tracked_concat(p14, opt_positions(entry.position5));
            lemma_positions_tracked_concat(p15, opt_positions(entry.position6));
            lemma_positions_tracked_concat(p16, opt_positions(entry.position7));
            assert(positions_tracked(all) matches Some(t) && entities.deep_view() =~= t);
        }
        let mut texts: Vec<TextEntry> = Vec::new();
        texts.push(TextEntry { key: "notesAll".to_owned(), value: entry.notes_all.clone() });
        texts.push(TextEntry { key: "lessonText".to_owned(), value: entry.lesson_text.clone() });
        texts.push(
            TextEntry {
                key: "substitutionText".to_owned(),
                value: entry.substitution_text.clone(),
            },
        );
        if let Some(sd) = &entry.status_detail {
            texts.push(TextEntry { key: "statusDetail".to_owned(), value: sd.clone() });
        }
        if let Some(n) = &entry.name {
            texts.push(TextEntry { key: "name".to_owned(), value: n.clone() });
        }
        if let Some(un) = &entry.user_name {
            texts.push(TextEntry { key: "userName".to_owned(), value: un.clone() });
        }
        proof {
            assert(texts.deep_view() =~= grid_texts(*entry));
        }
        let link = match &entry.link {
            Some(l) => l.clone(),
            None => String::new(),
        };
        let l = LessonBlock {
            time_range,
            entities,
            kind: entry.kind.clone(),
            status: entry.status.clone(),
            color_hex: entry.color.clone(),
            icons: crate::model::clone_strings(&entry.icons),
            texts,
            link,
        };
        proof {
            assert(grid_lesson(*entry) matches Some(lv) && lv =~= l@);
        }
        Ok(l)
    }
}

/// A malformed slot poisons the whole grid entry.
proof fn lemma_grid_positions_none(g: UntisGridEntry)
    ensures
        positions_tracked(opt_positions(g.position1)) is None || positions_tracked(
            opt_positions(g.position2),
        ) is None || positions_tracked(opt_positions(g.position3)) is None || positions_tracked(
            opt_positions(g.position4),
        ) is None || positions_tracked(opt_positions(g.position5)) is None || positions_tracked(
            opt_positions(g.position6),
        ) is None || positions_tracked(opt_positions(g.position7)) is None ==> positions_tracked(
            grid_positions(g),
        ) is None,
{
    let p12 = opt_positions(g.position1) + opt_positions(g.position2);
    let p13 = p12 + opt_positions(g.position3);
    let p14 = p13 + opt_positions(g.position4);
    let p15 = p14 + opt_positions(g.position5);
    let p16 = p15 + opt_positions(g.position6);
    lemma_positions_tracked_concat(opt_positions(g.position1), opt_positions(g.position2));
    lemma_positions_tracked_concat(p12, opt_positions(g.position3));
    lemma_positions_tracked_concat(p13, opt_positions(g.position4));
    lemma_positions_tracked_concat(p14, opt_positions(g.position5));
    lemma_positions_tracked_concat(p15, opt_positions(g.position6));
    lemma_positions_tracked_concat(p16, opt_positions(g.position7));
}

/// The lessons of a day's grid entries; nothing when any entry is
/// malformed.
pub open spec fn day_lessons(gs: Seq<UntisGridEntry>) -> Option<Seq<LessonView>>
    decreases gs.len(),
{
    if gs.len() == 0 {
        Some(Seq::empty())
    } else {
        match (day_lessons(gs.drop_last()), grid_lesson(gs.last())) {
            (Some(a), Some(l)) => Some(a.push(l)),
            _ => None,
        }
    }
}

/// The day table a day entry cleans into: its date as a day number, with the
/// start of the epoch's year as fallback for unreadable dates, and its
/// cleaned lessons.
pub open spec fn day_clean(e: UntisDayEntry) -> Option<DayView> {
    match day_lessons(e.grid_entries@) {
        Some(ls) => Some(
            DayView {
                date: match crate::week::day_of_text(e.date@) {
                    Some(d) => d as u64,
                    None => 719163,
                },
                lessons: ls,
            },
        ),
        None => None,
    }
}

proof fn lemma_day_lessons_none(gs: Seq<UntisGridEntry>, i: int)
    requires
        0 <= i < gs.len(),
        grid_lesson(gs[i]) is None,
    ensures
        day_lessons(gs) is None,
    decreases gs.len(),
{
    if gs.len() > 0 {
        if i < gs.len() - 1 {
            assert(gs.drop_last()[i] == gs[i]);
            lemma_day_lessons_none(gs.drop_last(), i);
        }
    }
}

impl DayTimeTable {
    /// Clean one day entry into a day table.
    pub fn from_day(entry: &UntisDayEntry) -> (r: Result<DayTimeTable, UntisError>)
        ensures
            r matches Ok(d) ==> day_clean(*entry) == Some(d@),
            r is Err ==> day_clean(*entry) is None,
    {
        let ghost gv = entry.grid_entries@;
        let mut lessons: Vec<LessonBlock> = Vec::new();
        let mut i: usize = 0;
        proof {
            assert(gv.take(0) =~= Seq::<UntisGridEntry>::empty());
        }
        while i < entry.grid_entries.len()
            invariant
                i <= entry.grid_entries.len(),
                gv == entry.grid_entries@,
                gv.len() == entry.grid_entries.len(),
                day_lessons(gv.take(i as int)) matches Some(a) && lessons.deep_view() == a,
            decreases entry.grid_entries.len() - i,
        {
            match LessonBlock::from_grid(&entry.grid_entries[i]) {
                Ok(l) => {
                    let ghost prev = lessons.deep_view();
                    let ghost lv = l@;
                    lessons.push(l);
                    proof {
                        assert(gv.take(i + 1).drop_last() =~= gv.take(i as int));
                        assert(gv.take(i + 1).last() == gv[i as int]);
                        assert(grid_lesson(gv[i as int]) == Some(lv));
                        assert(lessons.deep_view() =~= prev.push(lv));
                    }
                },
                Err(e) => {
                    proof {
                        assert(grid_lesson(gv[i as int]) is None);
                        lemma_day_lessons_none(gv, i as int);
                    }
                    return Err(e);
                },
            }
            i += 1;
        }
        proof {
            assert(gv.take(entry.grid_entries.len() as int) =~= gv);
        }
        let date = match crate::week::parse_day(entry.date.as_str()) {
            Some(d) => d as u64,
            None => 719163,
        };
        let d = DayTimeTable { date, lessons };
        proof {
            assert(day_clean(*entry) matches Some(dv) && dv =~= d@);
        }
        Ok(d)
    }
}

impl Department {
    /// Clean a department.
    pub fn from_untis(d: &UntisDepartment) -> (r: Department)
        ensures
            r@ == (DepartmentView {
                id: d.id as int,
                short_name: d.short_name@,
                long_name: d.long_name@,
                display_name: d.display_name@,
            }),
    {
        Department {
            id: d.id,
            short_name: d.short_name.clone(),
            long_name: d.long_name.clone(),
            display_name: d.display_name.clone(),
        }
    }
}

impl Teacher {
    /// Clean a teacher that carries an id: a class's home teacher.
    pub fn from_untis(t: &UntisTeacher) -> (r: Teacher)
        ensures
            r@ == (TeacherView {
                id: Some(t.id as int),
                short_name: t.short_name@,
                long_name: t.long_name@,
                display_name: t.display_name@,
            }),
    {
        Teacher {
            id: Some(t.id),
            short_name: t.short_name.clone(),
            long_name: t.long_name.clone(),
            display_name: t.display_name.clone(),
        }
    }
}

impl Class {
    /// Clean a class entry: the class's own names, its optional home
    /// teacher, and its department.
    pub fn from_entry(entry: &UntisClassEntry) -> (r: Class)
        ensures
            r@.id == entry.class_info.id as int,
            r@.name == entry.class_info.short_name@,
            entry.class_teacher1 matches Some(t) ==> r@.class_teacher == Some(
                TeacherView {
                    id: Some(t.id as int),
                    short_name: t.short_name@,
                    long_name: t.long_name@,
                    display_name: t.display_name@,
                },
            ),
            entry.class_teacher1 is None ==> r@.class_teacher is None,
            r@.department == (DepartmentView {
                id: entry.department.id as int,
                short_name: entry.department.short_name@,
                long_name: entry.department.long_name@,
                display_name: entry.department.display_name@,
            }),
    {
        Class {
            id: entry.class_info.id,
            name: entry.class_info.short_name.clone(),
            class_teacher: match &entry.class_teacher1 {
                Some(t) => Some(Teacher::from_untis(t)),
                None => None,
            },
            department: Department::from_untis(&entry.department),
        }
    }
}

} // verus!
