//! Domain vocabulary of the timetable engine: entities that can appear in a
//! lesson block, the change status attached to them, time ranges measured in
//! minutes, and the lesson / day / week containers.
use vstd::prelude::*;

verus! {

/// Status of an entity or block relative to the regular (unmodified) schedule.
#[derive(Clone, Copy, PartialEq, Eq, Structural, Debug)]
pub enum ChangeStatus {
    Regular,
    Changed,
    Removed,
    New,
}

#[derive(Clone, Debug)]
pub struct Department {
    pub id: i32,
    pub short_name: String,
    pub long_name: String,
    pub display_name: String,
}

/// A teacher; `id` is known only when the teacher was seen as a class's home
/// teacher, and absent when the teacher was only observed inside a lesson.
#[derive(Clone, Debug)]
pub struct Teacher {
    pub id: Option<i32>,
    pub short_name: String,
    pub long_name: String,
    pub display_name: String,
}

#[derive(Clone, Debug)]
pub struct Class {
    pub id: i32,
    pub name: String,
    pub class_teacher: Option<Teacher>,
    pub department: Department,
}

#[derive(Clone, Debug)]
pub struct Room {
    pub name: String,
}

#[derive(Clone, Debug)]
pub struct Subject {
    pub short_name: String,
    pub long_name: String,
    pub display_name: String,
}

#[derive(Clone, Debug)]
pub struct Info {
    pub text: String,
}

/// Tagged union over the kinds of entity a lesson block can reference.
#[derive(Clone, Debug)]
pub enum Entity {
    Teacher(Teacher),
    Class(Class),
    Room(Room),
    Subject(Subject),
    Info(Info),
}

/// An entity together with its change status.
#[derive(Clone, Debug)]
pub struct TrackedEntity {
    pub inner: Entity,
    pub status: ChangeStatus,
}

/// Half-open interval of absolute timestamps, in minutes; `start < end` for
/// well-formed ranges.
#[derive(Clone, Copy, PartialEq, Eq, Structural, Debug)]
pub struct TimeRange {
    pub start: u64,
    pub end: u64,
}

/// One free-form key/value note attached to a lesson block.
#[derive(Clone, Debug)]
pub struct TextEntry {
    pub key: String,
    pub value: String,
}

/// One scheduled time interval with its entities, status and display data.
#[derive(Clone, Debug)]
pub struct LessonBlock {
    pub time_range: TimeRange,
    pub entities: Vec<TrackedEntity>,
    pub kind: String,
    pub status: String,
    pub color_hex: String,
    pub icons: Vec<String>,
    pub texts: Vec<TextEntry>,
    pub link: String,
}

/// Lessons of one calendar day; `date` is a day number.
#[derive(Clone, Debug)]
pub struct DayTimeTable {
    pub date: u64,
    pub lessons: Vec<LessonBlock>,
}

/// A week of day tables.
#[derive(Clone, Debug)]
pub struct WeekTimeTable {
    pub days: Vec<DayTimeTable>,
}

// ------------------------------------------------------------------
// Mathematical views
// ------------------------------------------------------------------

pub ghost struct DepartmentView {
    pub id: int,
    pub short_name: Seq<char>,
    pub long_name: Seq<char>,
    pub display_name: Seq<char>,
}

pub ghost struct TeacherView {
    pub id: Option<int>,
    pub short_name: Seq<char>,
    pub long_name: Seq<char>,
    pub display_name: Seq<char>,
}

pub ghost struct ClassView {
    pub id: int,
    pub name: Seq<char>,
    pub class_teacher: Option<TeacherView>,
    pub department: DepartmentView,
}

pub ghost enum EntityView {
    Teacher(TeacherView),
    Class(ClassView),
    Room(Seq<char>),
    Subject(Seq<char>, Seq<char>, Seq<char>),
    Info(Seq<char>),
}

pub ghost struct TrackedView {
    pub inner: EntityView,
    pub status: ChangeStatus,
}

pub ghost struct TextEntryView {
    pub key: Seq<char>,
    pub value: Seq<char>,
}

pub ghost struct LessonView {
    pub time_range: TimeRange,
    pub entities: Seq<TrackedView>,
    pub kind: Seq<char>,
    pub status: Seq<char>,
    pub color_hex: Seq<char>,
    pub icons: Seq<Seq<char>>,
    pub texts: Seq<TextEntryView>,
    pub link: Seq<char>,
}

pub ghost struct DayView {
    pub date: u64,
    pub lessons: Seq<LessonView>,
}

pub ghost struct WeekView {
    pub days: Seq<DayView>,
}

impl View for Department {
    type V = DepartmentView;

    open spec fn view(&self) -> DepartmentView {
        DepartmentView {
            id: self.id as int,
            short_name: self.short_name@,
            long_name: self.long_name@,
            display_name: self.display_name@,
        }
    }
}

impl DeepView for Department {
    type V = DepartmentView;

    open spec fn deep_view(&self) -> DepartmentView {
        self.view()
    }
}

impl View for Teacher {
    type V = TeacherView;

    open spec fn view(&self) -> TeacherView {
        TeacherView {
            id: match self.id {
                Some(i) => Some(i as int),
                None => None,
            },
            short_name: self.short_name@,
            long_name: self.long_name@,
            display_name: self.display_name@,
        }
    }
}

impl DeepView for Teacher {
    type V = TeacherView;

    open spec fn deep_view(&self) -> TeacherView {
        self.view()
    }
}

impl View for Class {
    type V = ClassView;

    open spec fn view(&self) -> ClassView {
        ClassView {
            id: self.id as int,
            name: self.name@,
            class_teacher: match self.class_teacher {
                Some(t) => Some(t@),
                None => None,
            },
            department: self.department@,
        }
    }
}

impl DeepView for Class {
    type V = ClassView;

    open spec fn deep_view(&self) -> ClassView {
        self.view()
    }
}

impl View for Entity {
    type V = EntityView;

    open spec fn view(&self) -> EntityView {
        match self {
            Entity::Teacher(t) => EntityView::Teacher(t@),
            Entity::Class(c) => EntityView::Class(c@),
            Entity::Room(r) => EntityView::Room(r.name@),
            Entity::Subject(s) => EntityView::Subject(s.short_name@, s.long_name@, s.display_name@),
            Entity::Info(i) => EntityView::Info(i.text@),
        }
    }
}

impl DeepView for Entity {
    type V = EntityView;

    open spec fn deep_view(&self) -> EntityView {
        self.view()
    }
}

impl View for TrackedEntity {
    type V = TrackedView;

    open spec fn view(&self) -> TrackedView {
        TrackedView { inner: self.inner@, status: self.status }
    }
}

impl DeepView for TrackedEntity {
    type V = TrackedView;

    open spec fn deep_view(&self) -> TrackedView {
        self.view()
    }
}

impl View for TextEntry {
    type V = TextEntryView;

    open spec fn view(&self) -> TextEntryView {
        TextEntryView { key: self.key@, value: self.value@ }
    }
}

impl DeepView for TextEntry {
    type V = TextEntryView;

    open spec fn deep_view(&self) -> TextEntryView {
        self.view()
    }
}

impl View for LessonBlock {
    type V = LessonView;

    open spec fn view(&self) -> LessonView {
        LessonView {
            time_range: self.time_range,
            entities: self.entities.deep_view(),
            kind: self.kind@,
            status: self.status@,
            color_hex: self.color_hex@,
            icons: self.icons.deep_view(),
            texts: self.texts.deep_view(),
            link: self.link@,
        }
    }
}

impl DeepView for LessonBlock {
    type V = LessonView;

    open spec fn deep_view(&self) -> LessonView {
        self.view()
    }
}

impl View for DayTimeTable {
    type V = DayView;

    open spec fn view(&self) -> DayView {
        DayView { date: self.date, lessons: self.lessons.deep_view() }
    }
}

impl DeepView for DayTimeTable {
    type V = DayView;

    open spec fn deep_view(&self) -> DayView {
        self.view()
    }
}

impl View for WeekTimeTable {
    type V = WeekView;

    open spec fn view(&self) -> WeekView {
        WeekView { days: self.days.deep_view() }
    }
}

impl DeepView for WeekTimeTable {
    type V = WeekView;

    open spec fn deep_view(&self) -> WeekView {
        self.view()
    }
}

// ------------------------------------------------------------------
// Well-formedness and overlap
// ------------------------------------------------------------------

impl TimeRange {
    /// A well-formed range is non-empty.
    pub open spec fn wf(self) -> bool {
        self.start < self.end
    }

    /// Half-open interval intersection.
    pub open spec fn spec_overlaps(self, other: TimeRange) -> bool {
        self.start < other.end && other.start < self.end
    }

    /// Two ranges overlap iff their half-open intervals intersect.
    pub fn overlaps(&self, other: &TimeRange) -> (r: bool)
        ensures
            r == self.spec_overlaps(*other),
    {
        self.start < other.end && other.start < self.end
    }
}

impl LessonBlock {
    /// Two lesson blocks overlap iff their time ranges intersect.
    pub fn overlaps(&self, other: &LessonBlock) -> (r: bool)
        ensures
            r == self.time_range.spec_overlaps(other.time_range),
    {
        self.time_range.overlaps(&other.time_range)
    }
}

// ------------------------------------------------------------------
// Structural equality over views
// ------------------------------------------------------------------

/// Equality of optional ids, by value.
fn eq_opt_i32(a: &Option<i32>, b: &Option<i32>) -> (r: bool)
    ensures
        r == (a.deep_view() == b.deep_view()),
{
    match (a, b) {
        (Some(x), Some(y)) => *x == *y,
        (None, None) => true,
        _ => false,
    }
}

pub fn eq_department(a: &Department, b: &Department) -> (r: bool)
    ensures
        r == (a@ == b@),
{
    a.id == b.id && a.short_name == b.short_name && a.long_name == b.long_name
        && a.display_name == b.display_name
}

pub fn eq_teacher(a: &Teacher, b: &Teacher) -> (r: bool)
    ensures
        r == (a@ == b@),
{
    eq_opt_i32(&a.id, &b.id) && a.short_name == b.short_name && a.long_name == b.long_name
        && a.display_name == b.display_name
}

pub fn eq_class(a: &Class, b: &Class) -> (r: bool)
    ensures
        r == (a@ == b@),
{
    let teachers_eq = match (&a.class_teacher, &b.class_teacher) {
        (Some(x), Some(y)) => eq_teacher(x, y),
        (None, None) => true,
        _ => false,
    };
    a.id == b.id && a.name == b.name && teachers_eq && eq_department(&a.department, &b.department)
}

/// Full structural equality of entities: two teachers that differ only in the
/// presence of an id are distinct.
pub fn eq_entity(a: &Entity, b: &Entity) -> (r: bool)
    ensures
        r == (a@ == b@),
{
    match (a, b) {
        (Entity::Teacher(x), Entity::Teacher(y)) => eq_teacher(x, y),
        (Entity::Class(x), Entity::Class(y)) => eq_class(x, y),
        (Entity::Room(x), Entity::Room(y)) => x.name == y.name,
        (Entity::Subject(x), Entity::Subject(y)) => {
            x.short_name == y.short_name && x.long_name == y.long_name
                && x.display_name == y.display_name
        },
        (Entity::Info(x), Entity::Info(y)) => x.text == y.text,
        _ => false,
    }
}

// ------------------------------------------------------------------
// View-preserving clones
// ------------------------------------------------------------------

pub fn clone_teacher(t: &Teacher) -> (r: Teacher)
    ensures
        r@ == t@,
{
    Teacher {
        id: match &t.id {
            Some(i) => Some(*i),
            None => None,
        },
        short_name: t.short_name.clone(),
        long_name: t.long_name.clone(),
        display_name: t.display_name.clone(),
    }
}

pub fn clone_department(d: &Department) -> (r: Department)
    ensures
        r@ == d@,
{
    Department {
        id: d.id,
        short_name: d.short_name.clone(),
        long_name: d.long_name.clone(),
        display_name: d.display_name.clone(),
    }
}

pub fn clone_class(c: &Class) -> (r: Class)
    ensures
        r@ == c@,
{
    Class {
        id: c.id,
        name: c.name.clone(),
        class_teacher: match &c.class_teacher {
            Some(t) => Some(clone_teacher(t)),
            None => None,
        },
        department: clone_department(&c.department),
    }
}

pub fn clone_entity(e: &Entity) -> (r: Entity)
    ensures
        r@ == e@,
{
    match e {
        Entity::Teacher(t) => Entity::Teacher(clone_teacher(t)),
        Entity::Class(c) => Entity::Class(clone_class(c)),
        Entity::Room(r) => Entity::Room(Room { name: r.name.clone() }),
        Entity::Subject(s) => Entity::Subject(
            Subject {
                short_name: s.short_name.clone(),
                long_name: s.long_name.clone(),
                display_name: s.display_name.clone(),
            },
        ),
        Entity::Info(i) => Entity::Info(Info { text: i.text.clone() }),
    }
}

pub fn clone_tracked(t: &TrackedEntity) -> (r: TrackedEntity)
    ensures
        r@ == t@,
{
    TrackedEntity { inner: clone_entity(&t.inner), status: t.status }
}

fn clone_tracked_vec(v: &Vec<TrackedEntity>) -> (r: Vec<TrackedEntity>)
    ensures
        r.deep_view() == v.deep_view(),
{
    let mut r: Vec<TrackedEntity> = Vec::new();
    let mut i: usize = 0;
    while i < v.len()
        invariant
            i <= v.len(),
            r.deep_view().len() == i,
            forall|j: int| 0 <= j < i ==> r.deep_view()[j] == v.deep_view()[j],
        decreases v.len() - i,
    {
        r.push(clone_tracked(&v[i]));
        i += 1;
    }
    assert(r.deep_view() =~= v.deep_view());
    r
}

pub fn clone_strings(v: &Vec<String>) -> (r: Vec<String>)
    ensures
        r.deep_view() == v.deep_view(),
{
    let mut r: Vec<String> = Vec::new();
    let mut i: usize = 0;
    while i < v.len()
        invariant
            i <= v.len(),
            r.deep_view().len() == i,
            forall|j: int| 0 <= j < i ==> r.deep_view()[j] == v.deep_view()[j],
        decreases v.len() - i,
    {
        r.push(v[i].clone());
        i += 1;
    }
    assert(r.deep_view() =~= v.deep_view());
    r
}

fn clone_texts(v: &Vec<TextEntry>) -> (r: Vec<TextEntry>)
    ensures
        r.deep_view() == v.deep_view(),
{
    let mut r: Vec<TextEntry> = Vec::new();
    let mut i: usize = 0;
    while i < v.len()
        invariant
            i <= v.len(),
            r.deep_view().len() == i,
            forall|j: int| 0 <= j < i ==> r.deep_view()[j] == v.deep_view()[j],
        decreases v.len() - i,
    {
        r.push(TextEntry { key: v[i].key.clone(), value: v[i].value.clone() });
        i += 1;
    }
    assert(r.deep_view() =~= v.deep_view());
    r
}

pub fn clone_lesson(l: &LessonBlock) -> (r: LessonBlock)
    ensures
        r@ == l@,
{
    LessonBlock {
        time_range: l.time_range,
        entities: clone_tracked_vec(&l.entities),
        kind: l.kind.clone(),
        status: l.status.clone(),
        color_hex: l.color_hex.clone(),
        icons: clone_strings(&l.icons),
        texts: clone_texts(&l.texts),
        link: l.link.clone(),
    }
}

pub fn clone_lessons(v: &Vec<LessonBlock>) -> (r: Vec<LessonBlock>)
    ensures
        r.deep_view() == v.deep_view(),
{
    let mut r: Vec<LessonBlock> = Vec::new();
    let mut i: usize = 0;
    while i < v.len()
        invariant
            i <= v.len(),
            r.deep_view().len() == i,
            forall|j: int| 0 <= j < i ==> r.deep_view()[j] == v.deep_view()[j],
        decreases v.len() - i,
    {
        r.push(clone_lesson(&v[i]));
        i += 1;
    }
    assert(r.deep_view() =~= v.deep_view());
    r
}

pub fn clone_day(d: &DayTimeTable) -> (r: DayTimeTable)
    ensures
        r@ == d@,
{
    DayTimeTable { date: d.date, lessons: clone_lessons(&d.lessons) }
}

pub fn clone_week(w: &WeekTimeTable) -> (r: WeekTimeTable)
    ensures
        r@ == w@,
{
    let mut days: Vec<DayTimeTable> = Vec::new();
    let mut i: usize = 0;
    while i < w.days.len()
        invariant
            i <= w.days.len(),
            days.deep_view().len() == i,
            forall|j: int| 0 <= j < i ==> days.deep_view()[j] == w.days.deep_view()[j],
        decreases w.days.len() - i,
    {
        let ghost prev = days.deep_view();
        let d = clone_day(&w.days[i]);
        days.push(d);
        proof {
            assert forall|j: int| 0 <= j < i + 1 implies days.deep_view()[j]
                == w.days.deep_view()[j] by {
                if j < i {
                    assert(days@[j] == days@.drop_last()[j]);
                    assert(days.deep_view()[j] == prev[j]);
                } else {
                    assert(days.deep_view()[j] == d@);
                }
            }
        }
        i += 1;
    }
    assert(days.deep_view() =~= w.days.deep_view());
    WeekTimeTable { days }
}

} // verus!
