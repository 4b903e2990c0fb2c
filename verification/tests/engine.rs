use untis_mirror::aggregate::gen_all_timetables;
use untis_mirror::gaps::fill_breaks;
use untis_mirror::grouping::group_by_time;
use untis_mirror::lanes::{assign_lanes, layout_group, priority_block};
use untis_mirror::model::{
    eq_class, eq_entity, ChangeStatus, Class, DayTimeTable, Department, Entity, LessonBlock,
    Room, Teacher, TimeRange, TrackedEntity, WeekTimeTable,
};

fn block(start: u64, end: u64) -> LessonBlock {
    LessonBlock {
        time_range: TimeRange { start, end },
        entities: Vec::new(),
        kind: String::from("Lesson"),
        status: String::new(),
        color_hex: String::new(),
        icons: Vec::new(),
        texts: Vec::new(),
        link: String::new(),
    }
}

fn teacher(short: &str, id: Option<i32>) -> Teacher {
    Teacher {
        id,
        short_name: short.to_string(),
        long_name: format!("{short} Long"),
        display_name: short.to_string(),
    }
}

fn class(id: i32, name: &str) -> Class {
    Class {
        id,
        name: name.to_string(),
        class_teacher: None,
        department: Department {
            id: 0,
            short_name: String::new(),
            long_name: String::new(),
            display_name: String::new(),
        },
    }
}

#[test]
fn grouping_transitive_chain_forms_one_group() {
    // A 09:00-09:30, B 09:20-09:50, C 09:45-10:15: A and C do not overlap,
    // but both overlap B, so all three form one transitive cluster.
    let a = block(540, 570);
    let b = block(560, 590);
    let c = block(585, 615);
    let groups = group_by_time(vec![a, b, c]);
    assert_eq!(groups.len(), 1);
    assert_eq!(groups[0].len(), 3);
    // within the group: descending duration (30, 30, 30 all equal), so
    // ascending start as tie break
    assert_eq!(groups[0][0].time_range.start, 540);
    assert_eq!(groups[0][1].time_range.start, 560);
    assert_eq!(groups[0][2].time_range.start, 585);
}

#[test]
fn grouping_overlapping_example_needs_three_lanes() {
    // A 09:00-10:00, B 09:30-09:45, C 09:40-10:15 all overlap pairwise, and
    // from 09:40 to 09:45 all three run at once, so three lanes are needed.
    let groups = group_by_time(vec![block(540, 600), block(570, 585), block(580, 615)]);
    assert_eq!(groups.len(), 1);
    // longest first
    assert_eq!(groups[0][0].time_range.start, 540);
    assert_eq!(groups[0][0].time_range.end, 600);
    let (_, _, lanes) = assign_lanes(&groups[0]);
    assert_eq!(lanes, 3);
}

#[test]
fn grouping_chain_example_two_lanes() {
    let groups = group_by_time(vec![block(540, 570), block(560, 590), block(585, 615)]);
    let (_, _, lanes) = assign_lanes(&groups[0]);
    assert_eq!(lanes, 2);
}

#[test]
fn grouping_partitions_disjoint_blocks() {
    let groups = group_by_time(vec![block(700, 750), block(540, 600), block(600, 660)]);
    // 540-600 and 600-660 touch but do not overlap (half-open intervals)
    assert_eq!(groups.len(), 3);
    assert_eq!(groups[0][0].time_range.start, 540);
    assert_eq!(groups[1][0].time_range.start, 600);
    assert_eq!(groups[2][0].time_range.start, 700);
    let total: usize = groups.iter().map(|g| g.len()).sum();
    assert_eq!(total, 3);
}

#[test]
fn grouping_empty_input_yields_no_groups() {
    let groups = group_by_time(Vec::new());
    assert_eq!(groups.len(), 0);
}

#[test]
fn grouping_single_block_is_singleton_group() {
    let groups = group_by_time(vec![block(540, 600)]);
    assert_eq!(groups.len(), 1);
    assert_eq!(groups[0].len(), 1);
}

#[test]
fn gap_filling_inserts_leading_and_middle_breaks() {
    // Day at day number 0: lessons 10:00-10:50 and 11:00-11:50, floor 08:00.
    let filled = fill_breaks(vec![block(600, 650), block(660, 710)], 480);
    assert_eq!(filled.len(), 4);
    assert_eq!(filled[0].kind, "Break");
    assert_eq!(filled[0].time_range.start, 480);
    assert_eq!(filled[0].time_range.end, 600);
    assert_eq!(filled[1].time_range.start, 600);
    assert_eq!(filled[2].kind, "Break");
    assert_eq!(filled[2].time_range.start, 650);
    assert_eq!(filled[2].time_range.end, 660);
    assert_eq!(filled[3].time_range.start, 660);
}

#[test]
fn gap_filling_no_break_when_day_starts_at_floor() {
    let filled = fill_breaks(vec![block(480, 540), block(540, 600)], 480);
    assert_eq!(filled.len(), 2);
    assert!(filled.iter().all(|l| l.kind != "Break"));
}

#[test]
fn gap_filling_empty_day_stays_empty() {
    let filled = fill_breaks(Vec::new(), 480);
    assert!(filled.is_empty());
}

#[test]
fn gap_filling_sorts_unsorted_input() {
    let filled = fill_breaks(vec![block(660, 710), block(600, 650)], 600);
    assert_eq!(filled.len(), 3);
    assert_eq!(filled[0].time_range.start, 600);
    assert_eq!(filled[1].kind, "Break");
    assert_eq!(filled[2].time_range.start, 660);
}

#[test]
fn layout_group_places_blocks() {
    let groups = group_by_time(vec![block(540, 600), block(570, 585)]);
    let layout = layout_group(&groups[0]);
    assert_eq!(layout.start, 540);
    assert_eq!(layout.end, 600);
    assert_eq!(layout.lane_count, 2);
    assert_eq!(layout.items.len(), 2);
    assert_eq!(layout.items[0].offset, 0);
    assert_eq!(layout.items[0].length, 60);
    assert_eq!(layout.items[0].lane, 0);
    assert_eq!(layout.items[1].offset, 30);
    assert_eq!(layout.items[1].length, 15);
    assert_eq!(layout.items[1].lane, 1);
}

#[test]
fn priority_block_precedence() {
    let mut exam = block(540, 600);
    exam.kind = String::from("EXAM");
    let mut changed = block(540, 600);
    changed.status = String::from("CHANGED");
    let mut cancelled = block(540, 600);
    cancelled.status = String::from("CANCELLED");

    let group = vec![block(540, 600), changed.clone(), exam];
    assert_eq!(priority_block(&group), 2);

    let group2 = vec![cancelled.clone(), changed];
    assert_eq!(priority_block(&group2), 1);

    let group3 = vec![cancelled.clone(), cancelled.clone()];
    assert_eq!(priority_block(&group3), 0);

    let group4 = vec![cancelled, block(540, 600)];
    assert_eq!(priority_block(&group4), 1);
}

fn mark(e: Entity, status: ChangeStatus) -> TrackedEntity {
    TrackedEntity { inner: e, status }
}

fn week_with_lesson(lesson: LessonBlock, date: u64) -> WeekTimeTable {
    WeekTimeTable { days: vec![DayTimeTable { date, lessons: vec![lesson] }] }
}

#[test]
fn aggregator_expands_teachers_and_rooms() {
    let mut lesson = block(540, 600);
    lesson.entities.push(mark(Entity::Teacher(teacher("AB", None)), ChangeStatus::Regular));
    lesson.entities.push(mark(
        Entity::Room(Room { name: String::from("R1") }),
        ChangeStatus::Regular,
    ));
    lesson.entities.push(mark(Entity::Teacher(teacher("ZZ", None)), ChangeStatus::Removed));
    let input = vec![(class(1, "5a"), week_with_lesson(lesson, 100))];
    let (out, pre) = gen_all_timetables(input, Some(7)).unwrap();
    assert_eq!(pre, Some(7));
    // one class entry, one teacher entry, one room entry; the removed
    // teacher gets no entry
    assert_eq!(out.len(), 3);
    assert!(matches!(out[0].0, Entity::Class(_)));
    let teacher_entry = out
        .iter()
        .find(|(e, _)| eq_entity(e, &Entity::Teacher(teacher("AB", None))))
        .expect("teacher key missing");
    assert_eq!(teacher_entry.1.days.len(), 1);
    assert_eq!(teacher_entry.1.days[0].date, 100);
    assert_eq!(teacher_entry.1.days[0].lessons.len(), 1);
    assert_eq!(teacher_entry.1.days[0].lessons[0].time_range.start, 540);
    assert!(!out.iter().any(|(e, _)| eq_entity(e, &Entity::Teacher(teacher("ZZ", None)))));
    let room_entry = out
        .iter()
        .find(|(e, _)| eq_entity(e, &Entity::Room(Room { name: String::from("R1") })))
        .expect("room key missing");
    assert_eq!(room_entry.1.days[0].lessons.len(), 1);
}

#[test]
fn aggregator_keeps_class_entries_unchanged() {
    let lesson = block(540, 600);
    let input = vec![(class(9, "7b"), week_with_lesson(lesson, 55))];
    let (out, _) = gen_all_timetables(input, None).unwrap();
    assert_eq!(out.len(), 1);
    match &out[0].0 {
        Entity::Class(c) => assert!(eq_class(c, &class(9, "7b"))),
        other => panic!("expected a class key, got {other:?}"),
    }
    assert_eq!(out[0].1.days[0].date, 55);
    assert_eq!(out[0].1.days[0].lessons.len(), 1);
}

#[test]
fn aggregator_distinguishes_teachers_by_id_presence() {
    // Structural equality is intentional: the same names with and without an
    // id form two distinct keys.
    let mut lesson = block(540, 600);
    lesson.entities.push(mark(Entity::Teacher(teacher("AB", None)), ChangeStatus::Regular));
    lesson.entities.push(mark(Entity::Teacher(teacher("AB", Some(4))), ChangeStatus::Regular));
    let input = vec![(class(1, "5a"), week_with_lesson(lesson, 1))];
    let (out, _) = gen_all_timetables(input, None).unwrap();
    assert_eq!(out.len(), 3);
}

#[test]
fn aggregator_duplicates_doubly_tracked_teacher() {
    let mut lesson = block(540, 600);
    lesson.entities.push(mark(Entity::Teacher(teacher("AB", None)), ChangeStatus::Regular));
    lesson.entities.push(mark(Entity::Teacher(teacher("AB", None)), ChangeStatus::Changed));
    let input = vec![(class(1, "5a"), week_with_lesson(lesson, 1))];
    let (out, _) = gen_all_timetables(input, None).unwrap();
    let teacher_entry = out
        .iter()
        .find(|(e, _)| eq_entity(e, &Entity::Teacher(teacher("AB", None))))
        .expect("teacher key missing");
    // no deduplication: the lesson appears twice under the teacher
    assert_eq!(teacher_entry.1.days[0].lessons.len(), 2);
}

fn entity_label(e: &Entity) -> String {
    match e {
        Entity::Teacher(t) => format!("T:{}:{:?}", t.short_name, t.id),
        Entity::Class(c) => format!("C:{}:{}", c.id, c.name),
        Entity::Room(r) => format!("R:{}", r.name),
        Entity::Subject(s) => format!("S:{}", s.short_name),
        Entity::Info(i) => format!("I:{}", i.text),
    }
}

#[test]
fn aggregator_runs_identically_twice() {
    let mut lesson = block(540, 600);
    lesson.entities.push(mark(Entity::Teacher(teacher("AB", None)), ChangeStatus::Regular));
    lesson.entities.push(mark(
        Entity::Room(Room { name: String::from("R1") }),
        ChangeStatus::New,
    ));
    let make_input = || {
        vec![
            (class(1, "5a"), week_with_lesson(lesson.clone(), 10)),
            (class(2, "6b"), week_with_lesson(lesson.clone(), 11)),
        ]
    };
    let (out1, _) = gen_all_timetables(make_input(), None).unwrap();
    let (out2, _) = gen_all_timetables(make_input(), None).unwrap();
    assert_eq!(out1.len(), out2.len());
    for (a, b) in out1.iter().zip(out2.iter()) {
        assert!(eq_entity(&a.0, &b.0));
        assert_eq!(entity_label(&a.0), entity_label(&b.0));
        assert_eq!(a.1.days.len(), b.1.days.len());
        for (da, db) in a.1.days.iter().zip(b.1.days.iter()) {
            assert_eq!(da.date, db.date);
            assert_eq!(da.lessons.len(), db.lessons.len());
            for (la, lb) in da.lessons.iter().zip(db.lessons.iter()) {
                assert_eq!(la.time_range, lb.time_range);
                assert_eq!(la.kind, lb.kind);
            }
        }
    }
}

#[test]
fn entity_equality_is_structural() {
    assert!(eq_entity(
        &Entity::Teacher(teacher("AB", None)),
        &Entity::Teacher(teacher("AB", None))
    ));
    assert!(!eq_entity(
        &Entity::Teacher(teacher("AB", None)),
        &Entity::Teacher(teacher("AB", Some(1)))
    ));
    assert!(!eq_entity(
        &Entity::Teacher(teacher("AB", None)),
        &Entity::Room(Room { name: String::from("AB") })
    ));
}
