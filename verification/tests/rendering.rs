use untis_mirror::model::{
    ChangeStatus, DayTimeTable, Entity, LessonBlock, Subject, Teacher, TimeRange, TrackedEntity,
    WeekTimeTable,
};
use untis_mirror::table::{boundary_points, render_table};

fn lesson(start: u64, end: u64, subject: &str) -> LessonBlock {
    LessonBlock {
        time_range: TimeRange { start, end },
        entities: vec![TrackedEntity {
            inner: Entity::Subject(Subject {
                short_name: subject.to_string(),
                long_name: format!("{subject} Long"),
                display_name: subject.to_string(),
            }),
            status: ChangeStatus::Regular,
        }],
        kind: String::from("Lesson"),
        status: String::new(),
        color_hex: String::new(),
        icons: Vec::new(),
        texts: Vec::new(),
        link: String::new(),
    }
}

fn week(days: Vec<DayTimeTable>) -> WeekTimeTable {
    WeekTimeTable { days }
}

#[test]
fn table_single_lesson_one_slot() {
    // One 45-minute lesson 10:00-10:45: two boundary points, one slot, kept
    // because 45 >= 35.
    let w = week(vec![DayTimeTable { date: 0, lessons: vec![lesson(600, 645, "MATH")] }]);
    let b = boundary_points(&w);
    assert_eq!(b, vec![600, 645]);
    let out = render_table(&w, true, false, false, false, false);
    let expected = "10:00|MATH        |\n-------------------\n";
    assert_eq!(out, expected);
}

#[test]
fn table_two_rows_carry_start_and_end() {
    let mut l = lesson(600, 645, "MATH");
    l.entities.push(TrackedEntity {
        inner: Entity::Teacher(Teacher {
            id: None,
            short_name: String::from("AB"),
            long_name: String::from("AB Long"),
            display_name: String::from("AB"),
        }),
        status: ChangeStatus::Regular,
    });
    let w = week(vec![DayTimeTable { date: 0, lessons: vec![l] }]);
    let out = render_table(&w, true, true, false, false, false);
    let expected = "10:00|MATH        |\n10:45|AB          |\n-------------------\n";
    assert_eq!(out, expected);
}

#[test]
fn table_empty_week_renders_sentinel() {
    let w = week(vec![DayTimeTable { date: 0, lessons: Vec::new() }]);
    assert_eq!(render_table(&w, true, true, true, true, true), "No lessons");
    let w2 = week(Vec::new());
    assert_eq!(render_table(&w2, true, true, true, true, true), "No lessons");
}

#[test]
fn table_drops_slot_without_lessons() {
    // Lessons 08:00-09:00 and 10:00-11:00: the middle slot 09:00-10:00 has
    // no lesson and is dropped.
    let w = week(vec![DayTimeTable {
        date: 0,
        lessons: vec![lesson(480, 540, "A"), lesson(600, 660, "B")],
    }]);
    let out = render_table(&w, true, false, false, false, false);
    assert!(out.contains("08:00"));
    assert!(out.contains("10:00"));
    assert!(!out.contains("09:00"));
}

#[test]
fn table_drops_short_redundant_slot() {
    // Day one holds a long lesson 08:00-10:00; day two ends a lesson at
    // 09:10 and starts the next at 09:15.  The five-minute slot between
    // those staggered times only repeats the long lesson, which spans
    // strictly past both of its ends, so the slot is dropped.
    let w = week(vec![
        DayTimeTable { date: 0, lessons: vec![lesson(480, 600, "LONG")] },
        DayTimeTable { date: 1, lessons: vec![lesson(470, 550, "B"), lesson(555, 640, "C")] },
    ]);
    let out = render_table(&w, true, false, false, false, false);
    assert!(out.contains("08:00"));
    assert!(!out.contains("09:10|"));
}

#[test]
fn table_truncates_long_cells_with_ellipsis() {
    let w = week(vec![DayTimeTable {
        date: 0,
        lessons: vec![lesson(600, 660, "VERYLONGSUBJECTNAME")],
    }]);
    let out = render_table(&w, true, false, false, false, false);
    assert!(out.contains("VERYLONGS...|"));
}

#[test]
fn table_joins_multiple_lessons_in_one_cell() {
    let w = week(vec![DayTimeTable {
        date: 0,
        lessons: vec![lesson(600, 660, "A"), lesson(600, 660, "B")],
    }]);
    let out = render_table(&w, true, false, false, false, false);
    assert!(out.contains("A / B"));
}

#[test]
fn table_status_column_shows_status() {
    let mut l = lesson(600, 660, "A");
    l.status = String::from("CANCELLED");
    let w = week(vec![DayTimeTable { date: 0, lessons: vec![l] }]);
    let out = render_table(&w, false, false, false, false, true);
    assert!(out.contains("CANCELLED"));
}

#[test]
fn boundary_points_dedup_and_sort() {
    let w = week(vec![
        DayTimeTable { date: 0, lessons: vec![lesson(600, 660, "A"), lesson(600, 645, "B")] },
        DayTimeTable { date: 1, lessons: vec![lesson(540, 600, "C")] },
    ]);
    assert_eq!(boundary_points(&w), vec![540, 600, 645, 660]);
}
