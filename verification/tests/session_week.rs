use untis_mirror::errors::UntisError;
use untis_mirror::ingest::{
    UntisClassEntry, UntisClassInfo, UntisDepartment, UntisDuration, UntisGridEntry,
    UntisPosition, UntisResource, UntisTeacher,
};
use untis_mirror::model::{ChangeStatus, Class, DayTimeTable, Entity, LessonBlock, TimeRange};
use untis_mirror::session::{
    build_totp_token, get_cookies, is_authenticated, school_name, CacheDecision,
    CachedUntisClient, Cookies, PersistenceManager, Settings, TimeTableCache, TimeTables,
    UntisClient,
};
use untis_mirror::week::Week;

// 2024-01-01 was a Monday; days are counted from January 1 of year 1.
const MONDAY_2024_01_01: u32 = 738886;

#[test]
fn week_from_day_snaps_to_monday() {
    let w = Week::from_day(MONDAY_2024_01_01 + 2);
    assert_eq!(w.start, "2024-01-01");
    assert_eq!(w.end, "2024-01-05");
}

#[test]
fn week_previous_and_next_shift_by_seven_days() {
    let w = Week::from_day(MONDAY_2024_01_01);
    let p = w.previous();
    assert_eq!(p.start, "2023-12-25");
    assert_eq!(p.end, "2023-12-29");
    let n = w.next();
    assert_eq!(n.start, "2024-01-08");
    assert_eq!(n.end, "2024-01-12");
}

#[test]
fn week_to_string_renders_days_and_months() {
    let w = Week::from_day(MONDAY_2024_01_01);
    assert_eq!(w.to_string(), "1.1 - 5.1");
}

#[test]
fn week_current_is_monday_to_friday() {
    let w = Week::current();
    // both bounds parse back and lie five days apart
    let p = w.next().previous();
    assert_eq!(p.start, w.start);
    assert_eq!(p.end, w.end);
}

#[test]
fn cookies_parse_all_three() {
    let c = get_cookies("JSESSIONID=abc; Tenant-Id=42; schoolname=xyz").unwrap();
    assert_eq!(c.jsessionid, "abc");
    assert_eq!(c.tenant_id, "42");
    assert_eq!(c.school_name_base32, "xyz");
}

#[test]
fn cookies_missing_key_yields_none() {
    assert!(get_cookies("JSESSIONID=abc; Tenant-Id=42").is_none());
    assert!(get_cookies("").is_none());
}

#[test]
fn cookies_last_occurrence_wins() {
    let c = PersistenceManager::get_cookies(
        "JSESSIONID=old; Tenant-Id=1; schoolname=s; JSESSIONID=new",
    )
    .unwrap();
    assert_eq!(c.jsessionid, "new");
}

#[test]
fn cookies_ignore_unrelated_entries() {
    let c = get_cookies("theme=dark; JSESSIONID=a;Tenant-Id=b ; schoolname= c ").unwrap();
    assert_eq!(c.jsessionid, "a");
    assert_eq!(c.tenant_id, "b");
    assert_eq!(c.school_name_base32, "c");
}

#[test]
fn cookie_header_round_trip() {
    let c = Cookies {
        jsessionid: String::from("a"),
        tenant_id: String::from("b"),
        school_name_base32: String::from("c"),
    };
    let header = c.to_header_value();
    assert_eq!(header, "JSESSIONID=a; Tenant-Id=b; schoolname=c");
    let back = get_cookies(&header).unwrap();
    assert_eq!(back.jsessionid, "a");
    assert_eq!(back.tenant_id, "b");
    assert_eq!(back.school_name_base32, "c");
}

#[test]
fn authentication_needs_full_cookie_set() {
    assert!(is_authenticated("JSESSIONID=a; Tenant-Id=b; schoolname=c"));
    assert!(!is_authenticated("JSESSIONID=a"));
    assert!(UntisClient::is_authenticated("JSESSIONID=a; Tenant-Id=b; schoolname=c"));
}

#[test]
fn settings_expose_school_name() {
    let s = Settings {
        school_name: String::from("myschool"),
        username: String::from("user"),
        auth_secret: String::new(),
    };
    assert_eq!(school_name(&s), "myschool");
    let client = UntisClient::new(school_name(&s));
    assert_eq!(client.school_name, "myschool");
}

fn empty_tables() -> TimeTables {
    TimeTables { classes: Vec::new(), pre_selected: None }
}

#[test]
fn cache_lookup_decides_fresh_stale_miss() {
    let week = Week::from_day(MONDAY_2024_01_01);
    let other = week.next();
    let cache = TimeTableCache {
        entries: vec![
            (week.clone(), Some(100), empty_tables()),
            (other.clone(), None, empty_tables()),
        ],
    };
    assert_eq!(CachedUntisClient::cache_lookup(&cache, &week, 50), CacheDecision::Fresh(0));
    assert_eq!(CachedUntisClient::cache_lookup(&cache, &week, 100), CacheDecision::Stale(0));
    assert_eq!(CachedUntisClient::cache_lookup(&cache, &other, 999), CacheDecision::Fresh(1));
    assert_eq!(
        CachedUntisClient::cache_lookup(&cache, &week.previous(), 0),
        CacheDecision::Miss
    );
    let cleared = CachedUntisClient::clear_cache();
    assert_eq!(cleared.entries.len(), 0);
}

#[test]
fn cache_store_replaces_the_week_entry() {
    let week = Week::from_day(MONDAY_2024_01_01);
    let other = week.next();
    let cache = TimeTableCache {
        entries: vec![
            (week.clone(), Some(100), empty_tables()),
            (other.clone(), None, empty_tables()),
        ],
    };
    let stored = CachedUntisClient::cache_store(cache, week.clone(), empty_tables());
    assert_eq!(stored.entries.len(), 2);
    // the stale slot for the week left; the fresh one sits at the end with
    // no expiry
    assert_eq!(stored.entries[0].0, other);
    assert_eq!(stored.entries[1].0, week);
    assert_eq!(stored.entries[1].1, None);
    assert_eq!(
        CachedUntisClient::cache_lookup(&stored, &week, 12345),
        CacheDecision::Fresh(1)
    );
}

#[test]
fn totp_token_matches_reference_vector() {
    // The reference seed "12345678901234567890" in base32, at 59 seconds
    // with a 30 second step, yields the well-known six-digit code.
    let secret = "GEZDGNBVGY3TQOJQGEZDGNBVGY3TQOJQ";
    let token = build_totp_token(secret, 59_000).unwrap();
    assert_eq!(token, "287082");
}

#[test]
fn totp_rejects_invalid_secret() {
    assert!(build_totp_token("not base32 at all!!!", 59_000).is_none());
}

#[test]
fn error_messages_carry_their_kind() {
    assert_eq!(
        UntisError::Authentication(String::from("no session")).describe(),
        "Auth Error: no session"
    );
    assert_eq!(UntisError::Parsing(String::from("bad")).describe(), "Parsing Error: bad");
    assert_eq!(UntisError::Network(String::from("down")).describe(), "Network Error: down");
    assert_eq!(UntisError::Miscellaneous(String::from("odd")).describe(), "odd");
    let from_string = UntisError::from(String::from("boom"));
    assert_eq!(from_string.describe(), "boom");
    let from_str = UntisError::from("boom");
    assert_eq!(from_str.describe(), "boom");
}

fn resource(kind: &str, short: &str) -> UntisResource {
    UntisResource {
        kind: kind.to_string(),
        status: String::new(),
        short_name: short.to_string(),
        long_name: format!("{short} Long"),
        display_name: short.to_string(),
        display_name_label: None,
        text: None,
    }
}

#[test]
fn resource_cleaning_is_case_insensitive() {
    match Entity::from_resource(&resource("TEACHER", "AB")).unwrap() {
        Entity::Teacher(t) => {
            assert_eq!(t.id, None);
            assert_eq!(t.short_name, "AB");
        },
        other => panic!("expected a teacher, got {other:?}"),
    }
    match Entity::from_resource(&resource("Klasse", "5a")).unwrap() {
        Entity::Class(c) => assert_eq!(c.name, "5a"),
        other => panic!("expected a class, got {other:?}"),
    }
    match Entity::from_resource(&resource("room", "R1")).unwrap() {
        Entity::Room(r) => assert_eq!(r.name, "R1"),
        other => panic!("expected a room, got {other:?}"),
    }
}

#[test]
fn unknown_resource_kind_is_rejected() {
    let err = Entity::from_resource(&resource("gadget", "X")).unwrap_err();
    assert_eq!(err.describe(), "Parsing Error: Unrecognized resource type: gadget");
}

#[test]
fn duration_cleaning_counts_minutes() {
    let d = UntisDuration {
        start: String::from("2024-01-01T10:00"),
        end: String::from("2024-01-01T10:45"),
    };
    let tr = TimeRange::from_duration(&d).unwrap();
    assert_eq!(tr.start, MONDAY_2024_01_01 as u64 * 1440 + 600);
    assert_eq!(tr.end, MONDAY_2024_01_01 as u64 * 1440 + 645);
}

#[test]
fn duration_cleaning_rejects_bad_text_and_empty_ranges() {
    let bad = UntisDuration { start: String::from("gibberish"), end: String::from("also") };
    assert!(TimeRange::from_duration(&bad).is_err());
    let empty = UntisDuration {
        start: String::from("2024-01-01T10:00"),
        end: String::from("2024-01-01T10:00"),
    };
    assert!(TimeRange::from_duration(&empty).is_err());
}

fn grid_entry() -> UntisGridEntry {
    UntisGridEntry {
        ids: vec![1],
        duration: UntisDuration {
            start: String::from("2024-01-01T10:00"),
            end: String::from("2024-01-01T10:45"),
        },
        kind: String::from("LESSON"),
        status: String::from("CHANGED"),
        status_detail: None,
        name: None,
        layout_start_position: 0,
        layout_width: 0,
        layout_group: 0,
        color: String::from("ffaa00"),
        notes_all: String::from("notes"),
        icons: Vec::new(),
        position1: Some(vec![UntisPosition {
            current: Some(resource("teacher", "AB")),
            removed: Some(resource("teacher", "ZZ")),
        }]),
        position2: Some(vec![UntisPosition {
            current: Some(resource("subject", "MATH")),
            removed: None,
        }]),
        position3: None,
        position4: None,
        position5: None,
        position6: None,
        position7: None,
        lesson_text: String::from("text"),
        lesson_info: None,
        substitution_text: String::new(),
        user_name: None,
        link: None,
    }
}

#[test]
fn grid_cleaning_orders_tracked_entities() {
    let l: LessonBlock = LessonBlock::from_grid(&grid_entry()).unwrap();
    assert_eq!(l.entities.len(), 3);
    // the replaced teacher marks the current one as changed
    assert_eq!(l.entities[0].status, ChangeStatus::Changed);
    assert!(matches!(l.entities[0].inner, Entity::Teacher(_)));
    assert_eq!(l.entities[1].status, ChangeStatus::Removed);
    assert_eq!(l.entities[2].status, ChangeStatus::Regular);
    assert!(matches!(l.entities[2].inner, Entity::Subject(_)));
    assert_eq!(l.kind, "LESSON");
    assert_eq!(l.status, "CHANGED");
    assert_eq!(l.color_hex, "ffaa00");
    assert_eq!(l.texts.len(), 3);
    assert_eq!(l.texts[0].key, "notesAll");
    assert_eq!(l.texts[0].value, "notes");
}

#[test]
fn day_cleaning_parses_the_date() {
    let day = untis_mirror::ingest::UntisDayEntry {
        date: String::from("2024-01-01"),
        resource_type: String::from("CLASS"),
        resource: UntisClassInfo {
            id: 1,
            short_name: String::from("5a"),
            long_name: String::new(),
            display_name: String::new(),
        },
        status: String::new(),
        grid_entries: vec![grid_entry()],
    };
    let d: DayTimeTable = DayTimeTable::from_day(&day).unwrap();
    assert_eq!(d.date, MONDAY_2024_01_01 as u64);
    assert_eq!(d.lessons.len(), 1);
}

#[test]
fn class_entry_cleaning_keeps_home_teacher_id() {
    let entry = UntisClassEntry {
        class_info: UntisClassInfo {
            id: 12,
            short_name: String::from("5a"),
            long_name: String::from("Class 5a"),
            display_name: String::from("5a"),
        },
        class_teacher1: Some(UntisTeacher {
            id: 7,
            short_name: String::from("AB"),
            long_name: String::from("AB Long"),
            display_name: String::from("AB"),
        }),
        class_teacher2: None,
        department: UntisDepartment {
            id: 3,
            short_name: String::from("D"),
            long_name: String::from("Dept"),
            display_name: String::from("D"),
        },
    };
    let c: Class = Class::from_entry(&entry);
    assert_eq!(c.id, 12);
    assert_eq!(c.name, "5a");
    assert_eq!(c.class_teacher.as_ref().unwrap().id, Some(7));
    assert_eq!(c.department.id, 3);
}
