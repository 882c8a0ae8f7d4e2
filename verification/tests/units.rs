use backwell::auth::{auth_middleware, bearer_token, AuthMiddleware, Claims};
use backwell::controller::error_response;
use backwell::model::{courses_overlap, offering_is_valid, schedules_overlap, slots_overlap,
    MeetingSlot, Offering, Professor, Room, Subject};
use backwell::projector::simplify_schedules;
use backwell::text::{str_eq, str_lex_le, token_matches, trim};
use backwell::time_overlap::{format_time, parse_time, times_overlap};
use backwell::numfmt::{decimal_string, i32_string};

fn room(name: &str) -> Room {
    Room { id: 5, name: name.to_string(), capacity: None }
}

fn slot(day: &str, start: &str, end: &str) -> MeetingSlot {
    MeetingSlot {
        id: 1,
        day: day.to_string(),
        start: start.to_string(),
        end: end.to_string(),
        room: room("B2"),
    }
}

fn offering(id: i32, sid: i32, subject: &str, prof: Option<&str>, slots: Vec<MeetingSlot>) -> Offering {
    Offering {
        id,
        subject: Subject { id: sid, name: subject.to_string() },
        professor: prof.map(|p| Professor { id: 9, name: Some(p.to_string()) }),
        assistant: None,
        slots,
        metadata: String::new(),
    }
}

#[test]
fn parse_time_accepts_both_forms() {
    assert_eq!(parse_time("09:30"), Some(9 * 3600 + 30 * 60));
    assert_eq!(parse_time("09:30:15"), Some(9 * 3600 + 30 * 60 + 15));
    assert_eq!(parse_time("00:00"), Some(0));
    assert_eq!(parse_time("23:59:59"), Some(86399));
}

#[test]
fn parse_time_rejects_malformed() {
    assert_eq!(parse_time("24:00"), None);
    assert_eq!(parse_time("9:30"), None);
    assert_eq!(parse_time("10:61"), None);
    assert_eq!(parse_time("10:30:61"), None);
    assert_eq!(parse_time(""), None);
    assert_eq!(parse_time("10-30"), None);
    assert_eq!(parse_time("ab:cd"), None);
}

#[test]
fn format_time_renders_seconds() {
    assert_eq!(format_time(9 * 3600 + 30 * 60 + 15), "09:30:15".to_string());
    assert_eq!(format_time(0), "00:00:00".to_string());
    assert_eq!(format_time(86399), "23:59:59".to_string());
}

#[test]
fn time_round_trip_through_text() {
    let t = parse_time("13:05").unwrap();
    assert_eq!(parse_time(&format_time(t)), Some(t));
}

#[test]
fn interval_overlap_is_half_open() {
    assert!(times_overlap(900, 1000, 950, 1050));
    assert!(!times_overlap(900, 1000, 1000, 1100));
    assert!(!times_overlap(1000, 1100, 900, 1000));
    assert!(times_overlap(900, 1000, 900, 1000));
}

#[test]
fn trim_and_equality() {
    assert_eq!(trim("  hi \t"), "hi");
    assert_eq!(trim("   "), "");
    assert_eq!(trim("x"), "x");
    assert!(str_eq("abc", "abc"));
    assert!(!str_eq("abc", "abd"));
    assert!(!str_eq("abc", "ab"));
}

#[test]
fn weekday_tokens_match_case_insensitively() {
    assert!(token_matches("Mon", " mon "));
    assert!(token_matches("LUNES", "lunes"));
    assert!(!token_matches("Mon", "Tue"));
}

#[test]
fn lexicographic_order_on_names() {
    assert!(str_lex_le("Algebra", "Calculus"));
    assert!(!str_lex_le("Calculus", "Algebra"));
    assert!(str_lex_le("Alg", "Algebra"));
    assert!(str_lex_le("same", "same"));
}

#[test]
fn slots_overlap_needs_same_day() {
    let a = slot("Mon", "09:00", "10:00");
    let b = slot("Mon", "09:30", "10:30");
    let c = slot("Tue", "09:30", "10:30");
    assert!(slots_overlap(&a, &b));
    assert!(!slots_overlap(&a, &c));
}

#[test]
fn unparseable_times_never_overlap() {
    let a = slot("Mon", "whenever", "10:00");
    let b = slot("Mon", "09:00", "10:00");
    assert!(!slots_overlap(&a, &b));
}

#[test]
fn offerings_conflict_through_any_slot_pair() {
    let x = offering(1, 1, "Algebra", None, vec![
        slot("Mon", "09:00", "10:00"),
        slot("Wed", "09:00", "10:00"),
    ]);
    let y = offering(2, 2, "Calculus", None, vec![slot("Wed", "09:30", "10:30")]);
    let z = offering(3, 2, "Calculus", None, vec![slot("Fri", "09:30", "10:30")]);
    assert!(courses_overlap(&x, &y));
    assert!(!courses_overlap(&x, &z));
    assert!(schedules_overlap(&x.slots, &y.slots));
}

#[test]
fn offering_validity() {
    let good = offering(1, 1, "Algebra", None, vec![
        slot("Mon", "09:00", "10:00"),
        slot("Mon", "10:00", "11:00"),
    ]);
    let wraps = offering(2, 1, "Algebra", None, vec![slot("Mon", "10:00", "09:00")]);
    let selfclash = offering(3, 1, "Algebra", None, vec![
        slot("Mon", "09:00", "10:00"),
        slot("Mon", "09:30", "10:30"),
    ]);
    assert!(offering_is_valid(&good));
    assert!(!offering_is_valid(&wraps));
    assert!(!offering_is_valid(&selfclash));
}

#[test]
fn simplified_view_normalizes_times_and_professor() {
    let schedules = vec![vec![offering(
        1,
        1,
        "Algebra",
        None,
        vec![slot("Mon", "09:00", "10:30")],
    )]];
    let simplified = simplify_schedules(&schedules);
    assert_eq!(simplified.len(), 1);
    assert_eq!(simplified[0].schedule_number, 1);
    assert_eq!(simplified[0].courses.len(), 1);
    let c = &simplified[0].courses[0];
    assert_eq!(c.materia, "Algebra");
    assert_eq!(c.profesor, "Unknown");
    assert_eq!(c.schedules.len(), 1);
    assert_eq!(c.schedules[0].dia, "Mon");
    assert_eq!(c.schedules[0].hora_inicio, "09:00:00");
    assert_eq!(c.schedules[0].hora_fin, "10:30:00");
    assert_eq!(c.schedules[0].salon, "B2");
}

#[test]
fn simplified_view_names_the_professor() {
    let schedules = vec![vec![offering(
        1,
        1,
        "Algebra",
        Some("Dr. Aby"),
        vec![slot("Mon", "09:00:30", "10:30:00")],
    )]];
    let simplified = simplify_schedules(&schedules);
    assert_eq!(simplified[0].courses[0].profesor, "Dr. Aby");
    assert_eq!(simplified[0].courses[0].schedules[0].hora_inicio, "09:00:30");
}

#[test]
fn decimal_renderings() {
    assert_eq!(decimal_string(0), "0".to_string());
    assert_eq!(decimal_string(100), "100".to_string());
    assert_eq!(decimal_string(90210), "90210".to_string());
    assert_eq!(i32_string(-17), "-17".to_string());
    assert_eq!(i32_string(7), "7".to_string());
}

#[test]
fn error_response_shape() {
    let r = error_response(500, "Error fetching data from upstream: timed out".to_string());
    assert_eq!(r.status, 500);
    assert!(r.compatible_schedules.is_empty());
    assert!(r.simplified_schedules.is_empty());
    assert_eq!(
        r.messages,
        vec!["Error fetching data from upstream: timed out".to_string()]
    );
}

#[test]
fn bearer_token_extraction() {
    assert_eq!(bearer_token("Bearer abc123"), Some("abc123".to_string()));
    assert_eq!(bearer_token("Bearer   spaced   "), Some("spaced".to_string()));
    assert_eq!(bearer_token("Token abc"), None);
    assert_eq!(bearer_token(""), None);
    assert_eq!(bearer_token("Bearer"), None);
}

#[test]
fn middleware_handle_and_claims() {
    assert_eq!(auth_middleware(), AuthMiddleware);
    let c = Claims { sub: "user-1".to_string(), exp: 1700000000 };
    assert_eq!(c.sub, "user-1");
    assert_eq!(c.exp, 1700000000);
}
