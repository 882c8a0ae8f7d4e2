use backwell::controller::{
    generate_schedule, generate_schedule_capped, create_compatible_schedules,
    GenerateScheduleRequest,
};
use backwell::model::{MeetingSlot, Offering, Professor, Room, Subject};

fn room() -> Room {
    Room { id: 1, name: "R101".to_string(), capacity: Some(30) }
}

fn slot(id: i32, day: &str, start: &str, end: &str) -> MeetingSlot {
    MeetingSlot {
        id,
        day: day.to_string(),
        start: start.to_string(),
        end: end.to_string(),
        room: room(),
    }
}

fn offering(id: i32, sid: i32, subject: &str, prof: Option<&str>, slots: Vec<MeetingSlot>) -> Offering {
    Offering {
        id,
        subject: Subject { id: sid, name: subject.to_string() },
        professor: prof.map(|p| Professor { id: sid * 100 + id, name: Some(p.to_string()) }),
        assistant: None,
        slots,
        metadata: String::new(),
    }
}

fn names(list: &[&str]) -> Vec<String> {
    list.iter().map(|s| s.to_string()).collect()
}

fn ids(schedules: &Vec<Vec<Offering>>) -> Vec<Vec<i32>> {
    schedules.iter().map(|s| s.iter().map(|o| o.id).collect()).collect()
}

#[test]
fn single_subject_two_nonoverlapping() {
    let catalog = vec![
        offering(1, 1, "Algebra", Some("Dr. Aby"), vec![slot(1, "Mon", "09:00", "10:30")]),
        offering(2, 1, "Algebra", Some("Dr. Aby"), vec![slot(2, "Tue", "09:00", "10:30")]),
    ];
    let req = GenerateScheduleRequest { courses: names(&["Algebra"]), minimum: 1, professors: None };
    let resp = generate_schedule(&req, &catalog);
    assert_eq!(resp.status, 200);
    assert_eq!(ids(&resp.compatible_schedules), vec![vec![1], vec![2]]);
    assert!(resp.messages.is_empty());
}

#[test]
fn two_subjects_all_compatible_pairs() {
    let catalog = vec![
        offering(1, 1, "Algebra", None, vec![slot(1, "Mon", "09:00", "10:00")]),
        offering(2, 1, "Algebra", None, vec![slot(2, "Mon", "10:00", "11:00")]),
        offering(3, 2, "Calculus", None, vec![slot(3, "Mon", "11:00", "12:00")]),
        offering(4, 2, "Calculus", None, vec![slot(4, "Tue", "09:00", "10:00")]),
    ];
    let req = GenerateScheduleRequest {
        courses: names(&["Algebra", "Calculus"]),
        minimum: 2,
        professors: None,
    };
    let resp = generate_schedule(&req, &catalog);
    assert_eq!(resp.status, 200);
    assert_eq!(
        ids(&resp.compatible_schedules),
        vec![vec![1, 3], vec![1, 4], vec![2, 3], vec![2, 4]]
    );
    assert!(resp.messages.is_empty());
}

#[test]
fn conflict_elimination() {
    let catalog = vec![
        offering(1, 1, "Algebra", None, vec![slot(1, "Mon", "09:00", "10:00")]),
        offering(3, 2, "Calculus", None, vec![slot(3, "Mon", "09:30", "10:30")]),
    ];
    let req = GenerateScheduleRequest {
        courses: names(&["Algebra", "Calculus"]),
        minimum: 2,
        professors: None,
    };
    let resp = generate_schedule(&req, &catalog);
    assert_eq!(resp.status, 200);
    assert!(resp.compatible_schedules.is_empty());
    assert_eq!(
        resp.messages,
        vec!["No combinations possible with the given criteria.".to_string()]
    );
}

#[test]
fn floor_one_yields_single_offering_schedules() {
    // The same conflicting pair with a floor of one: each offering alone is
    // a maximal feasible set, so the enumerator itself reports the two
    // singletons and the single-offering fallback is not needed.
    let catalog = vec![
        offering(1, 1, "Algebra", None, vec![slot(1, "Mon", "09:00", "10:00")]),
        offering(3, 2, "Calculus", None, vec![slot(3, "Mon", "09:30", "10:30")]),
    ];
    let req = GenerateScheduleRequest {
        courses: names(&["Algebra", "Calculus"]),
        minimum: 1,
        professors: None,
    };
    let resp = generate_schedule(&req, &catalog);
    assert_eq!(resp.status, 200);
    assert_eq!(ids(&resp.compatible_schedules), vec![vec![1], vec![3]]);
    assert!(resp.messages.is_empty());
}

#[test]
fn fallback_engages_when_assembly_rejects_everything() {
    // Two professors are requested and both teach, but no feasible set
    // contains both; with a floor of one the engine degrades to one
    // schedule per offering and says so.
    let catalog = vec![
        offering(1, 1, "Algebra", Some("Dr. Aby"), vec![slot(1, "Mon", "09:00", "10:00")]),
        offering(2, 1, "Algebra", Some("Dr. Bo"), vec![slot(2, "Tue", "09:00", "10:00")]),
    ];
    let req = GenerateScheduleRequest {
        courses: names(&["Algebra"]),
        minimum: 1,
        professors: Some(names(&["Dr. Aby", "Dr. Bo"])),
    };
    let resp = generate_schedule(&req, &catalog);
    assert_eq!(resp.status, 200);
    assert_eq!(ids(&resp.compatible_schedules), vec![vec![1], vec![2]]);
    assert_eq!(
        resp.messages,
        vec!["No combinations possible, showing individual courses.".to_string()]
    );
}

#[test]
fn professor_filter_miss() {
    let catalog = vec![
        offering(1, 1, "Algebra", Some("Dr. Aby"), vec![slot(1, "Mon", "09:00", "10:00")]),
    ];
    let req = GenerateScheduleRequest {
        courses: names(&["Algebra"]),
        minimum: 1,
        professors: Some(names(&["Dr. Zed"])),
    };
    let resp = generate_schedule(&req, &catalog);
    assert_eq!(resp.status, 200);
    assert!(resp.compatible_schedules.is_empty());
    assert!(resp.simplified_schedules.is_empty());
    assert_eq!(
        resp.messages,
        vec!["Professors not found teaching the selected courses: Dr. Zed".to_string()]
    );
}

#[test]
fn minimum_greater_than_courses() {
    let catalog = vec![
        offering(1, 1, "Algebra", None, vec![slot(1, "Mon", "09:00", "10:00")]),
    ];
    let req = GenerateScheduleRequest { courses: names(&["Algebra"]), minimum: 2, professors: None };
    let resp = generate_schedule(&req, &catalog);
    assert_eq!(resp.status, 400);
    assert!(resp.compatible_schedules.is_empty());
    assert!(resp.simplified_schedules.is_empty());
    assert_eq!(
        resp.messages,
        vec![
            "Minimum number of courses (2) cannot be greater than the number of requested courses (1)."
                .to_string()
        ]
    );
}

#[test]
fn professor_closure_keeps_only_covering_schedules() {
    // Dr. Aby teaches one Algebra section; the filter keeps only the
    // schedules that include it.
    let catalog = vec![
        offering(1, 1, "Algebra", Some("Dr. Aby"), vec![slot(1, "Mon", "09:00", "10:00")]),
        offering(2, 1, "Algebra", Some("Dr. Bo"), vec![slot(2, "Mon", "10:00", "11:00")]),
        offering(3, 2, "Calculus", Some("Dr. Cy"), vec![slot(3, "Tue", "09:00", "10:00")]),
    ];
    let req = GenerateScheduleRequest {
        courses: names(&["Algebra", "Calculus"]),
        minimum: 2,
        professors: Some(names(&["Dr. Aby"])),
    };
    let resp = generate_schedule(&req, &catalog);
    assert_eq!(resp.status, 200);
    assert_eq!(ids(&resp.compatible_schedules), vec![vec![1, 3]]);
    assert!(resp.messages.is_empty());
}

#[test]
fn missing_subject_reported_and_rest_continues() {
    let catalog = vec![
        offering(1, 1, "Algebra", None, vec![slot(1, "Mon", "09:00", "10:00")]),
    ];
    let req = GenerateScheduleRequest {
        courses: names(&["Algebra", "Chemistry"]),
        minimum: 1,
        professors: None,
    };
    let resp = generate_schedule(&req, &catalog);
    assert_eq!(resp.status, 200);
    assert_eq!(ids(&resp.compatible_schedules), vec![vec![1]]);
    assert_eq!(resp.messages, vec!["Subjects not found: Chemistry".to_string()]);
}

#[test]
fn malformed_offering_dropped_with_diagnostic() {
    let catalog = vec![
        offering(7, 1, "Algebra", None, vec![slot(1, "Mon", "25:00", "26:00")]),
        offering(8, 1, "Algebra", None, vec![slot(2, "Tue", "09:00", "10:00")]),
    ];
    let req = GenerateScheduleRequest { courses: names(&["Algebra"]), minimum: 1, professors: None };
    let resp = generate_schedule(&req, &catalog);
    assert_eq!(resp.status, 200);
    assert_eq!(ids(&resp.compatible_schedules), vec![vec![8]]);
    assert_eq!(
        resp.messages,
        vec!["Offering 7 skipped: invalid meeting times.".to_string()]
    );
}

#[test]
fn self_conflicting_offering_dropped() {
    // Two of the offering's own slots overlap, so it is excluded.
    let catalog = vec![
        offering(
            9,
            1,
            "Algebra",
            None,
            vec![slot(1, "Mon", "09:00", "10:00"), slot(2, "mon", "09:30", "10:30")],
        ),
        offering(10, 1, "Algebra", None, vec![slot(3, "Tue", "09:00", "10:00")]),
    ];
    let req = GenerateScheduleRequest { courses: names(&["Algebra"]), minimum: 1, professors: None };
    let resp = generate_schedule(&req, &catalog);
    assert_eq!(ids(&resp.compatible_schedules), vec![vec![10]]);
    assert_eq!(
        resp.messages,
        vec!["Offering 9 skipped: invalid meeting times.".to_string()]
    );
}

#[test]
fn cap_truncates_at_one_hundred() {
    // Ten Algebra sections and eleven Calculus sections, all compatible:
    // 110 maximal cliques, truncated to the cap.
    let mut catalog = Vec::new();
    for i in 0..10 {
        catalog.push(offering(
            i + 1,
            1,
            "Algebra",
            None,
            vec![slot(i + 1, "Mon", "09:00", "10:00")],
        ));
    }
    for i in 0..11 {
        catalog.push(offering(
            100 + i,
            2,
            "Calculus",
            None,
            vec![slot(100 + i, "Tue", "09:00", "10:00")],
        ));
    }
    let req = GenerateScheduleRequest {
        courses: names(&["Algebra", "Calculus"]),
        minimum: 2,
        professors: None,
    };
    let resp = generate_schedule(&req, &catalog);
    assert_eq!(resp.status, 200);
    assert_eq!(resp.compatible_schedules.len(), 100);
    assert_eq!(
        resp.messages,
        vec!["Results truncated to 100 schedules.".to_string()]
    );
}

#[test]
fn caller_supplied_cap_is_honored() {
    let catalog = vec![
        offering(1, 1, "Algebra", None, vec![slot(1, "Mon", "09:00", "10:00")]),
        offering(2, 1, "Algebra", None, vec![slot(2, "Mon", "10:00", "11:00")]),
        offering(3, 2, "Calculus", None, vec![slot(3, "Mon", "11:00", "12:00")]),
        offering(4, 2, "Calculus", None, vec![slot(4, "Tue", "09:00", "10:00")]),
    ];
    let req = GenerateScheduleRequest {
        courses: names(&["Algebra", "Calculus"]),
        minimum: 2,
        professors: None,
    };
    let resp = generate_schedule_capped(&req, &catalog, 1);
    assert_eq!(ids(&resp.compatible_schedules), vec![vec![1, 3]]);
    assert_eq!(
        resp.messages,
        vec!["Results truncated to 1 schedules.".to_string()]
    );
}

#[test]
fn duplicate_offering_ids_deduplicated() {
    // The same offering appears twice in the catalog; one candidate stays.
    let catalog = vec![
        offering(1, 1, "Algebra", None, vec![slot(1, "Mon", "09:00", "10:00")]),
        offering(1, 1, "Algebra", None, vec![slot(1, "Mon", "09:00", "10:00")]),
    ];
    let req = GenerateScheduleRequest { courses: names(&["Algebra"]), minimum: 1, professors: None };
    let resp = generate_schedule(&req, &catalog);
    assert_eq!(ids(&resp.compatible_schedules), vec![vec![1]]);
}

#[test]
fn determinism_two_runs_identical() {
    let catalog = vec![
        offering(1, 1, "Algebra", Some("Dr. Aby"), vec![slot(1, "Mon", "09:00", "10:00")]),
        offering(2, 1, "Algebra", Some("Dr. Bo"), vec![slot(2, "Mon", "10:00", "11:00")]),
        offering(3, 2, "Calculus", Some("Dr. Cy"), vec![slot(3, "Tue", "09:00", "10:00")]),
    ];
    let req = GenerateScheduleRequest {
        courses: names(&["Algebra", "Calculus"]),
        minimum: 1,
        professors: None,
    };
    let a = generate_schedule(&req, &catalog);
    let b = generate_schedule(&req, &catalog);
    assert_eq!(a, b);
}

#[test]
fn create_compatible_schedules_standalone() {
    let catalog = vec![
        offering(1, 1, "Algebra", None, vec![slot(1, "Mon", "09:00", "10:00")]),
        offering(3, 2, "Calculus", None, vec![slot(3, "Tue", "09:00", "10:00")]),
    ];
    let schedules = create_compatible_schedules(
        &catalog,
        &names(&["Algebra", "Calculus"]),
        &None,
        2,
    );
    assert_eq!(ids(&schedules), vec![vec![1, 3]]);
}

#[test]
fn empty_request_yields_no_combinations() {
    let catalog = vec![
        offering(1, 1, "Algebra", None, vec![slot(1, "Mon", "09:00", "10:00")]),
    ];
    let req = GenerateScheduleRequest { courses: Vec::new(), minimum: 0, professors: None };
    let resp = generate_schedule(&req, &catalog);
    assert_eq!(resp.status, 200);
    assert!(resp.compatible_schedules.is_empty());
    assert_eq!(
        resp.messages,
        vec!["No combinations possible with the given criteria.".to_string()]
    );
}

#[test]
fn several_missing_subjects_joined() {
    let catalog = vec![
        offering(1, 1, "Algebra", None, vec![slot(1, "Mon", "09:00", "10:00")]),
    ];
    let req = GenerateScheduleRequest {
        courses: names(&["Algebra", "Botany", "Chemistry", "Botany"]),
        minimum: 1,
        professors: None,
    };
    let resp = generate_schedule(&req, &catalog);
    assert_eq!(
        resp.messages,
        vec!["Subjects not found: Botany, Chemistry".to_string()]
    );
    assert_eq!(ids(&resp.compatible_schedules), vec![vec![1]]);
}

#[test]
fn empty_professor_filter_restricts_nothing() {
    let catalog = vec![
        offering(1, 1, "Algebra", Some("Dr. Aby"), vec![slot(1, "Mon", "09:00", "10:00")]),
    ];
    let req = GenerateScheduleRequest {
        courses: names(&["Algebra"]),
        minimum: 1,
        professors: Some(Vec::new()),
    };
    let resp = generate_schedule(&req, &catalog);
    assert_eq!(ids(&resp.compatible_schedules), vec![vec![1]]);
    assert!(resp.messages.is_empty());
}

#[test]
fn subjects_matched_by_trimmed_name() {
    let catalog = vec![
        offering(1, 1, " Algebra ", None, vec![slot(1, "Mon", "09:00", "10:00")]),
    ];
    let req = GenerateScheduleRequest {
        courses: names(&["Algebra "]),
        minimum: 1,
        professors: None,
    };
    let resp = generate_schedule(&req, &catalog);
    assert_eq!(ids(&resp.compatible_schedules), vec![vec![1]]);
    assert!(resp.messages.is_empty());
}
