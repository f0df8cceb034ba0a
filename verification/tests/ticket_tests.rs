use school_desk::tickets::{history_rows, is_completed, ticket_rows, RosterRecord, SchoolEntry, TeacherEntry};

fn teacher(name: &str, level: &str, course: &str) -> TeacherEntry {
    TeacherEntry { name: name.to_string(), level: level.to_string(), course: course.to_string() }
}

fn sample() -> Vec<SchoolEntry> {
    vec![
        SchoolEntry {
            school: "Alpha".to_string(),
            coordinator: "Ann".to_string(),
            teachers: vec![teacher("T1", "P1", "Math"), teacher("T2", "P2", "Art")],
        },
        SchoolEntry { school: "Beta".to_string(), coordinator: "Bob".to_string(), teachers: vec![] },
        SchoolEntry {
            school: "Gamma".to_string(),
            coordinator: "".to_string(),
            teachers: vec![teacher("T3", "M1", "Thai")],
        },
    ]
}

#[test]
fn ticket_rows_follow_the_form() {
    let rows = ticket_rows(7, &sample());
    assert_eq!(rows.schools.len(), 3);
    assert_eq!(rows.schools[1].school, "Beta");
    assert_eq!(rows.schools[1].coordinator, "Bob");
    assert!(rows.schools.iter().all(|r| r.ticket_id == 7));
    let teachers: Vec<(i64, &str, &str, &str, &str)> = rows
        .teachers
        .iter()
        .map(|t| (t.ticket_id, t.school.as_str(), t.name.as_str(), t.level.as_str(), t.course.as_str()))
        .collect();
    assert_eq!(
        teachers,
        vec![
            (7, "Alpha", "T1", "P1", "Math"),
            (7, "Alpha", "T2", "P2", "Art"),
            (7, "Gamma", "T3", "M1", "Thai"),
        ]
    );
}

#[test]
fn ticket_without_schools_writes_nothing() {
    let rows = ticket_rows(3, &Vec::new());
    assert!(rows.schools.is_empty());
    assert!(rows.teachers.is_empty());
}

#[test]
fn history_repeats_roster_of_done_ticket() {
    let rows = ticket_rows(9, &sample());
    let roster: Vec<RosterRecord> = rows
        .teachers
        .iter()
        .map(|t| RosterRecord {
            school: t.school.clone(),
            name: t.name.clone(),
            level: t.level.clone(),
            course: t.course.clone(),
        })
        .collect();
    let history = history_rows(9, roster);
    assert_eq!(history.len(), rows.teachers.len());
    for (h, t) in history.iter().zip(rows.teachers.iter()) {
        assert_eq!(h.ticket_id, t.ticket_id);
        assert_eq!(h.school, t.school);
        assert_eq!(h.name, t.name);
        assert_eq!(h.level, t.level);
        assert_eq!(h.course, t.course);
    }
}

#[test]
fn only_done_value_one_completes() {
    assert!(is_completed(Some(1)));
    assert!(!is_completed(Some(0)));
    assert!(!is_completed(Some(2)));
    assert!(!is_completed(None));
}
