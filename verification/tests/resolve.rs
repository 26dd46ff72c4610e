use labs::rules::{ClassRules, GradeRules, Rules, TeacherRules};
use labs::school::{Class, Grade, Laboratory, School, Subject, Teacher};
use labs::solver::resolve::{resolve, Diagnostic};
use labs::table::Table;

fn school() -> School {
    let mut school = School {
        slots: Table::new(),
        teachers: Table::new(),
        grades: Table::new(),
        subjects: Table::new(),
        classes: Table::new(),
        slotted_classes: Table::new(),
        labs: Table::new(),
    };
    for name in ["Ana", "Rui"] {
        school.teachers.insert(Teacher { name: name.to_string() });
    }
    for name in ["1A", "2B"] {
        school.grades.insert(Grade { name: name.to_string() });
    }
    for name in ["Biologia", "Quimica"] {
        school.subjects.insert(Subject { name: name.to_string() });
    }
    for name in ["Lab 1", "Lab 2", "Lab 3"] {
        school.labs.insert(Laboratory { name: name.to_string() });
    }
    school.classes.insert(Class { teacher: 0, grade: 0, subject: 0 });
    school.classes.insert(Class { teacher: 1, grade: 0, subject: 1 });
    school.classes.insert(Class { teacher: 0, grade: 1, subject: 0 });
    school.classes.insert(Class { teacher: 1, grade: 1, subject: 0 });
    school
}

fn grade(name: &str, labs: &[&str]) -> GradeRules {
    GradeRules {
        name: name.to_string(),
        labs: labs.iter().map(|l| l.to_string()).collect(),
        forbidden_times: vec![],
    }
}

fn teacher(name: &str, grades: Vec<GradeRules>) -> TeacherRules {
    TeacherRules { name: name.to_string(), grades }
}

fn subject(name: &str, teachers: Vec<TeacherRules>) -> ClassRules {
    ClassRules { subject: name.to_string(), teachers }
}

#[test]
fn empty_rules_resolve_to_nothing() {
    let r = resolve(&school(), &Rules::default());
    assert!(r.classes.is_empty());
    assert!(r.diagnostics.is_empty());
}

#[test]
fn classes_come_in_document_order_with_labs_in_preference_order() {
    let rules = Rules {
        classes: vec![
            subject(
                "Biologia",
                vec![
                    teacher("Rui", vec![grade("2B", &["Lab 3", "Lab 1"])]),
                    teacher("Ana", vec![grade("2B", &["Lab 2"]), grade("1A", &[])]),
                ],
            ),
            subject("Quimica", vec![teacher("Rui", vec![grade("1A", &["Lab 1", "Lab 1"])])]),
        ],
    };
    let r = resolve(&school(), &rules);
    assert_eq!(r.classes, vec![(3, vec![2, 0]), (2, vec![1]), (0, vec![]), (1, vec![0, 0])]);
    assert_eq!(r.diagnostics, vec![]);
}

#[test]
fn unknown_subject_skips_the_whole_entry() {
    let rules = Rules {
        classes: vec![
            subject("Fisica", vec![teacher("Nobody", vec![grade("9Z", &["Lab 9"])])]),
            subject("Biologia", vec![teacher("Ana", vec![grade("1A", &["Lab 1"])])]),
        ],
    };
    let r = resolve(&school(), &rules);
    assert_eq!(r.classes, vec![(0, vec![0])]);
    assert_eq!(r.diagnostics, vec![Diagnostic::UnknownSubject { class: 0 }]);
}

#[test]
fn unknown_teacher_skips_the_teacher_only() {
    let rules = Rules {
        classes: vec![subject(
            "Biologia",
            vec![
                teacher("Eva", vec![grade("1A", &["Lab 1"])]),
                teacher("Ana", vec![grade("1A", &["Lab 2"])]),
            ],
        )],
    };
    let r = resolve(&school(), &rules);
    assert_eq!(r.classes, vec![(0, vec![1])]);
    assert_eq!(r.diagnostics, vec![Diagnostic::UnknownTeacher { class: 0, teacher: 0 }]);
}

#[test]
fn unknown_grade_and_unknown_class_skip_the_leaf() {
    let rules = Rules {
        classes: vec![subject(
            "Quimica",
            vec![
                teacher("Rui", vec![grade("7C", &["Lab 1"]), grade("2B", &["Lab 1"]), grade("1A", &["Lab 3"])]),
            ],
        )],
    };
    let r = resolve(&school(), &rules);
    assert_eq!(r.classes, vec![(1, vec![2])]);
    assert_eq!(
        r.diagnostics,
        vec![
            Diagnostic::UnknownGrade { class: 0, teacher: 0, grade: 0 },
            Diagnostic::UnknownClass { class: 0, teacher: 0, grade: 1 },
        ]
    );
}

#[test]
fn unknown_lab_is_skipped_and_the_rest_keeps_its_order() {
    let rules = Rules {
        classes: vec![subject(
            "Biologia",
            vec![teacher("Ana", vec![grade("1A", &["Lab 3", "Lab X", "Lab 1", "Lab Y"])])],
        )],
    };
    let r = resolve(&school(), &rules);
    assert_eq!(r.classes, vec![(0, vec![2, 0])]);
    assert_eq!(
        r.diagnostics,
        vec![
            Diagnostic::UnknownLab { class: 0, teacher: 0, grade: 0, lab: 1 },
            Diagnostic::UnknownLab { class: 0, teacher: 0, grade: 0, lab: 3 },
        ]
    );
}

#[test]
fn a_class_with_only_unknown_labs_is_kept_without_preference() {
    let rules = Rules {
        classes: vec![subject("Biologia", vec![teacher("Ana", vec![grade("1A", &["Lab X"])])])],
    };
    let r = resolve(&school(), &rules);
    assert_eq!(r.classes, vec![(0, vec![])]);
    assert_eq!(r.diagnostics, vec![Diagnostic::UnknownLab { class: 0, teacher: 0, grade: 0, lab: 0 }]);
}

#[test]
fn diagnostics_follow_the_document() {
    let rules = Rules {
        classes: vec![
            subject("X", vec![]),
            subject(
                "Biologia",
                vec![
                    teacher("Ana", vec![grade("1A", &["?"]), grade("?", &[])]),
                    teacher("?", vec![]),
                ],
            ),
        ],
    };
    let r = resolve(&school(), &rules);
    assert_eq!(
        r.diagnostics,
        vec![
            Diagnostic::UnknownSubject { class: 0 },
            Diagnostic::UnknownLab { class: 1, teacher: 0, grade: 0, lab: 0 },
            Diagnostic::UnknownGrade { class: 1, teacher: 0, grade: 1 },
            Diagnostic::UnknownTeacher { class: 1, teacher: 1 },
        ]
    );
}

#[test]
fn flatten_lists_the_leaves() {
    let rules = Rules {
        classes: vec![
            subject(
                "Biologia",
                vec![teacher("Ana", vec![grade("1A", &[]), grade("2B", &[])]), teacher("Rui", vec![])],
            ),
            subject("Quimica", vec![teacher("Rui", vec![grade("1A", &[])])]),
        ],
    };
    assert_eq!(
        rules.flatten(),
        vec![("Ana", "1A", "Biologia"), ("Ana", "2B", "Biologia"), ("Rui", "1A", "Quimica")]
    );
    assert!(Rules::default().flatten().is_empty());
}

#[test]
fn default_rules_are_empty() {
    assert!(Rules::default().classes.is_empty());
    let c = ClassRules::default();
    assert!(c.subject.is_empty() && c.teachers.is_empty());
    let t = TeacherRules::default();
    assert!(t.name.is_empty() && t.grades.is_empty());
    let g = GradeRules::default();
    assert!(g.name.is_empty() && g.labs.is_empty() && g.forbidden_times.is_empty());
}
