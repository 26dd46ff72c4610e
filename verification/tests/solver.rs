use labs::rules::{ClassRules, GradeRules, Rules, TeacherRules};
use labs::school::{Class, Day, Grade, Laboratory, School, Slot, SlottedClass, Subject, Teacher, Time};
use labs::solver::solution::{Error, LabSlottedClass, Solution, Warning};
use labs::solver::plan::candidates_of;
use labs::solver::{solve, solve_for};
use labs::table::Table;

fn empty_school() -> School {
    School {
        slots: Table::new(),
        teachers: Table::new(),
        grades: Table::new(),
        subjects: Table::new(),
        classes: Table::new(),
        slotted_classes: Table::new(),
        labs: Table::new(),
    }
}

/// A school with `classes` classes of one teacher and one subject, `slots`
/// slots, `labs` laboratories, and the (class, slot) occurrences given.
fn school_with(slots: usize, classes: usize, labs: usize, occurrences: &[(usize, usize)]) -> School {
    let mut school = empty_school();
    let teacher = school.teachers.insert(Teacher { name: "T".to_string() });
    let subject = school.subjects.insert(Subject { name: "S".to_string() });
    for i in 0..slots {
        school.slots.insert(Slot { day: Day::Monday, time: Time(8 + i as u8, 0) });
    }
    for i in 0..classes {
        let grade = school.grades.insert(Grade { name: format!("G{i}") });
        school.classes.insert(Class { teacher, grade, subject });
    }
    for &(class, slot) in occurrences {
        school.slotted_classes.insert(SlottedClass { slot, class });
    }
    for i in 0..labs {
        school.labs.insert(Laboratory { name: format!("L{i}") });
    }
    school
}

fn placed(lab: usize, slot: usize, class: usize) -> LabSlottedClass {
    LabSlottedClass { lab, slot, class }
}

fn no_double_booking(solution: &Solution) -> bool {
    let s = &solution.slotted;
    (0..s.len()).all(|i| (i + 1..s.len()).all(|j| (s[i].lab, s[i].slot) != (s[j].lab, s[j].slot)))
}

fn slots_are_valid(school: &School, solution: &Solution) -> bool {
    solution.slotted.iter().all(|p| school.slots_of(p.class).contains(&p.slot))
}

#[test]
fn no_class_gives_the_empty_solution() {
    let school = school_with(1, 0, 1, &[]);
    let solution = solve_for(&school, vec![]);
    assert_eq!(solution, Solution { slotted: vec![], errors: vec![], warnings: vec![] });
}

#[test]
fn one_class_gets_its_first_choice() {
    let school = school_with(2, 1, 2, &[(0, 1)]);
    let solution = solve_for(&school, vec![(0, vec![1, 0])]);
    assert_eq!(solution.slotted, vec![placed(1, 1, 0)]);
    assert_eq!(solution.errors, vec![]);
    assert_eq!(solution.warnings, vec![]);
}

#[test]
fn two_classes_share_a_slot_and_relax_to_second_choice() {
    let school = school_with(1, 2, 2, &[(0, 0), (1, 0)]);
    let solution = solve_for(&school, vec![(0, vec![0, 1]), (1, vec![0])]);
    assert_eq!(solution.slotted, vec![placed(0, 0, 1), placed(1, 0, 0)]);
    assert_eq!(solution.errors, vec![]);
    assert_eq!(solution.warnings, vec![Warning::UndesiredLab { class: 0, was: 0, got: 1 }]);
}

#[test]
fn second_class_relaxes_where_the_first_has_no_alternative() {
    let school = school_with(1, 2, 2, &[(0, 0), (1, 0)]);
    let solution = solve_for(&school, vec![(0, vec![0]), (1, vec![0, 1])]);
    assert_eq!(solution.slotted, vec![placed(0, 0, 0), placed(1, 0, 1)]);
    assert_eq!(solution.errors, vec![]);
    assert_eq!(solution.warnings, vec![Warning::UndesiredLab { class: 1, was: 0, got: 1 }]);
}

#[test]
fn both_relaxed_classes_keep_first_choice_where_the_search_allows() {
    // at depth 2 the search tries the first choice of the first class first
    let school = school_with(1, 2, 2, &[(0, 0), (1, 0)]);
    let solution = solve_for(&school, vec![(0, vec![0, 1]), (1, vec![0, 1])]);
    assert_eq!(solution.slotted, vec![placed(0, 0, 0), placed(1, 0, 1)]);
    assert_eq!(solution.warnings, vec![Warning::UndesiredLab { class: 1, was: 0, got: 1 }]);
    assert_eq!(solution.errors, vec![]);
}

#[test]
fn class_without_preferences_gives_no_labs() {
    let school = school_with(1, 1, 1, &[(0, 0)]);
    let solution = solve_for(&school, vec![(0, vec![])]);
    assert_eq!(solution.slotted, vec![]);
    assert_eq!(solution.errors, vec![Error::NoLabs(0)]);
    assert_eq!(solution.warnings, vec![]);
}

#[test]
fn no_labs_errors_come_first_and_in_list_order() {
    let school = school_with(1, 4, 1, &[(0, 0), (1, 0), (2, 0), (3, 0)]);
    let solution = solve_for(&school, vec![(1, vec![0]), (3, vec![]), (2, vec![0]), (0, vec![])]);
    assert_eq!(solution.slotted, vec![placed(0, 0, 2)]);
    assert_eq!(solution.errors, vec![Error::NoLabs(3), Error::NoLabs(0), Error::Missing(1)]);
    assert_eq!(solution.warnings, vec![]);
}

#[test]
fn three_classes_for_one_pair_drop_two() {
    let school = school_with(1, 3, 1, &[(0, 0), (1, 0), (2, 0)]);
    let solution = solve_for(&school, vec![(0, vec![0]), (1, vec![0]), (2, vec![0])]);
    assert_eq!(solution.slotted, vec![placed(0, 0, 2)]);
    assert_eq!(solution.errors, vec![Error::Missing(0), Error::Missing(1)]);
    assert_eq!(solution.warnings, vec![]);
}

#[test]
fn drop_order_follows_the_list_not_the_ids() {
    let school = school_with(1, 3, 1, &[(0, 0), (1, 0), (2, 0)]);
    let solution = solve_for(&school, vec![(2, vec![0]), (0, vec![0]), (1, vec![0])]);
    assert_eq!(solution.slotted, vec![placed(0, 0, 1)]);
    assert_eq!(solution.errors, vec![Error::Missing(2), Error::Missing(0)]);
}

#[test]
fn relaxation_starts_again_at_depth_one_after_a_drop() {
    // Classes 0 and 1 can only be held in lab 0 at slot 0; class 2 is free at
    // slot 1 and would take its second choice if the depth were kept.
    let school = school_with(2, 3, 2, &[(0, 0), (1, 0), (2, 1)]);
    let solution = solve_for(&school, vec![(0, vec![0]), (1, vec![0]), (2, vec![1, 0])]);
    assert_eq!(solution.slotted, vec![placed(0, 0, 1), placed(1, 1, 2)]);
    assert_eq!(solution.errors, vec![Error::Missing(0)]);
    assert_eq!(solution.warnings, vec![]);
}

#[test]
fn widest_list_is_taken_anew_after_a_drop() {
    // The dropped class has the longest list. The rest fails at depth 1 and
    // cannot relax further, so a second class is dropped.
    let school = school_with(1, 3, 3, &[(0, 0), (1, 0), (2, 0)]);
    let solution = solve_for(&school, vec![(0, vec![0, 0, 0]), (1, vec![0]), (2, vec![0])]);
    assert_eq!(solution.errors, vec![Error::Missing(0), Error::Missing(1)]);
    assert_eq!(solution.slotted, vec![placed(0, 0, 2)]);
}

#[test]
fn class_without_a_slot_is_left_out_in_silence() {
    let school = school_with(1, 2, 1, &[(1, 0)]);
    let solution = solve_for(&school, vec![(0, vec![0]), (1, vec![0])]);
    assert_eq!(solution.slotted, vec![placed(0, 0, 1)]);
    assert_eq!(solution.errors, vec![]);
    assert_eq!(solution.warnings, vec![]);
}

#[test]
fn only_classes_without_slots_give_the_empty_solution() {
    let school = school_with(1, 2, 1, &[]);
    let solution = solve_for(&school, vec![(0, vec![0]), (1, vec![0])]);
    assert_eq!(solution, Solution { slotted: vec![], errors: vec![], warnings: vec![] });
}

#[test]
fn a_class_picks_among_its_own_slots() {
    // both classes want lab 0; class 0 meets at slots 0 and 1, class 1 at slot 0 only
    let school = school_with(2, 2, 1, &[(0, 0), (0, 1), (1, 0)]);
    let solution = solve_for(&school, vec![(0, vec![0]), (1, vec![0])]);
    assert_eq!(solution.slotted, vec![placed(0, 0, 1), placed(0, 1, 0)]);
    assert_eq!(solution.errors, vec![]);
    assert_eq!(solution.warnings, vec![]);
}

#[test]
fn placements_are_ordered_by_lab_then_slot() {
    let school = school_with(3, 3, 3, &[(0, 2), (1, 1), (2, 0)]);
    let solution = solve_for(&school, vec![(0, vec![1]), (1, vec![1]), (2, vec![0])]);
    assert_eq!(solution.slotted, vec![placed(0, 0, 2), placed(1, 1, 1), placed(1, 2, 0)]);
}

#[test]
fn no_conflict_places_every_class_without_error_or_warning() {
    let school = school_with(3, 3, 2, &[(0, 0), (1, 1), (2, 2)]);
    let classes = vec![(0, vec![0, 1]), (1, vec![0, 1]), (2, vec![1, 0])];
    let solution = solve_for(&school, classes);
    assert_eq!(solution.slotted, vec![placed(0, 0, 0), placed(0, 1, 1), placed(1, 2, 2)]);
    assert_eq!(solution.errors, vec![]);
    assert_eq!(solution.warnings, vec![]);
}

#[test]
fn solutions_have_no_double_booking_and_valid_slots() {
    let school = school_with(
        3,
        5,
        2,
        &[(0, 0), (0, 1), (1, 0), (2, 0), (2, 2), (3, 1), (4, 0), (4, 1), (4, 2)],
    );
    let classes =
        vec![(0, vec![0, 1]), (1, vec![0]), (2, vec![1, 0]), (3, vec![0]), (4, vec![0, 1])];
    let solution = solve_for(&school, classes);
    assert!(no_double_booking(&solution));
    assert!(slots_are_valid(&school, &solution));
    assert_eq!(solution.slotted.len() + solution.errors.len(), 5);
}

#[test]
fn solving_twice_gives_the_same_solution() {
    let school = school_with(2, 4, 2, &[(0, 0), (1, 0), (2, 0), (2, 1), (3, 1)]);
    let classes = vec![(0, vec![0, 1]), (1, vec![0]), (2, vec![1, 0]), (3, vec![])];
    let first = solve_for(&school, classes.clone());
    let second = solve_for(&school, classes);
    assert_eq!(first, second);
}

#[test]
fn a_class_listed_twice_is_placed_twice() {
    let school = school_with(2, 1, 1, &[(0, 0), (0, 1)]);
    let solution = solve_for(&school, vec![(0, vec![0]), (0, vec![0])]);
    assert_eq!(solution.slotted, vec![placed(0, 0, 0), placed(0, 1, 0)]);
    assert_eq!(solution.errors, vec![]);
}

#[test]
fn dropping_a_class_drops_all_its_entries() {
    let school = school_with(1, 1, 1, &[(0, 0)]);
    let solution = solve_for(&school, vec![(0, vec![0]), (0, vec![0])]);
    assert_eq!(solution.slotted, vec![]);
    assert_eq!(solution.errors, vec![Error::Missing(0)]);
}

#[test]
fn a_slot_met_twice_gives_the_candidate_twice() {
    let school = school_with(1, 1, 1, &[(0, 0), (0, 0)]);
    let solution = solve_for(&school, vec![(0, vec![0])]);
    assert_eq!(solution.slotted, vec![placed(0, 0, 0)]);
}

fn named_school() -> School {
    let mut school = empty_school();
    let ana = school.teachers.insert(Teacher { name: "Ana".to_string() });
    let rui = school.teachers.insert(Teacher { name: "Rui".to_string() });
    let g1 = school.grades.insert(Grade { name: "1A".to_string() });
    let g2 = school.grades.insert(Grade { name: "2B".to_string() });
    let bio = school.subjects.insert(Subject { name: "Biologia".to_string() });
    let qui = school.subjects.insert(Subject { name: "Quimica".to_string() });
    let s0 = school.slots.insert(Slot { day: Day::Monday, time: Time(8, 0) });
    let s1 = school.slots.insert(Slot { day: Day::Tuesday, time: Time(9, 30) });
    let c0 = school.classes.insert(Class { teacher: ana, grade: g1, subject: bio });
    let c1 = school.classes.insert(Class { teacher: rui, grade: g1, subject: qui });
    let c2 = school.classes.insert(Class { teacher: ana, grade: g2, subject: bio });
    school.slotted_classes.insert(SlottedClass { slot: s0, class: c0 });
    school.slotted_classes.insert(SlottedClass { slot: s0, class: c1 });
    school.slotted_classes.insert(SlottedClass { slot: s1, class: c2 });
    school.slotted_classes.insert(SlottedClass { slot: s0, class: c2 });
    school.labs.insert(Laboratory { name: "Lab 1".to_string() });
    school.labs.insert(Laboratory { name: "Lab 2".to_string() });
    school
}

fn grade(name: &str, labs: &[&str]) -> GradeRules {
    GradeRules {
        name: name.to_string(),
        labs: labs.iter().map(|l| l.to_string()).collect(),
        forbidden_times: vec![],
    }
}

#[test]
fn solve_resolves_the_rules_and_places_the_classes() {
    let school = named_school();
    let rules = Rules {
        classes: vec![
            ClassRules {
                subject: "Biologia".to_string(),
                teachers: vec![TeacherRules {
                    name: "Ana".to_string(),
                    grades: vec![grade("1A", &["Lab 1", "Lab 2"]), grade("2B", &["Lab 1"])],
                }],
            },
            ClassRules {
                subject: "Quimica".to_string(),
                teachers: vec![TeacherRules {
                    name: "Rui".to_string(),
                    grades: vec![grade("1A", &["Lab 1"])],
                }],
            },
        ],
    };
    let solution = solve(&school, &rules);
    // class 0 takes Lab 1 at slot 0, class 2 moves to slot 1; class 1 finds Lab 1 taken
    // at its only slot, so the round fails and the next one is one rank wider
    assert_eq!(solution.slotted, vec![placed(0, 0, 1), placed(0, 1, 2), placed(1, 0, 0)]);
    assert_eq!(solution.errors, vec![]);
    assert_eq!(solution.warnings, vec![Warning::UndesiredLab { class: 0, was: 0, got: 1 }]);
}

#[test]
fn solve_passes_over_unknown_names() {
    let school = named_school();
    let rules = Rules {
        classes: vec![
            ClassRules {
                subject: "Fisica".to_string(),
                teachers: vec![TeacherRules { name: "Ana".to_string(), grades: vec![grade("1A", &["Lab 1"])] }],
            },
            ClassRules {
                subject: "Biologia".to_string(),
                teachers: vec![TeacherRules {
                    name: "Ana".to_string(),
                    grades: vec![grade("1A", &["Lab 9"]), grade("2B", &["Lab 9", "Lab 2"])],
                }],
            },
        ],
    };
    let solution = solve(&school, &rules);
    assert_eq!(solution.slotted, vec![placed(1, 1, 2)]);
    assert_eq!(solution.errors, vec![Error::NoLabs(0)]);
    assert_eq!(solution.warnings, vec![]);
}

#[test]
fn solve_with_empty_rules() {
    let solution = solve(&named_school(), &Rules::default());
    assert_eq!(solution, Solution { slotted: vec![], errors: vec![], warnings: vec![] });
}

#[test]
fn candidates_pair_each_slot_with_the_allowed_labs() {
    let slots = vec![4, 2];
    let labs = vec![9, 7, 8];
    assert_eq!(candidates_of(&slots, &labs, 0), vec![]);
    assert_eq!(candidates_of(&slots, &labs, 1), vec![(9, 4), (9, 2)]);
    assert_eq!(candidates_of(&slots, &labs, 2), vec![(9, 4), (7, 4), (9, 2), (7, 2)]);
    assert_eq!(candidates_of(&slots, &labs, 3), vec![(9, 4), (7, 4), (8, 4), (9, 2), (7, 2), (8, 2)]);
    assert_eq!(candidates_of(&slots, &labs, 4), candidates_of(&slots, &labs, 3));
    assert_eq!(candidates_of(&vec![], &labs, 2), vec![]);
    assert_eq!(candidates_of(&slots, &vec![], 2), vec![]);
}

#[test]
fn widening_keeps_the_candidates() {
    let slots = vec![0, 3, 1];
    let labs = vec![5, 1, 4, 1];
    for relax in 0..6 {
        let narrow = candidates_of(&slots, &labs, relax);
        let wide = candidates_of(&slots, &labs, relax + 1);
        assert!(narrow.iter().all(|c| wide.contains(c)), "depth {relax}");
    }
}

#[test]
fn each_class_gets_one_session_at_most() {
    let school = school_with(3, 3, 2, &[(0, 0), (0, 1), (0, 2), (1, 0), (1, 1), (2, 2)]);
    let solution = solve_for(&school, vec![(0, vec![0, 1]), (1, vec![0, 1]), (2, vec![1])]);
    let mut classes: Vec<usize> = solution.slotted.iter().map(|p| p.class).collect();
    classes.sort();
    assert_eq!(classes, vec![0, 1, 2]);
}
