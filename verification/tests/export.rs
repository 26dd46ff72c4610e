use labs::export::{group_by, is_presentable, slot_order, tabulate};
use labs::school::{Class, Day, Grade, Laboratory, School, Slot, SlottedClass, Subject, Teacher, Time};
use labs::solver::solution::{Error, LabSlottedClass, Solution, Warning};

fn school() -> School {
    let mut s = School::new();
    for name in ["Ana", "Rui"] {
        s.teachers.insert(Teacher { name: name.to_string() });
    }
    for name in ["1A", "2B"] {
        s.grades.insert(Grade { name: name.to_string() });
    }
    for name in ["Bio", "Qui"] {
        s.subjects.insert(Subject { name: name.to_string() });
    }
    for name in ["Lab 1", "Lab 2"] {
        s.labs.insert(Laboratory { name: name.to_string() });
    }
    // ids 0..4 are not in the order of the week
    s.slots.insert(Slot { day: Day::Tuesday, time: Time(8, 0) });
    s.slots.insert(Slot { day: Day::Monday, time: Time(9, 30) });
    s.slots.insert(Slot { day: Day::Monday, time: Time(8, 0) });
    s.slots.insert(Slot { day: Day::Friday, time: Time(7, 0) });
    s.slots.insert(Slot { day: Day::Monday, time: Time(8, 0) });
    s.classes.insert(Class { teacher: 0, grade: 0, subject: 0 });
    s.classes.insert(Class { teacher: 1, grade: 0, subject: 1 });
    s.classes.insert(Class { teacher: 0, grade: 1, subject: 0 });
    s.slotted_classes.insert(SlottedClass { slot: 0, class: 0 });
    s
}

fn placed(lab: usize, slot: usize, class: usize) -> LabSlottedClass {
    LabSlottedClass { lab, slot, class }
}

#[test]
fn group_by_orders_groups_by_key_and_keeps_the_order_inside() {
    let data = vec!['a', 'b', 'c', 'd', 'e'];
    let keys = vec![7, 2, 7, 9, 2];
    assert_eq!(group_by(&data, &keys), vec![(2, vec!['b', 'e']), (7, vec!['a', 'c']), (9, vec!['d'])]);
    assert_eq!(group_by(&Vec::<char>::new(), &vec![]), vec![]);
    assert_eq!(group_by(&vec![1u8], &vec![0]), vec![(0, vec![1u8])]);
}

#[test]
fn slots_are_shown_by_day_then_time_then_id() {
    assert_eq!(slot_order(&school()), vec![2, 4, 1, 0, 3]);
    assert_eq!(slot_order(&School::new()), Vec::<usize>::new());
}

#[test]
fn tabulate_builds_a_table_for_each_lab() {
    let school = school();
    let solution = Solution {
        slotted: vec![placed(1, 0, 1), placed(0, 3, 0), placed(0, 1, 2), placed(0, 2, 1)],
        errors: vec![],
        warnings: vec![],
    };
    assert!(is_presentable(&school, &solution));
    let t = tabulate(&school, solution);
    assert_eq!(t.schedules.len(), 2);
    let lab1 = &t.schedules[0];
    assert_eq!(lab1.lab_name, "Lab 1");
    assert_eq!(lab1.teachers.len(), 2);
    assert_eq!(lab1.teachers[0].teacher_name, "Ana");
    assert_eq!(
        lab1.teachers[0].grades,
        vec![None, None, Some("2B".to_string()), None, Some("1A".to_string())]
    );
    assert_eq!(lab1.teachers[1].teacher_name, "Rui");
    assert_eq!(lab1.teachers[1].grades, vec![Some("1A".to_string()), None, None, None, None]);
    let lab2 = &t.schedules[1];
    assert_eq!(lab2.lab_name, "Lab 2");
    assert_eq!(lab2.teachers.len(), 1);
    assert_eq!(lab2.teachers[0].teacher_name, "Rui");
    assert_eq!(lab2.teachers[0].grades, vec![None, None, None, Some("1A".to_string()), None]);
    assert!(t.warnings.is_empty() && t.errors.is_empty());
}

#[test]
fn tabulate_takes_the_first_placement_at_a_slot() {
    let school = school();
    let solution =
        Solution { slotted: vec![placed(0, 1, 2), placed(0, 1, 0)], errors: vec![], warnings: vec![] };
    let t = tabulate(&school, solution);
    assert_eq!(t.schedules[0].teachers[0].grades[2], Some("2B".to_string()));
}

#[test]
fn tabulate_writes_the_sentences() {
    let school = school();
    let solution = Solution {
        slotted: vec![],
        errors: vec![Error::Missing(1), Error::NoLabs(2)],
        warnings: vec![Warning::UndesiredLab { class: 0, was: 0, got: 1 }],
    };
    let t = tabulate(&school, solution);
    assert!(t.schedules.is_empty());
    assert_eq!(
        t.warnings,
        vec!["A aula Ana - 1A/Bio não recebeu sua primeira opção de laboratório (era Lab 1, recebeu Lab 2)."]
    );
    assert_eq!(
        t.errors,
        vec![
            "O sistema não foi capaz de alocar a aula Rui - 1A/Qui devido a regras restritas demais.",
            "O sistema não alocou a aula Ana - 2B/Bio pois nenhum laboratório foi escolhido nas regras.",
        ]
    );
}

#[test]
fn solutions_of_other_schools_are_not_presentable() {
    let school = school();
    let ok = Solution { slotted: vec![placed(1, 4, 2)], errors: vec![], warnings: vec![] };
    assert!(is_presentable(&school, &ok));
    let bad_lab = Solution { slotted: vec![placed(2, 0, 0)], errors: vec![], warnings: vec![] };
    assert!(!is_presentable(&school, &bad_lab));
    let bad_class = Solution { slotted: vec![placed(0, 0, 3)], errors: vec![], warnings: vec![] };
    assert!(!is_presentable(&school, &bad_class));
    let bad_error = Solution { slotted: vec![], errors: vec![Error::NoLabs(9)], warnings: vec![] };
    assert!(!is_presentable(&school, &bad_error));
    let bad_warning = Solution {
        slotted: vec![],
        errors: vec![],
        warnings: vec![Warning::UndesiredLab { class: 0, was: 0, got: 5 }],
    };
    assert!(!is_presentable(&school, &bad_warning));
    let mut broken = self::school();
    broken.classes.insert(Class { teacher: 9, grade: 0, subject: 0 });
    assert!(!broken.is_wf());
    assert!(!is_presentable(&broken, &ok));
    let mut dangling = self::school();
    dangling.slotted_classes.insert(SlottedClass { slot: 0, class: 9 });
    assert!(!dangling.is_wf());
    assert!(self::school().is_wf());
}

#[test]
fn group_by_with_too_few_keys_gives_empty_groups() {
    assert_eq!(group_by(&vec!['a', 'b', 'c'], &vec![4, 1]), vec![(1, vec![]), (4, vec![])]);
}
