use labs::school::{
    Class, ClassRef, Day, Grade, Laboratory, School, Slot, SlottedClass, SlottedClassRef, Subject, Teacher, Time, DAYS,
};
use labs::table::Table;

fn school() -> School {
    let mut school = School {
        slots: Table::new(),
        teachers: Table::new(),
        grades: Table::new(),
        subjects: Table::new(),
        classes: Table::new(),
        slotted_classes: Table::new(),
        labs: Table::new(),
    };
    school.teachers.insert(Teacher { name: "Ana".to_string() });
    school.teachers.insert(Teacher { name: "Rui".to_string() });
    school.grades.insert(Grade { name: "1A".to_string() });
    school.subjects.insert(Subject { name: "Biologia".to_string() });
    school.subjects.insert(Subject { name: "Quimica".to_string() });
    school.slots.insert(Slot { day: Day::Monday, time: Time(8, 0) });
    school.slots.insert(Slot { day: Day::Friday, time: Time(13, 45) });
    school.classes.insert(Class { teacher: 0, grade: 0, subject: 0 });
    school.classes.insert(Class { teacher: 1, grade: 0, subject: 1 });
    school.slotted_classes.insert(SlottedClass { slot: 1, class: 0 });
    school.slotted_classes.insert(SlottedClass { slot: 0, class: 1 });
    school.slotted_classes.insert(SlottedClass { slot: 0, class: 0 });
    school.labs.insert(Laboratory { name: "Lab 1".to_string() });
    school
}

#[test]
fn days_are_the_five_school_days() {
    assert_eq!(DAYS, [Day::Monday, Day::Tuesday, Day::Wednesday, Day::Thursday, Day::Friday]);
}

#[test]
fn slots_of_follows_the_order_of_the_edges() {
    let s = school();
    assert_eq!(s.slots_of(0), vec![1, 0]);
    assert_eq!(s.slots_of(1), vec![0]);
    assert_eq!(s.slots_of(2), Vec::<usize>::new());
}

#[test]
fn get_gives_the_entity_of_the_type_asked_for() {
    let s = school();
    let teacher: &Teacher = s.get(1);
    assert_eq!(teacher.name, "Rui");
    let slot: &Slot = s.get(1);
    assert_eq!(*slot, Slot { day: Day::Friday, time: Time(13, 45) });
    let lab: &Laboratory = s.get(0);
    assert_eq!(lab.name, "Lab 1");
    let class: ClassRef = s.get(1);
    assert_eq!(class.teacher.name, "Rui");
    assert_eq!(class.grade.name, "1A");
    assert_eq!(class.subject.name, "Quimica");
    let slotted: SlottedClassRef = s.get(0);
    assert_eq!(slotted.slot.day, Day::Friday);
    assert_eq!(slotted.class.teacher.name, "Ana");
}

#[test]
fn listings_are_in_id_order() {
    let s = school();
    let names: Vec<&str> = s.teachers().iter().map(|t| t.name.as_str()).collect();
    assert_eq!(names, vec!["Ana", "Rui"]);
    assert_eq!(s.grades().len(), 1);
    assert_eq!(s.subjects().len(), 2);
    assert_eq!(s.labs().len(), 1);
    assert_eq!(s.slots(), vec![&Slot { day: Day::Monday, time: Time(8, 0) }, &Slot { day: Day::Friday, time: Time(13, 45) }]);
    let classes: Vec<String> = s.classes().iter().map(|c| c.to_string()).collect();
    assert_eq!(classes, vec!["Ana - 1A/Biologia", "Rui - 1A/Quimica"]);
    let slotted: Vec<String> = s.slotted_classes().iter().map(|c| c.to_string()).collect();
    assert_eq!(
        slotted,
        vec![
            "Friday 13:45 - Ana - 1A/Biologia",
            "Monday 08:00 - Rui - 1A/Quimica",
            "Monday 08:00 - Ana - 1A/Biologia",
        ]
    );
}

#[test]
fn name_lookups_find_the_first_match() {
    let mut s = school();
    s.teachers.insert(Teacher { name: "Ana".to_string() });
    assert_eq!(s.find_teacher(&"Ana".to_string()), Some(0));
    assert_eq!(s.find_teacher(&"Eva".to_string()), None);
    assert_eq!(s.find_grade(&"1A".to_string()), Some(0));
    assert_eq!(s.find_grade(&"1a".to_string()), None);
    assert_eq!(s.find_subject(&"Quimica".to_string()), Some(1));
    assert_eq!(s.find_subject(&"".to_string()), None);
    assert_eq!(s.find_lab(&"Lab 1".to_string()), Some(0));
    assert_eq!(s.find_lab(&"Lab 2".to_string()), None);
    assert_eq!(s.find_class(1, 0, 1), Some(1));
    assert_eq!(s.find_class(1, 0, 0), None);
}

#[test]
fn retain_classes_cascades_to_slotted_classes() {
    let mut s = school();
    s.retain_classes(|c| c.teacher.name != "Ana");
    assert_eq!(s.classes.keys(), vec![1]);
    assert_eq!(s.slotted_classes.iter(), vec![(1, &SlottedClass { slot: 0, class: 1 })]);
    assert_eq!(s.slots.keys(), vec![0, 1]);
    assert_eq!(s.teachers.keys(), vec![0, 1]);
    assert_eq!(s.slots_of(0), Vec::<usize>::new());
    // the id of a removed class is not given out again
    assert_eq!(s.classes.insert(Class { teacher: 0, grade: 0, subject: 1 }), 2);
}

#[test]
fn retain_classes_that_keeps_all_changes_nothing() {
    let mut s = school();
    let before = s.clone();
    s.retain_classes(|_| true);
    assert_eq!(s, before);
}

#[test]
fn retain_slots_cascades_to_slotted_classes() {
    let mut s = school();
    s.retain_slots(|slot| slot.day != Day::Monday);
    assert_eq!(s.slots.keys(), vec![1]);
    assert_eq!(s.slotted_classes.iter(), vec![(0, &SlottedClass { slot: 1, class: 0 })]);
    assert_eq!(s.classes.keys(), vec![0, 1]);
    assert_eq!(s.slots_of(1), Vec::<usize>::new());
}

#[test]
fn retain_slots_that_removes_all() {
    let mut s = school();
    s.retain_slots(|_| false);
    assert!(s.slots.keys().is_empty());
    assert!(s.slotted_classes.keys().is_empty());
    assert_eq!(s.classes.keys(), vec![0, 1]);
}

#[test]
fn entities_of_the_same_name_are_equal() {
    assert_eq!(Teacher { name: "Ana".to_string() }, Teacher { name: "Ana".to_string() });
    assert_ne!(Grade { name: "1A".to_string() }, Grade { name: "1B".to_string() });
    assert_eq!(Slot { day: Day::Monday, time: Time(8, 0) }, Slot { day: Day::Monday, time: Time(8, 0) });
    assert_ne!(Slot { day: Day::Monday, time: Time(8, 0) }, Slot { day: Day::Monday, time: Time(8, 1) });
    assert_ne!(Class { teacher: 0, grade: 0, subject: 0 }, Class { teacher: 0, grade: 0, subject: 1 });
    assert_eq!(SlottedClass { slot: 1, class: 2 }, SlottedClass { slot: 1, class: 2 });
    assert_ne!(SlottedClass { slot: 1, class: 2 }, SlottedClass { slot: 2, class: 1 });
}
