use labs::school::{Class, Day, School, Slot, SlottedClass, Time};
use labs::sources::json::{ClassAggregate, SchoolAggregate, TeacherAggregate};
use labs::sources::LoadError;

fn aula(horario: &str, days: [&str; 5]) -> ClassAggregate {
    ClassAggregate {
        horario: horario.to_string(),
        segunda: days[0].to_string(),
        terca: days[1].to_string(),
        quarta: days[2].to_string(),
        quinta: days[3].to_string(),
        sexta: days[4].to_string(),
    }
}

fn professor(nome: &str, aulas: Vec<ClassAggregate>) -> TeacherAggregate {
    TeacherAggregate { nome: nome.to_string(), aulas }
}

#[test]
fn empty_document_gives_the_empty_school() {
    let school =
        School::from_aggregate(SchoolAggregate { professores: vec![], laboratorios: vec![] }).unwrap();
    assert_eq!(school, School::new());
}

#[test]
fn document_is_read_into_tables() {
    let value = SchoolAggregate {
        professores: vec![
            professor(
                "Ana",
                vec![
                    aula("08:00", ["1A/Bio", "", "2B/Bio/extra", "-", "1A/Bio"]),
                    aula("09:30", ["", "", "", "", "2B/"]),
                ],
            ),
            professor("Rui", vec![aula("08:00", ["1A/Qui", "", "", "", ""])]),
            professor("Ana", vec![]),
        ],
        laboratorios: vec!["Lab 1".to_string(), "Lab 1".to_string(), "Lab 2".to_string()],
    };
    let school = School::from_aggregate(value).unwrap();
    let teachers: Vec<&str> = school.teachers().iter().map(|t| t.name.as_str()).collect();
    assert_eq!(teachers, vec!["Ana", "Rui", "Ana"]);
    let grades: Vec<&str> = school.grades().iter().map(|g| g.name.as_str()).collect();
    assert_eq!(grades, vec!["1A", "2B"]);
    let subjects: Vec<&str> = school.subjects().iter().map(|s| s.name.as_str()).collect();
    assert_eq!(subjects, vec!["Bio", "", "Qui"]);
    let labs: Vec<&str> = school.labs().iter().map(|l| l.name.as_str()).collect();
    assert_eq!(labs, vec!["Lab 1", "Lab 2"]);
    assert_eq!(
        school.slots(),
        vec![
            &Slot { day: Day::Monday, time: Time(8, 0) },
            &Slot { day: Day::Wednesday, time: Time(8, 0) },
            &Slot { day: Day::Friday, time: Time(8, 0) },
            &Slot { day: Day::Friday, time: Time(9, 30) },
        ]
    );
    assert_eq!(
        school.classes.values(),
        vec![
            &Class { teacher: 0, grade: 0, subject: 0 },
            &Class { teacher: 0, grade: 1, subject: 0 },
            &Class { teacher: 0, grade: 1, subject: 1 },
            &Class { teacher: 1, grade: 0, subject: 2 },
        ]
    );
    assert_eq!(
        school.slotted_classes.values(),
        vec![
            &SlottedClass { slot: 0, class: 0 },
            &SlottedClass { slot: 1, class: 1 },
            &SlottedClass { slot: 2, class: 0 },
            &SlottedClass { slot: 3, class: 2 },
            &SlottedClass { slot: 0, class: 3 },
        ]
    );
    assert!(school.is_wf());
}

#[test]
fn a_bad_time_is_an_error() {
    let value = SchoolAggregate {
        professores: vec![
            professor("Ana", vec![aula("08:00", ["", "", "", "", ""])]),
            professor("Rui", vec![aula("08:00", ["", "", "", "", ""]), aula("8h", ["1A/Qui", "", "", "", ""])]),
        ],
        laboratorios: vec![],
    };
    assert_eq!(School::from_aggregate(value).unwrap_err(), LoadError::BadTime { table: 1, row: 1 });
}
