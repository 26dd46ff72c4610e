use labs::school::{Class, Day, School, Slot, SlottedClass, Time};
use labs::sources::html::load_school;
use labs::sources::LoadError;

fn strings(v: &[&str]) -> Vec<String> {
    v.iter().map(|s| s.to_string()).collect()
}

fn cell(v: &[&str]) -> Vec<String> {
    strings(v)
}

const PAGE: &str = "<html><body>\
<p>Turma 1A</p>\
<table>\
<tr><td>Hora</td><td>Seg</td><td>Ter</td><td>Qua</td><td>Qui</td><td>Sex</td></tr>\
<tr><td>08:00</td><td>Biologia<br>Ana&nbsp;Lima</td><td></td><td>Quimica<br>Rui</td><td></td><td></td></tr>\
<tr><td>09:30</td><td>Quimica<br>Rui</td><td>Biologia<br>Ana Lima</td></tr>\
</table>\
<p>2B</p>\
<table>\
<tr><td>Hora</td></tr>\
<tr><td>08:00</td><td>Biologia<br>Ana Lima</td></tr>\
</table>\
</body></html>";

fn names(school: &School) -> (Vec<String>, Vec<String>, Vec<String>, Vec<String>) {
    (
        school.grades().iter().map(|g| g.name.clone()).collect(),
        school.subjects().iter().map(|s| s.name.clone()).collect(),
        school.teachers().iter().map(|t| t.name.clone()).collect(),
        school.labs().iter().map(|l| l.name.clone()).collect(),
    )
}

#[test]
fn page_is_read_into_tables() {
    let loaded = load_school(PAGE.as_bytes(), strings(&["Lab 1", "Lab 2", "Lab 1"])).unwrap();
    assert!(!loaded.malformed);
    let school = loaded.school;
    let (grades, subjects, teachers, labs) = names(&school);
    assert_eq!(grades, strings(&["1A", "2B"]));
    assert_eq!(subjects, strings(&["Biologia", "Quimica"]));
    assert_eq!(teachers, strings(&["Ana Lima", "Rui"]));
    assert_eq!(labs, strings(&["Lab 1", "Lab 2"]));
    let slot = |day, h, m| Slot { day, time: Time(h, m) };
    assert_eq!(
        school.slots(),
        vec![
            &slot(Day::Monday, 8, 0),
            &slot(Day::Tuesday, 8, 0),
            &slot(Day::Wednesday, 8, 0),
            &slot(Day::Thursday, 8, 0),
            &slot(Day::Friday, 8, 0),
            &slot(Day::Monday, 9, 30),
            &slot(Day::Tuesday, 9, 30),
        ]
    );
    assert_eq!(
        school.classes.values(),
        vec![
            &Class { teacher: 0, grade: 0, subject: 0 },
            &Class { teacher: 1, grade: 0, subject: 1 },
            &Class { teacher: 0, grade: 1, subject: 0 },
        ]
    );
    assert_eq!(
        school.slotted_classes.values(),
        vec![
            &SlottedClass { slot: 0, class: 0 },
            &SlottedClass { slot: 2, class: 1 },
            &SlottedClass { slot: 5, class: 1 },
            &SlottedClass { slot: 6, class: 0 },
            &SlottedClass { slot: 0, class: 2 },
        ]
    );
    assert_eq!(school.slots_of(0), vec![0, 6]);
    assert_eq!(school.slots_of(1), vec![2, 5]);
}

#[test]
fn bytes_are_decoded_as_windows_1252() {
    let mut page = b"<p>Turma 1\xaa</p><table><tr><td>h</td></tr><tr><td>10:00</td><td>F\xedsica<br>Jos\xe9</td></tr></table>".to_vec();
    let loaded = load_school(&page, vec![]).unwrap();
    assert!(!loaded.malformed);
    let (grades, subjects, teachers, _) = names(&loaded.school);
    assert_eq!(grades, strings(&["1\u{aa}"]));
    assert_eq!(subjects, strings(&["F\u{ed}sica"]));
    assert_eq!(teachers, strings(&["Jos\u{e9}"]));
    // a byte that windows-1252 does not map is passed on as a control character
    page.push(0x81);
    assert!(load_school(&page, vec![]).is_ok());
}

#[test]
fn an_empty_page_gives_a_school_with_the_labs_only() {
    let loaded = load_school(b"", strings(&["Lab"])).unwrap();
    let (grades, subjects, teachers, labs) = names(&loaded.school);
    assert!(grades.is_empty() && subjects.is_empty() && teachers.is_empty());
    assert_eq!(labs, strings(&["Lab"]));
    assert!(loaded.school.slots.keys().is_empty());
}

#[test]
fn a_row_without_a_time_is_an_error() {
    let page = "<p>1A</p><table><tr><td>h</td></tr><tr></tr></table>";
    assert_eq!(load_school(page.as_bytes(), vec![]).unwrap_err(), LoadError::MissingTime { table: 0, row: 1 });
    let page = "<p>1A</p><table><tr><td>h</td></tr><tr><td>08:00</td></tr><tr><td></td><td>x</td></tr></table>";
    assert_eq!(load_school(page.as_bytes(), vec![]).unwrap_err(), LoadError::MissingTime { table: 0, row: 2 });
}

#[test]
fn a_row_with_a_bad_time_is_an_error() {
    let page = "<p>1A</p><table><tr><td>h</td></tr></table><p>2B</p><table><tr></tr><tr><td>8h</td></tr></table>";
    assert_eq!(load_school(page.as_bytes(), vec![]).unwrap_err(), LoadError::BadTime { table: 1, row: 1 });
}

#[test]
fn from_timetable_takes_the_texts_as_given() {
    let names = vec![strings(&["Tur", "ma 3C"]), strings(&["Turma"]), strings(&["unused"])];
    let head = vec![cell(&["h"])];
    let tables = vec![
        vec![
            head.clone(),
            vec![
                cell(&["7:05", "ignored"]),
                cell(&["Arte", "Eva", "more"]),
                cell(&["only one"]),
                cell(&[]),
                cell(&["Arte", "Eva"]),
                cell(&["Ar\u{a0}te", "E\u{a0}va"]),
                cell(&["past", "friday"]),
            ],
        ],
        vec![],
    ];
    let school = School::from_timetable(&names, &tables, vec![]).unwrap();
    let (grades, subjects, teachers, _) = self::names(&school);
    assert_eq!(grades, strings(&["3C", "Turma"]));
    assert_eq!(subjects, strings(&["Arte", "Ar te"]));
    assert_eq!(teachers, strings(&["Eva", "E va"]));
    assert_eq!(school.slots.keys().len(), 5);
    assert_eq!(
        school.slotted_classes.values(),
        vec![
            &SlottedClass { slot: 0, class: 0 },
            &SlottedClass { slot: 3, class: 0 },
            &SlottedClass { slot: 4, class: 1 },
        ]
    );
    assert_eq!(school.slots.get(4), Some(&Slot { day: Day::Friday, time: Time(7, 5) }));
}

#[test]
fn tables_without_a_paragraph_are_not_read() {
    let names = vec![strings(&["1A"])];
    let row = vec![cell(&["bad time"])];
    let tables = vec![vec![], vec![vec![], row]];
    let school = School::from_timetable(&names, &tables, vec![]).unwrap();
    assert_eq!(school.grades.keys(), vec![0]);
}
