//! The timetable of a school as a document of its teachers.
//!
//! The document lists the teachers. For each teacher it lists the times at
//! which the teacher teaches, and for each time and each day of the week a
//! text: the grade and the subject with a stroke between them, or a text
//! without a stroke where the teacher is free.
use crate::school::Class;
use crate::school::Day;
use crate::school::School;
use crate::school::model::SchoolModel;
use crate::school::Slot;
use crate::school::SlottedClass;
use crate::school::Time;
use crate::school::time::time_of;
use crate::sources::register_labs;
use crate::sources::with_labs;
use crate::sources::LoadError;
use crate::text::chars_of;
use crate::text::find_from;
use crate::text::first_at;
use crate::text::slice;
use crate::text::string_of;
use vstd::prelude::*;

verus! {

/// What a teacher teaches at one time of the day, on each day of the week.
#[derive(Debug)]
pub struct ClassAggregate {
    pub horario: String,
    pub segunda: String,
    pub terca: String,
    pub quarta: String,
    pub quinta: String,
    pub sexta: String,
}

/// A teacher and what the teacher teaches.
#[derive(Debug)]
pub struct TeacherAggregate {
    pub nome: String,
    pub aulas: Vec<ClassAggregate>,
}

/// The teachers and the laboratories of a school.
#[derive(Debug)]
pub struct SchoolAggregate {
    pub professores: Vec<TeacherAggregate>,
    pub laboratorios: Vec<String>,
}

/// The text before the first stroke of `s`, or all of it where it has none.
pub open spec fn up_to_stroke(s: Seq<char>) -> Seq<char> {
    if exists|p: int| first_at(s, '/', p) {
        s.take(choose|p: int| first_at(s, '/', p))
    } else {
        s
    }
}

/// The grade and the subject that `s` names: what stands before its first
/// stroke, and what stands behind that up to the next stroke.
pub open spec fn lesson_of(s: Seq<char>) -> Option<(Seq<char>, Seq<char>)> {
    if exists|p: int| first_at(s, '/', p) {
        let p = choose|p: int| first_at(s, '/', p);
        Some((s.take(p), up_to_stroke(s.skip(p + 1))))
    } else {
        None
    }
}

/// The grade and the subject that `s` names.
fn extract_grade_subject(s: &str) -> (r: Option<(String, String)>)
    ensures
        match r {
            Some(names) => lesson_of(s@) == Some((names.0@, names.1@)),
            None => lesson_of(s@) is None,
        },
{
    let chars = chars_of(s);
    proof {
        assert(chars@.skip(0) == chars@);
    }
    match find_from(&chars, '/', 0) {
        None => {
            assert(!exists|p: int| first_at(chars@, '/', p));
            None
        },
        Some(p) => {
            assert(first_at(chars@, '/', p as int));
            let grade = slice(&chars, 0, p);
            let ghost rest = chars@.skip(p + 1);
            let end = match find_from(&chars, '/', p + 1) {
                Some(q) => {
                    assert(first_at(rest, '/', q - (p + 1)));
                    q
                },
                None => {
                    assert(!exists|q: int| first_at(rest, '/', q));
                    chars.len()
                },
            };
            let subject = slice(&chars, p + 1, end);
            proof {
                assert(chars@.subrange(0, p as int) == chars@.take(p as int));
                assert(chars@.subrange(p + 1, end as int) == rest.take(end - (p + 1)));
                assert(rest.take(rest.len() as int) == rest);
            }
            Some((string_of(&grade), string_of(&subject)))
        },
    }
}

/// The school `m` after the text `s` of what `teacher` teaches at `slot`
/// was read: where the text names a grade and a subject, the slot, the
/// grade, the subject and the class are registered, and that the class is
/// held at the slot.
pub open spec fn with_lesson(m: SchoolModel, teacher: usize, slot: Slot, s: Seq<char>) -> Result<
    SchoolModel,
    LoadError,
> {
    match lesson_of(s) {
        None => Ok(m),
        Some((grade, subject)) => if !m.has_room() {
            Err(LoadError::TooLarge)
        } else {
            let class = Class { teacher, grade: m.grades.id_with(grade), subject: m.subjects.id_with(subject) };
            let edge = SlottedClass { slot: m.slots.id_with(slot), class: m.classes.id_with(class) };
            Ok(
                SchoolModel {
                    slots: m.slots.with(slot),
                    grades: m.grades.with(grade),
                    subjects: m.subjects.with(subject),
                    classes: m.classes.with(class),
                    slotted_classes: m.slotted_classes.with(edge),
                    ..m
                },
            )
        },
    }
}

/// The school after the next day's text was read, where nothing failed before.
pub open spec fn then_lesson(before: Result<SchoolModel, LoadError>, teacher: usize, slot: Slot, s: Seq<char>) -> Result<
    SchoolModel,
    LoadError,
> {
    match before {
        Ok(m) => with_lesson(m, teacher, slot, s),
        Err(e) => Err(e),
    }
}

/// The school after the entry `aula`, the `a`-th of the `p`-th teacher, was
/// read: its five texts, Monday's first.
pub open spec fn with_aula(m: SchoolModel, teacher: usize, aula: ClassAggregate, p: usize, a: usize) -> Result<
    SchoolModel,
    LoadError,
> {
    match time_of(aula.horario@) {
        None => Err(LoadError::BadTime { table: p, row: a }),
        Some(time) => {
            let monday = with_lesson(m, teacher, Slot { day: Day::Monday, time }, aula.segunda@);
            let tuesday = then_lesson(monday, teacher, Slot { day: Day::Tuesday, time }, aula.terca@);
            let wednesday = then_lesson(tuesday, teacher, Slot { day: Day::Wednesday, time }, aula.quarta@);
            let thursday = then_lesson(wednesday, teacher, Slot { day: Day::Thursday, time }, aula.quinta@);
            then_lesson(thursday, teacher, Slot { day: Day::Friday, time }, aula.sexta@)
        },
    }
}

/// The school after the first `n` entries of the `p`-th teacher were read.
pub open spec fn with_aulas(m: SchoolModel, teacher: usize, aulas: Seq<ClassAggregate>, p: usize, n: nat) -> Result<
    SchoolModel,
    LoadError,
>
    decreases n,
{
    if n == 0 {
        Ok(m)
    } else {
        match with_aulas(m, teacher, aulas, p, (n - 1) as nat) {
            Ok(before) => with_aula(before, teacher, aulas[n - 1], p, (n - 1) as usize),
            Err(e) => Err(e),
        }
    }
}

/// The school after the `p`-th teacher was read. The teacher is registered
/// anew, whether or not a teacher of that name is registered.
pub open spec fn with_professor(m: SchoolModel, professor: TeacherAggregate, p: usize) -> Result<
    SchoolModel,
    LoadError,
> {
    if m.teachers.full() {
        Err(LoadError::TooLarge)
    } else {
        with_aulas(
            SchoolModel { teachers: m.teachers.add(professor.nome@), ..m },
            m.teachers.next as usize,
            professor.aulas@,
            p,
            professor.aulas@.len(),
        )
    }
}

/// The school after the first `n` teachers were read.
pub open spec fn with_professors(m: SchoolModel, professors: Seq<TeacherAggregate>, n: nat) -> Result<
    SchoolModel,
    LoadError,
>
    decreases n,
{
    if n == 0 {
        Ok(m)
    } else {
        match with_professors(m, professors, (n - 1) as nat) {
            Ok(before) => with_professor(before, professors[n - 1], (n - 1) as usize),
            Err(e) => Err(e),
        }
    }
}

/// The school that the document describes.
pub open spec fn aggregate_school(value: SchoolAggregate) -> Result<SchoolModel, LoadError> {
    match with_professors(SchoolModel::empty(), value.professores@, value.professores@.len()) {
        Ok(m) => with_labs(m, value.laboratorios.deep_view(), value.laboratorios@.len()),
        Err(e) => Err(e),
    }
}

/// Once an entry of a teacher fails, the teacher fails in the same way.
proof fn lemma_aulas_fail(m: SchoolModel, teacher: usize, aulas: Seq<ClassAggregate>, p: usize, i: nat, n: nat)
    requires
        i <= n,
        with_aulas(m, teacher, aulas, p, i) is Err,
    ensures
        with_aulas(m, teacher, aulas, p, n) == with_aulas(m, teacher, aulas, p, i),
    decreases n - i,
{
    if i < n {
        lemma_aulas_fail(m, teacher, aulas, p, i, (n - 1) as nat);
    }
}

/// Once a teacher fails, the document fails in the same way.
proof fn lemma_professors_fail(m: SchoolModel, professors: Seq<TeacherAggregate>, i: nat, n: nat)
    requires
        i <= n,
        with_professors(m, professors, i) is Err,
    ensures
        with_professors(m, professors, n) == with_professors(m, professors, i),
    decreases n - i,
{
    if i < n {
        lemma_professors_fail(m, professors, i, (n - 1) as nat);
    }
}

/// Reads the text of what `teacher` teaches at `slot` into the school.
fn read_lesson(school: &mut School, teacher: usize, slot: Slot, s: &str) -> (r: Result<(), LoadError>)
    requires
        old(school)@.wf(),
        old(school)@.teachers.entries.contains_key(teacher),
    ensures
        match r {
            Ok(_) => with_lesson(old(school)@, teacher, slot, s@) == Ok::<SchoolModel, LoadError>(
                final(school)@,
            ) && final(school)@.wf() && final(school)@.teachers == old(school)@.teachers,
            Err(e) => with_lesson(old(school)@, teacher, slot, s@) == Err::<SchoolModel, LoadError>(e),
        },
{
    match extract_grade_subject(s) {
        None => Ok(()),
        Some((grade, subject)) => {
            if !school.has_room() {
                return Err(LoadError::TooLarge);
            }
            let slot_id = school.slot_id(slot);
            let grade_id = school.grade_id(grade);
            let subject_id = school.subject_id(subject);
            let class_id = school.class_id(Class { teacher, grade: grade_id, subject: subject_id });
            school.slotted_class_id(SlottedClass { slot: slot_id, class: class_id });
            Ok(())
        },
    }
}

/// Reads the entry `aula`, the `a`-th of the `p`-th teacher, into the school.
fn read_aula(school: &mut School, teacher: usize, aula: &ClassAggregate, p: usize, a: usize) -> (r: Result<
    (),
    LoadError,
>)
    requires
        old(school)@.wf(),
        old(school)@.teachers.entries.contains_key(teacher),
    ensures
        match r {
            Ok(_) => with_aula(old(school)@, teacher, *aula, p, a) == Ok::<SchoolModel, LoadError>(
                final(school)@,
            ) && final(school)@.wf() && final(school)@.teachers == old(school)@.teachers,
            Err(e) => with_aula(old(school)@, teacher, *aula, p, a) == Err::<SchoolModel, LoadError>(e),
        },
{
    let time = match Time::parse(aula.horario.as_str()) {
        Some(time) => time,
        None => {
            return Err(LoadError::BadTime { table: p, row: a });
        },
    };
    match read_lesson(school, teacher, Slot { day: Day::Monday, time }, aula.segunda.as_str()) {
        Ok(_) => {},
        Err(e) => {
            return Err(e);
        },
    }
    match read_lesson(school, teacher, Slot { day: Day::Tuesday, time }, aula.terca.as_str()) {
        Ok(_) => {},
        Err(e) => {
            return Err(e);
        },
    }
    match read_lesson(school, teacher, Slot { day: Day::Wednesday, time }, aula.quarta.as_str()) {
        Ok(_) => {},
        Err(e) => {
            return Err(e);
        },
    }
    match read_lesson(school, teacher, Slot { day: Day::Thursday, time }, aula.quinta.as_str()) {
        Ok(_) => {},
        Err(e) => {
            return Err(e);
        },
    }
    read_lesson(school, teacher, Slot { day: Day::Friday, time }, aula.sexta.as_str())
}

/// Reads the `p`-th teacher into the school.
fn read_professor(school: &mut School, professor: &TeacherAggregate, p: usize) -> (r: Result<(), LoadError>)
    requires
        old(school)@.wf(),
    ensures
        match r {
            Ok(_) => with_professor(old(school)@, *professor, p) == Ok::<SchoolModel, LoadError>(
                final(school)@,
            ) && final(school)@.wf(),
            Err(e) => with_professor(old(school)@, *professor, p) == Err::<SchoolModel, LoadError>(e),
        },
{
    if school.teachers.is_full() {
        return Err(LoadError::TooLarge);
    }
    let teacher = school.add_teacher(professor.nome.clone());
    let ghost named = school@;
    for a in 0..professor.aulas.len()
        invariant
            school@.wf(),
            school@.teachers == named.teachers,
            school@.teachers.entries.contains_key(teacher),
            with_professor(old(school)@, *professor, p) == with_aulas(
                named,
                teacher,
                professor.aulas@,
                p,
                professor.aulas@.len(),
            ),
            with_aulas(named, teacher, professor.aulas@, p, a as nat) == Ok::<SchoolModel, LoadError>(school@),
    {
        match read_aula(school, teacher, &professor.aulas[a], p, a) {
            Ok(_) => {},
            Err(e) => {
                proof {
                    assert(with_aulas(named, teacher, professor.aulas@, p, (a + 1) as nat) == Err::<
                        SchoolModel,
                        LoadError,
                    >(e));
                    lemma_aulas_fail(
                        named,
                        teacher,
                        professor.aulas@,
                        p,
                        (a + 1) as nat,
                        professor.aulas@.len(),
                    );
                }
                return Err(e);
            },
        }
    }
    Ok(())
}

impl School {
    /// The school that the document describes.
    pub fn from_aggregate(value: SchoolAggregate) -> (r: Result<School, LoadError>)
        ensures
            match r {
                Ok(school) => aggregate_school(value) == Ok::<SchoolModel, LoadError>(school@) && school.wf(),
                Err(e) => aggregate_school(value) == Err::<SchoolModel, LoadError>(e),
            },
    {
        let mut school = School::new();
        proof {
            school.lemma_wf();
        }
        let ghost professors = value.professores@;
        for p in 0..value.professores.len()
            invariant
                professors == value.professores@,
                school@.wf(),
                with_professors(SchoolModel::empty(), professors, p as nat) == Ok::<SchoolModel, LoadError>(
                    school@,
                ),
        {
            match read_professor(&mut school, &value.professores[p], p) {
                Ok(_) => {},
                Err(e) => {
                    proof {
                        assert(with_professors(SchoolModel::empty(), professors, (p + 1) as nat) == Err::<
                            SchoolModel,
                            LoadError,
                        >(e));
                        lemma_professors_fail(
                            SchoolModel::empty(),
                            professors,
                            (p + 1) as nat,
                            professors.len(),
                        );
                    }
                    return Err(e);
                },
            }
        }
        match register_labs(&mut school, value.laboratorios) {
            Ok(_) => {},
            Err(e) => {
                return Err(e);
            },
        }
        proof {
            school.lemma_wf();
        }
        Ok(school)
    }
}

} // verus!
