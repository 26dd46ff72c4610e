//! From the authored rules to the classes that the solver places.
//!
//! The rules name teachers, grades, subjects and laboratories. Each name is
//! looked up in the school. What cannot be found is passed over and reported;
//! the rest of the rules is resolved all the same.
use crate::rules::ClassRules;
use crate::rules::GradeRules;
use crate::rules::Rules;
use crate::rules::TeacherRules;
use crate::school::School;
use crate::solver::plan::class_list;
use vstd::prelude::*;

verus! {

/// A name in the rules that the school does not know. The fields give the
/// place in the rules: the entry of the subject, under it the entry of the
/// teacher, under that the entry of the grade, and under that the preference.
#[derive(Debug, Clone, Copy, PartialEq, Eq, Structural)]
pub enum Diagnostic {
    /// No subject of that name: the whole entry is passed over.
    UnknownSubject { class: usize },
    /// No teacher of that name: the teacher's entry is passed over.
    UnknownTeacher { class: usize, teacher: usize },
    /// No grade of that name: the grade's entry is passed over.
    UnknownGrade { class: usize, teacher: usize, grade: usize },
    /// The teacher does not teach the subject to the grade: the grade's entry is passed over.
    UnknownClass { class: usize, teacher: usize, grade: usize },
    /// No laboratory of that name: the preference is passed over.
    UnknownLab { class: usize, teacher: usize, grade: usize, lab: usize },
}

/// What the rules resolve to.
#[derive(Debug)]
pub struct Resolution {
    /// Each class that was found, with the laboratories it prefers, most
    /// wanted first, in the order of the rules.
    pub classes: Vec<(usize, Vec<usize>)>,
    /// What was not found, in the order of the rules.
    pub diagnostics: Vec<Diagnostic>,
}

/// A resolution as two sequences.
pub struct Resolved {
    pub classes: Seq<(usize, Seq<usize>)>,
    pub diagnostics: Seq<Diagnostic>,
}

impl View for Resolution {
    type V = Resolved;

    open spec fn view(&self) -> Resolved {
        Resolved { classes: class_list(self.classes@), diagnostics: self.diagnostics@ }
    }
}

/// The laboratories of the names `labs` that the school knows, in the order
/// of the names, and a diagnostic for each of the others.
pub open spec fn resolved_labs(school: &School, labs: Seq<String>, c: usize, t: usize, g: usize) -> (
    Seq<usize>,
    Seq<Diagnostic>,
)
    decreases labs.len(),
{
    if labs.len() == 0 {
        (Seq::empty(), Seq::empty())
    } else {
        let before = resolved_labs(school, labs.drop_last(), c, t, g);
        match school.lab_named(labs.last()@) {
            Some(id) => (before.0.push(id), before.1),
            None => (
                before.0,
                before.1.push(
                    Diagnostic::UnknownLab {
                        class: c,
                        teacher: t,
                        grade: g,
                        lab: (labs.len() - 1) as usize,
                    },
                ),
            ),
        }
    }
}

/// What the entries `grades` of a teacher of a subject resolve to.
pub open spec fn resolved_grades(
    school: &School,
    grades: Seq<GradeRules>,
    subject: usize,
    teacher: usize,
    c: usize,
    t: usize,
) -> Resolved
    decreases grades.len(),
{
    if grades.len() == 0 {
        Resolved { classes: Seq::empty(), diagnostics: Seq::empty() }
    } else {
        let before = resolved_grades(school, grades.drop_last(), subject, teacher, c, t);
        let g = (grades.len() - 1) as usize;
        match school.grade_named(grades.last().name@) {
            None => Resolved {
                classes: before.classes,
                diagnostics: before.diagnostics.push(
                    Diagnostic::UnknownGrade { class: c, teacher: t, grade: g },
                ),
            },
            Some(grade) => match school.class_of(teacher, grade, subject) {
                None => Resolved {
                    classes: before.classes,
                    diagnostics: before.diagnostics.push(
                        Diagnostic::UnknownClass { class: c, teacher: t, grade: g },
                    ),
                },
                Some(class) => {
                    let labs = resolved_labs(school, grades.last().labs@, c, t, g);
                    Resolved {
                        classes: before.classes.push((class, labs.0)),
                        diagnostics: before.diagnostics + labs.1,
                    }
                },
            },
        }
    }
}

/// What the entries `teachers` of a subject resolve to.
pub open spec fn resolved_teachers(school: &School, teachers: Seq<TeacherRules>, subject: usize, c: usize) -> Resolved
    decreases teachers.len(),
{
    if teachers.len() == 0 {
        Resolved { classes: Seq::empty(), diagnostics: Seq::empty() }
    } else {
        let before = resolved_teachers(school, teachers.drop_last(), subject, c);
        let t = (teachers.len() - 1) as usize;
        match school.teacher_named(teachers.last().name@) {
            None => Resolved {
                classes: before.classes,
                diagnostics: before.diagnostics.push(Diagnostic::UnknownTeacher { class: c, teacher: t }),
            },
            Some(teacher) => {
                let grades = resolved_grades(school, teachers.last().grades@, subject, teacher, c, t);
                Resolved {
                    classes: before.classes + grades.classes,
                    diagnostics: before.diagnostics + grades.diagnostics,
                }
            },
        }
    }
}

/// What the entries `classes` of the rules resolve to.
pub open spec fn resolved_classes(school: &School, classes: Seq<ClassRules>) -> Resolved
    decreases classes.len(),
{
    if classes.len() == 0 {
        Resolved { classes: Seq::empty(), diagnostics: Seq::empty() }
    } else {
        let before = resolved_classes(school, classes.drop_last());
        let c = (classes.len() - 1) as usize;
        match school.subject_named(classes.last().subject@) {
            None => Resolved {
                classes: before.classes,
                diagnostics: before.diagnostics.push(Diagnostic::UnknownSubject { class: c }),
            },
            Some(subject) => {
                let teachers = resolved_teachers(school, classes.last().teachers@, subject, c);
                Resolved {
                    classes: before.classes + teachers.classes,
                    diagnostics: before.diagnostics + teachers.diagnostics,
                }
            },
        }
    }
}

/// What the rules resolve to in the school.
pub open spec fn resolved(school: &School, rules: &Rules) -> Resolved {
    resolved_classes(school, rules.classes@)
}

/// The view of two lists of classes, one after the other.
proof fn lemma_class_list_add(a: Seq<(usize, Vec<usize>)>, b: Seq<(usize, Vec<usize>)>)
    ensures
        class_list(a + b) == class_list(a) + class_list(b),
{
    assert(class_list(a + b) =~= class_list(a) + class_list(b));
}

/// Resolves the preferences of one grade's entry.
fn resolve_labs(school: &School, labs: &Vec<String>, c: usize, t: usize, g: usize) -> (r: (
    Vec<usize>,
    Vec<Diagnostic>,
))
    ensures
        r.0@ == resolved_labs(school, labs@, c, t, g).0,
        r.1@ == resolved_labs(school, labs@, c, t, g).1,
{
    let mut ids: Vec<usize> = Vec::new();
    let mut diagnostics: Vec<Diagnostic> = Vec::new();
    proof {
        assert(labs@.take(0) == Seq::<String>::empty());
    }
    for l in 0..labs.len()
        invariant
            ids@ == resolved_labs(school, labs@.take(l as int), c, t, g).0,
            diagnostics@ == resolved_labs(school, labs@.take(l as int), c, t, g).1,
    {
        proof {
            assert(labs@.take(l + 1).drop_last() == labs@.take(l as int));
        }
        match school.find_lab(&labs[l]) {
            Some(id) => {
                ids.push(id);
            },
            None => {
                diagnostics.push(Diagnostic::UnknownLab { class: c, teacher: t, grade: g, lab: l });
            },
        }
    }
    proof {
        assert(labs@.take(labs.len() as int) == labs@);
    }
    (ids, diagnostics)
}

/// Resolves the grades of one teacher's entry.
fn resolve_grades(
    school: &School,
    grades: &Vec<GradeRules>,
    subject: usize,
    teacher: usize,
    c: usize,
    t: usize,
) -> (r: Resolution)
    ensures
        r@ == resolved_grades(school, grades@, subject, teacher, c, t),
{
    let mut classes: Vec<(usize, Vec<usize>)> = Vec::new();
    let mut diagnostics: Vec<Diagnostic> = Vec::new();
    proof {
        assert(grades@.take(0) == Seq::<GradeRules>::empty());
        assert(class_list(classes@) == Seq::<(usize, Seq<usize>)>::empty());
    }
    for g in 0..grades.len()
        invariant
            class_list(classes@) == resolved_grades(
                school,
                grades@.take(g as int),
                subject,
                teacher,
                c,
                t,
            ).classes,
            diagnostics@ == resolved_grades(
                school,
                grades@.take(g as int),
                subject,
                teacher,
                c,
                t,
            ).diagnostics,
    {
        proof {
            assert(grades@.take(g + 1).drop_last() == grades@.take(g as int));
            assert(grades@.take(g + 1).last() == grades@[g as int]);
        }
        let ghost list = class_list(classes@);
        match school.find_grade(&grades[g].name) {
            None => {
                diagnostics.push(Diagnostic::UnknownGrade { class: c, teacher: t, grade: g });
            },
            Some(grade) => match school.find_class(teacher, grade, subject) {
                None => {
                    diagnostics.push(Diagnostic::UnknownClass { class: c, teacher: t, grade: g });
                },
                Some(class) => {
                    let (labs, mut unknown) = resolve_labs(school, &grades[g].labs, c, t, g);
                    diagnostics.append(&mut unknown);
                    classes.push((class, labs));
                    assert(class_list(classes@) == list.push((class, labs@)));
                },
            },
        }
    }
    proof {
        assert(grades@.take(grades.len() as int) == grades@);
    }
    Resolution { classes, diagnostics }
}

/// Resolves the teachers of one subject's entry.
fn resolve_teachers(school: &School, teachers: &Vec<TeacherRules>, subject: usize, c: usize) -> (r:
    Resolution)
    ensures
        r@ == resolved_teachers(school, teachers@, subject, c),
{
    let mut classes: Vec<(usize, Vec<usize>)> = Vec::new();
    let mut diagnostics: Vec<Diagnostic> = Vec::new();
    proof {
        assert(teachers@.take(0) == Seq::<TeacherRules>::empty());
        assert(class_list(classes@) == Seq::<(usize, Seq<usize>)>::empty());
    }
    for t in 0..teachers.len()
        invariant
            class_list(classes@) == resolved_teachers(
                school,
                teachers@.take(t as int),
                subject,
                c,
            ).classes,
            diagnostics@ == resolved_teachers(
                school,
                teachers@.take(t as int),
                subject,
                c,
            ).diagnostics,
    {
        proof {
            assert(teachers@.take(t + 1).drop_last() == teachers@.take(t as int));
            assert(teachers@.take(t + 1).last() == teachers@[t as int]);
        }
        match school.find_teacher(&teachers[t].name) {
            None => {
                diagnostics.push(Diagnostic::UnknownTeacher { class: c, teacher: t });
            },
            Some(teacher) => {
                let mut found = resolve_grades(school, &teachers[t].grades, subject, teacher, c, t);
                proof {
                    lemma_class_list_add(classes@, found.classes@);
                }
                classes.append(&mut found.classes);
                diagnostics.append(&mut found.diagnostics);
            },
        }
    }
    proof {
        assert(teachers@.take(teachers.len() as int) == teachers@);
    }
    Resolution { classes, diagnostics }
}

/// Resolves the rules in the school: each class that the rules speak of and
/// the school knows, with the laboratories it prefers, and a diagnostic for
/// each name that the school does not know.
pub fn resolve(school: &School, rules: &Rules) -> (r: Resolution)
    ensures
        r@ == resolved(school, rules),
{
    let mut classes: Vec<(usize, Vec<usize>)> = Vec::new();
    let mut diagnostics: Vec<Diagnostic> = Vec::new();
    proof {
        assert(rules.classes@.take(0) == Seq::<ClassRules>::empty());
        assert(class_list(classes@) == Seq::<(usize, Seq<usize>)>::empty());
    }
    for c in 0..rules.classes.len()
        invariant
            class_list(classes@) == resolved_classes(school, rules.classes@.take(c as int)).classes,
            diagnostics@ == resolved_classes(school, rules.classes@.take(c as int)).diagnostics,
    {
        proof {
            assert(rules.classes@.take(c + 1).drop_last() == rules.classes@.take(c as int));
            assert(rules.classes@.take(c + 1).last() == rules.classes@[c as int]);
        }
        match school.find_subject(&rules.classes[c].subject) {
            None => {
                diagnostics.push(Diagnostic::UnknownSubject { class: c });
            },
            Some(subject) => {
                let mut found = resolve_teachers(school, &rules.classes[c].teachers, subject, c);
                proof {
                    lemma_class_list_add(classes@, found.classes@);
                }
                classes.append(&mut found.classes);
                diagnostics.append(&mut found.diagnostics);
            },
        }
    }
    proof {
        assert(rules.classes@.take(rules.classes.len() as int) == rules.classes@);
    }
    Resolution { classes, diagnostics }
}

} // verus!
