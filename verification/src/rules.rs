//! The authored rules: for each subject its teachers, for each teacher the
//! grades taught, and for each grade the laboratories preferred for that
//! class, most wanted first.
use crate::school::Time;
use vstd::prelude::*;

verus! {

/// The rules of a school: one entry for each subject.
#[derive(Debug)]
pub struct Rules {
    pub classes: Vec<ClassRules>,
}

/// The rules for one subject.
#[derive(Debug)]
pub struct ClassRules {
    pub subject: String,
    pub teachers: Vec<TeacherRules>,
}

/// The rules for one teacher of a subject.
#[derive(Debug)]
pub struct TeacherRules {
    pub name: String,
    pub grades: Vec<GradeRules>,
}

/// The rules for one grade that a teacher teaches a subject to.
#[derive(Debug)]
pub struct GradeRules {
    pub name: String,
    /// The names of the laboratories preferred, most wanted first.
    pub labs: Vec<String>,
    /// Times at which the class should not be held in a laboratory.
    pub forbidden_times: Vec<Time>,
}

impl Default for Rules {
    /// Rules without an entry.
    fn default() -> (r: Self)
        ensures
            r.classes@.len() == 0,
    {
        Rules { classes: Vec::new() }
    }
}

impl Default for ClassRules {
    /// An entry for the subject with the empty name, without a teacher.
    fn default() -> (r: Self)
        ensures
            r.subject@.len() == 0,
            r.teachers@.len() == 0,
    {
        ClassRules { subject: String::new(), teachers: Vec::new() }
    }
}

impl Default for TeacherRules {
    /// An entry for the teacher with the empty name, without a grade.
    fn default() -> (r: Self)
        ensures
            r.name@.len() == 0,
            r.grades@.len() == 0,
    {
        TeacherRules { name: String::new(), grades: Vec::new() }
    }
}

impl Default for GradeRules {
    /// An entry for the grade with the empty name, without a preference.
    fn default() -> (r: Self)
        ensures
            r.name@.len() == 0,
            r.labs@.len() == 0,
            r.forbidden_times@.len() == 0,
    {
        GradeRules { name: String::new(), labs: Vec::new(), forbidden_times: Vec::new() }
    }
}

/// The names of one class that the rules speak of.
pub struct Leaf {
    pub teacher: Seq<char>,
    pub grade: Seq<char>,
    pub subject: Seq<char>,
}

/// The classes of one teacher of a subject, in the order of the grades.
pub open spec fn grade_leaves(subject: Seq<char>, teacher: Seq<char>, grades: Seq<GradeRules>) -> Seq<
    Leaf,
> {
    grades.map_values(|g: GradeRules| Leaf { teacher, grade: g.name@, subject })
}

/// The classes of a subject: those of its first teacher first.
pub open spec fn teacher_leaves(subject: Seq<char>, teachers: Seq<TeacherRules>) -> Seq<Leaf>
    decreases teachers.len(),
{
    if teachers.len() == 0 {
        Seq::empty()
    } else {
        teacher_leaves(subject, teachers.drop_last()) + grade_leaves(
            subject,
            teachers.last().name@,
            teachers.last().grades@,
        )
    }
}

/// The classes of the subjects `classes`: those of the first subject first.
pub open spec fn class_leaves(classes: Seq<ClassRules>) -> Seq<Leaf>
    decreases classes.len(),
{
    if classes.len() == 0 {
        Seq::empty()
    } else {
        class_leaves(classes.drop_last()) + teacher_leaves(
            classes.last().subject@,
            classes.last().teachers@,
        )
    }
}

impl Rules {
    /// The classes that the rules speak of, in the order of the document.
    pub open spec fn leaves(&self) -> Seq<Leaf> {
        class_leaves(self.classes@)
    }

    /// For each class that the rules speak of, the names of its teacher, its
    /// grade and its subject, in the order of the document.
    pub fn flatten<'a>(&'a self) -> (r: Vec<(&'a str, &'a str, &'a str)>)
        ensures
            r@.len() == self.leaves().len(),
            forall|i: int|
                0 <= i < r@.len() ==> (#[trigger] r@[i]).0@ == self.leaves()[i].teacher && r@[i].1@
                    == self.leaves()[i].grade && r@[i].2@ == self.leaves()[i].subject,
    {
        let mut out: Vec<(&'a str, &'a str, &'a str)> = Vec::new();
        proof {
            assert(self.classes@.take(0) == Seq::<ClassRules>::empty());
        }
        for c in 0..self.classes.len()
            invariant
                out@.len() == class_leaves(self.classes@.take(c as int)).len(),
                forall|i: int|
                    0 <= i < out@.len() ==> (#[trigger] out@[i]).0@ == class_leaves(
                        self.classes@.take(c as int),
                    )[i].teacher && out@[i].1@ == class_leaves(self.classes@.take(c as int))[i].grade
                        && out@[i].2@ == class_leaves(self.classes@.take(c as int))[i].subject,
        {
            let class = &self.classes[c];
            let ghost before = class_leaves(self.classes@.take(c as int));
            proof {
                assert(self.classes@.take(c + 1).drop_last() == self.classes@.take(c as int));
                assert(class.teachers@.take(0) == Seq::<TeacherRules>::empty());
            }
            for t in 0..class.teachers.len()
                invariant
                    class == self.classes@[c as int],
                    before == class_leaves(self.classes@.take(c as int)),
                    out@.len() == (before + teacher_leaves(
                        class.subject@,
                        class.teachers@.take(t as int),
                    )).len(),
                    forall|i: int|
                        0 <= i < out@.len() ==> (#[trigger] out@[i]).0@ == (before + teacher_leaves(
                            class.subject@,
                            class.teachers@.take(t as int),
                        ))[i].teacher && out@[i].1@ == (before + teacher_leaves(
                            class.subject@,
                            class.teachers@.take(t as int),
                        ))[i].grade && out@[i].2@ == (before + teacher_leaves(
                            class.subject@,
                            class.teachers@.take(t as int),
                        ))[i].subject,
            {
                let teacher = &class.teachers[t];
                let ghost done = before + teacher_leaves(class.subject@, class.teachers@.take(t as int));
                proof {
                    assert(class.teachers@.take(t + 1).drop_last() == class.teachers@.take(t as int));
                }
                for g in 0..teacher.grades.len()
                    invariant
                        teacher == class.teachers@[t as int],
                        out@.len() == done.len() + g,
                        forall|i: int|
                            0 <= i < done.len() ==> (#[trigger] out@[i]).0@ == done[i].teacher
                                && out@[i].1@ == done[i].grade && out@[i].2@ == done[i].subject,
                        forall|i: int|
                            done.len() <= i < out@.len() ==> (#[trigger] out@[i]).0@ == teacher.name@
                                && out@[i].1@ == teacher.grades@[i - done.len()].name@ && out@[i].2@
                                == class.subject@,
                {
                    let grade = &teacher.grades[g];
                    out.push((teacher.name.as_str(), grade.name.as_str(), class.subject.as_str()));
                }
                proof {
                    let next = before + teacher_leaves(class.subject@, class.teachers@.take(t + 1));
                    assert(next =~= done + grade_leaves(class.subject@, teacher.name@, teacher.grades@));
                }
            }
            proof {
                assert(class.teachers@.take(class.teachers.len() as int) == class.teachers@);
            }
        }
        proof {
            assert(self.classes@.take(self.classes.len() as int) == self.classes@);
        }
        out
    }
}

} // verus!
