//! A school as registries: what each of its tables holds, by id, and the
//! id that comes next. People, grades, subjects and laboratories stand in
//! them by their names.
use crate::school::Class;
use crate::school::Grade;
use crate::school::Laboratory;
use crate::school::School;
use crate::school::Slot;
use crate::school::SlottedClass;
use crate::school::Subject;
use crate::school::Teacher;
use crate::table::first_id_where;
use crate::table::lemma_first_id_where;
use crate::table::lemma_first_id_where_mapped;
use crate::table::lemma_first_id_where_none;
use crate::table::Table;
use vstd::prelude::*;
use vstd::std_specs::cmp::PartialEqSpec;

verus! {

/// The test for the value `v`.
pub open spec fn is_value<V>(v: V) -> spec_fn(V) -> bool {
    |x: V| x == v
}

/// What a table holds, with the id that the next insertion gets.
pub struct Registry<V> {
    pub entries: Map<usize, V>,
    pub next: nat,
}

impl<V> Registry<V> {
    /// The registry that holds nothing.
    pub open spec fn empty() -> Registry<V> {
        Registry { entries: Map::empty(), next: 0 }
    }

    /// No id is left for a new entry.
    pub open spec fn full(self) -> bool {
        self.next >= usize::MAX
    }

    /// The first id under which `v` is registered.
    pub open spec fn id_of(self, v: V) -> Option<usize> {
        first_id_where(self.entries, is_value(v))
    }

    /// The registry after `v` was registered under a new id.
    pub open spec fn add(self, v: V) -> Registry<V> {
        Registry { entries: self.entries.insert(self.next as usize, v), next: self.next + 1 }
    }

    /// The registry after `v` was registered, under a new id where it was not registered yet.
    pub open spec fn with(self, v: V) -> Registry<V> {
        if self.id_of(v) is Some {
            self
        } else {
            self.add(v)
        }
    }

    /// The id of `v` after it was registered.
    pub open spec fn id_with(self, v: V) -> usize {
        match self.id_of(v) {
            Some(k) => k,
            None => self.next as usize,
        }
    }
}

/// A school as seven registries. People, grades, subjects and laboratories
/// are registered by their names.
pub struct SchoolModel {
    pub slots: Registry<Slot>,
    pub teachers: Registry<Seq<char>>,
    pub grades: Registry<Seq<char>>,
    pub subjects: Registry<Seq<char>>,
    pub classes: Registry<Class>,
    pub slotted_classes: Registry<SlottedClass>,
    pub labs: Registry<Seq<char>>,
}

impl SchoolModel {
    /// The school that holds nothing.
    pub open spec fn empty() -> SchoolModel {
        SchoolModel {
            slots: Registry::empty(),
            teachers: Registry::empty(),
            grades: Registry::empty(),
            subjects: Registry::empty(),
            classes: Registry::empty(),
            slotted_classes: Registry::empty(),
            labs: Registry::empty(),
        }
    }

    /// No entity holds an id that is not registered.
    pub open spec fn wf(self) -> bool {
        &&& forall|c: usize| #[trigger]
            self.classes.entries.contains_key(c) ==> {
                &&& self.teachers.entries.contains_key(self.classes.entries[c].teacher)
                &&& self.grades.entries.contains_key(self.classes.entries[c].grade)
                &&& self.subjects.entries.contains_key(self.classes.entries[c].subject)
            }
        &&& forall|e: usize| #[trigger]
            self.slotted_classes.entries.contains_key(e) ==> {
                &&& self.slots.entries.contains_key(self.slotted_classes.entries[e].slot)
                &&& self.classes.entries.contains_key(self.slotted_classes.entries[e].class)
            }
    }

    /// Each registry has an id left.
    pub open spec fn has_room(self) -> bool {
        &&& !self.slots.full()
        &&& !self.teachers.full()
        &&& !self.grades.full()
        &&& !self.subjects.full()
        &&& !self.classes.full()
        &&& !self.slotted_classes.full()
        &&& !self.labs.full()
    }
}

/// The name of a teacher.
pub open spec fn teacher_name() -> spec_fn(Teacher) -> Seq<char> {
    |t: Teacher| t.name@
}

/// The name of a grade.
pub open spec fn grade_name() -> spec_fn(Grade) -> Seq<char> {
    |g: Grade| g.name@
}

/// The name of a subject.
pub open spec fn subject_name() -> spec_fn(Subject) -> Seq<char> {
    |s: Subject| s.name@
}

/// The name of a laboratory.
pub open spec fn lab_name() -> spec_fn(Laboratory) -> Seq<char> {
    |l: Laboratory| l.name@
}

impl View for School {
    type V = SchoolModel;

    open spec fn view(&self) -> SchoolModel {
        SchoolModel {
            slots: Registry { entries: self.slots@, next: self.slots.next_id() },
            teachers: Registry {
                entries: self.teachers@.map_values(teacher_name()),
                next: self.teachers.next_id(),
            },
            grades: Registry { entries: self.grades@.map_values(grade_name()), next: self.grades.next_id() },
            subjects: Registry {
                entries: self.subjects@.map_values(subject_name()),
                next: self.subjects.next_id(),
            },
            classes: Registry { entries: self.classes@, next: self.classes.next_id() },
            slotted_classes: Registry {
                entries: self.slotted_classes@,
                next: self.slotted_classes.next_id(),
            },
            labs: Registry { entries: self.labs@.map_values(lab_name()), next: self.labs.next_id() },
        }
    }
}

/// What `insert_unique` does to a table, said of what it holds.
proof fn lemma_registered<T: PartialEq, V>(
    before: Table<T>,
    after: Table<T>,
    t: T,
    key: usize,
    view: spec_fn(T) -> V,
)
    requires
        T::obeys_eq_spec(),
        forall|a: T, b: T| #[trigger] a.eq_spec(&b) == (view(a) == view(b)),
        before.next_id() < usize::MAX,
        if before.holds(&t) {
            &&& before.first_id_of(&t, key)
            &&& after@ == before@
            &&& after.next_id() == before.next_id()
        } else {
            &&& key == before.next_id()
            &&& after@ == before@.insert(key, t)
            &&& after.next_id() == before.next_id() + 1
        },
    ensures
        (Registry { entries: after@.map_values(view), next: after.next_id() }) == (Registry {
            entries: before@.map_values(view),
            next: before.next_id(),
        }).with(view(t)),
        key == (Registry { entries: before@.map_values(view), next: before.next_id() }).id_with(view(t)),
{
    let old_reg = Registry { entries: before@.map_values(view), next: before.next_id() };
    let pred = |x: T| x.eq_spec(&t);
    assert forall|k: usize| before@.contains_key(k) implies pred(#[trigger] before@[k]) == is_value(
        view(t),
    )(view(before@[k])) by {
        assert(before@[k].eq_spec(&t) == (view(before@[k]) == view(t)));
    }
    lemma_first_id_where_mapped(before@, view, pred, is_value(view(t)));
    if before.holds(&t) {
        assert forall|j: usize| j < key && before@.contains_key(j) implies !pred(#[trigger] before@[j]) by {
            assert(!before@[j].eq_spec(&t));
        }
        lemma_first_id_where(before@, pred, key);
    } else {
        assert forall|k: usize| before@.contains_key(k) implies !pred(#[trigger] before@[k]) by {
            assert(!before@[k].eq_spec(&t));
        }
        lemma_first_id_where_none(before@, pred);
        assert(after@.map_values(view) =~= old_reg.entries.insert(key, view(t)));
    }
}

impl School {
    /// A school is well formed exactly where its registries are.
    pub proof fn lemma_wf(&self)
        ensures
            self.wf() == self@.wf(),
    {
        assert(self@.teachers.entries.dom() == self.teachers@.dom());
        assert(self@.grades.entries.dom() == self.grades@.dom());
        assert(self@.subjects.entries.dom() == self.subjects@.dom());
        assert forall|k: usize| self@.teachers.entries.contains_key(k) == self.teachers@.contains_key(k) by {
            assert(self@.teachers.entries.dom().contains(k) == self.teachers@.dom().contains(k));
        }
        assert forall|k: usize| self@.grades.entries.contains_key(k) == self.grades@.contains_key(k) by {
            assert(self@.grades.entries.dom().contains(k) == self.grades@.dom().contains(k));
        }
        assert forall|k: usize| self@.subjects.entries.contains_key(k) == self.subjects@.contains_key(k) by {
            assert(self@.subjects.entries.dom().contains(k) == self.subjects@.dom().contains(k));
        }
        if self.wf() {
            assert forall|c: usize| #[trigger] self@.classes.entries.contains_key(c) implies {
                &&& self@.teachers.entries.contains_key(self@.classes.entries[c].teacher)
                &&& self@.grades.entries.contains_key(self@.classes.entries[c].grade)
                &&& self@.subjects.entries.contains_key(self@.classes.entries[c].subject)
            } by {
                assert(self.classes@.contains_key(c));
            }
            assert forall|e: usize| #[trigger] self@.slotted_classes.entries.contains_key(e) implies {
                &&& self@.slots.entries.contains_key(self@.slotted_classes.entries[e].slot)
                &&& self@.classes.entries.contains_key(self@.slotted_classes.entries[e].class)
            } by {
                assert(self.slotted_classes@.contains_key(e));
            }
        }
        if self@.wf() {
            assert forall|c: usize| #[trigger] self.classes@.contains_key(c) implies {
                &&& self.teachers@.contains_key(self.classes@[c].teacher)
                &&& self.grades@.contains_key(self.classes@[c].grade)
                &&& self.subjects@.contains_key(self.classes@[c].subject)
            } by {
                assert(self@.classes.entries.contains_key(c));
            }
            assert forall|e: usize| #[trigger] self.slotted_classes@.contains_key(e) implies {
                &&& self.slots@.contains_key(self.slotted_classes@[e].slot)
                &&& self.classes@.contains_key(self.slotted_classes@[e].class)
            } by {
                assert(self@.slotted_classes.entries.contains_key(e));
            }
        }
    }

    /// A school without an entity.
    pub fn new() -> (school: Self)
        ensures
            school@ == SchoolModel::empty(),
            school.wf(),
    {
        let school = School {
            slots: Table::new(),
            teachers: Table::new(),
            grades: Table::new(),
            subjects: Table::new(),
            classes: Table::new(),
            slotted_classes: Table::new(),
            labs: Table::new(),
        };
        assert(school@.teachers.entries =~= Map::empty());
        assert(school@.grades.entries =~= Map::empty());
        assert(school@.subjects.entries =~= Map::empty());
        assert(school@.labs.entries =~= Map::empty());
        school
    }

    /// Whether each table has an id left.
    pub fn has_room(&self) -> (r: bool)
        ensures
            r == self@.has_room(),
    {
        !self.slots.is_full() && !self.teachers.is_full() && !self.grades.is_full()
            && !self.subjects.is_full() && !self.classes.is_full() && !self.slotted_classes.is_full()
            && !self.labs.is_full()
    }
}

/// What `insert_unique` does to a table whose values are equal where they
/// are the same, said of what the table holds.
proof fn lemma_registered_plain<T: PartialEq>(before: Table<T>, after: Table<T>, t: T, key: usize)
    requires
        T::obeys_eq_spec(),
        forall|a: T, b: T| #[trigger] a.eq_spec(&b) == (a == b),
        before.next_id() < usize::MAX,
        if before.holds(&t) {
            &&& before.first_id_of(&t, key)
            &&& after@ == before@
            &&& after.next_id() == before.next_id()
        } else {
            &&& key == before.next_id()
            &&& after@ == before@.insert(key, t)
            &&& after.next_id() == before.next_id() + 1
        },
    ensures
        (Registry { entries: after@, next: after.next_id() }) == (Registry {
            entries: before@,
            next: before.next_id(),
        }).with(t),
        key == (Registry { entries: before@, next: before.next_id() }).id_with(t),
{
    let same = |x: T| x;
    lemma_registered(before, after, t, key, same);
    assert(before@.map_values(same) =~= before@);
    assert(after@.map_values(same) =~= after@);
}

impl School {
    /// The id of `slot`, which is registered where it was not.
    pub fn slot_id(&mut self, slot: Slot) -> (id: usize)
        requires
            !old(self)@.slots.full(),
        ensures
            final(self)@ == (SchoolModel { slots: old(self)@.slots.with(slot), ..old(self)@ }),
            id == old(self)@.slots.id_with(slot),
            final(self)@.slots.entries.contains_key(id),
    {
        let id = self.slots.insert_unique(slot);
        proof {
            lemma_registered_plain(old(self).slots, self.slots, slot, id);
        }
        id
    }

    /// The id of the class, which is registered where it was not.
    pub fn class_id(&mut self, class: Class) -> (id: usize)
        requires
            !old(self)@.classes.full(),
        ensures
            final(self)@ == (SchoolModel { classes: old(self)@.classes.with(class), ..old(self)@ }),
            id == old(self)@.classes.id_with(class),
            final(self)@.classes.entries.contains_key(id),
    {
        let id = self.classes.insert_unique(class);
        proof {
            lemma_registered_plain(old(self).classes, self.classes, class, id);
        }
        id
    }

    /// The id of the slotted class, which is registered where it was not.
    pub fn slotted_class_id(&mut self, edge: SlottedClass) -> (id: usize)
        requires
            !old(self)@.slotted_classes.full(),
        ensures
            final(self)@ == (SchoolModel {
                slotted_classes: old(self)@.slotted_classes.with(edge),
                ..old(self)@
            }),
            id == old(self)@.slotted_classes.id_with(edge),
            final(self)@.slotted_classes.entries.contains_key(id),
    {
        let id = self.slotted_classes.insert_unique(edge);
        proof {
            lemma_registered_plain(old(self).slotted_classes, self.slotted_classes, edge, id);
        }
        id
    }

    /// The id of the teacher called `name`, who is registered where no teacher of that name was.
    pub fn teacher_id(&mut self, name: String) -> (id: usize)
        requires
            !old(self)@.teachers.full(),
        ensures
            final(self)@ == (SchoolModel { teachers: old(self)@.teachers.with(name@), ..old(self)@ }),
            id == old(self)@.teachers.id_with(name@),
            final(self)@.teachers.entries.contains_key(id),
    {
        let teacher = Teacher { name };
        let id = self.teachers.insert_unique(teacher);
        proof {
            lemma_registered(old(self).teachers, self.teachers, teacher, id, teacher_name());
        }
        id
    }

    /// The id of a new teacher called `name`, who is registered whether or
    /// not a teacher of that name is.
    pub fn add_teacher(&mut self, name: String) -> (id: usize)
        requires
            !old(self)@.teachers.full(),
        ensures
            final(self)@ == (SchoolModel { teachers: old(self)@.teachers.add(name@), ..old(self)@ }),
            id == old(self)@.teachers.next,
            final(self)@.teachers.entries.contains_key(id),
    {
        let teacher = Teacher { name };
        let id = self.teachers.insert(teacher);
        assert(self@.teachers.entries =~= old(self)@.teachers.entries.insert(id, teacher.name@));
        id
    }

    /// The id of the grade called `name`, which is registered where no grade of that name was.
    pub fn grade_id(&mut self, name: String) -> (id: usize)
        requires
            !old(self)@.grades.full(),
        ensures
            final(self)@ == (SchoolModel { grades: old(self)@.grades.with(name@), ..old(self)@ }),
            id == old(self)@.grades.id_with(name@),
            final(self)@.grades.entries.contains_key(id),
    {
        let grade = Grade { name };
        let id = self.grades.insert_unique(grade);
        proof {
            lemma_registered(old(self).grades, self.grades, grade, id, grade_name());
        }
        id
    }

    /// The id of the subject called `name`, which is registered where no subject of that name was.
    pub fn subject_id(&mut self, name: String) -> (id: usize)
        requires
            !old(self)@.subjects.full(),
        ensures
            final(self)@ == (SchoolModel { subjects: old(self)@.subjects.with(name@), ..old(self)@ }),
            id == old(self)@.subjects.id_with(name@),
            final(self)@.subjects.entries.contains_key(id),
    {
        let subject = Subject { name };
        let id = self.subjects.insert_unique(subject);
        proof {
            lemma_registered(old(self).subjects, self.subjects, subject, id, subject_name());
        }
        id
    }

    /// The id of the laboratory called `name`, which is registered where no laboratory of that name was.
    pub fn lab_id(&mut self, name: String) -> (id: usize)
        requires
            !old(self)@.labs.full(),
        ensures
            final(self)@ == (SchoolModel { labs: old(self)@.labs.with(name@), ..old(self)@ }),
            id == old(self)@.labs.id_with(name@),
            final(self)@.labs.entries.contains_key(id),
    {
        let lab = Laboratory { name };
        let id = self.labs.insert_unique(lab);
        proof {
            lemma_registered(old(self).labs, self.labs, lab, id, lab_name());
        }
        id
    }
}

} // verus!
