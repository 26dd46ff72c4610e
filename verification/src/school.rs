//! The school's entities and the tables that hold them.
//!
//! Entities refer to one another by id. A [`School`] is well formed where
//! every id that an entity holds is in use in the table it points into.
pub mod model;
pub mod show;
pub mod time;

use crate::table::first_id_where;
use crate::table::lemma_first_id_where;
use crate::table::lemma_first_id_where_none;
use crate::table::lemma_ids_of;
use crate::table::Table;
use vstd::prelude::*;
use vstd::std_specs::cmp::PartialEqSpec;

verus! {

/// A day on which classes are held.
#[derive(Debug, Clone, Copy, PartialEq, Eq, Structural, Hash, PartialOrd, Ord)]
pub enum Day {
    Monday,
    Tuesday,
    Wednesday,
    Thursday,
    Friday,
}

/// The days of the week, in the order of the timetable's columns.
pub const DAYS: [Day; 5] = [Day::Monday, Day::Tuesday, Day::Wednesday, Day::Thursday, Day::Friday];

/// A time of day: hour and minute.
#[derive(Debug, Clone, Copy, PartialEq, Eq, Structural, Hash, PartialOrd, Ord)]
pub struct Time(pub u8, pub u8);

impl Default for Time {
    /// Midnight.
    fn default() -> (t: Self)
        ensures
            t == Time(0, 0),
    {
        Time(0, 0)
    }
}

/// One weekly period: a day and the time at which it starts.
#[derive(Debug, Clone, Copy, Eq, Hash, PartialOrd, Ord)]
pub struct Slot {
    pub day: Day,
    pub time: Time,
}

impl PartialEq for Slot {
    fn eq(&self, other: &Self) -> (r: bool) {
        self.day == other.day && self.time == other.time
    }
}

impl vstd::std_specs::cmp::PartialEqSpecImpl for Slot {
    open spec fn obeys_eq_spec() -> bool {
        true
    }

    open spec fn eq_spec(&self, other: &Self) -> bool {
        *self == *other
    }
}

/// A teacher, known by name.
#[derive(Debug, Clone, Eq, Hash)]
pub struct Teacher {
    pub name: String,
}

impl PartialEq for Teacher {
    fn eq(&self, other: &Self) -> (r: bool) {
        self.name == other.name
    }
}

impl vstd::std_specs::cmp::PartialEqSpecImpl for Teacher {
    open spec fn obeys_eq_spec() -> bool {
        true
    }

    open spec fn eq_spec(&self, other: &Self) -> bool {
        self.name@ == other.name@
    }
}

/// A grade (a group of students), known by name.
#[derive(Debug, Clone, Eq, Hash)]
pub struct Grade {
    pub name: String,
}

impl PartialEq for Grade {
    fn eq(&self, other: &Self) -> (r: bool) {
        self.name == other.name
    }
}

impl vstd::std_specs::cmp::PartialEqSpecImpl for Grade {
    open spec fn obeys_eq_spec() -> bool {
        true
    }

    open spec fn eq_spec(&self, other: &Self) -> bool {
        self.name@ == other.name@
    }
}

/// A subject, known by name.
#[derive(Debug, Clone, Eq, Hash)]
pub struct Subject {
    pub name: String,
}

impl PartialEq for Subject {
    fn eq(&self, other: &Self) -> (r: bool) {
        self.name == other.name
    }
}

impl vstd::std_specs::cmp::PartialEqSpecImpl for Subject {
    open spec fn obeys_eq_spec() -> bool {
        true
    }

    open spec fn eq_spec(&self, other: &Self) -> bool {
        self.name@ == other.name@
    }
}

/// A laboratory room, known by name.
#[derive(Debug, Clone, Eq, Hash)]
pub struct Laboratory {
    pub name: String,
}

impl PartialEq for Laboratory {
    fn eq(&self, other: &Self) -> (r: bool) {
        self.name == other.name
    }
}

impl vstd::std_specs::cmp::PartialEqSpecImpl for Laboratory {
    open spec fn obeys_eq_spec() -> bool {
        true
    }

    open spec fn eq_spec(&self, other: &Self) -> bool {
        self.name@ == other.name@
    }
}

/// A class: a teacher teaching a subject to a grade, each by its id.
#[derive(Debug, Clone, Copy, Eq, Hash)]
pub struct Class {
    pub teacher: usize,
    pub grade: usize,
    pub subject: usize,
}

impl PartialEq for Class {
    fn eq(&self, other: &Self) -> (r: bool) {
        self.teacher == other.teacher && self.grade == other.grade && self.subject == other.subject
    }
}

impl vstd::std_specs::cmp::PartialEqSpecImpl for Class {
    open spec fn obeys_eq_spec() -> bool {
        true
    }

    open spec fn eq_spec(&self, other: &Self) -> bool {
        *self == *other
    }
}

/// A class with its teacher, grade and subject in place of their ids.
#[derive(Debug, Clone, PartialEq, Eq, Hash)]
pub struct ClassRef<'a> {
    pub teacher: &'a Teacher,
    pub grade: &'a Grade,
    pub subject: &'a Subject,
}

/// A class at one of the slots it occupies in the timetable, both by id.
#[derive(Debug, Clone, Copy, Eq, Hash)]
pub struct SlottedClass {
    pub slot: usize,
    pub class: usize,
}

impl PartialEq for SlottedClass {
    fn eq(&self, other: &Self) -> (r: bool) {
        self.slot == other.slot && self.class == other.class
    }
}

impl vstd::std_specs::cmp::PartialEqSpecImpl for SlottedClass {
    open spec fn obeys_eq_spec() -> bool {
        true
    }

    open spec fn eq_spec(&self, other: &Self) -> bool {
        *self == *other
    }
}

/// A slotted class with the slot and the class in place of their ids.
#[derive(Debug, Clone, PartialEq, Eq, Hash)]
pub struct SlottedClassRef<'a> {
    pub slot: &'a Slot,
    pub class: ClassRef<'a>,
}

/// The timetable of a school and its laboratories.
#[derive(Debug, Clone, PartialEq, Eq)]
pub struct School {
    pub slots: Table<Slot>,
    pub teachers: Table<Teacher>,
    pub grades: Table<Grade>,
    pub subjects: Table<Subject>,
    pub classes: Table<Class>,
    pub slotted_classes: Table<SlottedClass>,
    pub labs: Table<Laboratory>,
}

/// The slots of those of the edges `ids` that belong to `class`, in the order of `ids`.
pub open spec fn slots_among(edges: Map<usize, SlottedClass>, ids: Seq<usize>, class: usize) -> Seq<
    usize,
>
    decreases ids.len(),
{
    if ids.len() == 0 {
        Seq::empty()
    } else {
        let rest = slots_among(edges, ids.drop_last(), class);
        if edges[ids.last()].class == class {
            rest.push(edges[ids.last()].slot)
        } else {
            rest
        }
    }
}

/// A slot is among `slots_among` exactly where one of the edges joins it to the class.
pub proof fn lemma_slots_among(edges: Map<usize, SlottedClass>, ids: Seq<usize>, class: usize, slot: usize)
    ensures
        slots_among(edges, ids, class).contains(slot) <==> exists|i: int|
            0 <= i < ids.len() && (#[trigger] edges[ids[i]]).class == class && edges[ids[i]].slot
                == slot,
    decreases ids.len(),
{
    if ids.len() > 0 {
        let rest = slots_among(edges, ids.drop_last(), class);
        let all = slots_among(edges, ids, class);
        lemma_slots_among(edges, ids.drop_last(), class, slot);
        let last = edges[ids.last()];
        if all.contains(slot) {
            let j = choose|j: int| 0 <= j < all.len() && all[j] == slot;
            if j < rest.len() {
                assert(rest[j] == slot);
                assert(rest.contains(slot));
                let i = choose|i: int|
                    0 <= i < ids.drop_last().len() && (#[trigger] edges[ids.drop_last()[i]]).class
                        == class && edges[ids.drop_last()[i]].slot == slot;
                assert(edges[ids[i]].class == class && edges[ids[i]].slot == slot);
            } else {
                assert(edges[ids[ids.len() - 1]].class == class);
            }
        }
        if exists|i: int|
            0 <= i < ids.len() && (#[trigger] edges[ids[i]]).class == class && edges[ids[i]].slot
                == slot {
            let i = choose|i: int|
                0 <= i < ids.len() && (#[trigger] edges[ids[i]]).class == class && edges[ids[i]].slot
                    == slot;
            if i < ids.len() - 1 {
                assert(edges[ids.drop_last()[i]].class == class);
                assert(rest.contains(slot));
                let j = choose|j: int| 0 <= j < rest.len() && rest[j] == slot;
                assert(all[j] == slot);
            } else {
                assert(all[all.len() - 1] == slot);
            }
        }
    }
}

/// The test for the teacher called `name`.
pub open spec fn called_teacher(name: Seq<char>) -> spec_fn(Teacher) -> bool {
    |t: Teacher| t.name@ == name
}

/// The test for the grade called `name`.
pub open spec fn called_grade(name: Seq<char>) -> spec_fn(Grade) -> bool {
    |g: Grade| g.name@ == name
}

/// The test for the subject called `name`.
pub open spec fn called_subject(name: Seq<char>) -> spec_fn(Subject) -> bool {
    |s: Subject| s.name@ == name
}

/// The test for the laboratory called `name`.
pub open spec fn called_lab(name: Seq<char>) -> spec_fn(Laboratory) -> bool {
    |l: Laboratory| l.name@ == name
}

/// The test for the class `class`.
pub open spec fn is_class(class: Class) -> spec_fn(Class) -> bool {
    |c: Class| c == class
}

impl School {
    /// No entity holds an id that is not in use.
    pub open spec fn wf(&self) -> bool {
        &&& forall|c: usize| #[trigger]
            self.classes@.contains_key(c) ==> {
                &&& self.teachers@.contains_key(self.classes@[c].teacher)
                &&& self.grades@.contains_key(self.classes@[c].grade)
                &&& self.subjects@.contains_key(self.classes@[c].subject)
            }
        &&& forall|e: usize| #[trigger]
            self.slotted_classes@.contains_key(e) ==> {
                &&& self.slots@.contains_key(self.slotted_classes@[e].slot)
                &&& self.classes@.contains_key(self.slotted_classes@[e].class)
            }
    }

    /// The slots at which `class` occurs in the timetable, in the order of
    /// the edges that say so. A slot occurs once for each such edge.
    pub open spec fn slots_of_spec(&self, class: usize) -> Seq<usize> {
        slots_among(self.slotted_classes@, self.slotted_classes.ids(), class)
    }

    /// The class under `c` with its teacher, grade and subject.
    pub open spec fn class_ref(&self, c: usize) -> ClassRef<'_> {
        ClassRef {
            teacher: &self.teachers@[self.classes@[c].teacher],
            grade: &self.grades@[self.classes@[c].grade],
            subject: &self.subjects@[self.classes@[c].subject],
        }
    }

    /// The id of the first teacher called `name`.
    pub open spec fn teacher_named(&self, name: Seq<char>) -> Option<usize> {
        first_id_where(self.teachers@, called_teacher(name))
    }

    /// The id of the first grade called `name`.
    pub open spec fn grade_named(&self, name: Seq<char>) -> Option<usize> {
        first_id_where(self.grades@, called_grade(name))
    }

    /// The id of the first subject called `name`.
    pub open spec fn subject_named(&self, name: Seq<char>) -> Option<usize> {
        first_id_where(self.subjects@, called_subject(name))
    }

    /// The id of the first laboratory called `name`.
    pub open spec fn lab_named(&self, name: Seq<char>) -> Option<usize> {
        first_id_where(self.labs@, called_lab(name))
    }

    /// The id of the first class of that teacher, grade and subject.
    pub open spec fn class_of(&self, teacher: usize, grade: usize, subject: usize) -> Option<usize> {
        first_id_where(self.classes@, is_class(Class { teacher, grade, subject }))
    }

    /// The id of the first teacher called `name`, if there is one.
    pub fn find_teacher(&self, name: &String) -> (r: Option<usize>)
        ensures
            r == self.teacher_named(name@),
    {
        let needle = Teacher { name: name.clone() };
        let r = self.teachers.find_key(&needle);
        proof {
            let pred = called_teacher(name@);
            match r {
                Some(k) => {
                    assert forall|j: usize| j < k && self.teachers@.contains_key(j) implies !pred(
                        #[trigger] self.teachers@[j],
                    ) by {
                        assert(!self.teachers@[j].eq_spec(&needle));
                    }
                    lemma_first_id_where(self.teachers@, pred, k);
                },
                None => {
                    assert forall|k: usize| self.teachers@.contains_key(k) implies !pred(
                        #[trigger] self.teachers@[k],
                    ) by {
                        assert(!self.teachers@[k].eq_spec(&needle));
                    }
                    lemma_first_id_where_none(self.teachers@, pred);
                },
            }
        }
        r
    }

    /// The id of the first grade called `name`, if there is one.
    pub fn find_grade(&self, name: &String) -> (r: Option<usize>)
        ensures
            r == self.grade_named(name@),
    {
        let needle = Grade { name: name.clone() };
        let r = self.grades.find_key(&needle);
        proof {
            let pred = called_grade(name@);
            match r {
                Some(k) => {
                    assert forall|j: usize| j < k && self.grades@.contains_key(j) implies !pred(
                        #[trigger] self.grades@[j],
                    ) by {
                        assert(!self.grades@[j].eq_spec(&needle));
                    }
                    lemma_first_id_where(self.grades@, pred, k);
                },
                None => {
                    assert forall|k: usize| self.grades@.contains_key(k) implies !pred(
                        #[trigger] self.grades@[k],
                    ) by {
                        assert(!self.grades@[k].eq_spec(&needle));
                    }
                    lemma_first_id_where_none(self.grades@, pred);
                },
            }
        }
        r
    }

    /// The id of the first subject called `name`, if there is one.
    pub fn find_subject(&self, name: &String) -> (r: Option<usize>)
        ensures
            r == self.subject_named(name@),
    {
        let needle = Subject { name: name.clone() };
        let r = self.subjects.find_key(&needle);
        proof {
            let pred = called_subject(name@);
            match r {
                Some(k) => {
                    assert forall|j: usize| j < k && self.subjects@.contains_key(j) implies !pred(
                        #[trigger] self.subjects@[j],
                    ) by {
                        assert(!self.subjects@[j].eq_spec(&needle));
                    }
                    lemma_first_id_where(self.subjects@, pred, k);
                },
                None => {
                    assert forall|k: usize| self.subjects@.contains_key(k) implies !pred(
                        #[trigger] self.subjects@[k],
                    ) by {
                        assert(!self.subjects@[k].eq_spec(&needle));
                    }
                    lemma_first_id_where_none(self.subjects@, pred);
                },
            }
        }
        r
    }

    /// The id of the first laboratory called `name`, if there is one.
    pub fn find_lab(&self, name: &String) -> (r: Option<usize>)
        ensures
            r == self.lab_named(name@),
    {
        let needle = Laboratory { name: name.clone() };
        let r = self.labs.find_key(&needle);
        proof {
            let pred = called_lab(name@);
            match r {
                Some(k) => {
                    assert forall|j: usize| j < k && self.labs@.contains_key(j) implies !pred(
                        #[trigger] self.labs@[j],
                    ) by {
                        assert(!self.labs@[j].eq_spec(&needle));
                    }
                    lemma_first_id_where(self.labs@, pred, k);
                },
                None => {
                    assert forall|k: usize| self.labs@.contains_key(k) implies !pred(
                        #[trigger] self.labs@[k],
                    ) by {
                        assert(!self.labs@[k].eq_spec(&needle));
                    }
                    lemma_first_id_where_none(self.labs@, pred);
                },
            }
        }
        r
    }

    /// The id of the first class of that teacher, grade and subject, if there is one.
    pub fn find_class(&self, teacher: usize, grade: usize, subject: usize) -> (r: Option<usize>)
        ensures
            r == self.class_of(teacher, grade, subject),
    {
        let needle = Class { teacher, grade, subject };
        let r = self.classes.find_key(&needle);
        proof {
            let pred = is_class(needle);
            match r {
                Some(k) => {
                    assert forall|j: usize| j < k && self.classes@.contains_key(j) implies !pred(
                        #[trigger] self.classes@[j],
                    ) by {
                        assert(!self.classes@[j].eq_spec(&needle));
                    }
                    lemma_first_id_where(self.classes@, pred, k);
                },
                None => {
                    assert forall|k: usize| self.classes@.contains_key(k) implies !pred(
                        #[trigger] self.classes@[k],
                    ) by {
                        assert(!self.classes@[k].eq_spec(&needle));
                    }
                    lemma_first_id_where_none(self.classes@, pred);
                },
            }
        }
        r
    }

    /// The slots at which `class` occurs in the timetable.
    pub fn slots_of(&self, class: usize) -> (r: Vec<usize>)
        ensures
            r@ == self.slots_of_spec(class),
    {
        let edges = self.slotted_classes.values();
        let mut out: Vec<usize> = Vec::new();
        let ghost ids = self.slotted_classes.ids();
        proof {
            assert(ids.take(0) == Seq::<usize>::empty());
        }
        for i in 0..edges.len()
            invariant
                ids == self.slotted_classes.ids(),
                edges@.len() == ids.len(),
                forall|j: int|
                    0 <= j < edges@.len() ==> *(#[trigger] edges@[j]) == self.slotted_classes@[ids[j]],
                out@ == slots_among(self.slotted_classes@, ids.take(i as int), class),
        {
            proof {
                assert(ids.take(i + 1).drop_last() == ids.take(i as int));
            }
            let edge = edges[i];
            if edge.class == class {
                out.push(edge.slot);
            }
        }
        proof {
            assert(ids.take(ids.len() as int) == ids);
        }
        out
    }
}

/// A kind of entity that a school holds: the table it is stored in, and
/// what an entry of that table looks like with the entities it refers to
/// in place of their ids.
pub trait Store<'a, T> {
    /// What the table holds.
    type Inner;

    /// The table of this kind of entity.
    spec fn table_spec(&self) -> &Table<Self::Inner>;

    /// Every id that `item` holds is in use.
    spec fn linked(&self, item: &Self::Inner) -> bool;

    /// `item` with the entities it refers to.
    spec fn flattened(&'a self, item: &'a Self::Inner) -> T;

    fn table(&self) -> (t: &Table<Self::Inner>)
        ensures
            t == self.table_spec(),
    ;

    fn flatten(&'a self, item: &'a Self::Inner) -> (r: T)
        requires
            self.linked(item),
        ensures
            r == self.flattened(item),
    ;
}

impl<'a> Store<'a, &'a Slot> for School {
    type Inner = Slot;

    open spec fn table_spec(&self) -> &Table<Slot> {
        &self.slots
    }

    open spec fn linked(&self, item: &Slot) -> bool {
        true
    }

    open spec fn flattened(&'a self, item: &'a Slot) -> &'a Slot {
        item
    }

    fn table(&self) -> (t: &Table<Slot>) {
        &self.slots
    }

    fn flatten(&'a self, item: &'a Slot) -> (r: &'a Slot) {
        item
    }
}

impl<'a> Store<'a, &'a Teacher> for School {
    type Inner = Teacher;

    open spec fn table_spec(&self) -> &Table<Teacher> {
        &self.teachers
    }

    open spec fn linked(&self, item: &Teacher) -> bool {
        true
    }

    open spec fn flattened(&'a self, item: &'a Teacher) -> &'a Teacher {
        item
    }

    fn table(&self) -> (t: &Table<Teacher>) {
        &self.teachers
    }

    fn flatten(&'a self, item: &'a Teacher) -> (r: &'a Teacher) {
        item
    }
}

impl<'a> Store<'a, &'a Grade> for School {
    type Inner = Grade;

    open spec fn table_spec(&self) -> &Table<Grade> {
        &self.grades
    }

    open spec fn linked(&self, item: &Grade) -> bool {
        true
    }

    open spec fn flattened(&'a self, item: &'a Grade) -> &'a Grade {
        item
    }

    fn table(&self) -> (t: &Table<Grade>) {
        &self.grades
    }

    fn flatten(&'a self, item: &'a Grade) -> (r: &'a Grade) {
        item
    }
}

impl<'a> Store<'a, &'a Subject> for School {
    type Inner = Subject;

    open spec fn table_spec(&self) -> &Table<Subject> {
        &self.subjects
    }

    open spec fn linked(&self, item: &Subject) -> bool {
        true
    }

    open spec fn flattened(&'a self, item: &'a Subject) -> &'a Subject {
        item
    }

    fn table(&self) -> (t: &Table<Subject>) {
        &self.subjects
    }

    fn flatten(&'a self, item: &'a Subject) -> (r: &'a Subject) {
        item
    }
}

impl<'a> Store<'a, &'a Laboratory> for School {
    type Inner = Laboratory;

    open spec fn table_spec(&self) -> &Table<Laboratory> {
        &self.labs
    }

    open spec fn linked(&self, item: &Laboratory) -> bool {
        true
    }

    open spec fn flattened(&'a self, item: &'a Laboratory) -> &'a Laboratory {
        item
    }

    fn table(&self) -> (t: &Table<Laboratory>) {
        &self.labs
    }

    fn flatten(&'a self, item: &'a Laboratory) -> (r: &'a Laboratory) {
        item
    }
}

impl<'a> Store<'a, ClassRef<'a>> for School {
    type Inner = Class;

    open spec fn table_spec(&self) -> &Table<Class> {
        &self.classes
    }

    open spec fn linked(&self, item: &Class) -> bool {
        &&& self.teachers@.contains_key(item.teacher)
        &&& self.grades@.contains_key(item.grade)
        &&& self.subjects@.contains_key(item.subject)
    }

    open spec fn flattened(&'a self, item: &'a Class) -> ClassRef<'a> {
        ClassRef {
            teacher: &self.teachers@[item.teacher],
            grade: &self.grades@[item.grade],
            subject: &self.subjects@[item.subject],
        }
    }

    fn table(&self) -> (t: &Table<Class>) {
        &self.classes
    }

    fn flatten(&'a self, item: &'a Class) -> (r: ClassRef<'a>) {
        match (
            self.teachers.get(item.teacher),
            self.grades.get(item.grade),
            self.subjects.get(item.subject),
        ) {
            (Some(teacher), Some(grade), Some(subject)) => ClassRef { teacher, grade, subject },
            _ => vstd::pervasive::unreached(),
        }
    }
}

impl<'a> Store<'a, SlottedClassRef<'a>> for School {
    type Inner = SlottedClass;

    open spec fn table_spec(&self) -> &Table<SlottedClass> {
        &self.slotted_classes
    }

    open spec fn linked(&self, item: &SlottedClass) -> bool {
        &&& self.slots@.contains_key(item.slot)
        &&& self.classes@.contains_key(item.class)
        &&& self.teachers@.contains_key(self.classes@[item.class].teacher)
        &&& self.grades@.contains_key(self.classes@[item.class].grade)
        &&& self.subjects@.contains_key(self.classes@[item.class].subject)
    }

    open spec fn flattened(&'a self, item: &'a SlottedClass) -> SlottedClassRef<'a> {
        SlottedClassRef { slot: &self.slots@[item.slot], class: self.class_ref(item.class) }
    }

    fn table(&self) -> (t: &Table<SlottedClass>) {
        &self.slotted_classes
    }

    fn flatten(&'a self, item: &'a SlottedClass) -> (r: SlottedClassRef<'a>) {
        match (self.slots.get(item.slot), self.classes.get(item.class)) {
            (Some(slot), Some(class)) => match (
                self.teachers.get(class.teacher),
                self.grades.get(class.grade),
                self.subjects.get(class.subject),
            ) {
                (Some(teacher), Some(grade), Some(subject)) => SlottedClassRef {
                    slot,
                    class: ClassRef { teacher, grade, subject },
                },
                _ => vstd::pervasive::unreached(),
            },
            _ => vstd::pervasive::unreached(),
        }
    }
}

impl School {
    /// The entity under `id`, of the kind that the type asked for says.
    pub fn get<'a, T: 'a>(&'a self, id: usize) -> (r: T) where Self: Store<'a, T>
        requires
            self.table_spec()@.contains_key(id),
            self.linked(&self.table_spec()@[id]),
        ensures
            r == self.flattened(&self.table_spec()@[id]),
    {
        match self.table().get(id) {
            Some(item) => self.flatten(item),
            None => vstd::pervasive::unreached(),
        }
    }

    /// The entities of the kind that the type asked for says, in the order of their ids.
    pub fn iter<'a, T: 'a>(&'a self) -> (r: Vec<T>) where Self: Store<'a, T>
        requires
            forall|id: usize| #[trigger]
                self.table_spec()@.contains_key(id) ==> self.linked(&self.table_spec()@[id]),
        ensures
            r@.len() == self.table_spec().ids().len(),
            forall|i: int|
                0 <= i < r@.len() ==> #[trigger] r@[i] == self.flattened(
                    &self.table_spec()@[self.table_spec().ids()[i]],
                ),
    {
        let table = self.table();
        let items = table.values();
        let mut out: Vec<T> = Vec::new();
        proof {
            lemma_ids_of(table@.dom());
        }
        for i in 0..items.len()
            invariant
                table == self.table_spec(),
                items@.len() == table.ids().len(),
                forall|k: usize| #[trigger] table.ids().contains(k) <==> table@.contains_key(k),
                forall|id: usize| #[trigger] table@.contains_key(id) ==> self.linked(&table@[id]),
                forall|j: int| 0 <= j < items@.len() ==> *(#[trigger] items@[j]) == table@[table.ids()[j]],
                out@.len() == i,
                forall|j: int|
                    0 <= j < out@.len() ==> #[trigger] out@[j] == self.flattened(
                        &table@[table.ids()[j]],
                    ),
        {
            assert(table.ids().contains(table.ids()[i as int]));
            out.push(self.flatten(items[i]));
        }
        out
    }

    /// The slots, in the order of their ids.
    pub fn slots(&self) -> (r: Vec<&Slot>)
        ensures
            r@.len() == self.slots.ids().len(),
            forall|i: int| 0 <= i < r@.len() ==> *(#[trigger] r@[i]) == self.slots@[self.slots.ids()[i]],
    {
        self.iter()
    }

    /// The teachers, in the order of their ids.
    pub fn teachers(&self) -> (r: Vec<&Teacher>)
        ensures
            r@.len() == self.teachers.ids().len(),
            forall|i: int|
                0 <= i < r@.len() ==> *(#[trigger] r@[i]) == self.teachers@[self.teachers.ids()[i]],
    {
        self.iter()
    }

    /// The grades, in the order of their ids.
    pub fn grades(&self) -> (r: Vec<&Grade>)
        ensures
            r@.len() == self.grades.ids().len(),
            forall|i: int| 0 <= i < r@.len() ==> *(#[trigger] r@[i]) == self.grades@[self.grades.ids()[i]],
    {
        self.iter()
    }

    /// The subjects, in the order of their ids.
    pub fn subjects(&self) -> (r: Vec<&Subject>)
        ensures
            r@.len() == self.subjects.ids().len(),
            forall|i: int|
                0 <= i < r@.len() ==> *(#[trigger] r@[i]) == self.subjects@[self.subjects.ids()[i]],
    {
        self.iter()
    }

    /// The laboratories, in the order of their ids.
    pub fn labs(&self) -> (r: Vec<&Laboratory>)
        ensures
            r@.len() == self.labs.ids().len(),
            forall|i: int| 0 <= i < r@.len() ==> *(#[trigger] r@[i]) == self.labs@[self.labs.ids()[i]],
    {
        self.iter()
    }

    /// The classes with their teachers, grades and subjects, in the order of their ids.
    pub fn classes(&self) -> (r: Vec<ClassRef<'_>>)
        requires
            self.wf(),
        ensures
            r@.len() == self.classes.ids().len(),
            forall|i: int| 0 <= i < r@.len() ==> #[trigger] r@[i] == self.class_ref(self.classes.ids()[i]),
    {
        self.iter()
    }

    /// The slotted classes with their slots and classes, in the order of their ids.
    pub fn slotted_classes(&self) -> (r: Vec<SlottedClassRef<'_>>)
        requires
            self.wf(),
        ensures
            r@.len() == self.slotted_classes.ids().len(),
            forall|i: int|
                0 <= i < r@.len() ==> #[trigger] r@[i] == (SlottedClassRef {
                    slot: &self.slots@[self.slotted_classes@[self.slotted_classes.ids()[i]].slot],
                    class: self.class_ref(self.slotted_classes@[self.slotted_classes.ids()[i]].class),
                }),
    {
        self.iter()
    }
}

/// Whether `x` is one of `v`.
fn among(v: &Vec<usize>, x: usize) -> (r: bool)
    ensures
        r == v@.contains(x),
{
    for i in 0..v.len()
        invariant
            forall|j: int| 0 <= j < i ==> v@[j] != x,
    {
        if v[i] == x {
            return true;
        }
    }
    false
}

impl School {
    /// Keeps the classes for which `predicate` answers `true`. The others
    /// are removed, and with each of them the slotted classes that refer to it.
    pub fn retain_classes<F: Fn(ClassRef) -> bool>(&mut self, predicate: F)
        requires
            old(self).wf(),
            forall|c: usize| #[trigger]
                old(self).classes@.contains_key(c) ==> call_requires(predicate, (old(self).class_ref(c),)),
        ensures
            final(self).wf(),
            final(self).slots == old(self).slots,
            final(self).teachers == old(self).teachers,
            final(self).grades == old(self).grades,
            final(self).subjects == old(self).subjects,
            final(self).labs == old(self).labs,
            final(self).classes.next_id() == old(self).classes.next_id(),
            final(self).slotted_classes.next_id() == old(self).slotted_classes.next_id(),
            forall|c: usize| #[trigger]
                final(self).classes@.contains_key(c) ==> old(self).classes@.contains_key(c) && final(self).classes@[c] == old(self).classes@[c] && call_ensures(
                    predicate,
                    (old(self).class_ref(c),),
                    true,
                ),
            forall|c: usize|
                old(self).classes@.contains_key(c) && !(#[trigger] final(self).classes@.contains_key(c))
                    ==> call_ensures(predicate, (old(self).class_ref(c),), false),
            forall|e: usize| #[trigger]
                final(self).slotted_classes@.contains_key(e) <==> old(self).slotted_classes@.contains_key(e)
                    && final(self).classes@.contains_key(old(self).slotted_classes@[e].class),
            forall|e: usize| #[trigger]
                final(self).slotted_classes@.contains_key(e) ==> final(self).slotted_classes@[e] == old(self).slotted_classes@[e],
    {
        let keys = self.classes.keys();
        let mut doomed: Vec<usize> = Vec::new();
        proof {
            lemma_ids_of(self.classes@.dom());
        }
        for i in 0..keys.len()
            invariant
                self == old(self),
                self.wf(),
                keys@ == self.classes.ids(),
                forall|k: usize| #[trigger] keys@.contains(k) <==> self.classes@.contains_key(k),
                forall|c: usize| #[trigger]
                    self.classes@.contains_key(c) ==> call_requires(predicate, (self.class_ref(c),)),
                forall|c: usize| #[trigger]
                    doomed@.contains(c) ==> self.classes@.contains_key(c) && call_ensures(
                        predicate,
                        (self.class_ref(c),),
                        false,
                    ),
                forall|j: int|
                    0 <= j < i && !doomed@.contains(#[trigger] keys@[j]) ==> call_ensures(
                        predicate,
                        (self.class_ref(keys@[j]),),
                        true,
                    ),
        {
            let c = keys[i];
            assert(keys@.contains(keys@[i as int]));
            let class: ClassRef = self.get(c);
            let ghost before = doomed@;
            if !predicate(class) {
                doomed.push(c);
                assert forall|d: usize| #[trigger] doomed@.contains(d) implies self.classes@.contains_key(
                    d,
                ) && call_ensures(predicate, (self.class_ref(d),), false) by {
                    let n = choose|n: int| 0 <= n < doomed@.len() && doomed@[n] == d;
                    if n < before.len() {
                        assert(before[n] == d);
                        assert(before.contains(d));
                    }
                }
                assert forall|j: int| 0 <= j < i + 1 && !doomed@.contains(#[trigger] keys@[j]) implies call_ensures(
                    predicate,
                    (self.class_ref(keys@[j]),),
                    true,
                ) by {
                    if j == i {
                        assert(doomed@[before.len() as int] == c);
                    } else {
                        if before.contains(keys@[j]) {
                            let n = choose|n: int| 0 <= n < before.len() && before[n] == keys@[j];
                            assert(doomed@[n] == keys@[j]);
                        }
                    }
                }
            }
        }
        let keep_class = |k: &usize, v: &Class| -> (b: bool)
            ensures
                b == !doomed@.contains(*k),
            { !among(&doomed, *k) };
        self.classes.retain(keep_class);
        let keep_edge = |k: &usize, v: &SlottedClass| -> (b: bool)
            ensures
                b == !doomed@.contains(v.class),
            { !among(&doomed, v.class) };
        self.slotted_classes.retain(keep_edge);
        proof {
            assert forall|c: usize| #[trigger] self.classes@.contains_key(c) implies call_ensures(
                predicate,
                (old(self).class_ref(c),),
                true,
            ) by {
                assert(!doomed@.contains(c));
                assert(keys@.contains(c));
                let j = choose|j: int| 0 <= j < keys@.len() && keys@[j] == c;
                assert(!doomed@.contains(keys@[j]));
            }
            assert forall|e: usize| #[trigger]
                self.slotted_classes@.contains_key(e) <==> old(self).slotted_classes@.contains_key(e)
                    && self.classes@.contains_key(old(self).slotted_classes@[e].class) by {
                if old(self).slotted_classes@.contains_key(e) {
                    let c = old(self).slotted_classes@[e].class;
                    assert(old(self).classes@.contains_key(c));
                }
            }
        }
    }

    /// Keeps the slots for which `predicate` answers `true`. The others are
    /// removed, and with each of them the slotted classes that refer to it.
    pub fn retain_slots<F: Fn(Slot) -> bool>(&mut self, predicate: F)
        requires
            forall|s: usize| #[trigger]
                old(self).slots@.contains_key(s) ==> call_requires(predicate, (old(self).slots@[s],)),
        ensures
            old(self).wf() ==> final(self).wf(),
            final(self).classes == old(self).classes,
            final(self).teachers == old(self).teachers,
            final(self).grades == old(self).grades,
            final(self).subjects == old(self).subjects,
            final(self).labs == old(self).labs,
            final(self).slots.next_id() == old(self).slots.next_id(),
            final(self).slotted_classes.next_id() == old(self).slotted_classes.next_id(),
            forall|s: usize| #[trigger]
                final(self).slots@.contains_key(s) ==> old(self).slots@.contains_key(s) && final(self).slots@[s] == old(self).slots@[s] && call_ensures(predicate, (old(self).slots@[s],), true),
            forall|s: usize|
                old(self).slots@.contains_key(s) && !(#[trigger] final(self).slots@.contains_key(s))
                    ==> call_ensures(predicate, (old(self).slots@[s],), false),
            forall|e: usize| #[trigger]
                final(self).slotted_classes@.contains_key(e) <==> old(self).slotted_classes@.contains_key(e)
                    && !(old(self).slots@.contains_key(old(self).slotted_classes@[e].slot) && !final(self).slots@.contains_key(old(self).slotted_classes@[e].slot)),
            forall|e: usize| #[trigger]
                final(self).slotted_classes@.contains_key(e) ==> final(self).slotted_classes@[e] == old(self).slotted_classes@[e],
    {
        let entries = self.slots.iter();
        let mut doomed: Vec<usize> = Vec::new();
        let ghost ids = self.slots.ids();
        proof {
            lemma_ids_of(self.slots@.dom());
        }
        for i in 0..entries.len()
            invariant
                self == old(self),
                ids == self.slots.ids(),
                entries@.len() == ids.len(),
                forall|j: int|
                    0 <= j < entries@.len() ==> (#[trigger] entries@[j]).0 == ids[j] && *entries@[j].1
                        == self.slots@[ids[j]],
                forall|k: usize| #[trigger] ids.contains(k) <==> self.slots@.contains_key(k),
                forall|s: usize| #[trigger]
                    self.slots@.contains_key(s) ==> call_requires(predicate, (self.slots@[s],)),
                forall|s: usize| #[trigger]
                    doomed@.contains(s) ==> self.slots@.contains_key(s) && call_ensures(
                        predicate,
                        (self.slots@[s],),
                        false,
                    ),
                forall|j: int|
                    0 <= j < i && !doomed@.contains(#[trigger] ids[j]) ==> call_ensures(
                        predicate,
                        (self.slots@[ids[j]],),
                        true,
                    ),
        {
            let (s, slot) = entries[i];
            assert(ids.contains(ids[i as int]));
            let ghost before = doomed@;
            if !predicate(*slot) {
                doomed.push(s);
                assert forall|d: usize| #[trigger] doomed@.contains(d) implies self.slots@.contains_key(d)
                    && call_ensures(predicate, (self.slots@[d],), false) by {
                    let n = choose|n: int| 0 <= n < doomed@.len() && doomed@[n] == d;
                    if n < before.len() {
                        assert(before[n] == d);
                        assert(before.contains(d));
                    }
                }
                assert forall|j: int| 0 <= j < i + 1 && !doomed@.contains(#[trigger] ids[j]) implies call_ensures(
                    predicate,
                    (self.slots@[ids[j]],),
                    true,
                ) by {
                    if j == i {
                        assert(doomed@[before.len() as int] == s);
                    } else {
                        if before.contains(ids[j]) {
                            let n = choose|n: int| 0 <= n < before.len() && before[n] == ids[j];
                            assert(doomed@[n] == ids[j]);
                        }
                    }
                }
            }
        }
        let keep_slot = |k: &usize, v: &Slot| -> (b: bool)
            ensures
                b == !doomed@.contains(*k),
            { !among(&doomed, *k) };
        self.slots.retain(keep_slot);
        let keep_edge = |k: &usize, v: &SlottedClass| -> (b: bool)
            ensures
                b == !doomed@.contains(v.slot),
            { !among(&doomed, v.slot) };
        self.slotted_classes.retain(keep_edge);
        proof {
            assert forall|s: usize| #[trigger] self.slots@.contains_key(s) implies call_ensures(
                predicate,
                (old(self).slots@[s],),
                true,
            ) by {
                assert(!doomed@.contains(s));
                assert(ids.contains(s));
                let j = choose|j: int| 0 <= j < ids.len() && ids[j] == s;
                assert(!doomed@.contains(ids[j]));
            }
        }
    }
}

impl School {
    /// Whether no entity holds an id that is not in use.
    pub fn is_wf(&self) -> (r: bool)
        ensures
            r == self.wf(),
    {
        let classes = self.classes.iter();
        proof {
            lemma_ids_of(self.classes@.dom());
            lemma_ids_of(self.slotted_classes@.dom());
        }
        for i in 0..classes.len()
            invariant
                classes@.len() == self.classes.ids().len(),
                forall|k: usize| #[trigger] self.classes.ids().contains(k) <==> self.classes@.contains_key(k),
                forall|j: int|
                    0 <= j < classes@.len() ==> (#[trigger] classes@[j]).0 == self.classes.ids()[j]
                        && *classes@[j].1 == self.classes@[self.classes.ids()[j]],
                forall|j: int|
                    0 <= j < i ==> {
                        let c = #[trigger] self.classes@[self.classes.ids()[j]];
                        &&& self.teachers@.contains_key(c.teacher)
                        &&& self.grades@.contains_key(c.grade)
                        &&& self.subjects@.contains_key(c.subject)
                    },
        {
            let class = classes[i].1;
            assert(self.classes.ids().contains(self.classes.ids()[i as int]));
            if self.teachers.get(class.teacher).is_none() || self.grades.get(class.grade).is_none()
                || self.subjects.get(class.subject).is_none() {
                return false;
            }
        }
        let edges = self.slotted_classes.iter();
        for i in 0..edges.len()
            invariant
                edges@.len() == self.slotted_classes.ids().len(),
                forall|k: usize| #[trigger]
                    self.slotted_classes.ids().contains(k) <==> self.slotted_classes@.contains_key(k),
                forall|j: int|
                    0 <= j < edges@.len() ==> (#[trigger] edges@[j]).0 == self.slotted_classes.ids()[j]
                        && *edges@[j].1 == self.slotted_classes@[self.slotted_classes.ids()[j]],
                forall|j: int|
                    0 <= j < i ==> {
                        let e = #[trigger] self.slotted_classes@[self.slotted_classes.ids()[j]];
                        &&& self.slots@.contains_key(e.slot)
                        &&& self.classes@.contains_key(e.class)
                    },
        {
            let edge = edges[i].1;
            assert(self.slotted_classes.ids().contains(self.slotted_classes.ids()[i as int]));
            if self.slots.get(edge.slot).is_none() || self.classes.get(edge.class).is_none() {
                return false;
            }
        }
        proof {
            assert forall|c: usize| #[trigger] self.classes@.contains_key(c) implies {
                &&& self.teachers@.contains_key(self.classes@[c].teacher)
                &&& self.grades@.contains_key(self.classes@[c].grade)
                &&& self.subjects@.contains_key(self.classes@[c].subject)
            } by {
                assert(self.classes.ids().contains(c));
                let j = choose|j: int| 0 <= j < self.classes.ids().len() && self.classes.ids()[j] == c;
                assert(self.teachers@.contains_key(self.classes@[self.classes.ids()[j]].teacher));
            }
            assert forall|e: usize| #[trigger] self.slotted_classes@.contains_key(e) implies {
                &&& self.slots@.contains_key(self.slotted_classes@[e].slot)
                &&& self.classes@.contains_key(self.slotted_classes@[e].class)
            } by {
                assert(self.slotted_classes.ids().contains(e));
                let j = choose|j: int|
                    0 <= j < self.slotted_classes.ids().len() && self.slotted_classes.ids()[j] == e;
                assert(self.slots@.contains_key(self.slotted_classes@[self.slotted_classes.ids()[j]].slot));
            }
        }
        true
    }
}

} // verus!
