//! The entities of a school as text.
use crate::school::ClassRef;
use crate::school::Day;
use crate::school::Grade;
use crate::school::Laboratory;
use crate::school::Slot;
use crate::school::SlottedClassRef;
use crate::school::Subject;
use crate::school::Teacher;
use vstd::prelude::*;
use vstd::string::StringExecFns;

verus! {

impl Day {
    /// The name of the day.
    pub open spec fn name(self) -> Seq<char> {
        match self {
            Day::Monday => "Monday"@,
            Day::Tuesday => "Tuesday"@,
            Day::Wednesday => "Wednesday"@,
            Day::Thursday => "Thursday"@,
            Day::Friday => "Friday"@,
        }
    }

    /// The name of the day.
    pub fn to_string(&self) -> (s: String)
        ensures
            s@ == self.name(),
    {
        match self {
            Day::Monday => "Monday".to_owned(),
            Day::Tuesday => "Tuesday".to_owned(),
            Day::Wednesday => "Wednesday".to_owned(),
            Day::Thursday => "Thursday".to_owned(),
            Day::Friday => "Friday".to_owned(),
        }
    }
}

impl Slot {
    /// The text of the slot: the day's name, a space and the time.
    pub open spec fn text(self) -> Seq<char> {
        self.day.name() + " "@ + self.time.text()
    }

    /// The slot as text: `Monday 08:05`.
    pub fn to_string(&self) -> (s: String)
        ensures
            s@ == self.text(),
    {
        let mut out = self.day.to_string();
        out.append(" ");
        out.append(self.time.to_string().as_str());
        out
    }
}

impl Teacher {
    /// The teacher's name.
    pub fn to_string(&self) -> (s: String)
        ensures
            s@ == self.name@,
    {
        self.name.clone()
    }
}

impl Grade {
    /// The grade's name.
    pub fn to_string(&self) -> (s: String)
        ensures
            s@ == self.name@,
    {
        self.name.clone()
    }
}

impl Subject {
    /// The subject's name.
    pub fn to_string(&self) -> (s: String)
        ensures
            s@ == self.name@,
    {
        self.name.clone()
    }
}

impl Laboratory {
    /// The laboratory's name.
    pub fn to_string(&self) -> (s: String)
        ensures
            s@ == self.name@,
    {
        self.name.clone()
    }
}

impl<'a> ClassRef<'a> {
    /// The text of the class: teacher, grade and subject.
    pub open spec fn text(self) -> Seq<char> {
        self.teacher.name@ + " - "@ + self.grade.name@ + "/"@ + self.subject.name@
    }

    /// The class as text: `teacher - grade/subject`.
    pub fn to_string(&self) -> (s: String)
        ensures
            s@ == self.text(),
    {
        let mut out = self.teacher.name.clone();
        out.append(" - ");
        out.append(self.grade.name.as_str());
        out.append("/");
        out.append(self.subject.name.as_str());
        out
    }
}

impl<'a> SlottedClassRef<'a> {
    /// The text of the slotted class: the slot and the class.
    pub open spec fn text(self) -> Seq<char> {
        self.slot.text() + " - "@ + self.class.text()
    }

    /// The slotted class as text: `slot - class`.
    pub fn to_string(&self) -> (s: String)
        ensures
            s@ == self.text(),
    {
        let mut out = self.slot.to_string();
        out.append(" - ");
        out.append(self.class.to_string().as_str());
        out
    }
}

} // verus!
