//! Actions on a list: a new entry behind the last, or an entry taken out.
use vstd::prelude::*;

verus! {

/// `s` without the entry at `at`, or `s` itself where `at` is `None`.
pub open spec fn without_entry<T>(s: Seq<T>, at: Option<usize>) -> Seq<T> {
    match at {
        Some(index) => s.remove(index as int),
        None => s,
    }
}

/// Something that can be done to a vector: an entry is taken out, or a new
/// entry is put behind the last, or nothing is done.
pub trait ApplyVecAction: Sized {
    /// The place of the entry that the action takes out, if it takes one out.
    spec fn takes_out(&self) -> Option<usize>;

    /// The action puts a new entry behind the last.
    spec fn makes_item(&self) -> bool;

    /// Does the action to `v`. A new entry is made by a call of `new_item`.
    fn apply<T, F: Fn() -> T>(self, v: &mut Vec<T>, new_item: F)
        requires
            self.takes_out() matches Some(index) ==> index < old(v)@.len(),
            self.makes_item() ==> call_requires(new_item, ()),
        ensures
            self.makes_item() ==> exists|item: T|
                call_ensures(new_item, (), item) && final(v)@ == #[trigger] without_entry(
                    old(v)@,
                    self.takes_out(),
                ).push(item),
            !self.makes_item() ==> final(v)@ == without_entry(old(v)@, self.takes_out()),
    ;

    /// Does the action to `v`. A new entry is the default of its type.
    fn apply_default<T: Default>(self, v: &mut Vec<T>)
        requires
            self.takes_out() matches Some(index) ==> index < old(v)@.len(),
        ensures
            self.makes_item() ==> exists|item: T|
                call_ensures(T::default, (), item) && final(v)@ == #[trigger] without_entry(
                    old(v)@,
                    self.takes_out(),
                ).push(item),
            !self.makes_item() ==> final(v)@ == without_entry(old(v)@, self.takes_out()),
    {
        self.apply(v, T::default);
    }
}

/// What the buttons of a list ask for.
pub enum VecAction {
    /// A new entry behind the last.
    Push,
    /// The entry at that place taken out.
    Remove(usize),
}

impl ApplyVecAction for VecAction {
    open spec fn takes_out(&self) -> Option<usize> {
        match self {
            VecAction::Push => None,
            VecAction::Remove(index) => Some(*index),
        }
    }

    open spec fn makes_item(&self) -> bool {
        self is Push
    }

    fn apply<T, F: Fn() -> T>(self, v: &mut Vec<T>, new_item: F) {
        match self {
            VecAction::Push => {
                let item = new_item();
                let ghost made = item;
                v.push(item);
                assert(v@ == without_entry(old(v)@, self.takes_out()).push(made));
            },
            VecAction::Remove(index) => {
                v.remove(index);
            },
        }
    }
}

impl<Inner: ApplyVecAction> ApplyVecAction for Option<Inner> {
    open spec fn takes_out(&self) -> Option<usize> {
        match self {
            Some(action) => action.takes_out(),
            None => None,
        }
    }

    open spec fn makes_item(&self) -> bool {
        match self {
            Some(action) => action.makes_item(),
            None => false,
        }
    }

    fn apply<T, F: Fn() -> T>(self, v: &mut Vec<T>, new_item: F) {
        match self {
            Some(action) => action.apply(v, new_item),
            None => (),
        }
    }
}

} // verus!
