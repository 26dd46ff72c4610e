//! A store whose entries are kept in a slice and found by their place in it.
use vstd::prelude::*;

verus! {

/// A store of entries of one kind. An entry is handed out with what it
/// refers to in place of the ids it holds.
pub trait Store<'a, T: 'a> {
    /// What the store keeps.
    type Inner;

    /// The entries, in the order of their ids.
    spec fn entries(&self) -> Seq<Self::Inner>;

    /// Every id that `item` holds is in use.
    spec fn linked(&self, item: &Self::Inner) -> bool;

    /// `item` with what it refers to.
    spec fn flattened(&'a self, item: &'a Self::Inner) -> T;

    /// The entries, in the order of their ids.
    fn items(&'a self) -> (r: &'a [Self::Inner])
        ensures
            r@ == self.entries(),
    ;

    /// `item` with what it refers to.
    fn flatten(&'a self, item: &'a Self::Inner) -> (r: T)
        requires
            self.linked(item),
        ensures
            r == self.flattened(item),
    ;

    /// The number of entries.
    fn len(&'a self) -> (n: usize)
        ensures
            n == self.entries().len(),
    {
        self.items().len()
    }

    /// The entry under `id`.
    fn get(&'a self, id: usize) -> (r: T)
        requires
            id < self.entries().len(),
            self.linked(&self.entries()[id as int]),
        ensures
            r == self.flattened(&self.entries()[id as int]),
    {
        let items = self.items();
        self.flatten(&items[id])
    }

    /// All entries, in the order of their ids.
    fn iter(&'a self) -> (r: Vec<T>)
        requires
            forall|i: int| 0 <= i < self.entries().len() ==> self.linked(&#[trigger] self.entries()[i]),
        ensures
            r@.len() == self.entries().len(),
            forall|i: int| 0 <= i < r@.len() ==> #[trigger] r@[i] == self.flattened(&self.entries()[i]),
    {
        let mut out: Vec<T> = Vec::new();
        let n = self.len();
        for id in 0..n
            invariant
                n == self.entries().len(),
                forall|i: int| 0 <= i < self.entries().len() ==> self.linked(&#[trigger] self.entries()[i]),
                out@.len() == id,
                forall|i: int| 0 <= i < out@.len() ==> #[trigger] out@[i] == self.flattened(&self.entries()[i]),
        {
            out.push(self.get(id));
        }
        out
    }
}

} // verus!
