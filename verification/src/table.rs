//! An append-only store of values keyed by small integers.
//!
//! A [`Table`] hands out ids in increasing order and never reuses one, even
//! after entries were removed. Its model is the map from id to value together
//! with the id the next insertion will get.
use std::collections::BTreeMap;
use vstd::prelude::*;
use vstd::std_specs::cmp::OrdSpec;
use vstd::std_specs::cmp::PartialEqSpec;
use vstd::std_specs::iter::IteratorSpec;

verus! {

/// A store of values of one type, each under the id it got when it was inserted.
#[derive(Debug, PartialEq, Eq)]
pub struct Table<T> {
    m: BTreeMap<usize, T>,
    inc: usize,
}

impl<T> View for Table<T> {
    type V = Map<usize, T>;

    closed spec fn view(&self) -> Map<usize, T> {
        self.m@
    }
}

/// The members of `dom` below `n`, in ascending order.
pub open spec fn ids_below(dom: Set<usize>, n: nat) -> Seq<usize>
    decreases n,
{
    if n == 0 {
        Seq::empty()
    } else {
        let rest = ids_below(dom, (n - 1) as nat);
        if n - 1 <= usize::MAX && dom.contains((n - 1) as usize) {
            rest.push((n - 1) as usize)
        } else {
            rest
        }
    }
}

/// `s` is strictly increasing.
pub open spec fn ascending(s: Seq<usize>) -> bool {
    forall|i: int, j: int| 0 <= i < j < s.len() ==> s[i] < s[j]
}

/// What `ids_below` lists: exactly the members below `n`, each once, smallest first.
pub proof fn lemma_ids_below(dom: Set<usize>, n: nat)
    ensures
        ascending(ids_below(dom, n)),
        forall|k: usize| #[trigger] ids_below(dom, n).contains(k) <==> dom.contains(k) && k < n,
    decreases n,
{
    if n > 0 {
        let rest = ids_below(dom, (n - 1) as nat);
        lemma_ids_below(dom, (n - 1) as nat);
        let all = ids_below(dom, n);
        if n - 1 <= usize::MAX && dom.contains((n - 1) as usize) {
            let last = (n - 1) as usize;
            assert forall|i: int, j: int| 0 <= i < j < all.len() implies all[i] < all[j] by {
                if j < rest.len() {
                    assert(rest[i] < rest[j]);
                } else {
                    assert(rest.contains(rest[i]));
                }
            }
            assert forall|k: usize| #[trigger] all.contains(k) <==> dom.contains(k) && k < n by {
                if all.contains(k) {
                    let i = choose|i: int| 0 <= i < all.len() && all[i] == k;
                    if i < rest.len() {
                        assert(rest.contains(rest[i]));
                    }
                }
                if dom.contains(k) && k < n {
                    if k == last {
                        assert(all[rest.len() as int] == k);
                    } else {
                        assert(rest.contains(k));
                        let i = choose|i: int| 0 <= i < rest.len() && rest[i] == k;
                        assert(all[i] == k);
                    }
                }
            }
        } else {
            assert forall|k: usize| #[trigger] all.contains(k) <==> dom.contains(k) && k < n by {
                if dom.contains(k) && k < n {
                    assert(k != n - 1);
                }
            }
        }
    }
}

/// The members of `dom`, in ascending order.
pub open spec fn ids_of(dom: Set<usize>) -> Seq<usize> {
    ids_below(dom, usize::MAX as nat + 1)
}

/// `ids_of` lists exactly the members of the set, each once, smallest first.
pub proof fn lemma_ids_of(dom: Set<usize>)
    ensures
        ascending(ids_of(dom)),
        forall|k: usize| #[trigger] ids_of(dom).contains(k) <==> dom.contains(k),
{
    lemma_ids_below(dom, usize::MAX as nat + 1);
}

/// The smallest id whose value passes `pred`, if there is one.
#[verifier::opaque]
pub open spec fn first_id_where<T>(m: Map<usize, T>, pred: spec_fn(T) -> bool) -> Option<usize> {
    if exists|k: usize| m.contains_key(k) && pred(#[trigger] m[k]) {
        Some(
            choose|k: usize|
                m.contains_key(k) && pred(#[trigger] m[k]) && forall|j: usize|
                    j < k && m.contains_key(j) ==> !pred(#[trigger] m[j]),
        )
    } else {
        None
    }
}

/// An id whose value passes `pred`, and below which none does, is the first such id.
pub proof fn lemma_first_id_where<T>(m: Map<usize, T>, pred: spec_fn(T) -> bool, k: usize)
    requires
        m.contains_key(k),
        pred(m[k]),
        forall|j: usize| j < k && m.contains_key(j) ==> !pred(#[trigger] m[j]),
    ensures
        first_id_where(m, pred) == Some(k),
{
    reveal(first_id_where);
    let found = choose|k: usize|
        m.contains_key(k) && pred(#[trigger] m[k]) && forall|j: usize|
            j < k && m.contains_key(j) ==> !pred(#[trigger] m[j]);
    assert(found == k) by {
        if found < k {
            assert(!pred(m[found]));
        }
        if k < found {
            assert(!pred(m[k]));
        }
    }
}

/// Where no value passes `pred`, there is no first such id.
pub proof fn lemma_first_id_where_none<T>(m: Map<usize, T>, pred: spec_fn(T) -> bool)
    requires
        forall|k: usize| m.contains_key(k) ==> !pred(#[trigger] m[k]),
    ensures
        first_id_where(m, pred) is None,
{
    reveal(first_id_where);
}

/// The value under `k` passes `pred`, and no value under a smaller id does.
pub open spec fn is_first_where<T>(m: Map<usize, T>, pred: spec_fn(T) -> bool, k: usize) -> bool {
    &&& m.contains_key(k)
    &&& pred(m[k])
    &&& forall|j: usize| j < k && m.contains_key(j) ==> !pred(#[trigger] m[j])
}

/// Where the value under `w` passes `pred`, some id is the first whose value does.
proof fn lemma_least<T>(m: Map<usize, T>, pred: spec_fn(T) -> bool, w: usize)
    requires
        m.contains_key(w),
        pred(m[w]),
    ensures
        exists|k: usize| is_first_where(m, pred, k),
    decreases w,
{
    if forall|j: usize| j < w && m.contains_key(j) ==> !pred(#[trigger] m[j]) {
        assert(is_first_where(m, pred, w));
    } else {
        let j = choose|j: usize| j < w && m.contains_key(j) && pred(#[trigger] m[j]);
        lemma_least(m, pred, j);
    }
}

/// What `first_id_where` answers: the first id whose value passes `pred`,
/// or nothing where no value passes.
pub proof fn lemma_first_id_where_is<T>(m: Map<usize, T>, pred: spec_fn(T) -> bool)
    ensures
        match first_id_where(m, pred) {
            Some(k) => is_first_where(m, pred, k),
            None => forall|k: usize| m.contains_key(k) ==> !pred(#[trigger] m[k]),
        },
{
    reveal(first_id_where);
    if exists|k: usize| m.contains_key(k) && pred(#[trigger] m[k]) {
        let w = choose|k: usize| m.contains_key(k) && pred(#[trigger] m[k]);
        lemma_least(m, pred, w);
        let k = choose|k: usize| is_first_where(m, pred, k);
        assert(m.contains_key(k) && pred(m[k]) && forall|j: usize|
            j < k && m.contains_key(j) ==> !pred(#[trigger] m[j]));
    }
}

/// The first id is found the same way in a map and in what `view` makes of
/// its values, where the tests agree on each value and what is made of it.
pub proof fn lemma_first_id_where_mapped<T, V>(
    m: Map<usize, T>,
    view: spec_fn(T) -> V,
    pred: spec_fn(T) -> bool,
    pred_of_view: spec_fn(V) -> bool,
)
    requires
        forall|k: usize| m.contains_key(k) ==> pred(#[trigger] m[k]) == pred_of_view(view(m[k])),
    ensures
        first_id_where(m, pred) == first_id_where(m.map_values(view), pred_of_view),
{
    let mapped = m.map_values(view);
    lemma_first_id_where_is(m, pred);
    match first_id_where(m, pred) {
        Some(k) => {
            assert forall|j: usize| j < k && mapped.contains_key(j) implies !pred_of_view(
                #[trigger] mapped[j],
            ) by {
                assert(!pred(m[j]));
            }
            lemma_first_id_where(mapped, pred_of_view, k);
        },
        None => {
            assert forall|k: usize| mapped.contains_key(k) implies !pred_of_view(#[trigger] mapped[k]) by {
                assert(!pred(m[k]));
            }
            lemma_first_id_where_none(mapped, pred_of_view);
        },
    }
}

/// Two strictly increasing sequences with the same members are the same sequence.
pub proof fn lemma_ascending_unique(a: Seq<usize>, b: Seq<usize>)
    requires
        ascending(a),
        ascending(b),
        forall|k: usize| a.contains(k) <==> b.contains(k),
    ensures
        a == b,
    decreases a.len(),
{
    if a.len() == 0 {
        if b.len() > 0 {
            assert(b.contains(b[0]));
        }
        assert(a =~= b);
    } else {
        assert(a.contains(a.last()));
        assert(b.len() > 0);
        assert(b.contains(b.last()));
        // the largest member stands last in both
        let ia = choose|i: int| 0 <= i < a.len() && a[i] == b.last();
        let ib = choose|i: int| 0 <= i < b.len() && b[i] == a.last();
        assert(a.last() == b.last());
        let a0 = a.drop_last();
        let b0 = b.drop_last();
        assert forall|k: usize| a0.contains(k) <==> b0.contains(k) by {
            if a0.contains(k) {
                let i = choose|i: int| 0 <= i < a0.len() && a0[i] == k;
                assert(a[i] == k);
                assert(a.contains(k));
                let j = choose|j: int| 0 <= j < b.len() && b[j] == k;
                assert(k < a.last());
                assert(b0[j] == k);
            }
            if b0.contains(k) {
                let i = choose|i: int| 0 <= i < b0.len() && b0[i] == k;
                assert(b[i] == k);
                assert(b.contains(k));
                let j = choose|j: int| 0 <= j < a.len() && a[j] == k;
                assert(k < b.last());
                assert(a0[j] == k);
            }
        }
        lemma_ascending_unique(a0, b0);
        assert(a =~= a0.push(a.last()));
        assert(b =~= b0.push(b.last()));
    }
}

impl<T> Table<T> {
    #[verifier::type_invariant]
    spec fn below_next(self) -> bool {
        forall|k: usize| self.m@.contains_key(k) ==> k < self.inc
    }

    /// The id that the next insertion gets.
    pub closed spec fn next_id(&self) -> nat {
        self.inc as nat
    }

    /// The ids in use, in ascending order.
    pub open spec fn ids(&self) -> Seq<usize> {
        ids_of(self@.dom())
    }

    /// An empty table whose first id is 0.
    pub fn new() -> (t: Self)
        ensures
            t@ == Map::<usize, T>::empty(),
            t.next_id() == 0,
    {
        Table { m: BTreeMap::new(), inc: 0 }
    }

    /// Stores `value` under a fresh id and returns that id.
    pub fn insert(&mut self, value: T) -> (key: usize)
        requires
            old(self).next_id() < usize::MAX,
        ensures
            key == old(self).next_id(),
            !old(self)@.contains_key(key),
            final(self)@ == old(self)@.insert(key, value),
            final(self).next_id() == old(self).next_id() + 1,
    {
        proof {
            use_type_invariant(&*self);
        }
        let key = self.inc;
        let mut m = BTreeMap::new();
        std::mem::swap(&mut m, &mut self.m);
        m.insert(key, value);
        self.inc = key + 1;
        self.m = m;
        key
    }

    /// Whether the ids are used up, so that nothing more can be inserted.
    pub fn is_full(&self) -> (r: bool)
        ensures
            r == (self.next_id() == usize::MAX),
            self.next_id() <= usize::MAX,
    {
        self.inc == usize::MAX
    }

    /// The value stored under `k`, if any.
    pub fn get(&self, k: usize) -> (r: Option<&T>)
        ensures
            match r {
                Some(v) => self@.contains_key(k) && *v == self@[k],
                None => !self@.contains_key(k),
            },
    {
        self.m.get(&k)
    }

    /// The ids in use, smallest first.
    pub fn keys(&self) -> (r: Vec<usize>)
        ensures
            r@ == self.ids(),
    {
        let mut out: Vec<usize> = Vec::new();
        for kv in it: self.m.iter()
            invariant
                out.len() == it.index(),
                it.seq() == vstd::std_specs::btree::spec_btree_map_iter(&self.m).remaining(),
                forall|j: int| 0 <= j < out.len() ==> out[j] == *(it.seq()[j].0),
        {
            out.push(*kv.0);
        }
        proof {
            broadcast use vstd::laws_cmp::group_laws_cmp;

            let ghost s = vstd::std_specs::btree::spec_btree_map_iter(&self.m).remaining();
            let ghost ks = s.map_values(|kv: (&usize, &T)| *kv.0);
            assert(out@ =~= ks);
            assert(vstd::std_specs::btree::increasing_seq(ks));
            assert forall|i: int, j: int| 0 <= i < j < out.len() implies out[i] < out[j] by {
                assert(ks[i].cmp_spec(&ks[j]) is Less);
            }
            assert forall|k: usize| out@.contains(k) <==> self.ids().contains(k) by {
                lemma_ids_of(self@.dom());
                if out@.contains(k) {
                    let i = choose|i: int| 0 <= i < out.len() && out[i] == k;
                    assert(self.m@.contains_key(*s[i].0));
                }
                if self.m@.contains_key(k) {
                    assert(s.contains((&k, &self.m@[k])));
                    let i = choose|i: int| 0 <= i < s.len() && s[i] == (&k, &self.m@[k]);
                    assert(out[i] == k);
                }
            }
            lemma_ids_of(self@.dom());
            lemma_ascending_unique(out@, self.ids());
        }
        out
    }

    /// The entries, each id with its value, smallest id first.
    pub fn iter(&self) -> (r: Vec<(usize, &T)>)
        ensures
            r@.len() == self.ids().len(),
            forall|i: int|
                0 <= i < r@.len() ==> (#[trigger] r@[i]).0 == self.ids()[i] && *r@[i].1 == self@[self.ids()[i]],
    {
        let keys = self.keys();
        let mut out: Vec<(usize, &T)> = Vec::new();
        proof {
            lemma_ids_of(self@.dom());
        }
        for i in 0..keys.len()
            invariant
                keys@ == self.ids(),
                out@.len() == i,
                forall|k: usize| #[trigger] self.ids().contains(k) <==> self@.contains_key(k),
                forall|j: int|
                    0 <= j < out@.len() ==> (#[trigger] out@[j]).0 == self.ids()[j] && *out@[j].1
                        == self@[self.ids()[j]],
        {
            let k = keys[i];
            assert(self.ids().contains(keys@[i as int]));
            match self.get(k) {
                Some(v) => out.push((k, v)),
                None => vstd::pervasive::unreached(),
            }
        }
        out
    }

    /// The values, in the order of their ids.
    pub fn values(&self) -> (r: Vec<&T>)
        ensures
            r@.len() == self.ids().len(),
            forall|i: int| 0 <= i < r@.len() ==> *(#[trigger] r@[i]) == self@[self.ids()[i]],
    {
        let entries = self.iter();
        let mut out: Vec<&T> = Vec::new();
        for i in 0..entries.len()
            invariant
                entries@.len() == self.ids().len(),
                forall|j: int|
                    0 <= j < entries@.len() ==> (#[trigger] entries@[j]).0 == self.ids()[j]
                        && *entries@[j].1 == self@[self.ids()[j]],
                out@.len() == i,
                forall|j: int| 0 <= j < out@.len() ==> *(#[trigger] out@[j]) == self@[self.ids()[j]],
        {
            out.push(entries[i].1);
        }
        out
    }

    /// Keeps the entries for which `f` answers `true` and removes the others.
    /// No id changes, and `next_id` stays.
    pub fn retain<F: Fn(&usize, &T) -> bool>(&mut self, f: F)
        requires
            forall|k: usize| old(self)@.contains_key(k) ==> call_requires(f, (&k, &old(self)@[k])),
        ensures
            final(self).next_id() == old(self).next_id(),
            forall|k: usize| #[trigger]
                final(self)@.contains_key(k) ==> old(self)@.contains_key(k) && final(self)@[k] == old(self)@[k] && call_ensures(f, (&k, &old(self)@[k]), true),
            forall|k: usize|
                old(self)@.contains_key(k) && !(#[trigger] final(self)@.contains_key(k))
                    ==> call_ensures(f, (&k, &old(self)@[k]), false),
    {
        proof {
            use_type_invariant(&*self);
            lemma_ids_of(self@.dom());
        }
        let keys = self.keys();
        let mut m = BTreeMap::new();
        std::mem::swap(&mut m, &mut self.m);
        let ghost before = m@;
        proof {
            assert forall|j: int| 0 <= j < keys@.len() implies m@.contains_key(
                #[trigger] keys@[j],
            ) by {
                assert(keys@.contains(keys@[j]));
            }
        }
        for i in 0..keys.len()
            invariant
                ascending(keys@),
                forall|k: usize| #[trigger] keys@.contains(k) <==> before.contains_key(k),
                forall|k: usize| before.contains_key(k) ==> call_requires(f, (&k, &before[k])),
                forall|k: usize| #[trigger]
                    m@.contains_key(k) ==> before.contains_key(k) && m@[k] == before[k],
                forall|j: int| i <= j < keys@.len() ==> m@.contains_key(#[trigger] keys@[j]),
                forall|j: int|
                    0 <= j < i && m@.contains_key(#[trigger] keys@[j]) ==> call_ensures(
                        f,
                        (&keys@[j], &before[keys@[j]]),
                        true,
                    ),
                forall|j: int|
                    0 <= j < i && !m@.contains_key(#[trigger] keys@[j]) ==> call_ensures(
                        f,
                        (&keys@[j], &before[keys@[j]]),
                        false,
                    ),
        {
            let k = keys[i];
            assert(keys@.contains(keys@[i as int]));
            let keep = match m.get(&k) {
                Some(v) => f(&k, v),
                None => true,
            };
            if !keep {
                m.remove(&k);
            }
        }
        proof {
            assert forall|k: usize| #[trigger] m@.contains_key(k) implies call_ensures(
                f,
                (&k, &before[k]),
                true,
            ) by {
                assert(keys@.contains(k));
                let j = choose|j: int| 0 <= j < keys@.len() && keys@[j] == k;
                assert(m@.contains_key(keys@[j]));
            }
            assert forall|k: usize| before.contains_key(k) && !(#[trigger] m@.contains_key(k)) implies call_ensures(
                f,
                (&k, &before[k]),
                false,
            ) by {
                assert(keys@.contains(k));
                let j = choose|j: int| 0 <= j < keys@.len() && keys@[j] == k;
                assert(!m@.contains_key(keys@[j]));
            }
        }
        self.m = m;
    }
}

impl<T: PartialEq> Table<T> {
    /// Some stored value equals `t`.
    pub open spec fn holds(&self, t: &T) -> bool {
        exists|k: usize| self@.contains_key(k) && #[trigger] self@[k].eq_spec(t)
    }

    /// `k` is the smallest id whose value equals `t`.
    pub open spec fn first_id_of(&self, t: &T, k: usize) -> bool {
        &&& self@.contains_key(k)
        &&& self@[k].eq_spec(t)
        &&& forall|j: usize| j < k && self@.contains_key(j) ==> !(#[trigger] self@[j].eq_spec(t))
    }

    /// The smallest id whose value equals `needle`, if there is one.
    pub fn find_key(&self, needle: &T) -> (r: Option<usize>)
        ensures
            T::obeys_eq_spec() ==> match r {
                Some(k) => self.first_id_of(needle, k),
                None => !self.holds(needle),
            },
            r matches Some(k) ==> self@.contains_key(k),
    {
        let entries = self.iter();
        proof {
            lemma_ids_of(self@.dom());
        }
        for i in 0..entries.len()
            invariant
                entries@.len() == self.ids().len(),
                ascending(self.ids()),
                forall|k: usize| #[trigger] self.ids().contains(k) <==> self@.contains_key(k),
                forall|j: int|
                    0 <= j < entries@.len() ==> (#[trigger] entries@[j]).0 == self.ids()[j]
                        && *entries@[j].1 == self@[self.ids()[j]],
                T::obeys_eq_spec() ==> forall|j: int|
                    0 <= j < i ==> !(#[trigger] self@[self.ids()[j]]).eq_spec(needle),
        {
            let (k, v) = entries[i];
            assert(self.ids().contains(self.ids()[i as int]));
            if *v == *needle {
                proof {
                    if T::obeys_eq_spec() {
                        assert forall|j: usize| j < k && self@.contains_key(j) implies !(
                        #[trigger] self@[j].eq_spec(needle)) by {
                            assert(self.ids().contains(j));
                            let n = choose|n: int| 0 <= n < self.ids().len() && self.ids()[n] == j;
                            if n >= i {
                                assert(self.ids()[i as int] <= self.ids()[n]);
                            }
                        }
                    }
                }
                return Some(k);
            }
        }
        proof {
            if T::obeys_eq_spec() {
                assert forall|k: usize| self@.contains_key(k) implies !(#[trigger] self@[k].eq_spec(
                    needle,
                )) by {
                    assert(self.ids().contains(k));
                    let n = choose|n: int| 0 <= n < self.ids().len() && self.ids()[n] == k;
                    assert(!self@[self.ids()[n]].eq_spec(needle));
                }
            }
        }
        None
    }

    /// Whether some stored value equals `needle`.
    pub fn contains(&self, needle: &T) -> (r: bool)
        ensures
            T::obeys_eq_spec() ==> r == self.holds(needle),
    {
        self.find_key(needle).is_some()
    }

    /// The id of the first stored value that equals `t`; where there is none,
    /// `t` is stored under a fresh id, which is returned.
    pub fn insert_unique(&mut self, t: T) -> (key: usize)
        requires
            old(self).next_id() < usize::MAX,
        ensures
            final(self)@.contains_key(key),
            final(self)@ == old(self)@ && final(self).next_id() == old(self).next_id() || {
                &&& key == old(self).next_id()
                &&& final(self)@ == old(self)@.insert(key, t)
                &&& final(self).next_id() == old(self).next_id() + 1
            },
            T::obeys_eq_spec() ==> if old(self).holds(&t) {
                &&& old(self).first_id_of(&t, key)
                &&& final(self)@ == old(self)@
                &&& final(self).next_id() == old(self).next_id()
            } else {
                &&& key == old(self).next_id()
                &&& final(self)@ == old(self)@.insert(key, t)
                &&& final(self).next_id() == old(self).next_id() + 1
            },
    {
        match self.find_key(&t) {
            Some(i) => i,
            None => self.insert(t),
        }
    }
}

impl<T: Clone> Clone for Table<T> {
    /// A table with the same entries and the same next id.
    fn clone(&self) -> (r: Self)
        ensures
            r@ == self@,
            r.next_id() == self.next_id(),
    {
        proof {
            use_type_invariant(self);
        }
        Table { m: self.m.clone(), inc: self.inc }
    }
}

impl<T> Default for Table<T> {
    /// The empty table.
    fn default() -> (t: Self)
        ensures
            t@ == Map::<usize, T>::empty(),
            t.next_id() == 0,
    {
        Table::new()
    }
}

} // verus!
