//! The search for placements as a problem of the search engine.
//!
//! A board holds who was given which laboratory at which slot, and the
//! classes still to place. A step places the first of these at one of its
//! options that nobody holds.
use crate::seqs::lemma_filter_member;
use crate::solver::backtrack;
use crate::solver::backtrack::State;
use crate::solver::solution::LabSlottedClass;
use std::collections::BTreeMap;
use vstd::prelude::*;
use vstd::std_specs::cmp::OrdSpec;
use vstd::std_specs::iter::IteratorSpec;

verus! {

/// The partial assignment of a search: who holds each laboratory and slot
/// given out so far, and the classes still to place, in order.
pub struct Board {
    /// From (laboratory, slot) to the class placed there.
    pub decided: Map<(usize, usize), usize>,
    /// The classes not yet placed; the first is placed next.
    pub remaining: Seq<usize>,
}

/// What a round of the search is run on: for each class that takes part,
/// the (laboratory, slot) pairs it may get, in the order in which they are tried.
pub struct Context {
    slots_of: BTreeMap<usize, Vec<(usize, usize)>>,
}

impl View for Context {
    type V = Map<usize, Seq<(usize, usize)>>;

    closed spec fn view(&self) -> Map<usize, Seq<(usize, usize)>> {
        self.slots_of@.map_values(|v: Vec<(usize, usize)>| v@)
    }
}

/// A state of the search: a partial assignment and the classes still to place.
pub struct Partial<'a> {
    decided: BTreeMap<(usize, usize), usize>,
    remaining: &'a [usize],
}

impl<'a> View for Partial<'a> {
    type V = Board;

    closed spec fn view(&self) -> Board {
        Board { decided: self.decided@, remaining: self.remaining@ }
    }
}

/// The test that keeps the pairs nobody holds yet.
pub open spec fn is_free(decided: Map<(usize, usize), usize>) -> spec_fn((usize, usize)) -> bool {
    |o: (usize, usize)| !decided.contains_key(o)
}

/// The board after its first remaining class was placed at `at`.
pub open spec fn placed(b: Board, at: (usize, usize)) -> Board {
    Board { decided: b.decided.insert(at, b.remaining[0]), remaining: b.remaining.drop_first() }
}

/// The boards that follow `b`: its first remaining class placed at each of
/// its options that nobody holds, in the order of the options.
pub open spec fn board_next(b: Board, options: Map<usize, Seq<(usize, usize)>>) -> Seq<Board> {
    if b.remaining.len() == 0 {
        Seq::empty()
    } else {
        options[b.remaining[0]].filter(is_free(b.decided)).map_values(|o: (usize, usize)| placed(b, o))
    }
}

/// Every class still to place has its options.
pub open spec fn board_valid(b: Board, options: Map<usize, Seq<(usize, usize)>>) -> bool {
    forall|i: int| 0 <= i < b.remaining.len() ==> options.contains_key(#[trigger] b.remaining[i])
}

impl<'a> backtrack::State<Context> for Partial<'a> {
    open spec fn valid(v: Board, ctx: Map<usize, Seq<(usize, usize)>>) -> bool {
        board_valid(v, ctx)
    }

    open spec fn goal(v: Board, ctx: Map<usize, Seq<(usize, usize)>>) -> bool {
        v.remaining.len() == 0
    }

    open spec fn next(v: Board, ctx: Map<usize, Seq<(usize, usize)>>) -> Seq<Board> {
        board_next(v, ctx)
    }

    open spec fn height(v: Board, ctx: Map<usize, Seq<(usize, usize)>>) -> nat {
        v.remaining.len()
    }

    proof fn lemma_next(v: Board, ctx: Map<usize, Seq<(usize, usize)>>, i: int) {
        let child = board_next(v, ctx)[i];
        assert forall|j: int| 0 <= j < child.remaining.len() implies ctx.contains_key(
            #[trigger] child.remaining[j],
        ) by {
            assert(child.remaining[j] == v.remaining[j + 1]);
        }
    }

    fn successors(&self, ctx: &Context) -> (r: Vec<Self>) {
        let mut out: Vec<Self> = Vec::new();
        let n = self.remaining.len();
        if n == 0 {
            return out;
        }
        let head = self.remaining[0];
        assert(ctx@.contains_key(self@.remaining[0]));
        let rest = vstd::slice::slice_subrange(self.remaining, 1, n);
        let options = options_of(ctx, head);
        let ghost free = is_free(self.decided@);
        proof {
            assert(options@.take(0) == Seq::<(usize, usize)>::empty());
            assert(rest@ == self.remaining@.drop_first());
        }
        for i in 0..options.len()
            invariant
                n == self.remaining.len(),
                n > 0,
                head == self.remaining[0],
                rest@ == self.remaining@.drop_first(),
                free == is_free(self.decided@),
                out@.len() == options@.take(i as int).filter(free).len(),
                forall|j: int|
                    0 <= j < out@.len() ==> (#[trigger] out@[j])@ == placed(
                        self@,
                        options@.take(i as int).filter(free)[j],
                    ),
        {
            proof {
                reveal(Seq::filter);
                assert(options@.take(i + 1).drop_last() == options@.take(i as int));
            }
            let slot = options[i];
            if free_at(&self.decided, slot) {
                out.push(Partial { decided: with_placed(&self.decided, slot, head), remaining: rest });
            }
        }
        proof {
            assert(options@.take(options.len() as int) == options@);
        }
        out
    }

    fn is_goal(&self, _ctx: &Context) -> (r: bool) {
        self.remaining.len() == 0
    }
}

/// The options of `class`, which takes part in the round.
fn options_of(ctx: &Context, class: usize) -> (r: &Vec<(usize, usize)>)
    requires
        ctx@.contains_key(class),
    ensures
        r@ == ctx@[class],
{
    match ctx.slots_of.get(&class) {
        Some(v) => v,
        None => {
            proof {
                assert(ctx@.dom() == ctx.slots_of@.dom());
            }
            vstd::pervasive::unreached()
        },
    }
}

/// Whether nobody holds `at`.
fn free_at(decided: &BTreeMap<(usize, usize), usize>, at: (usize, usize)) -> (r: bool)
    ensures
        r == !decided@.contains_key(at),
{
    broadcast use vstd::laws_cmp::group_laws_cmp;

    !decided.contains_key(&at)
}

/// A copy of `decided` in which `class` holds `at`.
fn with_placed(decided: &BTreeMap<(usize, usize), usize>, at: (usize, usize), class: usize) -> (r:
    BTreeMap<(usize, usize), usize>)
    ensures
        r@ == decided@.insert(at, class),
{
    broadcast use vstd::laws_cmp::group_laws_cmp;

    let mut map = decided.clone();
    map.insert(at, class);
    map
}

/// The board on which a round starts: nothing decided, all `items` to place.
pub open spec fn start(items: Seq<usize>) -> Board {
    Board { decided: Map::empty(), remaining: items }
}

/// The laboratory and slot of a placement.
pub open spec fn at(p: LabSlottedClass) -> (usize, usize) {
    (p.lab, p.slot)
}

/// `a` comes before `b`: by laboratory first, then by slot.
pub open spec fn before(a: (usize, usize), b: (usize, usize)) -> bool {
    a.0 < b.0 || (a.0 == b.0 && a.1 < b.1)
}

/// `slotted` lists what `placed` holds, each entry once, ordered by
/// laboratory and then by slot.
pub open spec fn is_listing(slotted: Seq<LabSlottedClass>, placed: Map<(usize, usize), usize>) -> bool {
    &&& forall|i: int, j: int|
        0 <= i < j < slotted.len() ==> before(#[trigger] at(slotted[i]), #[trigger] at(slotted[j]))
    &&& forall|i: int|
        0 <= i < slotted.len() ==> placed.contains_key(#[trigger] at(slotted[i])) && placed[at(
            slotted[i],
        )] == slotted[i].class
    &&& forall|k: (usize, usize)| #[trigger]
        placed.contains_key(k) ==> exists|i: int| 0 <= i < slotted.len() && at(#[trigger] slotted[i]) == k
}

/// The placements in laboratory and slot order.
pub(crate) fn listing(decided: &BTreeMap<(usize, usize), usize>) -> (r: Vec<LabSlottedClass>)
    ensures
        is_listing(r@, decided@),
{
    let mut out: Vec<LabSlottedClass> = Vec::new();
    for kv in it: decided.iter()
        invariant
            out.len() == it.index(),
            it.seq() == vstd::std_specs::btree::spec_btree_map_iter(decided).remaining(),
            forall|j: int|
                0 <= j < out.len() ==> at(#[trigger] out[j]) == *(it.seq()[j].0) && out[j].class == *(
                it.seq()[j].1),
    {
        let key = *kv.0;
        out.push(LabSlottedClass { lab: key.0, slot: key.1, class: *kv.1 });
    }
    proof {
        broadcast use vstd::laws_cmp::group_laws_cmp;

        let ghost s = vstd::std_specs::btree::spec_btree_map_iter(decided).remaining();
        let ghost ks = s.map_values(|kv: (&(usize, usize), &usize)| *kv.0);
        assert(vstd::std_specs::btree::increasing_seq(ks));
        assert forall|i: int, j: int| 0 <= i < j < out.len() implies before(
            #[trigger] at(out@[i]),
            #[trigger] at(out@[j]),
        ) by {
            assert(ks[i].cmp_spec(&ks[j]) is Less);
        }
        assert forall|i: int| 0 <= i < out.len() implies decided@.contains_key(
            #[trigger] at(out@[i]),
        ) && decided@[at(out@[i])] == out@[i].class by {
            assert(decided@.contains_key(*s[i].0));
        }
        assert forall|k: (usize, usize)| #[trigger] decided@.contains_key(k) implies exists|i: int|
            0 <= i < out@.len() && at(#[trigger] out@[i]) == k by {
            assert(s.contains((&k, &decided@[k])));
            let i = choose|i: int| 0 <= i < s.len() && s[i] == (&k, &decided@[k]);
            assert(at(out@[i]) == k);
        }
    }
    out
}

/// Two listings of the same placements are the same sequence.
pub proof fn lemma_listing_unique(
    a: Seq<LabSlottedClass>,
    b: Seq<LabSlottedClass>,
    placed: Map<(usize, usize), usize>,
)
    requires
        is_listing(a, placed),
        is_listing(b, placed),
    ensures
        a == b,
    decreases a.len(),
{
    if a.len() == 0 {
        if b.len() > 0 {
            assert(placed.contains_key(at(b[0])));
        }
        assert(a =~= b);
    } else {
        let top = at(a.last());
        assert(placed.contains_key(top));
        let ib = choose|i: int| 0 <= i < b.len() && at(#[trigger] b[i]) == top;
        assert(placed.contains_key(at(b.last())));
        let ia = choose|i: int| 0 <= i < a.len() && at(#[trigger] a[i]) == at(b.last());
        // the greatest pair stands last in both
        if ib < b.len() - 1 {
            assert(before(at(b[ib]), at(b[b.len() - 1])));
            if ia < a.len() - 1 {
                assert(before(at(a[ia]), at(a[a.len() - 1])));
            }
        }
        assert(at(b.last()) == top);
        assert(a.last() == b.last());
        let rest = placed.remove(top);
        let a0 = a.drop_last();
        let b0 = b.drop_last();
        assert(is_listing(a0, rest)) by {
            assert forall|i: int| 0 <= i < a0.len() implies rest.contains_key(
                #[trigger] at(a0[i]),
            ) && rest[at(a0[i])] == a0[i].class by {
                assert(before(at(a[i]), at(a[a.len() - 1])));
            }
            assert forall|k: (usize, usize)| #[trigger] rest.contains_key(k) implies exists|i: int|
                0 <= i < a0.len() && at(#[trigger] a0[i]) == k by {
                assert(placed.contains_key(k));
                let i = choose|i: int| 0 <= i < a.len() && at(#[trigger] a[i]) == k;
                assert(at(a0[i]) == k);
            }
        }
        assert(is_listing(b0, rest)) by {
            assert forall|i: int| 0 <= i < b0.len() implies rest.contains_key(
                #[trigger] at(b0[i]),
            ) && rest[at(b0[i])] == b0[i].class by {
                assert(before(at(b[i]), at(b[b.len() - 1])));
            }
            assert forall|k: (usize, usize)| #[trigger] rest.contains_key(k) implies exists|i: int|
                0 <= i < b0.len() && at(#[trigger] b0[i]) == k by {
                assert(placed.contains_key(k));
                let i = choose|i: int| 0 <= i < b.len() && at(#[trigger] b[i]) == k;
                assert(at(b0[i]) == k);
            }
        }
        lemma_listing_unique(a0, b0, rest);
        assert(a =~= a0.push(a.last()));
        assert(b =~= b0.push(b.last()));
    }
}

impl Context {
    /// A context in which no class has options.
    pub fn new() -> (ctx: Self)
        ensures
            ctx@ == Map::<usize, Seq<(usize, usize)>>::empty(),
    {
        let ctx = Context { slots_of: BTreeMap::new() };
        assert(ctx@ =~= Map::<usize, Seq<(usize, usize)>>::empty());
        ctx
    }

    /// Gives `class` the options `options`, in place of those it had.
    pub fn insert(&mut self, class: usize, options: Vec<(usize, usize)>)
        ensures
            final(self)@ == old(self)@.insert(class, options@),
    {
        broadcast use vstd::laws_cmp::group_laws_cmp;

        self.slots_of.insert(class, options);
        assert(self@ =~= old(self)@.insert(class, options@));
    }
}

impl<'a> Partial<'a> {
    /// The state in which nothing is decided and all of `items` are to place.
    pub fn new(items: &'a [usize]) -> (state: Self)
        ensures
            state@ == start(items@),
    {
        Partial { decided: BTreeMap::new(), remaining: items }
    }

    /// What is decided, listed by laboratory and slot.
    pub fn placements(&self) -> (r: Vec<LabSlottedClass>)
        ensures
            is_listing(r@, self@.decided),
    {
        listing(&self.decided)
    }

    /// The classes still to place.
    pub fn remaining(&self) -> (r: &'a [usize])
        ensures
            r@ == self@.remaining,
    {
        self.remaining
    }
}

/// Each class on the board holds one of its options.
pub open spec fn fits(b: Board, options: Map<usize, Seq<(usize, usize)>>) -> bool {
    forall|k: (usize, usize)| #[trigger]
        b.decided.contains_key(k) ==> options.contains_key(b.decided[k]) && options[b.decided[k]].contains(
            k,
        )
}

/// On the board `g`, `class` holds a pair that nobody holds on the board `b`.
pub open spec fn newly_placed(b: Board, g: Board, class: usize) -> bool {
    exists|k: (usize, usize)| #[trigger]
        g.decided.contains_key(k) && g.decided[k] == class && !b.decided.contains_key(k)
}

/// The board `g` holds what `b` holds and a place for each class that `b` has still to place.
pub open spec fn completes(b: Board, g: Board) -> bool {
    &&& g.remaining.len() == 0
    &&& forall|k: (usize, usize)| #[trigger]
        b.decided.contains_key(k) ==> g.decided.contains_key(k) && g.decided[k] == b.decided[k]
    &&& forall|i: int| 0 <= i < b.remaining.len() ==> newly_placed(b, g, #[trigger] b.remaining[i])
}

/// The goal that steps lead to from a board completes it, and it fits where the board fits.
pub proof fn lemma_leads_to(options: Map<usize, Seq<(usize, usize)>>, b: Board, g: Board)
    requires
        board_valid(b, options),
        backtrack::leads_to::<Partial, Context>(options, b, g),
    ensures
        completes(b, g),
        fits(b, options) ==> fits(g, options),
    decreases b.remaining.len(),
{
    if b.remaining.len() > 0 {
        let children = board_next(b, options);
        let i = choose|i: int|
            0 <= i < children.len() && (#[trigger] children[i]).remaining.len() < b.remaining.len()
                && backtrack::leads_to::<Partial, Context>(options, children[i], g);
        let head = b.remaining[0];
        let free = options[head].filter(is_free(b.decided));
        let o = free[i];
        let child = children[i];
        assert(child == placed(b, o));
        assert(free.contains(o));
        lemma_filter_member(options[head], is_free(b.decided), o);
        assert forall|j: int| 0 <= j < child.remaining.len() implies options.contains_key(
            #[trigger] child.remaining[j],
        ) by {
            assert(child.remaining[j] == b.remaining[j + 1]);
        }
        lemma_leads_to(options, child, g);
        assert(child.decided.contains_key(o));
        assert forall|j: int| 0 <= j < b.remaining.len() implies newly_placed(
            b,
            g,
            #[trigger] b.remaining[j],
        ) by {
            if j == 0 {
                assert(g.decided.contains_key(o) && g.decided[o] == head);
            } else {
                assert(child.remaining[j - 1] == b.remaining[j]);
                assert(newly_placed(child, g, child.remaining[j - 1]));
                let k = choose|k: (usize, usize)| #[trigger]
                    g.decided.contains_key(k) && g.decided[k] == child.remaining[j - 1]
                        && !child.decided.contains_key(k);
                assert(g.decided.contains_key(k));
            }
        }
        assert forall|k: (usize, usize)| #[trigger] b.decided.contains_key(k) implies g.decided.contains_key(
            k,
        ) && g.decided[k] == b.decided[k] by {
            assert(child.decided.contains_key(k));
        }
        if fits(b, options) {
            assert forall|k: (usize, usize)| #[trigger] child.decided.contains_key(k) implies options.contains_key(
                child.decided[k],
            ) && options[child.decided[k]].contains(k) by {
                if k != o {
                    assert(b.decided.contains_key(k));
                }
            }
        }
    }
}

/// Where each class still to place can be given an option of its own that
/// nobody holds, steps lead from the board to a goal.
pub proof fn lemma_pick_leads(options: Map<usize, Seq<(usize, usize)>>, b: Board, pick: Seq<(usize, usize)>) -> (g: Board)
    requires
        board_valid(b, options),
        pick.len() == b.remaining.len(),
        forall|i: int|
            0 <= i < pick.len() ==> options[b.remaining[i]].contains(#[trigger] pick[i])
                && !b.decided.contains_key(pick[i]),
        forall|i: int, j: int| 0 <= i < j < pick.len() ==> pick[i] != pick[j],
    ensures
        backtrack::leads_to::<Partial, Context>(options, b, g),
    decreases b.remaining.len(),
{
    if b.remaining.len() == 0 {
        b
    } else {
        let head = b.remaining[0];
        let o = pick[0];
        let free = options[head].filter(is_free(b.decided));
        lemma_filter_member(options[head], is_free(b.decided), o);
        let at = choose|i: int| 0 <= i < free.len() && free[i] == o;
        let children = board_next(b, options);
        let child = children[at];
        assert(child == placed(b, o));
        let rest = pick.drop_first();
        assert forall|i: int| 0 <= i < child.remaining.len() implies options.contains_key(
            #[trigger] child.remaining[i],
        ) by {
            assert(child.remaining[i] == b.remaining[i + 1]);
        }
        assert forall|i: int| 0 <= i < rest.len() implies options[child.remaining[i]].contains(
            #[trigger] rest[i],
        ) && !child.decided.contains_key(rest[i]) by {
            assert(rest[i] == pick[i + 1]);
            assert(child.remaining[i] == b.remaining[i + 1]);
            assert(pick[0] != pick[i + 1]);
        }
        assert forall|i: int, j: int| 0 <= i < j < rest.len() implies rest[i] != rest[j] by {
            assert(pick[i + 1] != pick[j + 1]);
        }
        let g = lemma_pick_leads(options, child, rest);
        assert(Partial::next(b, options)[at] == child);
        assert(Partial::height(Partial::next(b, options)[at], options) < Partial::height(b, options));
        g
    }
}

/// No class is on the board twice, neither placed nor still to place.
pub open spec fn once_each(b: Board) -> bool {
    &&& forall|j: (usize, usize), k: (usize, usize)|
        b.decided.contains_key(j) && b.decided.contains_key(k) && j != k ==> #[trigger] b.decided[j]
            != #[trigger] b.decided[k]
    &&& forall|i: int, j: int|
        0 <= i < j < b.remaining.len() ==> #[trigger] b.remaining[i] != #[trigger] b.remaining[j]
    &&& forall|k: (usize, usize), i: int|
        b.decided.contains_key(k) && 0 <= i < b.remaining.len() ==> #[trigger] b.decided[k]
            != #[trigger] b.remaining[i]
}

/// From a board that holds no class twice, steps lead to such boards only.
pub proof fn lemma_leads_to_once(options: Map<usize, Seq<(usize, usize)>>, b: Board, g: Board)
    requires
        board_valid(b, options),
        once_each(b),
        backtrack::leads_to::<Partial, Context>(options, b, g),
    ensures
        once_each(g),
    decreases b.remaining.len(),
{
    if b.remaining.len() > 0 {
        let children = board_next(b, options);
        let i = choose|i: int|
            0 <= i < children.len() && (#[trigger] children[i]).remaining.len() < b.remaining.len()
                && backtrack::leads_to::<Partial, Context>(options, children[i], g);
        let head = b.remaining[0];
        let free = options[head].filter(is_free(b.decided));
        let o = free[i];
        let child = children[i];
        assert(child == placed(b, o));
        assert(free.contains(o));
        lemma_filter_member(options[head], is_free(b.decided), o);
        assert forall|j: int| 0 <= j < child.remaining.len() implies options.contains_key(
            #[trigger] child.remaining[j],
        ) by {
            assert(child.remaining[j] == b.remaining[j + 1]);
        }
        assert(once_each(child)) by {
            assert forall|j: (usize, usize), k: (usize, usize)|
                child.decided.contains_key(j) && child.decided.contains_key(k) && j != k implies #[trigger] child.decided[j]
                != #[trigger] child.decided[k] by {
                if j == o {
                    assert(b.decided[k] != b.remaining[0]);
                } else if k == o {
                    assert(b.decided[j] != b.remaining[0]);
                } else {
                    assert(b.decided[j] != b.decided[k]);
                }
            }
            assert forall|x: int, y: int| 0 <= x < y < child.remaining.len() implies #[trigger] child.remaining[x]
                != #[trigger] child.remaining[y] by {
                assert(b.remaining[x + 1] != b.remaining[y + 1]);
            }
            assert forall|k: (usize, usize), x: int|
                child.decided.contains_key(k) && 0 <= x < child.remaining.len() implies #[trigger] child.decided[k]
                != #[trigger] child.remaining[x] by {
                if k == o {
                    assert(b.remaining[0] != b.remaining[x + 1]);
                } else {
                    assert(b.decided[k] != b.remaining[x + 1]);
                }
            }
        }
        lemma_leads_to_once(options, child, g);
    }
}

} // verus!
