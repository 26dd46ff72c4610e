//! The rounds of the solver: whom a round lets take part, with which
//! candidates, and what is done after a round that fails.
use crate::school::School;
use crate::solver::backtrack;
use crate::solver::board::is_listing;
use crate::solver::board::lemma_listing_unique;
use crate::solver::board::start;
use crate::solver::board::Board;
use crate::solver::board::Context;
use crate::solver::board::Partial;
use crate::solver::solution::Error;
use crate::solver::solution::LabSlottedClass;
use crate::solver::solution::SolutionView;
use crate::solver::solution::Warning;
use vstd::prelude::*;

verus! {

/// The laboratories that a class may use in a round: the first `relax` of
/// its preferences, or all of them where it has fewer.
pub open spec fn allowed_labs(labs: Seq<usize>, relax: nat) -> Seq<usize> {
    if relax <= labs.len() {
        labs.take(relax as int)
    } else {
        labs
    }
}

/// Each of `labs` at `slot`, in the order of `labs`.
pub open spec fn lab_pairs(labs: Seq<usize>, slot: usize) -> Seq<(usize, usize)> {
    labs.map_values(|lab: usize| (lab, slot))
}

/// The (laboratory, slot) pairs that a class may get in a round: for each of
/// its slots in turn, each laboratory allowed to it, most wanted first.
pub open spec fn candidates(slots: Seq<usize>, labs: Seq<usize>, relax: nat) -> Seq<(usize, usize)>
    decreases slots.len(),
{
    if slots.len() == 0 {
        Seq::empty()
    } else {
        candidates(slots.drop_last(), labs, relax) + lab_pairs(allowed_labs(labs, relax), slots.last())
    }
}

/// A pair is a candidate exactly where its slot is one of the class's slots
/// and its laboratory is among the first `relax` preferences.
pub proof fn lemma_candidates(slots: Seq<usize>, labs: Seq<usize>, relax: nat, lab: usize, slot: usize)
    ensures
        candidates(slots, labs, relax).contains((lab, slot)) <==> slots.contains(slot)
            && allowed_labs(labs, relax).contains(lab),
    decreases slots.len(),
{
    let allowed = allowed_labs(labs, relax);
    if slots.len() > 0 {
        let front = candidates(slots.drop_last(), labs, relax);
        let back = lab_pairs(allowed, slots.last());
        let all = candidates(slots, labs, relax);
        lemma_candidates(slots.drop_last(), labs, relax, lab, slot);
        if all.contains((lab, slot)) {
            let i = choose|i: int| 0 <= i < all.len() && all[i] == (lab, slot);
            if i < front.len() {
                assert(front[i] == (lab, slot));
                assert(front.contains((lab, slot)));
                let j = choose|j: int| 0 <= j < slots.drop_last().len() && slots.drop_last()[j] == slot;
                assert(slots[j] == slot);
            } else {
                assert(back[i - front.len()] == (lab, slot));
                assert(allowed[i - front.len()] == lab);
                assert(slots[slots.len() - 1] == slot);
            }
        }
        if slots.contains(slot) && allowed.contains(lab) {
            let j = choose|j: int| 0 <= j < slots.len() && slots[j] == slot;
            let k = choose|k: int| 0 <= k < allowed.len() && allowed[k] == lab;
            if j < slots.len() - 1 {
                assert(slots.drop_last()[j] == slot);
                assert(front.contains((lab, slot)));
                let i = choose|i: int| 0 <= i < front.len() && front[i] == (lab, slot);
                assert(all[i] == (lab, slot));
            } else {
                assert(back[k] == (lab, slot));
                assert(all[front.len() + k] == (lab, slot));
            }
        }
    } else {
        if slots.contains(slot) {
            let j = choose|j: int| 0 <= j < slots.len() && slots[j] == slot;
        }
    }
}

/// The candidates of a class at one depth of relaxation are candidates at the next.
pub proof fn lemma_relaxation_monotonic(slots: Seq<usize>, labs: Seq<usize>, relax: nat)
    ensures
        candidates(slots, labs, relax).to_set().subset_of(
            candidates(slots, labs, relax + 1).to_set(),
        ),
{
    assert forall|p: (usize, usize)| candidates(slots, labs, relax).contains(p) implies candidates(
        slots,
        labs,
        relax + 1,
    ).contains(p) by {
        lemma_candidates(slots, labs, relax, p.0, p.1);
        lemma_candidates(slots, labs, relax + 1, p.0, p.1);
        let narrow = allowed_labs(labs, relax);
        let wide = allowed_labs(labs, relax + 1);
        let k = choose|k: int| 0 <= k < narrow.len() && narrow[k] == p.0;
        assert(wide[k] == p.0);
    }
}

/// A list of classes, each with its preferred laboratories, most wanted first.
pub open spec fn class_list(classes: Seq<(usize, Vec<usize>)>) -> Seq<(usize, Seq<usize>)> {
    classes.map_values(|c: (usize, Vec<usize>)| (c.0, c.1@))
}

/// What one round of the search is run on.
pub struct Round {
    /// The classes that take part, in the order of the class list.
    pub items: Seq<usize>,
    /// For each of them the pairs it may get.
    pub options: Map<usize, Seq<(usize, usize)>>,
}

/// The round over `classes` at depth `relax`: the classes that have a
/// candidate take part, each with its candidates. Where a class stands in
/// the list twice, it takes part twice, with the candidates of its last entry.
pub open spec fn round(school: &School, classes: Seq<(usize, Seq<usize>)>, relax: nat) -> Round
    decreases classes.len(),
{
    if classes.len() == 0 {
        Round { items: Seq::empty(), options: Map::empty() }
    } else {
        let before = round(school, classes.drop_last(), relax);
        let class = classes.last().0;
        let options = candidates(school.slots_of_spec(class), classes.last().1, relax);
        if options.len() > 0 {
            Round { items: before.items.push(class), options: before.options.insert(class, options) }
        } else {
            before
        }
    }
}

/// The length of the longest list of preferences.
pub open spec fn widest(classes: Seq<(usize, Seq<usize>)>) -> nat
    decreases classes.len(),
{
    if classes.len() == 0 {
        0
    } else {
        let before = widest(classes.drop_last());
        if classes.last().1.len() > before {
            classes.last().1.len()
        } else {
            before
        }
    }
}

/// The test that keeps the entries of all classes but `class`.
pub open spec fn is_not(class: usize) -> spec_fn((usize, Seq<usize>)) -> bool {
    |c: (usize, Seq<usize>)| c.0 != class
}

/// The test that keeps the entries with at least one preference.
pub open spec fn has_labs() -> spec_fn((usize, Seq<usize>)) -> bool {
    |c: (usize, Seq<usize>)| c.1.len() > 0
}

/// The test that keeps the entries without a preference.
pub open spec fn lacks_labs() -> spec_fn((usize, Seq<usize>)) -> bool {
    |c: (usize, Seq<usize>)| c.1.len() == 0
}

/// What the search of the round over `classes` at depth `relax` finds.
pub open spec fn round_result(school: &School, classes: Seq<(usize, Seq<usize>)>, relax: nat) -> Option<
    Board,
> {
    let r = round(school, classes, relax);
    backtrack::search::<Partial, Context>(r.options, start(r.items))
}

/// How the rounds end.
pub struct Plan {
    /// From (laboratory, slot) to the class placed there.
    pub placed: Map<(usize, usize), usize>,
    /// The classes that were dropped, in the order in which they were.
    pub dropped: Seq<usize>,
    /// The class list that was left when the rounds ended.
    pub classes: Seq<(usize, Seq<usize>)>,
}

/// How far `relax` is from the longest list of preferences.
pub open spec fn slack(classes: Seq<(usize, Seq<usize>)>, relax: nat) -> nat {
    if relax <= widest(classes) {
        (widest(classes) - relax) as nat
    } else {
        0
    }
}

/// The rounds from depth `relax` on. A round that places every class that
/// takes part ends them. After a round that fails, the next is one rank
/// wider; where the longest list of preferences is already in full use, the
/// first class of the failed round is dropped with all its entries, and the
/// rounds start again on the rest at depth 1.
pub open spec fn plan(school: &School, classes: Seq<(usize, Seq<usize>)>, relax: nat) -> Plan
    decreases classes.len(), slack(classes, relax),
{
    if classes.len() == 0 {
        Plan { placed: Map::empty(), dropped: Seq::empty(), classes }
    } else {
        match round_result(school, classes, relax) {
            Some(b) => Plan { placed: b.decided, dropped: Seq::empty(), classes },
            None => {
                if relax < widest(classes) {
                    plan(school, classes, relax + 1)
                } else {
                    let first = round(school, classes, relax).items[0];
                    proof {
                        lemma_failed_round(school, classes, relax);
                    }
                    let rest = plan(school, classes.filter(is_not(first)), 1);
                    Plan {
                        placed: rest.placed,
                        dropped: seq![first] + rest.dropped,
                        classes: rest.classes,
                    }
                }
            },
        }
    }
}

/// Every class that takes part in a round stands in the class list and has its options.
pub proof fn lemma_round_items(school: &School, classes: Seq<(usize, Seq<usize>)>, relax: nat)
    ensures
        forall|i: int|
            0 <= i < round(school, classes, relax).items.len() ==> {
                &&& round(school, classes, relax).options.contains_key(
                    #[trigger] round(school, classes, relax).items[i],
                )
                &&& exists|j: int|
                    0 <= j < classes.len() && (#[trigger] classes[j]).0 == round(
                        school,
                        classes,
                        relax,
                    ).items[i]
            },
    decreases classes.len(),
{
    if classes.len() > 0 {
        let before = round(school, classes.drop_last(), relax);
        let all = round(school, classes, relax);
        lemma_round_items(school, classes.drop_last(), relax);
        assert forall|i: int| 0 <= i < all.items.len() implies {
            &&& all.options.contains_key(#[trigger] all.items[i])
            &&& exists|j: int| 0 <= j < classes.len() && (#[trigger] classes[j]).0 == all.items[i]
        } by {
            if i < before.items.len() {
                assert(all.items[i] == before.items[i]);
                let j = choose|j: int|
                    0 <= j < classes.drop_last().len() && (#[trigger] classes.drop_last()[j]).0
                        == before.items[i];
                assert(classes[j].0 == all.items[i]);
            } else {
                assert(classes[classes.len() - 1].0 == all.items[i]);
            }
        }
    }
}

/// A list that holds an entry of `class` gets shorter when they are taken out.
pub proof fn lemma_without(classes: Seq<(usize, Seq<usize>)>, class: usize)
    requires
        exists|j: int| 0 <= j < classes.len() && (#[trigger] classes[j]).0 == class,
    ensures
        classes.filter(is_not(class)).len() < classes.len(),
    decreases classes.len(),
{
    reveal(Seq::filter);
    let j = choose|j: int| 0 <= j < classes.len() && (#[trigger] classes[j]).0 == class;
    classes.drop_last().lemma_filter_len(is_not(class));
    if j < classes.len() - 1 {
        assert(classes.drop_last()[j].0 == class);
        lemma_without(classes.drop_last(), class);
    }
}

/// A round that fails has a first class, and the list without it is shorter.
pub proof fn lemma_failed_round(school: &School, classes: Seq<(usize, Seq<usize>)>, relax: nat)
    requires
        round_result(school, classes, relax) is None,
    ensures
        round(school, classes, relax).items.len() > 0,
        classes.filter(is_not(round(school, classes, relax).items[0])).len() < classes.len(),
{
    let r = round(school, classes, relax);
    lemma_round_items(school, classes, relax);
    assert(r.items.len() > 0);
    let first = r.items[0];
    lemma_without(classes, first);
}

/// The first preference of the first entry of `class` in the list, if that
/// entry exists and has a preference.
pub open spec fn first_choice(classes: Seq<(usize, Seq<usize>)>, class: usize) -> Option<usize>
    decreases classes.len(),
{
    if classes.len() == 0 {
        None
    } else if classes[0].0 == class {
        if classes[0].1.len() > 0 {
            Some(classes[0].1[0])
        } else {
            None
        }
    } else {
        first_choice(classes.drop_first(), class)
    }
}

/// One warning, in the order of the placements, for each class that was
/// placed in another laboratory than its first choice.
pub open spec fn warnings_of(slotted: Seq<LabSlottedClass>, classes: Seq<(usize, Seq<usize>)>) -> Seq<
    Warning,
>
    decreases slotted.len(),
{
    if slotted.len() == 0 {
        Seq::empty()
    } else {
        let before = warnings_of(slotted.drop_last(), classes);
        let p = slotted.last();
        match first_choice(classes, p.class) {
            Some(was) => if was != p.lab {
                before.push(Warning::UndesiredLab { class: p.class, was, got: p.lab })
            } else {
                before
            },
            None => before,
        }
    }
}

/// The errors of a solution: first the classes without a preference, in the
/// order of the class list, then the classes that were dropped, in the order
/// in which they were.
pub open spec fn errors_of(classes: Seq<(usize, Seq<usize>)>, dropped: Seq<usize>) -> Seq<Error> {
    classes.filter(lacks_labs()).map_values(|c: (usize, Seq<usize>)| Error::NoLabs(c.0))
        + dropped.map_values(|c: usize| Error::Missing(c))
}

/// `sol` is the solution for `classes`: the rounds are run on the classes
/// that have a preference; the placements are listed by laboratory and slot.
pub open spec fn solves(school: &School, classes: Seq<(usize, Seq<usize>)>, sol: SolutionView) -> bool {
    let p = plan(school, classes.filter(has_labs()), 1);
    &&& is_listing(sol.slotted, p.placed)
    &&& sol.errors == errors_of(classes, p.dropped)
    &&& sol.warnings == warnings_of(sol.slotted, p.classes)
}

/// The solution is a function of the school's timetable and the class list:
/// two solutions for the same input are equal.
pub proof fn lemma_solution_unique(
    school: &School,
    classes: Seq<(usize, Seq<usize>)>,
    a: SolutionView,
    b: SolutionView,
)
    requires
        solves(school, classes, a),
        solves(school, classes, b),
    ensures
        a == b,
{
    let p = plan(school, classes.filter(has_labs()), 1);
    lemma_listing_unique(a.slotted, b.slotted, p.placed);
}

/// The pairs that a class with the slots `slots` and the preferences `labs`
/// may get at depth `relax`.
pub fn candidates_of(slots: &Vec<usize>, labs: &Vec<usize>, relax: usize) -> (r: Vec<(usize, usize)>)
    ensures
        r@ == candidates(slots@, labs@, relax as nat),
{
    let limit = if relax <= labs.len() {
        relax
    } else {
        labs.len()
    };
    let ghost allowed = allowed_labs(labs@, relax as nat);
    let mut out: Vec<(usize, usize)> = Vec::new();
    proof {
        assert(slots@.take(0) == Seq::<usize>::empty());
    }
    for i in 0..slots.len()
        invariant
            limit == allowed.len(),
            allowed == allowed_labs(labs@, relax as nat),
            limit <= labs.len(),
            out@ == candidates(slots@.take(i as int), labs@, relax as nat),
    {
        let slot = slots[i];
        let ghost done = out@;
        for j in 0..limit
            invariant
                limit == allowed.len(),
                allowed == allowed_labs(labs@, relax as nat),
                limit <= labs.len(),
                out@ == done + lab_pairs(allowed.take(j as int), slot),
        {
            out.push((labs[j], slot));
            assert(out@ =~= done + lab_pairs(allowed.take(j + 1), slot));
        }
        proof {
            assert(allowed.take(limit as int) == allowed);
            assert(slots@.take(i + 1).drop_last() == slots@.take(i as int));
        }
    }
    proof {
        assert(slots@.take(slots.len() as int) == slots@);
    }
    out
}

/// The round over `classes` at depth `relax`.
pub(crate) fn build_round(school: &School, classes: &Vec<(usize, Vec<usize>)>, relax: usize) -> (r: (
    Context,
    Vec<usize>,
))
    ensures
        r.0@ == round(school, class_list(classes@), relax as nat).options,
        r.1@ == round(school, class_list(classes@), relax as nat).items,
{
    let mut ctx = Context::new();
    let mut items: Vec<usize> = Vec::new();
    let ghost list = class_list(classes@);
    proof {
        assert(list.take(0) == Seq::<(usize, Seq<usize>)>::empty());
    }
    for i in 0..classes.len()
        invariant
            list == class_list(classes@),
            ctx@ == round(school, list.take(i as int), relax as nat).options,
            items@ == round(school, list.take(i as int), relax as nat).items,
    {
        let class = classes[i].0;
        let slots = school.slots_of(class);
        let options = candidates_of(&slots, &classes[i].1, relax);
        proof {
            assert(list.take(i + 1).drop_last() == list.take(i as int));
            assert(list.take(i + 1).last() == (class, classes@[i as int].1@));
        }
        if options.len() > 0 {
            ctx.insert(class, options);
            items.push(class);
        }
    }
    proof {
        assert(list.take(classes.len() as int) == list);
    }
    (ctx, items)
}

/// The length of the longest list of preferences.
pub(crate) fn longest(classes: &Vec<(usize, Vec<usize>)>) -> (r: usize)
    ensures
        r == widest(class_list(classes@)),
{
    let mut max: usize = 0;
    let ghost list = class_list(classes@);
    proof {
        assert(list.take(0) == Seq::<(usize, Seq<usize>)>::empty());
    }
    for i in 0..classes.len()
        invariant
            list == class_list(classes@),
            max == widest(list.take(i as int)),
    {
        proof {
            assert(list.take(i + 1).drop_last() == list.take(i as int));
        }
        if classes[i].1.len() > max {
            max = classes[i].1.len();
        }
    }
    proof {
        assert(list.take(classes.len() as int) == list);
    }
    max
}

/// The list without the entries of `class`.
pub(crate) fn drop_class(classes: Vec<(usize, Vec<usize>)>, class: usize) -> (r: Vec<(usize, Vec<usize>)>)
    ensures
        class_list(r@) == class_list(classes@).filter(is_not(class)),
{
    let mut out: Vec<(usize, Vec<usize>)> = Vec::new();
    let ghost list = class_list(classes@);
    proof {
        assert(list.take(0) == Seq::<(usize, Seq<usize>)>::empty());
        assert(class_list(out@) =~= Seq::<(usize, Seq<usize>)>::empty());
    }
    for c in it: classes
        invariant
            it.seq() == classes@,
            list == class_list(classes@),
            class_list(out@) == list.take(it.index()).filter(is_not(class)),
    {
        proof {
            reveal(Seq::filter);
            assert(list.take(it.index() + 1).drop_last() == list.take(it.index()));
            assert(list.take(it.index() + 1).last() == (c.0, c.1@));
        }
        let ghost before = class_list(out@);
        if c.0 != class {
            out.push(c);
            assert(class_list(out@) =~= before.push((c.0, c.1@)));
        }
    }
    proof {
        assert(list.take(list.len() as int) == list);
    }
    out
}

/// Parts the classes that have a preference from those that have none: the
/// first go on to the rounds, each of the others gives an error.
pub(crate) fn part_by_labs(classes: Vec<(usize, Vec<usize>)>) -> (r: (Vec<(usize, Vec<usize>)>, Vec<Error>))
    ensures
        class_list(r.0@) == class_list(classes@).filter(has_labs()),
        r.1@ == errors_of(class_list(classes@), Seq::empty()),
{
    let mut kept: Vec<(usize, Vec<usize>)> = Vec::new();
    let mut errors: Vec<Error> = Vec::new();
    let ghost list = class_list(classes@);
    let ghost no_labs = |c: (usize, Seq<usize>)| Error::NoLabs(c.0);
    proof {
        assert(list.take(0) == Seq::<(usize, Seq<usize>)>::empty());
        assert(class_list(kept@) =~= Seq::<(usize, Seq<usize>)>::empty());
        assert(errors@ =~= list.take(0).filter(lacks_labs()).map_values(no_labs));
    }
    for c in it: classes
        invariant
            it.seq() == classes@,
            list == class_list(classes@),
            no_labs == |c: (usize, Seq<usize>)| Error::NoLabs(c.0),
            class_list(kept@) == list.take(it.index()).filter(has_labs()),
            errors@ == list.take(it.index()).filter(lacks_labs()).map_values(no_labs),
    {
        proof {
            reveal(Seq::filter);
            assert(list.take(it.index() + 1).drop_last() == list.take(it.index()));
            assert(list.take(it.index() + 1).last() == (c.0, c.1@));
        }
        let ghost before = class_list(kept@);
        let ghost errors_before = errors@;
        if c.1.len() == 0 {
            errors.push(Error::NoLabs(c.0));
            assert(errors@ =~= list.take(it.index() + 1).filter(lacks_labs()).map_values(no_labs));
        } else {
            kept.push(c);
            assert(class_list(kept@) =~= before.push((c.0, c.1@)));
        }
    }
    proof {
        assert(list.take(list.len() as int) == list);
        assert(errors@ =~= errors_of(list, Seq::empty()));
    }
    (kept, errors)
}

/// The first preference of the first entry of `class`.
fn first_choice_of(classes: &Vec<(usize, Vec<usize>)>, class: usize) -> (r: Option<usize>)
    ensures
        r == first_choice(class_list(classes@), class),
{
    let ghost list = class_list(classes@);
    proof {
        assert(list.skip(0) == list);
    }
    for i in 0..classes.len()
        invariant
            list == class_list(classes@),
            first_choice(list, class) == first_choice(list.skip(i as int), class),
    {
        proof {
            assert(list.skip(i as int).drop_first() == list.skip(i + 1));
            assert(list.skip(i as int)[0] == (classes@[i as int].0, classes@[i as int].1@));
        }
        if classes[i].0 == class {
            if classes[i].1.len() > 0 {
                return Some(classes[i].1[0]);
            } else {
                return None;
            }
        }
    }
    None
}

/// The warnings for the placements `slotted` of the classes `classes`.
pub(crate) fn warnings_for(slotted: &Vec<LabSlottedClass>, classes: &Vec<(usize, Vec<usize>)>) -> (r: Vec<Warning>)
    ensures
        r@ == warnings_of(slotted@, class_list(classes@)),
{
    let mut out: Vec<Warning> = Vec::new();
    proof {
        assert(slotted@.take(0) == Seq::<LabSlottedClass>::empty());
    }
    for i in 0..slotted.len()
        invariant
            out@ == warnings_of(slotted@.take(i as int), class_list(classes@)),
    {
        proof {
            assert(slotted@.take(i + 1).drop_last() == slotted@.take(i as int));
        }
        let p = slotted[i];
        match first_choice_of(classes, p.class) {
            Some(was) => {
                if was != p.lab {
                    out.push(Warning::UndesiredLab { class: p.class, was, got: p.lab });
                }
            },
            None => {},
        }
    }
    proof {
        assert(slotted@.take(slotted.len() as int) == slotted@);
    }
    out
}

} // verus!
