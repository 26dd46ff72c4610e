//! What holds of every solution.
use crate::school::School;
use crate::seqs::lemma_filter_all;
use crate::seqs::lemma_filter_member;
use crate::seqs::lemma_filter_none;
use crate::solver::backtrack;
use crate::solver::board::at;
use crate::solver::board::before;
use crate::solver::board::lemma_leads_to;
use crate::solver::board::lemma_leads_to_once;
use crate::solver::board::lemma_pick_leads;
use crate::solver::board::newly_placed;
use crate::solver::board::start;
use crate::solver::board::Context;
use crate::solver::board::Partial;
use crate::solver::plan::allowed_labs;
use crate::solver::plan::candidates;
use crate::solver::plan::first_choice;
use crate::solver::plan::has_labs;
use crate::solver::plan::is_not;
use crate::solver::plan::lacks_labs;
use crate::solver::plan::lemma_candidates;
use crate::solver::plan::lemma_failed_round;
use crate::solver::plan::lemma_round_items;
use crate::solver::plan::plan;
use crate::solver::plan::round;
use crate::solver::plan::round_result;
use crate::solver::plan::slack;
use crate::solver::plan::solves;
use crate::solver::plan::warnings_of;
use crate::solver::plan::widest;
use crate::solver::solution::LabSlottedClass;
use crate::solver::solution::SolutionView;
use vstd::prelude::*;

verus! {

/// Some entry of `class` in the list names `lab` among its preferences.
pub open spec fn prefers(classes: Seq<(usize, Seq<usize>)>, class: usize, lab: usize) -> bool {
    exists|j: int| 0 <= j < classes.len() && (#[trigger] classes[j]).0 == class && classes[j].1.contains(lab)
}

/// `class` may hold `at`: it occupies that slot in the timetable, and it
/// names that laboratory among its preferences.
pub open spec fn may_hold(school: &School, classes: Seq<(usize, Seq<usize>)>, class: usize, at: (
    usize,
    usize,
)) -> bool {
    school.slots_of_spec(class).contains(at.1) && prefers(classes, class, at.0)
}

/// Every option of a round is a pair that its class may hold.
pub proof fn lemma_round_options(school: &School, classes: Seq<(usize, Seq<usize>)>, relax: nat)
    ensures
        forall|c: usize, i: int|
            round(school, classes, relax).options.contains_key(c) && 0 <= i < round(
                school,
                classes,
                relax,
            ).options[c].len() ==> may_hold(
                school,
                classes,
                c,
                #[trigger] round(school, classes, relax).options[c][i],
            ),
    decreases classes.len(),
{
    if classes.len() > 0 {
        let front = classes.drop_last();
        let before = round(school, front, relax);
        let all = round(school, classes, relax);
        let class = classes.last().0;
        let labs = classes.last().1;
        let options = candidates(school.slots_of_spec(class), labs, relax);
        lemma_round_options(school, front, relax);
        assert forall|c: usize, i: int|
            all.options.contains_key(c) && 0 <= i < all.options[c].len() implies may_hold(
            school,
            classes,
            c,
            #[trigger] all.options[c][i],
        ) by {
            let o = all.options[c][i];
            if options.len() > 0 && c == class {
                assert(options.contains(o));
                lemma_candidates(school.slots_of_spec(class), labs, relax, o.0, o.1);
                let allowed = allowed_labs(labs, relax);
                let k = choose|k: int| 0 <= k < allowed.len() && allowed[k] == o.0;
                assert(labs[k] == o.0);
                assert(classes[classes.len() - 1].1.contains(o.0));
            } else {
                assert(may_hold(school, front, c, before.options[c][i]));
                let j = choose|j: int|
                    0 <= j < front.len() && (#[trigger] front[j]).0 == c && front[j].1.contains(o.0);
                assert(classes[j].0 == c);
            }
        }
    }
}

/// A class that names a laboratory in the list without some class names it in the whole list.
pub proof fn lemma_prefers_kept(
    classes: Seq<(usize, Seq<usize>)>,
    pred: spec_fn((usize, Seq<usize>)) -> bool,
    class: usize,
    lab: usize,
)
    requires
        prefers(classes.filter(pred), class, lab),
    ensures
        prefers(classes, class, lab),
{
    let kept = classes.filter(pred);
    let j = choose|j: int| 0 <= j < kept.len() && (#[trigger] kept[j]).0 == class && kept[j].1.contains(lab);
    assert(kept.contains(kept[j]));
    lemma_filter_member(classes, pred, kept[j]);
    let i = choose|i: int| 0 <= i < classes.len() && classes[i] == kept[j];
    assert(classes[i].0 == class);
}

/// Whatever the rounds place, they place where the class may be held.
pub proof fn lemma_plan_placed(school: &School, classes: Seq<(usize, Seq<usize>)>, relax: nat)
    ensures
        forall|k: (usize, usize)| #[trigger]
            plan(school, classes, relax).placed.contains_key(k) ==> may_hold(
                school,
                classes,
                plan(school, classes, relax).placed[k],
                k,
            ),
    decreases classes.len(), slack(classes, relax),
{
    if classes.len() > 0 {
        let r = round(school, classes, relax);
        lemma_round_items(school, classes, relax);
        match round_result(school, classes, relax) {
            Some(b) => {
                backtrack::lemma_search::<Partial, Context>(r.options, start(r.items));
                lemma_leads_to(r.options, start(r.items), b);
                lemma_round_options(school, classes, relax);
                assert forall|k: (usize, usize)| #[trigger] b.decided.contains_key(k) implies may_hold(
                    school,
                    classes,
                    b.decided[k],
                    k,
                ) by {
                    let options = r.options[b.decided[k]];
                    let i = choose|i: int| 0 <= i < options.len() && options[i] == k;
                    assert(may_hold(school, classes, b.decided[k], r.options[b.decided[k]][i]));
                }
                assert(plan(school, classes, relax).placed == b.decided);
            },
            None => {
                if relax < widest(classes) {
                    lemma_plan_placed(school, classes, relax + 1);
                    assert(plan(school, classes, relax) == plan(school, classes, relax + 1));
                } else {
                    let first = r.items[0];
                    lemma_failed_round(school, classes, relax);
                    let rest = plan(school, classes.filter(is_not(first)), 1);
                    lemma_plan_placed(school, classes.filter(is_not(first)), 1);
                    assert forall|k: (usize, usize)| #[trigger] rest.placed.contains_key(k) implies may_hold(
                        school,
                        classes,
                        rest.placed[k],
                        k,
                    ) by {
                        lemma_prefers_kept(classes, is_not(first), rest.placed[k], k.0);
                    }
                    assert(plan(school, classes, relax).placed == rest.placed);
                }
            },
        }
    }
}

/// In a solution no two placements share a laboratory at a slot, and each
/// class is placed at a slot it occupies in the timetable, in a laboratory
/// that it names among its preferences.
pub proof fn lemma_solution_sound(school: &School, classes: Seq<(usize, Seq<usize>)>, sol: SolutionView)
    requires
        solves(school, classes, sol),
    ensures
        forall|i: int, j: int|
            0 <= i < j < sol.slotted.len() ==> at(#[trigger] sol.slotted[i]) != at(
                #[trigger] sol.slotted[j],
            ),
        forall|i: int|
            0 <= i < sol.slotted.len() ==> may_hold(
                school,
                classes,
                (#[trigger] sol.slotted[i]).class,
                at(sol.slotted[i]),
            ),
{
    let kept = classes.filter(has_labs());
    let p = plan(school, kept, 1);
    lemma_plan_placed(school, kept, 1);
    assert forall|i: int, j: int| 0 <= i < j < sol.slotted.len() implies at(
        #[trigger] sol.slotted[i],
    ) != at(#[trigger] sol.slotted[j]) by {
        assert(before(at(sol.slotted[i]), at(sol.slotted[j])));
    }
    assert forall|i: int| 0 <= i < sol.slotted.len() implies may_hold(
        school,
        classes,
        (#[trigger] sol.slotted[i]).class,
        at(sol.slotted[i]),
    ) by {
        let k = at(sol.slotted[i]);
        assert(p.placed.contains_key(k));
        lemma_prefers_kept(classes, has_labs(), sol.slotted[i].class, k.0);
    }
}

/// No class stands in the list twice.
pub open spec fn distinct_classes(classes: Seq<(usize, Seq<usize>)>) -> bool {
    forall|i: int, j: int| 0 <= i < j < classes.len() ==> (#[trigger] classes[i]).0 != (#[trigger] classes[j]).0
}

/// The candidates of the `i`-th class of the list at depth `relax`.
pub open spec fn candidates_at(school: &School, classes: Seq<(usize, Seq<usize>)>, i: int, relax: nat) -> Seq<
    (usize, usize),
> {
    candidates(school.slots_of_spec(classes[i].0), classes[i].1, relax)
}

/// `pick` gives each class of the list one of its first-choice candidates, and no two the same.
pub open spec fn is_free_choice(school: &School, classes: Seq<(usize, Seq<usize>)>, pick: Seq<(usize, usize)>) -> bool {
    &&& pick.len() == classes.len()
    &&& forall|i: int| 0 <= i < classes.len() ==> candidates_at(school, classes, i, 1).contains(#[trigger] pick[i])
    &&& forall|i: int, j: int| 0 <= i < j < pick.len() ==> pick[i] != pick[j]
}

/// Where no class stands in the list twice and each has a candidate, all
/// take part in the round, in the order of the list, each with its candidates.
pub proof fn lemma_round_distinct(school: &School, classes: Seq<(usize, Seq<usize>)>, relax: nat)
    requires
        distinct_classes(classes),
        forall|i: int| 0 <= i < classes.len() ==> (#[trigger] candidates_at(school, classes, i, relax)).len() > 0,
    ensures
        round(school, classes, relax).items.len() == classes.len(),
        forall|i: int| 0 <= i < classes.len() ==> (#[trigger] round(school, classes, relax).items[i]) == classes[i].0,
        forall|i: int|
            0 <= i < classes.len() ==> round(school, classes, relax).options.contains_key(
                (#[trigger] classes[i]).0,
            ) && round(school, classes, relax).options[classes[i].0] == candidates_at(
                school,
                classes,
                i,
                relax,
            ),
        forall|c: usize| #[trigger]
            round(school, classes, relax).options.contains_key(c) ==> exists|i: int|
                0 <= i < classes.len() && (#[trigger] classes[i]).0 == c,
    decreases classes.len(),
{
    if classes.len() > 0 {
        let front = classes.drop_last();
        let n = classes.len() - 1;
        assert forall|i: int| 0 <= i < front.len() implies (#[trigger] candidates_at(
            school,
            front,
            i,
            relax,
        )).len() > 0 by {
            assert(candidates_at(school, front, i, relax) == candidates_at(school, classes, i, relax));
        }
        assert(distinct_classes(front)) by {
            assert forall|i: int, j: int| 0 <= i < j < front.len() implies (#[trigger] front[i]).0 != (
            #[trigger] front[j]).0 by {
                assert(classes[i].0 != classes[j].0);
            }
        }
        lemma_round_distinct(school, front, relax);
        let before = round(school, front, relax);
        let all = round(school, classes, relax);
        assert(candidates_at(school, classes, n, relax).len() > 0);
        assert forall|i: int| 0 <= i < classes.len() implies all.options.contains_key(
            (#[trigger] classes[i]).0,
        ) && all.options[classes[i].0] == candidates_at(school, classes, i, relax) by {
            if i < n {
                assert(front[i] == classes[i]);
                assert(classes[i].0 != classes[n].0);
                assert(candidates_at(school, front, i, relax) == candidates_at(school, classes, i, relax));
            }
        }
        assert forall|c: usize| #[trigger] all.options.contains_key(c) implies exists|i: int|
            0 <= i < classes.len() && (#[trigger] classes[i]).0 == c by {
            if c == classes[n].0 {
            } else {
                assert(before.options.contains_key(c));
                let i = choose|i: int| 0 <= i < front.len() && (#[trigger] front[i]).0 == c;
                assert(classes[i].0 == c);
            }
        }
    }
}

/// The search places the classes `items` wherever each of them can be
/// given an option of its own: it fails only where no such choice exists.
pub proof fn lemma_search_finds(options: Map<usize, Seq<(usize, usize)>>, items: Seq<usize>, pick: Seq<(usize, usize)>)
    requires
        forall|i: int| 0 <= i < items.len() ==> options.contains_key(#[trigger] items[i]),
        pick.len() == items.len(),
        forall|i: int| 0 <= i < pick.len() ==> options[items[i]].contains(#[trigger] pick[i]),
        forall|i: int, j: int| 0 <= i < j < pick.len() ==> pick[i] != pick[j],
    ensures
        backtrack::search::<Partial, Context>(options, start(items)) is Some,
{
    let reached = lemma_pick_leads(options, start(items), pick);
    backtrack::lemma_search::<Partial, Context>(options, start(items));
}

/// The first choice of a class that stands in the list once is the first
/// preference of its entry.
pub proof fn lemma_first_choice(classes: Seq<(usize, Seq<usize>)>, i: int)
    requires
        distinct_classes(classes),
        0 <= i < classes.len(),
        classes[i].1.len() > 0,
    ensures
        first_choice(classes, classes[i].0) == Some(classes[i].1[0]),
    decreases classes.len(),
{
    if i > 0 {
        let rest = classes.drop_first();
        assert(classes[0].0 != classes[i].0);
        assert(distinct_classes(rest)) by {
            assert forall|a: int, b: int| 0 <= a < b < rest.len() implies (#[trigger] rest[a]).0 != (
            #[trigger] rest[b]).0 by {
                assert(classes[a + 1].0 != classes[b + 1].0);
            }
        }
        assert(rest[i - 1] == classes[i]);
        lemma_first_choice(rest, i - 1);
    }
}

/// Placements that all are in the first choice of their class give no warning.
pub proof fn lemma_no_warnings(slotted: Seq<LabSlottedClass>, classes: Seq<(usize, Seq<usize>)>)
    requires
        forall|j: int|
            0 <= j < slotted.len() ==> first_choice(classes, (#[trigger] slotted[j]).class) == Some(
                slotted[j].lab,
            ),
    ensures
        warnings_of(slotted, classes).len() == 0,
    decreases slotted.len(),
{
    if slotted.len() > 0 {
        assert forall|j: int| 0 <= j < slotted.drop_last().len() implies first_choice(
            classes,
            (#[trigger] slotted.drop_last()[j]).class,
        ) == Some(slotted.drop_last()[j].lab) by {
            assert(slotted.drop_last()[j] == slotted[j]);
        }
        lemma_no_warnings(slotted.drop_last(), classes);
        assert(first_choice(classes, slotted[slotted.len() - 1].class) == Some(
            slotted[slotted.len() - 1].lab,
        ));
    }
}

/// Where no class stands in the list twice and each can be given a
/// first-choice candidate of its own, the solution places every class, in
/// its first choice, without an error and without a warning.
pub proof fn lemma_no_conflict(
    school: &School,
    classes: Seq<(usize, Seq<usize>)>,
    pick: Seq<(usize, usize)>,
    sol: SolutionView,
)
    requires
        distinct_classes(classes),
        is_free_choice(school, classes, pick),
        solves(school, classes, sol),
    ensures
        sol.errors.len() == 0,
        sol.warnings.len() == 0,
        forall|i: int|
            0 <= i < classes.len() ==> exists|j: int|
                0 <= j < sol.slotted.len() && (#[trigger] sol.slotted[j]).class == (
                #[trigger] classes[i]).0,
        forall|j: int|
            0 <= j < sol.slotted.len() ==> first_choice(classes, (#[trigger] sol.slotted[j]).class)
                == Some(sol.slotted[j].lab),
{
    // every class has a candidate, so every class has a preference
    assert forall|i: int| 0 <= i < classes.len() implies (#[trigger] candidates_at(
        school,
        classes,
        i,
        1,
    )).len() > 0 && classes[i].1.len() > 0 by {
        let c = candidates_at(school, classes, i, 1);
        assert(c.contains(pick[i]));
        lemma_candidates(school.slots_of_spec(classes[i].0), classes[i].1, 1, pick[i].0, pick[i].1);
        let allowed = allowed_labs(classes[i].1, 1);
        let k = choose|k: int| 0 <= k < allowed.len() && allowed[k] == pick[i].0;
    }
    assert forall|i: int| 0 <= i < classes.len() implies has_labs()(#[trigger] classes[i]) by {
        assert(candidates_at(school, classes, i, 1).len() > 0);
    }
    lemma_filter_all(classes, has_labs());
    assert forall|i: int| 0 <= i < classes.len() implies !lacks_labs()(#[trigger] classes[i]) by {
        assert(candidates_at(school, classes, i, 1).len() > 0);
    }
    lemma_filter_none(classes, lacks_labs());
    // the first round places them all
    let r = round(school, classes, 1);
    lemma_round_distinct(school, classes, 1);
    lemma_round_items(school, classes, 1);
    let b0 = start(r.items);
    assert forall|i: int| 0 <= i < pick.len() implies r.options[b0.remaining[i]].contains(
        #[trigger] pick[i],
    ) && !b0.decided.contains_key(pick[i]) by {
        assert(r.items[i] == classes[i].0);
        assert(r.options[classes[i].0] == candidates_at(school, classes, i, 1));
    }
    let reached = lemma_pick_leads(r.options, b0, pick);
    backtrack::lemma_search::<Partial, Context>(r.options, b0);
    let p = plan(school, classes, 1);
    if classes.len() == 0 {
        assert(sol.slotted.len() == 0) by {
            if sol.slotted.len() > 0 {
                assert(p.placed.contains_key(at(sol.slotted[0])));
            }
        }
    } else {
        let b = round_result(school, classes, 1)->0;
        assert(p.placed == b.decided && p.dropped.len() == 0 && p.classes == classes);
        lemma_leads_to(r.options, b0, b);
        assert forall|i: int| 0 <= i < classes.len() implies exists|j: int|
            0 <= j < sol.slotted.len() && (#[trigger] sol.slotted[j]).class == (#[trigger] classes[i]).0 by {
            assert(newly_placed(b0, b, b0.remaining[i]));
            let k = choose|k: (usize, usize)| #[trigger]
                b.decided.contains_key(k) && b.decided[k] == b0.remaining[i] && !b0.decided.contains_key(
                    k,
                );
            assert(p.placed.contains_key(k));
            let j = choose|j: int| 0 <= j < sol.slotted.len() && at(#[trigger] sol.slotted[j]) == k;
            assert(sol.slotted[j].class == classes[i].0);
        }
        assert forall|j: int| 0 <= j < sol.slotted.len() implies first_choice(
            classes,
            (#[trigger] sol.slotted[j]).class,
        ) == Some(sol.slotted[j].lab) by {
            let k = at(sol.slotted[j]);
            let class = sol.slotted[j].class;
            assert(b.decided.contains_key(k) && b.decided[k] == class);
            assert(r.options.contains_key(class) && r.options[class].contains(k));
            let i = choose|i: int| 0 <= i < classes.len() && (#[trigger] classes[i]).0 == class;
            assert(r.options[classes[i].0] == candidates_at(school, classes, i, 1));
            lemma_candidates(school.slots_of_spec(class), classes[i].1, 1, k.0, k.1);
            let allowed = allowed_labs(classes[i].1, 1);
            let n = choose|n: int| 0 <= n < allowed.len() && allowed[n] == k.0;
            assert(candidates_at(school, classes, i, 1).len() > 0);
            lemma_first_choice(classes, i);
        }
    }
    lemma_no_warnings(sol.slotted, classes);
}

/// What is left of a list without a class twice has no class twice.
pub proof fn lemma_distinct_kept(classes: Seq<(usize, Seq<usize>)>, pred: spec_fn((usize, Seq<usize>)) -> bool)
    requires
        distinct_classes(classes),
    ensures
        distinct_classes(classes.filter(pred)),
    decreases classes.len(),
{
    reveal(Seq::filter);
    if classes.len() > 0 {
        let front = classes.drop_last();
        assert(distinct_classes(front)) by {
            assert forall|i: int, j: int| 0 <= i < j < front.len() implies (#[trigger] front[i]).0 != (
            #[trigger] front[j]).0 by {
                assert(classes[i].0 != classes[j].0);
            }
        }
        lemma_distinct_kept(front, pred);
        let kept = classes.filter(pred);
        let kept_front = front.filter(pred);
        assert forall|i: int, j: int| 0 <= i < j < kept.len() implies (#[trigger] kept[i]).0 != (
        #[trigger] kept[j]).0 by {
            if j < kept_front.len() {
                assert(kept_front[i].0 != kept_front[j].0);
            } else {
                assert(kept_front.contains(kept_front[i]));
                lemma_filter_member(front, pred, kept_front[i]);
                let n = choose|n: int| 0 <= n < front.len() && front[n] == kept_front[i];
                assert(classes[n].0 != classes[classes.len() - 1].0);
            }
        }
    }
}

/// The classes that take part in a round over a list without a class twice are all different.
pub proof fn lemma_round_items_distinct(school: &School, classes: Seq<(usize, Seq<usize>)>, relax: nat)
    requires
        distinct_classes(classes),
    ensures
        forall|i: int, j: int|
            0 <= i < j < round(school, classes, relax).items.len() ==> #[trigger] round(
                school,
                classes,
                relax,
            ).items[i] != #[trigger] round(school, classes, relax).items[j],
    decreases classes.len(),
{
    if classes.len() > 0 {
        let front = classes.drop_last();
        assert(distinct_classes(front)) by {
            assert forall|i: int, j: int| 0 <= i < j < front.len() implies (#[trigger] front[i]).0 != (
            #[trigger] front[j]).0 by {
                assert(classes[i].0 != classes[j].0);
            }
        }
        lemma_round_items_distinct(school, front, relax);
        lemma_round_items(school, front, relax);
        let before = round(school, front, relax).items;
        let all = round(school, classes, relax).items;
        assert forall|i: int, j: int| 0 <= i < j < all.len() implies #[trigger] all[i] != #[trigger] all[j] by {
            if j < before.len() {
                assert(before[i] != before[j]);
            } else {
                let n = choose|n: int| 0 <= n < front.len() && (#[trigger] front[n]).0 == before[i];
                assert(classes[n].0 != classes[classes.len() - 1].0);
            }
        }
    }
}

/// Where no class stands in the list twice, the rounds place no class twice.
pub proof fn lemma_plan_once(school: &School, classes: Seq<(usize, Seq<usize>)>, relax: nat)
    requires
        distinct_classes(classes),
    ensures
        forall|j: (usize, usize), k: (usize, usize)|
            plan(school, classes, relax).placed.contains_key(j) && plan(
                school,
                classes,
                relax,
            ).placed.contains_key(k) && j != k ==> #[trigger] plan(school, classes, relax).placed[j]
                != #[trigger] plan(school, classes, relax).placed[k],
    decreases classes.len(), slack(classes, relax),
{
    if classes.len() > 0 {
        let r = round(school, classes, relax);
        lemma_round_items(school, classes, relax);
        match round_result(school, classes, relax) {
            Some(b) => {
                backtrack::lemma_search::<Partial, Context>(r.options, start(r.items));
                lemma_round_items_distinct(school, classes, relax);
                lemma_leads_to_once(r.options, start(r.items), b);
                assert(plan(school, classes, relax).placed == b.decided);
            },
            None => {
                if relax < widest(classes) {
                    lemma_plan_once(school, classes, relax + 1);
                    assert(plan(school, classes, relax) == plan(school, classes, relax + 1));
                } else {
                    let first = r.items[0];
                    lemma_failed_round(school, classes, relax);
                    lemma_distinct_kept(classes, is_not(first));
                    lemma_plan_once(school, classes.filter(is_not(first)), 1);
                    assert(plan(school, classes, relax).placed == plan(
                        school,
                        classes.filter(is_not(first)),
                        1,
                    ).placed);
                }
            },
        }
    }
}

/// Where no class stands in the list twice, the solution holds at most one
/// placement for each class.
pub proof fn lemma_one_session_per_class(school: &School, classes: Seq<(usize, Seq<usize>)>, sol: SolutionView)
    requires
        distinct_classes(classes),
        solves(school, classes, sol),
    ensures
        forall|i: int, j: int|
            0 <= i < j < sol.slotted.len() ==> (#[trigger] sol.slotted[i]).class != (#[trigger] sol.slotted[j]).class,
{
    let kept = classes.filter(has_labs());
    lemma_distinct_kept(classes, has_labs());
    lemma_plan_once(school, kept, 1);
    let p = plan(school, kept, 1);
    assert forall|i: int, j: int| 0 <= i < j < sol.slotted.len() implies (#[trigger] sol.slotted[i]).class != (
    #[trigger] sol.slotted[j]).class by {
        assert(before(at(sol.slotted[i]), at(sol.slotted[j])));
        assert(p.placed.contains_key(at(sol.slotted[i])));
        assert(p.placed.contains_key(at(sol.slotted[j])));
        assert(p.placed[at(sol.slotted[i])] != p.placed[at(sol.slotted[j])]);
    }
}

} // verus!
