//! The scheduling solver.
//!
//! A class may hold its laboratory session in any of the laboratories it
//! prefers, at any slot it occupies in the timetable. No two classes may get
//! the same laboratory at the same slot. The solver first allows every class
//! its first preference only and widens that, one rank at a time and for all
//! classes at once, until the search places every class; where the widest
//! round fails too, it drops the first class of that round and starts again.
pub mod backtrack;
pub mod board;
pub mod laws;
pub mod plan;
pub mod resolve;
pub mod solution;

use crate::rules::Rules;
use crate::school::School;
use board::at;
use board::is_listing;
use board::Partial;
use laws::lemma_solution_sound;
use laws::may_hold;
use plan::build_round;
use plan::class_list;
use plan::drop_class;
use plan::errors_of;
use plan::is_not;
use plan::lemma_failed_round;
use plan::lemma_round_items;
use plan::longest;
use plan::part_by_labs;
use plan::plan;
use plan::slack;
use plan::solves;
use plan::warnings_for;
use plan::widest;
use resolve::resolved;
use solution::Error;
use solution::LabSlottedClass;
use solution::Solution;
use vstd::prelude::*;

verus! {

/// Places the classes of `classes`, each given with its preferred
/// laboratories, most wanted first.
///
/// A class without a preference gives an error at once and takes no part.
/// The others go through the rounds that `plan` describes. The placements
/// of the solution are listed by laboratory and then by slot; a placement
/// in another laboratory than the first choice of its class gives a warning.
pub fn solve_for(school: &School, classes: Vec<(usize, Vec<usize>)>) -> (sol: Solution)
    ensures
        solves(school, class_list(classes@), sol@),
        forall|i: int, j: int|
            0 <= i < j < sol.slotted@.len() ==> at(#[trigger] sol.slotted@[i]) != at(
                #[trigger] sol.slotted@[j],
            ),
        forall|i: int|
            0 <= i < sol.slotted@.len() ==> may_hold(
                school,
                class_list(classes@),
                (#[trigger] sol.slotted@[i]).class,
                at(sol.slotted@[i]),
            ),
{
    let ghost input = class_list(classes@);
    let (mut classes, mut errors) = part_by_labs(classes);
    // `whole` is what is to be computed; `dropped` holds the classes dropped so far
    let ghost whole = plan(school, class_list(classes@), 1);
    let ghost mut dropped: Seq<usize> = Seq::empty();
    let mut slotted: Vec<LabSlottedClass> = Vec::new();
    let mut max_relax = longest(&classes);
    let mut relax: usize = 1;
    proof {
        assert(dropped + whole.dropped == whole.dropped);
    }
    while classes.len() > 0
        invariant_except_break
            relax >= 1,
            max_relax == widest(class_list(classes@)),
            whole.placed == plan(school, class_list(classes@), relax as nat).placed,
            whole.dropped == dropped + plan(school, class_list(classes@), relax as nat).dropped,
            whole.classes == plan(school, class_list(classes@), relax as nat).classes,
            errors@ == errors_of(input, dropped),
            slotted@.len() == 0,
        ensures
            is_listing(slotted@, whole.placed),
            whole.classes == class_list(classes@),
            errors@ == errors_of(input, whole.dropped),
        decreases classes.len(), slack(class_list(classes@), relax as nat),
    {
        let ghost list = class_list(classes@);
        let (ctx, remaining) = build_round(school, &classes, relax);
        proof {
            lemma_round_items(school, list, relax as nat);
        }
        let found = backtrack::solve(&ctx, Partial::new(remaining.as_slice()));
        match found {
            Some(s) => {
                slotted = s.placements();
                proof {
                    assert(dropped + Seq::<usize>::empty() == dropped);
                }
                break;
            },
            None => {},
        }
        if relax < max_relax {
            // widen the choice of every class by one rank
            relax += 1;
        } else {
            // nothing is left to widen: give up the first class of the round
            proof {
                lemma_failed_round(school, list, relax as nat);
            }
            let first = remaining[0];
            errors.push(Error::Missing(first));
            classes = drop_class(classes, first);
            proof {
                let rest = plan(school, list.filter(is_not(first)), 1);
                assert(dropped + (seq![first] + rest.dropped) == dropped.push(first) + rest.dropped);
                assert(errors@ =~= errors_of(input, dropped.push(first)));
                dropped = dropped.push(first);
            }
            max_relax = longest(&classes);
            relax = 1;
        }
    }
    proof {
        assert(dropped + Seq::<usize>::empty() == dropped);
    }
    let warnings = warnings_for(&slotted, &classes);
    let sol = Solution { slotted, errors, warnings };
    proof {
        lemma_solution_sound(school, input, sol@);
    }
    sol
}

/// Places the classes that the rules speak of: resolves the rules in the
/// school and solves for the classes that were found.
pub fn solve(school: &School, rules: &Rules) -> (sol: Solution)
    ensures
        solves(school, resolved(school, rules).classes, sol@),
        forall|i: int, j: int|
            0 <= i < j < sol.slotted@.len() ==> at(#[trigger] sol.slotted@[i]) != at(
                #[trigger] sol.slotted@[j],
            ),
        forall|i: int|
            0 <= i < sol.slotted@.len() ==> may_hold(
                school,
                resolved(school, rules).classes,
                (#[trigger] sol.slotted@[i]).class,
                at(sol.slotted@[i]),
            ),
{
    let resolution = resolve::resolve(school, rules);
    solve_for(school, resolution.classes)
}

/// A failure of the solver as a whole. No function returns one: what the
/// solver cannot place it reports in the solution.
#[derive(Debug)]
pub struct SolveError;

} // verus!
