use labs::solver::backtrack::{solve, State};
use vstd::prelude::{int, nat, Seq, View};

/// Counts up to a number in steps of one or two.
#[derive(Debug, PartialEq)]
struct Count {
    at: u32,
    steps: Vec<u32>,
}

struct Target(u32);

// What stands for the ghost parts of the traits is never called.

impl View for Target {
    type V = u32;

    fn view(&self) -> u32 {
        unreachable!()
    }
}

impl View for Count {
    type V = (u32, Vec<u32>);

    fn view(&self) -> (u32, Vec<u32>) {
        unreachable!()
    }
}

impl State<Target> for Count {
    fn valid(_: (u32, Vec<u32>), _: u32) -> bool {
        unreachable!()
    }

    fn goal(_: (u32, Vec<u32>), _: u32) -> bool {
        unreachable!()
    }

    fn next(_: (u32, Vec<u32>), _: u32) -> Seq<(u32, Vec<u32>)> {
        unreachable!()
    }

    fn height(_: (u32, Vec<u32>), _: u32) -> nat {
        unreachable!()
    }

    fn lemma_next(_: (u32, Vec<u32>), _: u32, _: int) {
        unreachable!()
    }

    fn successors(&self, ctx: &Target) -> Vec<Self> {
        [2, 1]
            .iter()
            .filter(|step| self.at + **step <= ctx.0)
            .map(|step| {
                let mut steps = self.steps.clone();
                steps.push(*step);
                Count { at: self.at + step, steps }
            })
            .collect()
    }

    fn is_goal(&self, ctx: &Target) -> bool {
        self.at == ctx.0
    }
}

#[test]
fn engine_returns_the_first_goal_in_depth_first_order() {
    let found = solve(&Target(5), Count { at: 0, steps: vec![] }).unwrap();
    assert_eq!(found.steps, vec![2, 2, 1]);
}

#[test]
fn engine_returns_the_start_where_it_is_a_goal() {
    let start = Count { at: 3, steps: vec![9] };
    assert_eq!(solve(&Target(3), Count { at: 3, steps: vec![9] }), Some(start));
}

#[test]
fn engine_fails_where_no_goal_can_be_reached() {
    assert_eq!(solve(&Target(1), Count { at: 2, steps: vec![] }), None);
}
