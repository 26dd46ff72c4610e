use labs::solver::backtrack::solve;
use labs::solver::solution::LabSlottedClass;
use labs::solver::board::{Context, Partial};

fn placed(lab: usize, slot: usize, class: usize) -> LabSlottedClass {
    LabSlottedClass { lab, slot, class }
}

#[test]
fn no_item_is_a_goal_at_once() {
    let ctx = Context::new();
    let items: Vec<usize> = vec![];
    let found = solve(&ctx, Partial::new(&items)).expect("the empty problem is solved");
    assert!(found.placements().is_empty());
    assert!(found.remaining().is_empty());
}

#[test]
fn first_option_is_taken_first() {
    let mut ctx = Context::new();
    ctx.insert(7, vec![(2, 0), (1, 0)]);
    let items = vec![7];
    let found = solve(&ctx, Partial::new(&items)).unwrap();
    assert_eq!(found.placements(), vec![placed(2, 0, 7)]);
}

#[test]
fn search_backtracks_over_the_first_choice() {
    // 1 can only take (0, 0); 0 tries (0, 0) first and has to fall back on (1, 0)
    let mut ctx = Context::new();
    ctx.insert(0, vec![(0, 0), (1, 0)]);
    ctx.insert(1, vec![(0, 0)]);
    let items = vec![0, 1];
    let found = solve(&ctx, Partial::new(&items)).unwrap();
    assert_eq!(found.placements(), vec![placed(0, 0, 1), placed(1, 0, 0)]);
}

#[test]
fn search_fails_where_options_run_out() {
    let mut ctx = Context::new();
    ctx.insert(0, vec![(0, 0)]);
    ctx.insert(1, vec![(0, 0)]);
    let items = vec![0, 1];
    assert!(solve(&ctx, Partial::new(&items)).is_none());
}

#[test]
fn an_item_without_options_fails_the_search() {
    let mut ctx = Context::new();
    ctx.insert(0, vec![]);
    let items = vec![0];
    assert!(solve(&ctx, Partial::new(&items)).is_none());
}

#[test]
fn placements_are_listed_by_lab_then_slot() {
    let mut ctx = Context::new();
    ctx.insert(0, vec![(3, 1)]);
    ctx.insert(1, vec![(1, 9)]);
    ctx.insert(2, vec![(3, 0)]);
    let items = vec![0, 1, 2];
    let found = solve(&ctx, Partial::new(&items)).unwrap();
    assert_eq!(found.placements(), vec![placed(1, 9, 1), placed(3, 0, 2), placed(3, 1, 0)]);
}

#[test]
fn an_item_given_twice_is_placed_twice() {
    let mut ctx = Context::new();
    ctx.insert(4, vec![(0, 0), (0, 1)]);
    let items = vec![4, 4];
    let found = solve(&ctx, Partial::new(&items)).unwrap();
    assert_eq!(found.placements(), vec![placed(0, 0, 4), placed(0, 1, 4)]);
}

#[test]
fn later_options_replace_earlier_ones() {
    let mut ctx = Context::new();
    ctx.insert(0, vec![(0, 0)]);
    ctx.insert(0, vec![(5, 5)]);
    let items = vec![0];
    let found = solve(&ctx, Partial::new(&items)).unwrap();
    assert_eq!(found.placements(), vec![placed(5, 5, 0)]);
}
