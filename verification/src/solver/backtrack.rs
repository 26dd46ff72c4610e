//! A depth-first search over states, independent of the problem searched.
//!
//! A problem gives a read-only context and a state type. A state knows
//! whether it is a goal and which states follow it. [`solve`] returns the
//! first goal in depth-first order, children taken in the order in which
//! they are given, or `None` where no goal can be reached.
use vstd::prelude::*;

verus! {

/// A state of a search problem over the context `Ct`.
///
/// The search is stated over the state's view. `height` bounds the number of
/// steps that can still be taken from a state; every step lowers it.
pub trait State<Ct: View>: Sized + View {
    /// What the search asks of a state it is run on.
    spec fn valid(v: Self::V, ctx: Ct::V) -> bool;

    /// The state is a goal.
    spec fn goal(v: Self::V, ctx: Ct::V) -> bool;

    /// The states that follow `v`, in the order in which they are tried.
    spec fn next(v: Self::V, ctx: Ct::V) -> Seq<Self::V>;

    /// A bound on the number of steps left from `v`.
    spec fn height(v: Self::V, ctx: Ct::V) -> nat;

    /// Each state that follows a valid state is valid and lower.
    proof fn lemma_next(v: Self::V, ctx: Ct::V, i: int)
        requires
            Self::valid(v, ctx),
            !Self::goal(v, ctx),
            0 <= i < Self::next(v, ctx).len(),
        ensures
            Self::valid(Self::next(v, ctx)[i], ctx),
            Self::height(Self::next(v, ctx)[i], ctx) < Self::height(v, ctx),
    ;

    /// Get all the successive states from the current state
    fn successors(&self, ctx: &Ct) -> (r: Vec<Self>)
        requires
            Self::valid(self@, ctx@),
        ensures
            r@.len() == Self::next(self@, ctx@).len(),
            forall|i: int| 0 <= i < r@.len() ==> (#[trigger] r@[i])@ == Self::next(self@, ctx@)[i],
    ;

    /// Check if the state is the final/goal state. It must also be valid.
    fn is_goal(&self, ctx: &Ct) -> (r: bool)
        requires
            Self::valid(self@, ctx@),
        ensures
            r == Self::goal(self@, ctx@),
    ;
}

/// The goal that the depth-first search from `v` finds: `v` itself where it
/// is a goal, else what the first child that leads to a goal finds.
pub open spec fn search<St: State<Ct>, Ct: View>(ctx: Ct::V, v: St::V) -> Option<St::V>
    decreases St::height(v, ctx), 1nat, 0nat,
{
    if St::goal(v, ctx) {
        Some(v)
    } else {
        first_found::<St, Ct>(ctx, St::next(v, ctx), St::height(v, ctx))
    }
}

/// What the first of `children` that leads to a goal finds. A child that is
/// not below `bound` is passed over; under a valid state there is none.
pub open spec fn first_found<St: State<Ct>, Ct: View>(ctx: Ct::V, children: Seq<St::V>, bound: nat) -> Option<
    St::V,
>
    decreases bound, 0nat, children.len(),
{
    if children.len() == 0 {
        None
    } else if St::height(children[0], ctx) < bound {
        match search::<St, Ct>(ctx, children[0]) {
            Some(g) => Some(g),
            None => first_found::<St, Ct>(ctx, children.drop_first(), bound),
        }
    } else {
        first_found::<St, Ct>(ctx, children.drop_first(), bound)
    }
}

/// Steps lead from `v` to the goal `g`, and no state before `g` on the way is a goal.
pub open spec fn leads_to<St: State<Ct>, Ct: View>(ctx: Ct::V, v: St::V, g: St::V) -> bool
    decreases St::height(v, ctx),
{
    if St::goal(v, ctx) {
        g == v
    } else {
        exists|i: int|
            0 <= i < St::next(v, ctx).len() && St::height(#[trigger] St::next(v, ctx)[i], ctx)
                < St::height(v, ctx) && leads_to::<St, Ct>(ctx, St::next(v, ctx)[i], g)
    }
}

/// What the search returns is a goal that steps lead to, and the search
/// fails only where steps lead to no goal.
pub proof fn lemma_search<St: State<Ct>, Ct: View>(ctx: Ct::V, v: St::V)
    requires
        St::valid(v, ctx),
    ensures
        search::<St, Ct>(ctx, v) matches Some(g) ==> St::goal(g, ctx) && St::valid(g, ctx)
            && leads_to::<St, Ct>(ctx, v, g),
        search::<St, Ct>(ctx, v) is None ==> forall|g: St::V| !leads_to::<St, Ct>(ctx, v, g),
    decreases St::height(v, ctx), 1nat, 0nat,
{
    if !St::goal(v, ctx) {
        lemma_first_found::<St, Ct>(ctx, v, 0);
        assert(St::next(v, ctx).skip(0) == St::next(v, ctx));
        if search::<St, Ct>(ctx, v) is None {
            assert forall|g: St::V| !leads_to::<St, Ct>(ctx, v, g) by {
                if leads_to::<St, Ct>(ctx, v, g) {
                    let i = choose|i: int|
                        0 <= i < St::next(v, ctx).len() && St::height(
                            #[trigger] St::next(v, ctx)[i],
                            ctx,
                        ) < St::height(v, ctx) && leads_to::<St, Ct>(ctx, St::next(v, ctx)[i], g);
                    assert(!leads_to::<St, Ct>(ctx, St::next(v, ctx)[i], g));
                }
            }
        }
    }
}

/// `lemma_search`, for the children of `v` from the `k`-th on.
pub proof fn lemma_first_found<St: State<Ct>, Ct: View>(ctx: Ct::V, v: St::V, k: int)
    requires
        St::valid(v, ctx),
        !St::goal(v, ctx),
        0 <= k <= St::next(v, ctx).len(),
    ensures
        first_found::<St, Ct>(ctx, St::next(v, ctx).skip(k), St::height(v, ctx)) matches Some(g)
            ==> St::goal(g, ctx) && St::valid(g, ctx) && exists|i: int|
            k <= i < St::next(v, ctx).len() && St::height(#[trigger] St::next(v, ctx)[i], ctx)
                < St::height(v, ctx) && leads_to::<St, Ct>(ctx, St::next(v, ctx)[i], g),
        first_found::<St, Ct>(ctx, St::next(v, ctx).skip(k), St::height(v, ctx)) is None
            ==> forall|i: int, g: St::V|
            k <= i < St::next(v, ctx).len() ==> !#[trigger] leads_to::<St, Ct>(
                ctx,
                St::next(v, ctx)[i],
                g,
            ),
    decreases St::height(v, ctx), 0nat, St::next(v, ctx).len() - k,
{
    let all = St::next(v, ctx);
    let rest = all.skip(k);
    if k < all.len() {
        St::lemma_next(v, ctx, k);
        assert(rest[0] == all[k]);
        assert(rest.drop_first() == all.skip(k + 1));
        lemma_search::<St, Ct>(ctx, all[k]);
        if search::<St, Ct>(ctx, all[k]) is None {
            lemma_first_found::<St, Ct>(ctx, v, k + 1);
        }
    }
}

/// Solve the backtracking problem using the specified state (recursive)
pub fn solve<St: State<Ct>, Ct: View>(ctx: &Ct, state: St) -> (r: Option<St>)
    requires
        St::valid(state@, ctx@),
    ensures
        match r {
            Some(g) => search::<St, Ct>(ctx@, state@) == Some(g@),
            None => search::<St, Ct>(ctx@, state@) is None,
        },
    decreases St::height(state@, ctx@),
{
    // Return once we found the goal
    if state.is_goal(ctx) {
        return Some(state);
    }
    // Search the successors for the goal
    let children = state.successors(ctx);
    let ghost all = St::next(state@, ctx@);
    let ghost bound = St::height(state@, ctx@);
    proof {
        assert(all.skip(0) == all);
    }
    for child in it: children
        invariant
            St::valid(state@, ctx@),
            !St::goal(state@, ctx@),
            all == St::next(state@, ctx@),
            bound == St::height(state@, ctx@),
            it.seq().len() == all.len(),
            forall|i: int| 0 <= i < all.len() ==> (#[trigger] it.seq()[i])@ == all[i],
            first_found::<St, Ct>(ctx@, all, bound) == first_found::<St, Ct>(
                ctx@,
                all.skip(it.index()),
                bound,
            ),
    {
        proof {
            St::lemma_next(state@, ctx@, it.index());
            assert(all.skip(it.index())[0] == all[it.index()]);
            assert(all.skip(it.index()).drop_first() == all.skip(it.index() + 1));
        }
        // Check if the state leads to a solution
        match solve(ctx, child) {
            Some(found) => {
                return Some(found);
            },
            None => {},
        }
    }
    // No solution found, prune this tree
    None
}

} // verus!
