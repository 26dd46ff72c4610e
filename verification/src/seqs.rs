//! What a filter keeps of a sequence.
use vstd::prelude::*;

verus! {

/// What is kept by a filter is what was there and passes the test.
pub proof fn lemma_filter_member<A>(s: Seq<A>, pred: spec_fn(A) -> bool, x: A)
    ensures
        s.filter(pred).contains(x) <==> s.contains(x) && pred(x),
    decreases s.len(),
{
    reveal(Seq::filter);
    if s.len() > 0 {
        let front = s.drop_last();
        lemma_filter_member(front, pred, x);
        let kept = s.filter(pred);
        if kept.contains(x) {
            let i = choose|i: int| 0 <= i < kept.len() && kept[i] == x;
            if pred(s.last()) && i == kept.len() - 1 {
                assert(s[s.len() - 1] == x);
            } else {
                assert(front.filter(pred)[i] == x);
                assert(front.filter(pred).contains(x));
                let j = choose|j: int| 0 <= j < front.len() && front[j] == x;
                assert(s[j] == x);
            }
        }
        if s.contains(x) && pred(x) {
            let j = choose|j: int| 0 <= j < s.len() && s[j] == x;
            if j < s.len() - 1 {
                assert(front[j] == x);
                assert(front.filter(pred).contains(x));
                let i = choose|i: int| 0 <= i < front.filter(pred).len() && front.filter(pred)[i] == x;
                assert(kept[i] == x);
            } else {
                assert(kept[kept.len() - 1] == x);
            }
        }
    } else {
        if s.contains(x) {
            let j = choose|j: int| 0 <= j < s.len() && s[j] == x;
        }
    }
}

/// What is kept by a test that every entry passes is the whole sequence.
pub proof fn lemma_filter_all<A>(s: Seq<A>, pred: spec_fn(A) -> bool)
    requires
        forall|i: int| 0 <= i < s.len() ==> pred(#[trigger] s[i]),
    ensures
        s.filter(pred) == s,
    decreases s.len(),
{
    reveal(Seq::filter);
    if s.len() > 0 {
        assert forall|i: int| 0 <= i < s.drop_last().len() implies pred(#[trigger] s.drop_last()[i]) by {
            assert(s.drop_last()[i] == s[i]);
        }
        lemma_filter_all(s.drop_last(), pred);
        assert(pred(s[s.len() - 1]));
        assert(s.drop_last().push(s.last()) == s);
    }
}

/// Nothing is kept by a test that no entry passes.
pub proof fn lemma_filter_none<A>(s: Seq<A>, pred: spec_fn(A) -> bool)
    requires
        forall|i: int| 0 <= i < s.len() ==> !pred(#[trigger] s[i]),
    ensures
        s.filter(pred).len() == 0,
    decreases s.len(),
{
    reveal(Seq::filter);
    if s.len() > 0 {
        assert forall|i: int| 0 <= i < s.drop_last().len() implies !pred(#[trigger] s.drop_last()[i]) by {
            assert(s.drop_last()[i] == s[i]);
        }
        lemma_filter_none(s.drop_last(), pred);
        assert(!pred(s[s.len() - 1]));
    }
}

} // verus!
