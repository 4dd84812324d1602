//! The choice among the candidates of an aggregate: the closest one wins, the
//! lowest id among equally close ones.

use vstd::prelude::*;

verus! {

/// The index of the least score, the first one among equals: the head of a
/// stable ascending sort by score. Zero for no scores.
pub open spec fn best(scores: Seq<i32>) -> int
    decreases scores.len(),
{
    if scores.len() <= 1 {
        0
    } else {
        let b = best(scores.drop_last());
        if scores.last() < scores[b] {
            scores.len() - 1
        } else {
            b
        }
    }
}

/// `best` is an index of the scores; no score is below the one it names, and
/// every score before it is above.
pub proof fn lemma_best_is_first_least(scores: Seq<i32>)
    requires
        scores.len() > 0,
    ensures
        0 <= best(scores) < scores.len(),
        forall|j: int| 0 <= j < scores.len() ==> scores[best(scores)] <= #[trigger] scores[j],
        forall|j: int| 0 <= j < best(scores) ==> scores[best(scores)] < #[trigger] scores[j],
    decreases scores.len(),
{
    if scores.len() > 1 {
        let front = scores.drop_last();
        lemma_best_is_first_least(front);
        let b = best(front);
        assert(front[b] == scores[b]);
        assert forall|j: int| 0 <= j < scores.len() implies scores[best(scores)] <= #[trigger] scores[j] by {
            if j < front.len() {
                assert(front[j] == scores[j]);
            }
        }
        assert forall|j: int| 0 <= j < best(scores) implies scores[best(scores)] < #[trigger] scores[j] by {
            if j < front.len() {
                assert(front[j] == scores[j]);
            }
        }
    }
}

/// The position of the least score, the first one among equals.
pub fn best_vote(scores: &Vec<i32>) -> (b: usize)
    ensures
        b == best(scores@),
{
    let mut b: usize = 0;
    let mut i: usize = 1;
    if scores.len() <= 1 {
        return 0;
    }
    assert(scores@.take(1).len() == 1);
    while i < scores.len()
        invariant
            1 <= i <= scores@.len(),
            b < i,
            b == best(scores@.take(i as int)),
        decreases scores@.len() - i,
    {
        proof {
            let upto = scores@.take(i as int + 1);
            assert(upto.drop_last() =~= scores@.take(i as int));
            assert(upto.last() == scores@[i as int]);
            assert(upto[b as int] == scores@[b as int]);
        }
        if scores[i] < scores[b] {
            b = i;
        }
        i += 1;
    }
    assert(scores@.take(scores@.len() as int) =~= scores@);
    b
}

} // verus!
