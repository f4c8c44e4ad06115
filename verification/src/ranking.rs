//! Ranking of scores: the order in which a population is laid out after it
//! has been evaluated.
use vstd::prelude::*;

verus! {

/// Whether `order` holds position `k`.
pub open spec fn holds_position(order: Seq<usize>, k: int) -> bool {
    exists|i: int| 0 <= i < order.len() && #[trigger] order[i] == k
}

/// `order` ranks `scores`: it holds every position of `scores` once, highest
/// score first, and positions of equal score in ascending order.
pub open spec fn is_ranking(order: Seq<usize>, scores: Seq<u64>) -> bool {
    &&& order.len() == scores.len()
    &&& forall|i: int| 0 <= i < order.len() ==> #[trigger] order[i] < scores.len()
    &&& forall|k: int| 0 <= k < scores.len() ==> #[trigger] holds_position(order, k)
    &&& forall|i: int, j: int|
        0 <= i < j < order.len() ==> scores[order[i] as int] > scores[order[j] as int] || (
        scores[order[i] as int] == scores[order[j] as int] && order[i] < order[j])
}

/// The positions of `scores`, highest score first; positions of equal score
/// keep their order.
pub fn sorted_order(scores: &Vec<u64>) -> (order: Vec<usize>)
    ensures
        is_ranking(order@, scores@),
{
    let mut order: Vec<usize> = Vec::new();
    let mut k: usize = 0;
    while k < scores.len()
        invariant
            k <= scores.len(),
            order@.len() == k,
            forall|i: int| 0 <= i < order@.len() ==> #[trigger] order@[i] < k,
            forall|p: int| 0 <= p < k ==> #[trigger] holds_position(order@, p),
            forall|i: int, j: int|
                0 <= i < j < order@.len() ==> scores@[order@[i] as int] > scores@[order@[j] as int]
                    || (scores@[order@[i] as int] == scores@[order@[j] as int] && order@[i]
                    < order@[j]),
        decreases scores.len() - k,
    {
        let mut pos: usize = order.len();
        while pos > 0 && scores[order[pos - 1]] < scores[k]
            invariant
                pos <= order@.len() == k < scores@.len(),
                forall|i: int| 0 <= i < order@.len() ==> #[trigger] order@[i] < k,
                forall|i: int| pos <= i < order@.len() ==> scores@[#[trigger] order@[i] as int] < scores@[k as int],
            decreases pos,
        {
            pos = pos - 1;
        }
        let ghost before = order@;
        order.insert(pos, k);
        proof {
            assert forall|p: int| 0 <= p < k + 1 implies #[trigger] holds_position(order@, p) by {
                if p == k {
                    assert(order@[pos as int] == p);
                } else {
                    assert(holds_position(before, p));
                    let i = choose|i: int| 0 <= i < before.len() && before[i] == p;
                    if i < pos {
                        assert(order@[i] == p);
                    } else {
                        assert(order@[i + 1] == p);
                    }
                }
            }
            assert forall|i: int, j: int| 0 <= i < j < order@.len() implies scores@[order@[i] as int]
                > scores@[order@[j] as int] || (scores@[order@[i] as int] == scores@[order@[j] as int]
                && order@[i] < order@[j]) by {
                let bi = if i < pos { i } else { i - 1 };
                let bj = if j < pos { j } else { j - 1 };
                if i == pos {
                    assert(order@[j] == before[bj]);
                } else if j == pos {
                    assert(order@[i] == before[bi]);
                    if pos > 0 {
                        assert(bi <= pos - 1);
                        if bi < pos - 1 {
                            assert(scores@[before[bi] as int] >= scores@[before[pos - 1] as int]);
                        }
                    }
                } else {
                    assert(order@[i] == before[bi] && order@[j] == before[bj]);
                }
            }
        }
        k = k + 1;
    }
    order
}

} // verus!
