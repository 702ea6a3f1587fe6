//! The ranking step: the pairs that share enough, most overlap first.

use vstd::prelude::*;
use crate::matcher::DuplicatePair;

verus! {

/// The overlaps never increase along the list.
pub open spec fn descending(pairs: Seq<DuplicatePair>) -> bool {
    forall|i: int, j: int|
        0 <= i < j < pairs.len() ==> pairs[i].intersection >= pairs[j].intersection
}

/// `ranked` is the ranking of `pairs` at the threshold `min_intersection`,
/// and `origin` tells where each ranked pair stood in `pairs`: the ranked
/// pairs are exactly the pairs whose overlap reaches the threshold, each taken
/// once; a larger overlap comes first; and of two pairs with the same overlap,
/// the one that stood first in `pairs` comes first.
pub open spec fn is_ranking(
    ranked: Seq<DuplicatePair>,
    pairs: Seq<DuplicatePair>,
    min_intersection: nat,
    origin: Seq<int>,
) -> bool {
    &&& origin.len() == ranked.len()
    &&& forall|i: int|
        0 <= i < ranked.len() ==> {
            &&& 0 <= #[trigger] origin[i] < pairs.len()
            &&& ranked[i] == pairs[origin[i]]
            &&& ranked[i].intersection >= min_intersection
        }
    &&& forall|m: int|
        0 <= m < pairs.len() && (#[trigger] pairs[m]).intersection >= min_intersection
            ==> origin.contains(m)
    &&& forall|i: int, j: int|
        0 <= i < j < ranked.len() ==> {
            ||| pairs[#[trigger] origin[i]].intersection > pairs[#[trigger] origin[j]].intersection
            ||| (pairs[origin[i]].intersection == pairs[origin[j]].intersection && origin[i]
                < origin[j])
        }
}

/// The first position, in a list with descending overlaps, whose overlap is
/// not above `overlap`.
pub fn first_not_above(pairs: &Vec<DuplicatePair>, overlap: usize) -> (pos: usize)
    requires
        descending(pairs@),
    ensures
        pos <= pairs@.len(),
        forall|i: int| 0 <= i < pos ==> (#[trigger] pairs@[i]).intersection > overlap,
        forall|i: int| pos <= i < pairs@.len() ==> (#[trigger] pairs@[i]).intersection <= overlap,
{
    let mut lo: usize = 0;
    let mut hi: usize = pairs.len();
    while lo < hi
        invariant
            lo <= hi <= pairs@.len(),
            descending(pairs@),
            forall|i: int| 0 <= i < lo ==> (#[trigger] pairs@[i]).intersection > overlap,
            forall|i: int| hi <= i < pairs@.len() ==> (#[trigger] pairs@[i]).intersection <= overlap,
        decreases hi - lo,
    {
        let mid = lo + (hi - lo) / 2;
        if pairs[mid].intersection > overlap {
            lo = mid + 1;
        } else {
            hi = mid;
        }
    }
    lo
}

/// Keeps the pairs whose overlap reaches `min_intersection` and orders them
/// by overlap, largest first. Pairs with the same overlap keep the order in
/// which they were given.
pub fn rank(pairs: Vec<DuplicatePair>, min_intersection: usize) -> (ranked: Vec<DuplicatePair>)
    ensures
        exists|origin: Seq<int>| is_ranking(ranked@, pairs@, min_intersection as nat, origin),
        descending(ranked@),
{
    let ghost given = pairs@;
    let mut rest = pairs;
    let mut ranked: Vec<DuplicatePair> = Vec::new();
    let ghost mut origin = Seq::<int>::empty();
    while rest.len() > 0
        invariant
            rest@.len() <= given.len(),
            rest@ == given.take(rest@.len() as int),
            origin.len() == ranked@.len(),
            descending(ranked@),
            forall|i: int|
                0 <= i < ranked@.len() ==> {
                    &&& rest@.len() <= #[trigger] origin[i] < given.len()
                    &&& ranked@[i] == given[origin[i]]
                    &&& ranked@[i].intersection >= min_intersection
                },
            forall|m: int|
                rest@.len() <= m < given.len() && (#[trigger] given[m]).intersection
                    >= min_intersection ==> origin.contains(m),
            forall|i: int, j: int|
                0 <= i < j < ranked@.len() ==> {
                    ||| given[#[trigger] origin[i]].intersection
                        > given[#[trigger] origin[j]].intersection
                    ||| (given[origin[i]].intersection == given[origin[j]].intersection
                        && origin[i] < origin[j])
                },
        decreases rest@.len(),
    {
        let ghost from = rest@.len() - 1;
        let ghost before = ranked@;
        let ghost placed = origin;
        let pair = rest.pop().unwrap();
        assert(pair == given[from]);
        assert(rest@ =~= given.take(from));
        if pair.intersection >= min_intersection {
            let at = first_not_above(&ranked, pair.intersection);
            ranked.insert(at, pair);
            proof {
                origin = placed.insert(at as int, from);
                assert forall|i: int| 0 <= i < ranked@.len() implies {
                    &&& rest@.len() <= #[trigger] origin[i] < given.len()
                    &&& ranked@[i] == given[origin[i]]
                    &&& ranked@[i].intersection >= min_intersection
                } by {
                    if i < at {
                        assert(origin[i] == placed[i] && ranked@[i] == before[i]);
                    } else if i > at {
                        assert(origin[i] == placed[i - 1] && ranked@[i] == before[i - 1]);
                    }
                }
                assert forall|m: int|
                    rest@.len() <= m < given.len() && (#[trigger] given[m]).intersection
                        >= min_intersection implies origin.contains(m) by {
                    if m == from {
                        assert(origin[at as int] == m);
                    } else {
                        let i = choose|i: int| 0 <= i < placed.len() && placed[i] == m;
                        if i < at {
                            assert(origin[i] == m);
                        } else {
                            assert(origin[i + 1] == m);
                        }
                    }
                }
                assert forall|i: int, j: int| 0 <= i < j < ranked@.len() implies {
                    ||| given[#[trigger] origin[i]].intersection
                        > given[#[trigger] origin[j]].intersection
                    ||| (given[origin[i]].intersection == given[origin[j]].intersection
                        && origin[i] < origin[j])
                } by {
                    let oi = if i < at {
                        i
                    } else {
                        i - 1
                    };
                    let oj = if j < at {
                        j
                    } else {
                        j - 1
                    };
                    if i != at {
                        assert(origin[i] == placed[oi] && before[oi] == given[placed[oi]]);
                    }
                    if j != at {
                        assert(origin[j] == placed[oj] && before[oj] == given[placed[oj]]);
                    }
                }
                assert forall|i: int, j: int| 0 <= i < j < ranked@.len() implies ranked@[i].intersection
                    >= ranked@[j].intersection by {
                    assert(ranked@[i] == given[origin[i]] && ranked@[j] == given[origin[j]]);
                }
            }
        } else {
            assert forall|m: int|
                rest@.len() <= m < given.len() && (#[trigger] given[m]).intersection
                    >= min_intersection implies origin.contains(m) by {
                assert(m != from);
            }
        }
    }
    proof {
        assert(is_ranking(ranked@, given, min_intersection as nat, origin));
    }
    ranked
}

} // verus!
