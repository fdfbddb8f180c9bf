//! Ordering of (start, length) pairs, shared by the format checks that look
//! for overlapping neighbours.
use vstd::prelude::*;

verus! {

/// `place` gives each input pair a distinct position in `out` that holds it.
pub open spec fn places(place: Seq<int>, input: Seq<(u64, u64)>, out: Seq<(u64, u64)>) -> bool {
    &&& place.len() == input.len()
    &&& forall|k: int| 0 <= k < input.len() ==> 0 <= #[trigger] place[k] < out.len() && out[place[k]] == input[k]
    &&& forall|k1: int, k2: int| 0 <= k1 < k2 < input.len() ==> #[trigger] place[k1] != #[trigger] place[k2]
}

/// The pairs in ascending order of their first component. Every output pair
/// is an input pair, and none is lost.
pub fn sort_pairs(pairs: Vec<(u64, u64)>) -> (r: Vec<(u64, u64)>)
    ensures
        r@.len() == pairs@.len(),
        forall|a: int, c: int| 0 <= a < c < r@.len() ==> (#[trigger] r@[a]).0 <= (#[trigger] r@[c]).0,
        forall|a: int| 0 <= a < r@.len() ==> pairs@.contains(#[trigger] r@[a]),
        exists|place: Seq<int>| #[trigger] places(place, pairs@, r@),
        exists|from: Seq<int>| #[trigger] places(from, r@, pairs@),
{
    let mut sorted: Vec<(u64, u64)> = Vec::new();
    let mut i: usize = 0;
    let ghost mut place: Seq<int> = Seq::empty();
    let ghost mut from: Seq<int> = Seq::empty();
    while i < pairs.len()
        invariant
            i <= pairs@.len(),
            sorted@.len() == i,
            forall|a: int, c: int| 0 <= a < c < sorted@.len() ==> (#[trigger] sorted@[a]).0 <= (#[trigger] sorted@[c]).0,
            forall|a: int| 0 <= a < sorted@.len() ==> pairs@.contains(#[trigger] sorted@[a]),
            places(place, pairs@.subrange(0, i as int), sorted@),
            places(from, sorted@, pairs@),
            forall|a: int| 0 <= a < sorted@.len() ==> #[trigger] from[a] < i,
        decreases pairs@.len() - i,
    {
        let x = pairs[i];
        let mut at: usize = 0;
        while at < sorted.len() && sorted[at].0 <= x.0
            invariant
                at <= sorted@.len(),
                forall|a: int| 0 <= a < at ==> (#[trigger] sorted@[a]).0 <= x.0,
            decreases sorted@.len() - at,
        {
            at = at + 1;
        }
        let ghost before = sorted@;
        sorted.insert(at, x);
        proof {
            let old_place = place;
            place = Seq::new((i + 1) as nat, |k: int| if k == i {
                at as int
            } else if old_place[k] >= at {
                old_place[k] + 1
            } else {
                old_place[k]
            });
            let sub = pairs@.subrange(0, i + 1);
            assert forall|k: int| 0 <= k < sub.len() implies 0 <= #[trigger] place[k] < sorted@.len()
                && sorted@[place[k]] == sub[k] by {
                if k < i {
                    assert(pairs@.subrange(0, i as int)[k] == sub[k]);
                    assert(before[old_place[k]] == sub[k]);
                }
            }
            assert forall|k1: int, k2: int| 0 <= k1 < k2 < sub.len() implies #[trigger] place[k1] != #[trigger] place[k2] by {
                if k2 < i {
                    assert(old_place[k1] != old_place[k2]);
                }
            }
            assert(places(place, sub, sorted@));
            let old_from = from;
            from = old_from.insert(at as int, i as int);
            assert forall|a: int| 0 <= a < sorted@.len() implies 0 <= #[trigger] from[a] < pairs@.len()
                && pairs@[from[a]] == sorted@[a] && from[a] < i + 1 by {
                if a < at {
                    assert(from[a] == old_from[a] && sorted@[a] == before[a]);
                } else if a > at {
                    assert(from[a] == old_from[a - 1] && sorted@[a] == before[a - 1]);
                }
            }
            assert forall|a1: int, a2: int| 0 <= a1 < a2 < sorted@.len() implies #[trigger] from[a1] != #[trigger] from[a2] by {
                if a1 != at && a2 != at {
                    let b1 = if a1 < at { a1 } else { a1 - 1 };
                    let b2 = if a2 < at { a2 } else { a2 - 1 };
                    assert(from[a1] == old_from[b1] && from[a2] == old_from[b2]);
                    assert(old_from[b1] != old_from[b2]);
                } else if a1 == at {
                    let b2 = if a2 < at { a2 } else { a2 - 1 };
                    assert(from[a2] == old_from[b2] && old_from[b2] < i);
                } else {
                    let b1 = if a1 < at { a1 } else { a1 - 1 };
                    assert(from[a1] == old_from[b1] && old_from[b1] < i);
                }
            }
            assert(places(from, sorted@, pairs@));
            assert(sorted@ =~= before.insert(at as int, x));
            assert forall|a: int| 0 <= a < sorted@.len() implies pairs@.contains(#[trigger] sorted@[a]) by {
                if a < at {
                    assert(sorted@[a] == before[a]);
                } else if a == at {
                    assert(pairs@[i as int] == sorted@[a]);
                } else {
                    assert(sorted@[a] == before[a - 1]);
                }
            }
            assert forall|a: int, c: int| 0 <= a < c < sorted@.len() implies (#[trigger] sorted@[a]).0 <= (#[trigger] sorted@[c]).0 by {
                if at < before.len() {
                    assert(x.0 < before[at as int].0);
                }
                if a == at && c > at {
                    assert(sorted@[c] == before[c - 1]);
                } else if a < at && c > at {
                    assert(sorted@[c] == before[c - 1]);
                } else if a > at {
                    assert(sorted@[a] == before[a - 1]);
                    assert(sorted@[c] == before[c - 1]);
                }
            }
        }
        i = i + 1;
    }
    proof {
        assert(pairs@.subrange(0, pairs@.len() as int) =~= pairs@);
        assert(places(place, pairs@, sorted@));
    }
    sorted
}

} // verus!
