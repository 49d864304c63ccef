//! Walking a transition map, and extracting the ordered loop path.

use crate::executor::trans_view;
use std::collections::HashMap;
use vstd::prelude::*;

verus! {

broadcast use vstd::std_specs::hash::group_hash_axioms;

/// The position reached after `k` steps through `t`, starting at `start`.
/// Outside `t`'s keys the walk is left unconstrained.
pub open spec fn walk(t: Map<int, int>, start: int, k: nat) -> int
    decreases k,
{
    if k == 0 {
        start
    } else {
        t[walk(t, start, (k - 1) as nat)]
    }
}

/// Following `t` from `start` stays inside `t` for `k` steps and is back at
/// `start` after exactly `k` of them.
pub open spec fn closes_loop_at(t: Map<int, int>, start: int, k: nat) -> bool {
    &&& k >= 1
    &&& walk(t, start, k) == start
    &&& forall|j: nat| j < k ==> t.dom().contains(#[trigger] walk(t, start, j))
}

/// `start` lies on a cycle of `t`.
pub open spec fn loops_back(t: Map<int, int>, start: int) -> bool {
    exists|k: nat| closes_loop_at(t, start, k)
}

/// `k` is the length of the cycle through `start`: the least step count that
/// closes the loop.
pub open spec fn is_min_loop(t: Map<int, int>, start: int, k: nat) -> bool {
    &&& closes_loop_at(t, start, k)
    &&& forall|j: nat| closes_loop_at(t, start, j) ==> k <= j
}

/// The cycle length through `start`, defined whenever `loops_back` holds.
pub open spec fn loop_len(t: Map<int, int>, start: int) -> nat {
    choose|k: nat| is_min_loop(t, start, k)
}

/// The ordered loop path: every position of the cycle once, in step order,
/// beginning at `start`.
pub open spec fn loop_path(t: Map<int, int>, start: int) -> Seq<int> {
    Seq::new(loop_len(t, start), |i: int| walk(t, start, i as nat))
}

/// Some least closing step count exists as soon as any closing count does.
proof fn lemma_min_loop_exists(t: Map<int, int>, start: int)
    requires
        loops_back(t, start),
    ensures
        is_min_loop(t, start, loop_len(t, start)),
{
    let k0 = choose|k: nat| closes_loop_at(t, start, k);
    lemma_min_loop_below(t, start, k0);
}

proof fn lemma_min_loop_below(t: Map<int, int>, start: int, k: nat)
    requires
        closes_loop_at(t, start, k),
    ensures
        exists|m: nat| is_min_loop(t, start, m),
    decreases k,
{
    if forall|j: nat| closes_loop_at(t, start, j) ==> k <= j {
        assert(is_min_loop(t, start, k));
    } else {
        let j = choose|j: nat| closes_loop_at(t, start, j) && !(k <= j);
        lemma_min_loop_below(t, start, j);
    }
}

/// The walk is deterministic: two step counts that land on the same
/// position agree forever after.
proof fn lemma_walk_shift(t: Map<int, int>, start: int, i: nat, j: nat, d: nat)
    requires
        walk(t, start, i) == walk(t, start, j),
    ensures
        walk(t, start, i + d) == walk(t, start, j + d),
    decreases d,
{
    if d > 0 {
        lemma_walk_shift(t, start, i, j, (d - 1) as nat);
        assert(walk(t, start, i + d) == t[walk(t, start, (i + d - 1) as nat)]);
        assert(walk(t, start, j + d) == t[walk(t, start, (j + d - 1) as nat)]);
    }
}

/// The positions of one least-length cycle are pairwise distinct: a repeat
/// strictly inside the cycle would close the loop earlier than its least
/// count.
proof fn lemma_min_loop_distinct(t: Map<int, int>, start: int, k: nat, i: nat, j: nat)
    requires
        is_min_loop(t, start, k),
        i < j <= k,
        walk(t, start, i) == walk(t, start, j),
    ensures
        j == k && i == 0,
{
    let d = (k - j) as nat;
    lemma_walk_shift(t, start, i, j, d);
    assert(walk(t, start, i + d) == walk(t, start, k));
    let k2 = (i + d) as nat;
    assert(k2 < k);
    if k2 >= 1 {
        assert forall|m: nat| m < k2 implies t.dom().contains(#[trigger] walk(t, start, m)) by {
            assert(walk(t, start, m) == walk(t, start, m));
        }
        assert(closes_loop_at(t, start, k2));
        assert(k <= k2);
        assert(false);
    }
    // k2 == 0 means d == 0 and i == 0, hence j == k.
}

/// Reconstruct the ordered loop path from the transition map: every position
/// on the cycle through `initial_index`, in visitation order, starting at
/// `initial_index` and stopping just before returning to it.
///
/// The precondition asks the caller for what the executor guarantees of a
/// loop outcome: that `initial_index` really lies on a cycle of the map.
pub fn get_possibly_broken_instructions(
    visited_instruction_graph: &HashMap<u64, u64>,
    initial_index: u64,
) -> (r: Vec<u64>)
    requires
        loops_back(trans_view(visited_instruction_graph@), initial_index as int),
    ensures
        ({
            let t = trans_view(visited_instruction_graph@);
            let start = initial_index as int;
            &&& r@.len() == loop_len(t, start)
            &&& is_min_loop(t, start, r@.len() as nat)
            &&& forall|i: int|
                0 <= i < r@.len() ==> #[trigger] r@[i] as int == walk(t, start, i as nat)
            &&& r@.len() >= 1
            &&& r@[0] == initial_index
            &&& t[r@[r@.len() - 1] as int] == start
            &&& forall|i: int, j: int| 0 <= i < j < r@.len() ==> r@[i] != r@[j]
        }),
{
    let ghost t = trans_view(visited_instruction_graph@);
    let ghost start = initial_index as int;
    proof {
        lemma_min_loop_exists(t, start);
    }
    let ghost kk = loop_len(t, start);
    let mut possibly_broken_instructions: Vec<u64> = Vec::new();
    let mut index = initial_index;
    loop
        invariant
            t == trans_view(visited_instruction_graph@),
            start == initial_index as int,
            is_min_loop(t, start, kk),
            possibly_broken_instructions@.len() < kk,
            index as int == walk(t, start, possibly_broken_instructions@.len() as nat),
            forall|i: int|
                0 <= i < possibly_broken_instructions@.len()
                    ==> #[trigger] possibly_broken_instructions@[i] as int == walk(
                    t,
                    start,
                    i as nat,
                ),
        decreases kk - possibly_broken_instructions@.len(),
    {
        let ghost n = possibly_broken_instructions@.len() as nat;
        proof {
            assert(t.dom().contains(walk(t, start, n)));
            assert(visited_instruction_graph@.contains_key(index));
        }
        let next_index = *visited_instruction_graph.get(&index).unwrap();
        possibly_broken_instructions.push(index);
        proof {
            assert(next_index as int == t[index as int]);
            assert(walk(t, start, (n + 1) as nat) == t[walk(t, start, n)]);
            assert(next_index as int == walk(t, start, (n + 1) as nat));
        }
        if next_index == initial_index {
            proof {
                let r = possibly_broken_instructions@;
                assert(walk(t, start, (n + 1) as nat) == start);
                assert forall|j: nat| j < n + 1 implies t.dom().contains(
                    #[trigger] walk(t, start, j),
                ) by {
                    assert(j < kk);
                }
                assert(closes_loop_at(t, start, (n + 1) as nat));
                assert(kk <= n + 1);
                assert(r.len() == kk);
                assert(r[0] as int == walk(t, start, 0));
                assert(t[r[r.len() - 1] as int] == start);
                assert forall|i: int, j: int| 0 <= i < j < r.len() implies r[i] != r[j] by {
                    if r[i] == r[j] {
                        assert(walk(t, start, i as nat) == walk(t, start, j as nat));
                        lemma_min_loop_distinct(t, start, kk, i as nat, j as nat);
                    }
                }
            }
            return possibly_broken_instructions;
        }
        proof {
            assert(walk(t, start, (n + 1) as nat) != start);
            if n + 1 == kk {
                assert(walk(t, start, kk) == start);
            }
            assert(n + 1 < kk);
        }
        index = next_index;
    }
}

} // verus!
