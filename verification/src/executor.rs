//! Running a program until it terminates or revisits a position.
//!
//! The meaning of a run is the recursive interpreter `run_from`; the
//! executable executor is proved to return exactly its value, together with
//! the transition map it built.

use crate::ops::{acc_delta, jump_index, next_pos, nop_index, OP};
use std::collections::HashMap;
use vstd::prelude::*;

verus! {

broadcast use vstd::std_specs::hash::group_hash_axioms, vstd::seq_lib::seq_to_set_is_finite;

/// The swap directive as a mathematical position.
pub open spec fn opt_pos_view(o: Option<u64>) -> Option<int> {
    match o {
        Some(p) => Some(p as int),
        None => None,
    }
}

/// The transition map as a map over mathematical positions.
pub open spec fn trans_view(m: Map<u64, u64>) -> Map<int, int> {
    Map::new(
        |k: int| 0 <= k <= u64::MAX && m.contains_key(k as u64),
        |k: int| m[k as u64] as int,
    )
}

/// A transition map for a program of length `n`: finitely many keys, all of
/// them positions inside the program.
pub open spec fn trans_wf(t: Map<int, int>, n: int) -> bool {
    &&& t.dom().finite()
    &&& forall|k: int| #[trigger] t.dom().contains(k) ==> 0 <= k < n
}

/// One execution, step by step: from `pos` with accumulator `acc` and the
/// transitions recorded so far, return the final accumulator, the looped
/// position if one was about to be revisited (`None` on normal termination),
/// and the finished transition map.
pub open spec fn run_from(
    prog: Seq<OP>,
    swap: Option<int>,
    pos: int,
    acc: int,
    trans: Map<int, int>,
) -> (int, Option<int>, Map<int, int>)
    decreases prog.len() - trans.dom().len()
        when trans_wf(trans, prog.len() as int)
{
    if trans.dom().contains(pos) {
        (acc, Some(pos), trans)
    } else if !(0 <= pos < prog.len()) {
        (acc, None, trans)
    } else {
        proof {
            let rng = vstd::set_lib::set_int_range(0, prog.len() as int);
            vstd::set_lib::lemma_int_range(0, prog.len() as int);
            assert(trans.dom().insert(pos).subset_of(rng));
            vstd::set_lib::lemma_len_subset(trans.dom().insert(pos), rng);
        }
        run_from(
            prog,
            swap,
            next_pos(prog, pos, swap),
            acc + acc_delta(prog, pos, swap),
            trans.insert(pos, next_pos(prog, pos, swap)),
        )
    }
}

/// A whole run: from position 0 with accumulator 0 and nothing recorded.
pub open spec fn run_program(prog: Seq<OP>, swap: Option<int>) -> (int, Option<int>, Map<int, int>) {
    run_from(prog, swap, 0, 0, Map::empty())
}

/// The position the step at `path[i]` moved to: the next visited position,
/// or `cur` for the last step taken.
pub open spec fn next_of(path: Seq<int>, i: int, cur: int) -> int {
    if i + 1 < path.len() {
        path[i + 1]
    } else {
        cur
    }
}

/// `path` lists the visited positions of a run in order, each exactly once,
/// `t` records exactly one transition per visited position, and `cur` is
/// where the run stands after the last recorded step.
pub open spec fn visit_chain(
    prog: Seq<OP>,
    swap: Option<int>,
    path: Seq<int>,
    t: Map<int, int>,
    cur: int,
) -> bool {
    &&& path.no_duplicates()
    &&& (path.len() == 0 ==> cur == 0)
    &&& (path.len() > 0 ==> path[0] == 0)
    &&& (forall|i: int| 0 <= i < path.len() ==> 0 <= #[trigger] path[i] < prog.len())
    &&& t.dom() =~= path.to_set()
    &&& (forall|i: int| 0 <= i < path.len() ==> t[#[trigger] path[i]] == next_of(path, i, cur))
    &&& (forall|i: int|
        0 <= i < path.len() ==> next_of(path, i, cur) == next_pos(prog, #[trigger] path[i], swap))
}

proof fn lemma_trans_view_insert(m: Map<u64, u64>, k: u64, v: u64)
    ensures
        trans_view(m.insert(k, v)) == trans_view(m).insert(k as int, v as int),
{
    assert(trans_view(m.insert(k, v)) =~= trans_view(m).insert(k as int, v as int));
}

/// Walking `t` from position `path[i0]` follows the recorded path.
proof fn lemma_chain_walk(
    prog: Seq<OP>,
    swap: Option<int>,
    path: Seq<int>,
    t: Map<int, int>,
    cur: int,
    i0: int,
    k: nat,
)
    requires
        visit_chain(prog, swap, path, t, cur),
        0 <= i0 < path.len(),
        k <= path.len() - i0,
    ensures
        crate::looppath::walk(t, path[i0], k) == if i0 + k < path.len() {
            path[i0 + k]
        } else {
            cur
        },
    decreases k,
{
    if k > 0 {
        lemma_chain_walk(prog, swap, path, t, cur, i0, (k - 1) as nat);
        assert(crate::looppath::walk(t, path[i0], k) == t[crate::looppath::walk(
            t,
            path[i0],
            (k - 1) as nat,
        )]);
        assert(t[path[i0 + k - 1]] == next_of(path, i0 + k - 1, cur));
    }
}

/// When the run stands on an already-visited position, that position lies on
/// a cycle of the recorded transitions.
proof fn lemma_chain_loops_back(
    prog: Seq<OP>,
    swap: Option<int>,
    path: Seq<int>,
    t: Map<int, int>,
    cur: int,
    i0: int,
)
    requires
        visit_chain(prog, swap, path, t, cur),
        0 <= i0 < path.len(),
        cur == path[i0],
    ensures
        crate::looppath::closes_loop_at(t, cur, (path.len() - i0) as nat),
        crate::looppath::loops_back(t, cur),
{
    let k = (path.len() - i0) as nat;
    lemma_chain_walk(prog, swap, path, t, cur, i0, k);
    assert forall|j: nat| j < k implies t.dom().contains(
        #[trigger] crate::looppath::walk(t, cur, j),
    ) by {
        lemma_chain_walk(prog, swap, path, t, cur, i0, j);
        assert(crate::looppath::walk(t, cur, j) == path[i0 + j]);
        assert(path.contains(path[i0 + j]));
        assert(path.to_set().contains(path[i0 + j]));
    }
    assert(crate::looppath::closes_loop_at(t, cur, k));
}

/// Run `instructions` from position 0 with accumulator 0, optionally with the
/// `Jmp`/`Nop` behavior of the instruction at `swap_op_index` inverted.
/// Returns the accumulator, the position about to be visited twice (`None`
/// when the run walked past the end), and the map of every visited position
/// to the position its step moved to.
pub fn accumulate_from_instructions(
    instructions: &Vec<OP>,
    swap_op_index: Option<u64>,
) -> (r: (i128, Option<u64>, HashMap<u64, u64>))
    requires
        instructions@.len() <= u32::MAX,
    ensures
        ({
            let (a, o, t) = run_program(instructions@, opt_pos_view(swap_op_index));
            &&& r.0 == a
            &&& opt_pos_view(r.1) == o
            &&& trans_view(r.2@) == t
        }),
        trans_wf(trans_view(r.2@), instructions@.len() as int),
        (match r.1 {
            Some(p) => {
                &&& trans_view(r.2@).dom().contains(p as int)
                &&& crate::looppath::loops_back(trans_view(r.2@), p as int)
            },
            None => true,
        }),
        exists|visits: Seq<int>, cur: int| #[trigger] visit_chain(
            instructions@,
            opt_pos_view(swap_op_index),
            visits,
            trans_view(r.2@),
            cur,
        ),
{
    let ghost prog = instructions@;
    let ghost sw = opt_pos_view(swap_op_index);
    let mut visited_instruction_graph: HashMap<u64, u64> = HashMap::new();
    let mut acc: i128 = 0;
    let mut index: u64 = 0;
    let ghost mut path: Seq<int> = Seq::empty();
    proof {
        assert(trans_view(visited_instruction_graph@) =~= Map::<int, int>::empty());
        assert(path.to_set() =~= Set::<int>::empty());
    }
    loop
        invariant
            instructions@ == prog,
            prog.len() <= u32::MAX,
            sw == opt_pos_view(swap_op_index),
            path.len() <= prog.len(),
            visit_chain(prog, sw, path, trans_view(visited_instruction_graph@), index as int),
            trans_wf(trans_view(visited_instruction_graph@), prog.len() as int),
            run_from(prog, sw, index as int, acc as int, trans_view(visited_instruction_graph@))
                == run_program(prog, sw),
            -(path.len() * 9223372036854775808) <= acc
                <= path.len() * 9223372036854775808,
        decreases prog.len() - path.len(),
    {
        let ghost tv = trans_view(visited_instruction_graph@);
        if visited_instruction_graph.contains_key(&index) {
            proof {
                assert(tv.dom().contains(index as int));
                assert(run_from(prog, sw, index as int, acc as int, tv) == (
                    acc as int,
                    Some(index as int),
                    tv,
                ));
                let i0 = choose|i: int| 0 <= i < path.len() && path[i] == index as int;
                assert(path.to_set().contains(index as int));
                assert(path.contains(index as int));
                assert(0 <= i0 < path.len() && path[i0] == index as int);
                lemma_chain_loops_back(prog, sw, path, tv, index as int, i0);
            }
            return (acc, Some(index), visited_instruction_graph);
        }
        if index >= instructions.len() as u64 {
            proof {
                assert(!tv.dom().contains(index as int));
                assert(run_from(prog, sw, index as int, acc as int, tv) == (
                    acc as int,
                    None::<int>,
                    tv,
                ));
            }
            return (acc, None, visited_instruction_graph);
        }
        let ghost acc0 = acc as int;
        let ghost index0 = index as int;
        let ghost old_path = path;
        let ghost old_m = visited_instruction_graph@;
        let swapped = match swap_op_index {
            Some(si) => si == index,
            None => false,
        };
        proof {
            assert(swapped == (sw == Some(index0)));
        }
        let op = instructions[index as usize];
        let next_index: u64;
        match op {
            OP::Acc(num) => {
                proof {
                    assert(path.len() * 9223372036854775808 <= 4294967295
                        * 9223372036854775808) by (nonlinear_arith)
                        requires 0 <= path.len() <= 4294967295;
                    assert((path.len() + 1) * 9223372036854775808 == path.len()
                        * 9223372036854775808 + 9223372036854775808) by (nonlinear_arith);
                }
                acc = acc + num as i128;
                next_index = nop_index(index);
            },
            OP::Jmp(num) => {
                if swapped {
                    next_index = nop_index(index);
                } else {
                    next_index = jump_index(index, num);
                }
            },
            OP::Nop(num) => {
                if swapped {
                    next_index = jump_index(index, num);
                } else {
                    next_index = nop_index(index);
                }
            },
        }
        visited_instruction_graph.insert(index, next_index);
        proof {
            path = old_path.push(index0);
            let np = next_pos(prog, index0, sw);
            let delta = acc_delta(prog, index0, sw);
            assert(prog[index0] == op);
            assert(next_index == np);
            assert(acc as int == acc0 + delta);
            lemma_trans_view_insert(old_m, index, next_index);
            let tv2 = trans_view(visited_instruction_graph@);
            assert(tv2 == tv.insert(index0, np));
            // The interpreter takes the same step.
            assert(run_from(prog, sw, index0, acc0, tv) == run_from(
                prog,
                sw,
                np,
                acc0 + delta,
                tv.insert(index0, np),
            ));
            // The visit record is extended by this step.
            assert(!old_path.contains(index0));
            assert forall|i: int, j: int|
                0 <= i < path.len() && 0 <= j < path.len() && i != j implies path[i] != path[j] by {
                if i < old_path.len() && j < old_path.len() {
                    assert(old_path[i] == path[i] && old_path[j] == path[j]);
                } else if i < old_path.len() {
                    assert(old_path.contains(old_path[i]));
                } else if j < old_path.len() {
                    assert(old_path.contains(old_path[j]));
                }
            }
            assert(tv2.dom() =~= path.to_set()) by {
                assert forall|k: int| tv2.dom().contains(k) implies path.to_set().contains(k) by {
                    if k == index0 {
                        assert(path[path.len() - 1] == k);
                        assert(path.contains(k));
                    } else {
                        assert(tv.dom().contains(k));
                        assert(old_path.contains(k));
                        let w = choose|i: int| 0 <= i < old_path.len() && old_path[i] == k;
                        assert(path[w] == k);
                        assert(path.contains(k));
                    }
                }
                assert forall|k: int| path.to_set().contains(k) implies tv2.dom().contains(k) by {
                    let w = choose|i: int| 0 <= i < path.len() && path[i] == k;
                    if w < old_path.len() {
                        assert(old_path[w] == k);
                        assert(old_path.contains(k));
                        assert(tv.dom().contains(k));
                    }
                }
            }
            assert forall|i: int| 0 <= i < path.len() implies tv2[#[trigger] path[i]] == next_of(
                path,
                i,
                next_index as int,
            ) by {
                if i < old_path.len() {
                    assert(old_path.contains(old_path[i]));
                    assert(path[i] != index0);
                    assert(tv2[path[i]] == tv[old_path[i]]);
                    assert(tv[old_path[i]] == next_of(old_path, i, index0));
                } else {
                    assert(path[i] == index0);
                    assert(tv2[index0] == np);
                }
            }
            assert forall|i: int| 0 <= i < path.len() implies next_of(path, i, next_index as int)
                == next_pos(prog, #[trigger] path[i], sw) by {
                if i < old_path.len() {
                    assert(next_of(old_path, i, index0) == next_pos(prog, old_path[i], sw));
                    assert(next_of(path, i, next_index as int) == next_of(old_path, i, index0));
                } else {
                    assert(path[i] == index0);
                }
            }
            assert(visit_chain(prog, sw, path, tv2, next_index as int));
            // One more distinct in-range position was visited, so the record
            // still fits inside the program.
            path.unique_seq_to_set();
            let rng = vstd::set_lib::set_int_range(0, prog.len() as int);
            vstd::set_lib::lemma_int_range(0, prog.len() as int);
            assert(path.to_set().subset_of(rng));
            vstd::set_lib::lemma_len_subset(path.to_set(), rng);
            assert(path.len() <= prog.len());
        }
        index = next_index;
    }
}

} // verus!
