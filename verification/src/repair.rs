//! The repair search: find the single `Jmp`/`Nop` swap that makes a looping
//! program terminate.

use crate::executor::{
    accumulate_from_instructions, opt_pos_view, run_program, trans_view, trans_wf,
};
use crate::looppath::{get_possibly_broken_instructions, loop_len, loop_path, walk};
use crate::ops::OP;
use vstd::prelude::*;

verus! {

/// The one failure a repair can report: every candidate on the loop path was
/// tried and the program still loops.
#[derive(Clone, Copy, PartialEq, Eq, Structural, Debug)]
pub enum RepairError {
    NoCandidateFixesLoop,
}

/// Swapping the instruction at `c` makes the run terminate normally. An
/// `Acc` is never a candidate: it has no `Jmp`/`Nop` alternate form.
pub open spec fn fixes(prog: Seq<OP>, c: int) -> bool {
    &&& !(prog[c] is Acc)
    &&& run_program(prog, Some(c)).1 is None
}

/// The first candidate position in `cands` whose swap terminates the run.
pub open spec fn find_fix(prog: Seq<OP>, cands: Seq<int>) -> Option<int>
    decreases cands.len(),
{
    if cands.len() == 0 {
        None
    } else if fixes(prog, cands[0]) {
        Some(cands[0])
    } else {
        find_fix(prog, cands.drop_first())
    }
}

/// What the repair returns: the plain run's accumulator when that run already
/// terminates; otherwise the accumulator of the run under the first fixing
/// swap on the loop path, or the explicit failure when no candidate fixes it.
pub open spec fn spec_repair(prog: Seq<OP>) -> Result<int, RepairError> {
    let (a, o, t) = run_program(prog, None);
    match o {
        None => Ok(a),
        Some(p) => match find_fix(prog, loop_path(t, p)) {
            Some(c) => Ok(run_program(prog, Some(c)).0),
            None => Err(RepairError::NoCandidateFixesLoop),
        },
    }
}

/// A program whose plain run terminates needs no repair: the repair's value
/// is exactly the accumulator of one unmodified run.
pub proof fn lemma_no_loop_repair_is_plain_run(prog: Seq<OP>)
    requires
        run_program(prog, None).1 is None,
    ensures
        spec_repair(prog) == Ok::<int, RepairError>(run_program(prog, None).0),
{
}

/// Run the program; if it loops, try each `Jmp`/`Nop` candidate on the loop
/// path in order, and return the accumulator of the first swapped run that
/// terminates normally.
pub fn accumulate_and_fix_broken_instruction(instructions: &Vec<OP>) -> (r: Result<
    i128,
    RepairError,
>)
    requires
        instructions@.len() <= u32::MAX,
    ensures
        ({
            let s = spec_repair(instructions@);
            match r {
                Ok(v) => s == Ok::<int, RepairError>(v as int),
                Err(e) => s == Err::<int, RepairError>(e),
            }
        }),
{
    let ghost prog = instructions@;
    let (acc, finished_early_at_index, visited_instruction_graph) = accumulate_from_instructions(
        instructions,
        None,
    );
    proof {
        assert(opt_pos_view(None) == None::<int>);
    }
    match finished_early_at_index {
        None => {
            proof {
                assert(run_program(prog, None).1 is None);
            }
            Ok(acc)
        },
        Some(initial_index) => {
            let ghost t = trans_view(visited_instruction_graph@);
            let ghost start = initial_index as int;
            proof {
                assert(run_program(prog, None) == (acc as int, Some(start), t));
            }
            let possibly_broken_instructions = get_possibly_broken_instructions(
                &visited_instruction_graph,
                initial_index,
            );
            let ghost cands = loop_path(t, start);
            proof {
                assert(cands.len() == loop_len(t, start));
                assert(cands.len() == possibly_broken_instructions@.len());
                assert forall|i: int| 0 <= i < cands.len() implies #[trigger] cands[i]
                    == possibly_broken_instructions@[i] as int by {
                    assert(possibly_broken_instructions@[i] as int == walk(t, start, i as nat));
                }
                assert forall|i: int| 0 <= i < cands.len() implies 0 <= #[trigger] cands[i]
                    < prog.len() by {
                    assert(t.dom().contains(walk(t, start, i as nat)));
                }
                assert(cands.skip(0) =~= cands);
            }
            let mut idx: usize = 0;
            loop
                invariant
                    instructions@ == prog,
                    prog.len() <= u32::MAX,
                    run_program(prog, None) == (acc as int, Some(start), t),
                    trans_wf(t, prog.len() as int),
                    cands == loop_path(t, start),
                    0 <= idx <= cands.len(),
                    cands.len() == possibly_broken_instructions@.len(),
                    forall|i: int|
                        0 <= i < cands.len() ==> #[trigger] cands[i]
                            == possibly_broken_instructions@[i] as int,
                    forall|i: int| 0 <= i < cands.len() ==> 0 <= #[trigger] cands[i] < prog.len(),
                    find_fix(prog, cands.skip(idx as int)) == find_fix(prog, cands),
                decreases cands.len() - idx,
            {
                if idx >= possibly_broken_instructions.len() {
                    proof {
                        assert(cands.skip(idx as int) =~= Seq::<int>::empty());
                        assert(find_fix(prog, cands) is None);
                    }
                    return Err(RepairError::NoCandidateFixesLoop);
                }
                let instruction_index = possibly_broken_instructions[idx];
                let ghost ci = instruction_index as int;
                let ghost rest = cands.skip(idx as int);
                proof {
                    assert(rest[0] == cands[idx as int]);
                    assert(ci == cands[idx as int]);
                    assert(rest.drop_first() =~= cands.skip(idx as int + 1));
                }
                let op = instructions[instruction_index as usize];
                match op {
                    OP::Acc(_) => {
                        proof {
                            assert(prog[ci] is Acc);
                            assert(!fixes(prog, ci));
                            assert(find_fix(prog, rest) == find_fix(prog, rest.drop_first()));
                        }
                    },
                    _ => {
                        let (acc2, looped2, _graph2) = accumulate_from_instructions(
                            instructions,
                            Some(instruction_index),
                        );
                        proof {
                            assert(opt_pos_view(Some(instruction_index)) == Some(ci));
                        }
                        match looped2 {
                            None => {
                                proof {
                                    assert(run_program(prog, Some(ci)).1 is None);
                                    assert(!(prog[ci] is Acc));
                                    assert(fixes(prog, ci));
                                    assert(find_fix(prog, rest) == Some(ci));
                                    assert(find_fix(prog, cands) == Some(ci));
                                    assert(acc2 as int == run_program(prog, Some(ci)).0);
                                }
                                return Ok(acc2);
                            },
                            Some(_) => {
                                proof {
                                    assert(run_program(prog, Some(ci)).1 is Some);
                                    assert(!fixes(prog, ci));
                                    assert(find_fix(prog, rest) == find_fix(
                                        prog,
                                        rest.drop_first(),
                                    ));
                                }
                            },
                        }
                    },
                }
                idx += 1;
            }
        },
    }
}

} // verus!
