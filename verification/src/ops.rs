//! The instruction set and the meaning of a single execution step.

use vstd::prelude::*;

verus! {

/// One bytecode instruction. `Nop` carries an operand even though execution
/// ignores it, because a repair may reinterpret a `Nop` as a `Jmp` with that
/// same operand, and vice versa.
#[derive(Clone, Copy, PartialEq, Eq, Structural, Debug)]
pub enum OP {
    Nop(i64),
    Acc(i64),
    Jmp(i64),
}

impl OP {
    /// The signed operand every instruction carries.
    pub open spec fn operand(self) -> i64 {
        match self {
            OP::Nop(n) => n,
            OP::Acc(n) => n,
            OP::Jmp(n) => n,
        }
    }
}

/// The instruction as the executor sees it: when `swapped` holds, `Jmp` and
/// `Nop` trade behavior while keeping their operand; `Acc` is unaffected.
pub open spec fn effective_op(op: OP, swapped: bool) -> OP {
    if swapped {
        match op {
            OP::Jmp(n) => OP::Nop(n),
            OP::Nop(n) => OP::Jmp(n),
            OP::Acc(n) => OP::Acc(n),
        }
    } else {
        op
    }
}

/// Target of a jump: the offset added to the position, clamped below at 0.
/// A computed negative position is a defensive floor, not a wraparound.
pub open spec fn jump_target(index: int, change: int) -> int {
    if index + change >= 0 {
        index + change
    } else {
        0
    }
}

/// The position reached after executing the instruction at `pos`, where the
/// instruction at `swap` (if any) has its `Jmp`/`Nop` behavior inverted.
pub open spec fn next_pos(prog: Seq<OP>, pos: int, swap: Option<int>) -> int {
    match effective_op(prog[pos], swap == Some(pos)) {
        OP::Acc(_) => pos + 1,
        OP::Jmp(n) => jump_target(pos, n as int),
        OP::Nop(_) => pos + 1,
    }
}

/// What the step at `pos` adds to the accumulator: the operand for an
/// effective `Acc`, nothing otherwise.
pub open spec fn acc_delta(prog: Seq<OP>, pos: int, swap: Option<int>) -> int {
    match effective_op(prog[pos], swap == Some(pos)) {
        OP::Acc(n) => n as int,
        _ => 0,
    }
}

/// The position a `jmp` with offset `change` at `index` moves to.
pub fn jump_index(index: u64, change: i64) -> (r: u64)
    requires
        index + change <= u64::MAX,
    ensures
        r == jump_target(index as int, change as int),
{
    let target: i128 = index as i128 + change as i128;
    if target >= 0 {
        target as u64
    } else {
        0
    }
}

/// The position an effective `nop` (or an `acc`) at `index` moves to.
pub fn nop_index(index: u64) -> (r: u64)
    requires
        index < u64::MAX,
    ensures
        r == index + 1,
{
    index + 1
}

/// Swapping the instruction at a position inverts exactly the `Jmp`/`Nop`
/// choice of the step taken there: a swapped `Jmp` advances to `pos + 1` as a
/// `Nop` would, and a swapped `Nop` jumps by its operand as a `Jmp` would.
pub proof fn lemma_swap_inverts_jump_and_nop(prog: Seq<OP>, pos: int)
    requires
        0 <= pos < prog.len(),
    ensures
        prog[pos] is Jmp ==> next_pos(prog, pos, Some(pos)) == pos + 1,
        prog[pos] is Jmp ==> next_pos(prog, pos, None) == jump_target(
            pos,
            prog[pos].operand() as int,
        ),
        prog[pos] is Nop ==> next_pos(prog, pos, Some(pos)) == jump_target(
            pos,
            prog[pos].operand() as int,
        ),
        prog[pos] is Nop ==> next_pos(prog, pos, None) == pos + 1,
{
}

} // verus!
