//! A verified interpreter and repairer for a tiny three-opcode bytecode.
//!
//! A program is a fixed sequence of `acc`, `jmp` and `nop` instructions.
//! Running it from position 0 either terminates (the position walks past the
//! end) or revisits a position, which is how an infinite loop shows itself.
//! When a run loops, exactly one `jmp`/`nop` on the loop can be swapped to the
//! other opcode so that the program terminates; the library finds that swap
//! by trying each candidate on the loop path in order.

pub mod executor;
pub mod looppath;
pub mod ops;
pub mod parse;
pub mod repair;
