//! A verified library around a small general-purpose virtual machine
//! ("the Intcode machine") and the puzzle computations built on it.
//!
//! The heart of the crate is `machine`, which gives the instruction
//! set, the addressing-mode decoder, the memory model and the blocking
//! I/O contract a mathematical step semantics, and proves the
//! executable engine against it.  `program` loads the textual program
//! format.  `alarm` is the machine's earliest form, with positional
//! add and multiply only.  `diagnostics` and `boost` run one engine to
//! its halt over a single test input; `amplifiers` composes several
//! engines into chains and feedback rings and searches the phase
//! settings; `robot` drives a grid-painting agent from one engine's
//! output stream.  The remaining modules — `fuel`, `wires`,
//! `password`, `orbits`, `layers`, `asteroids`, `moons` — are
//! stand-alone puzzle computations that never touch the machine.

pub mod alarm;
pub mod amplifiers;
pub mod asteroids;
pub mod boost;
pub mod diagnostics;
pub mod fuel;
pub mod layers;
pub mod machine;
pub mod moons;
pub mod orbits;
pub mod password;
pub mod program;
pub mod robot;
pub mod wires;

use vstd::prelude::*;

verus! {

} // verus!
