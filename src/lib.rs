//! Process and task management core of a small teaching kernel: a
//! deadlock-avoidance safety checker, a stride-scheduled ready queue and the
//! process syscall layer over an explicit table of task control blocks.
use vstd::prelude::*;

pub mod checker;
pub mod manager;
pub mod process;
pub mod user_mem;

verus! {

} // verus!
