//! The verified core of a small cooperative-task runtime: identifiers, the
//! deadline-ordered store, the timer queue and its serving decisions, the
//! timer state machine, the waker a timer stores, and the spawning end of the
//! task executor's bounded ready queue.

pub mod executor;
pub mod id;
pub mod ordered_map;
pub mod timer;
pub mod wake;
