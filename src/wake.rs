use vstd::prelude::*;

verus! {

/// std's `Waker`, carried through unopened.
#[verifier::external_type_specification]
#[verifier::external_body]
pub struct ExWaker(std::task::Waker);

/// Relies on std's `Waker::wake`: it consumes the waker and notifies the
/// computation it belongs to; nothing is promised of when that is acted on.
pub assume_specification[ std::task::Waker::wake ](waker: std::task::Waker);

/// The waker stored in the timer queue for one pending timer. Firing it
/// consumes it: each entry wakes its computation at most once.
pub struct ScheduledWaker {
    waker: std::task::Waker,
}

impl ScheduledWaker {
    pub fn new(waker: std::task::Waker) -> (r: ScheduledWaker) {
        ScheduledWaker { waker }
    }

    /// Notifies the computation that was waiting on the timer.
    pub fn wake(self) {
        self.waker.wake();
    }
}

} // verus!
