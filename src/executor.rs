use vstd::prelude::*;

verus! {

/// std's `SyncSender`, the sending end of a bounded channel, carried through
/// unopened.
#[verifier::external_type_specification]
#[verifier::external_body]
#[verifier::reject_recursive_types(T)]
pub struct ExSyncSender<T>(std::sync::mpsc::SyncSender<T>);

/// Relies on std's `SyncSender::clone`: another handle on the same queue.
pub assume_specification<T>[ <std::sync::mpsc::SyncSender<T> as Clone>::clone ](
    sender: &std::sync::mpsc::SyncSender<T>,
) -> std::sync::mpsc::SyncSender<T>;

/// Why the bounded ready queue did not take an item.
#[derive(Debug, Clone, Copy, PartialEq, Eq, Structural)]
pub enum Refusal {
    /// The queue holds as many items as its bound allows.
    Full,
    /// The worker that drains the queue is gone.
    Disconnected,
}

/// Why a computation could not be spawned.
#[derive(Debug, Clone, Copy, PartialEq, Eq, Structural)]
pub enum SpawnError {
    /// Backpressure: the bounded queue is saturated; nothing was queued.
    QueueFull,
    /// The executor's worker no longer drains the queue.
    Closed,
}

/// Relies on std's `SyncSender::try_send`: `Ok` when the item was queued
/// without blocking, `Full` when the bounded queue had no room, and
/// `Disconnected` when the receiving end was dropped.
#[verifier::external_body]
fn try_send<T>(sender: &std::sync::mpsc::SyncSender<T>, item: T) -> (r: Result<(), Refusal>) {
    match sender.try_send(item) {
        Ok(()) => Ok(()),
        Err(std::sync::mpsc::TrySendError::Full(_)) => Err(Refusal::Full),
        Err(std::sync::mpsc::TrySendError::Disconnected(_)) => Err(Refusal::Disconnected),
    }
}

/// Relies on std's `SyncSender::send`: waits for room in the bounded queue;
/// an error means the receiving end was dropped.
#[verifier::external_body]
fn send<T>(sender: &std::sync::mpsc::SyncSender<T>, item: T) -> (r: Result<(), Refusal>)
    ensures
        r matches Err(e) ==> e == Refusal::Disconnected,
{
    match sender.send(item) {
        Ok(()) => Ok(()),
        Err(_) => Err(Refusal::Disconnected),
    }
}

/// What a spawn reports for the way the ready queue answered.
pub fn spawn_outcome(answer: Result<(), Refusal>) -> (r: Result<(), SpawnError>)
    ensures
        answer is Ok <==> r is Ok,
        answer == Err::<(), Refusal>(Refusal::Full) <==> r == Err::<(), SpawnError>(
            SpawnError::QueueFull,
        ),
        answer == Err::<(), Refusal>(Refusal::Disconnected) <==> r == Err::<(), SpawnError>(
            SpawnError::Closed,
        ),
{
    match answer {
        Ok(()) => Ok(()),
        Err(Refusal::Full) => Err(SpawnError::QueueFull),
        Err(Refusal::Disconnected) => Err(SpawnError::Closed),
    }
}

/// The spawning end of an executor: hands runnable tasks to the worker that
/// drains the bounded ready queue.
#[verifier::reject_recursive_types(T)]
pub struct Spawner<T> {
    sender: std::sync::mpsc::SyncSender<T>,
}

impl<T> Clone for Spawner<T> {
    fn clone(&self) -> (r: Spawner<T>) {
        Spawner { sender: self.sender.clone() }
    }
}

impl<T> Spawner<T> {
    /// A spawner that feeds the queue behind `sender`.
    pub fn from_sender(sender: std::sync::mpsc::SyncSender<T>) -> (r: Spawner<T>) {
        Spawner { sender }
    }

    /// Queues a new task without blocking. A saturated queue is reported as
    /// `QueueFull` and a queue without a worker as `Closed`; nothing is
    /// dropped silently.
    pub fn spawn(&self, task: T) -> (r: Result<(), SpawnError>)
        ensures
            r matches Err(e) ==> e == SpawnError::QueueFull || e == SpawnError::Closed,
    {
        let answer = try_send(&self.sender, task);
        spawn_outcome(answer)
    }

    /// Queues a task again after its waker fired, waiting for room rather
    /// than losing the wakeup; fails only when the worker is gone.
    pub fn requeue(&self, task: T) -> (r: Result<(), SpawnError>)
        ensures
            r matches Err(e) ==> e == SpawnError::Closed,
    {
        let answer = send(&self.sender, task);
        spawn_outcome(answer)
    }
}

} // verus!
