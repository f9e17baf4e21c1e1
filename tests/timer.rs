use std::sync::atomic::{AtomicUsize, Ordering};
use std::sync::Arc;
use std::task::{Wake, Waker};
use std::time::{Duration, Instant};

use tiny_runtime::id::Id;
use tiny_runtime::timer::{Timer, TimerAction, TimerQueue};
use tiny_runtime::wake::ScheduledWaker;

/// Drives `timer` to completion against the real clock, in milliseconds
/// since `begin`, waiting until the earliest pending deadline.
fn drive(timer: &mut Timer, begin: Instant) {
    let mut queue: TimerQueue<u32> = TimerQueue::new();
    loop {
        if timer.poll(&mut queue, 0) {
            return;
        }
        let now = begin.elapsed().as_millis() as u64;
        match queue.next_action(now) {
            TimerAction::Fire(_) => {}
            TimerAction::ParkUntil(d) => wait_until(begin, d),
            TimerAction::Park => panic!("a registered timer is pending"),
        }
    }
}

/// Returns once `ms` milliseconds have passed since `begin`.
fn wait_until(begin: Instant, ms: u64) {
    while (begin.elapsed().as_millis() as u64) < ms {
        std::hint::spin_loop();
    }
}

#[test]
fn test_timer() {
    let begin = Instant::now();
    let duration = Duration::from_secs(3);
    let mut timer = Timer::new(duration.as_millis() as u64);
    drive(&mut timer, begin);
    let actual_duration = Instant::now() - begin;
    assert!(actual_duration >= duration);
    let diff = duration.as_millis().abs_diff(actual_duration.as_millis());
    assert!(diff <= 10);
}

#[test]
fn timer_at_250_fires_not_before_250() {
    let mut queue: TimerQueue<u32> = TimerQueue::new();
    let mut timer = Timer::new(250);
    assert!(!timer.is_registered());
    assert!(!timer.poll(&mut queue, 7));
    assert!(timer.is_registered());
    assert!(matches!(queue.next_action(0), TimerAction::ParkUntil(250)));
    assert!(matches!(queue.next_action(249), TimerAction::ParkUntil(250)));
    assert!(!timer.poll(&mut queue, 8));
    match queue.next_action(250) {
        TimerAction::Fire(v) => assert_eq!(v, vec![((250, 0), 8)]),
        _ => panic!("the timer is due at 250"),
    }
    assert!(timer.poll(&mut queue, 9));
    assert_eq!(queue.len(), 0);
    assert!(matches!(queue.next_action(300), TimerAction::Park));
}

#[test]
fn equal_deadlines_fire_in_registration_order() {
    let mut queue: TimerQueue<&str> = TimerQueue::new();
    let mut later = Timer::new(500);
    let mut first = Timer::new(100);
    let mut second = Timer::new(100);
    let mut third = Timer::new(100);
    assert!(!later.poll(&mut queue, "later"));
    assert!(!first.poll(&mut queue, "first"));
    assert!(!second.poll(&mut queue, "second"));
    assert!(!third.poll(&mut queue, "third"));
    let fired = queue.take_due(100);
    let order: Vec<&str> = fired.iter().map(|e| e.1).collect();
    assert_eq!(order, vec!["first", "second", "third"]);
    let ids: Vec<u64> = fired.iter().map(|e| (e.0).1).collect();
    assert_eq!(ids, vec![1, 2, 3]);
    assert_eq!(queue.len(), 1);
    assert_eq!(queue.next_deadline(), Some(500));
}

#[test]
fn cancelled_timer_leaves_queue_and_never_fires() {
    let mut queue: TimerQueue<u32> = TimerQueue::new();
    let mut kept = Timer::new(40);
    let mut dropped = Timer::new(20);
    assert!(!kept.poll(&mut queue, 1));
    assert!(!dropped.poll(&mut queue, 2));
    assert_eq!(queue.len(), 2);
    dropped.cancel(&mut queue);
    assert!(!dropped.is_registered());
    assert_eq!(queue.len(), 1);
    assert!(!queue.is_pending(Id::from_value(1), 20));
    match queue.next_action(1000) {
        TimerAction::Fire(v) => assert_eq!(v, vec![((40, 0), 1)]),
        _ => panic!("the kept timer is due"),
    }
}

#[test]
fn repolling_pending_timer_keeps_one_entry() {
    let mut queue: TimerQueue<u32> = TimerQueue::new();
    let mut timer = Timer::new(70);
    for waker in 0..5u32 {
        assert!(!timer.poll(&mut queue, waker));
        assert_eq!(queue.len(), 1);
        assert_eq!(queue.peek_next_id(), 1);
    }
    assert!(matches!(queue.next_action(69), TimerAction::ParkUntil(70)));
    match queue.next_action(70) {
        TimerAction::Fire(v) => assert_eq!(v, vec![((70, 0), 4)]),
        _ => panic!("the timer is due at 70"),
    }
    assert!(timer.poll(&mut queue, 5));
    assert_eq!(queue.len(), 0);
}

#[test]
fn update_and_deregister_on_absent_entry_do_nothing() {
    let mut queue: TimerQueue<u32> = TimerQueue::new();
    let id = queue.register(10, 1);
    assert_eq!(id.value, 0);
    queue.update(id, 11, 2);
    queue.deregister(id, 12);
    assert_eq!(queue.len(), 1);
    assert!(queue.is_pending(id, 10));
    queue.update(id, 10, 3);
    assert_eq!(queue.take_due(10), vec![((10, 0), 3)]);
}

#[test]
fn take_due_keeps_future_entries() {
    let mut queue: TimerQueue<u32> = TimerQueue::new();
    queue.register(5, 1);
    queue.register(15, 2);
    queue.register(10, 3);
    assert_eq!(queue.take_due(4), vec![]);
    assert_eq!(queue.take_due(10), vec![((5, 0), 1), ((10, 2), 3)]);
    assert_eq!(queue.next_deadline(), Some(15));
}

struct Counter(AtomicUsize);

impl Wake for Counter {
    fn wake(self: Arc<Self>) {
        self.0.fetch_add(1, Ordering::SeqCst);
    }
}

#[test]
fn scheduled_waker_notifies_once() {
    let counter = Arc::new(Counter(AtomicUsize::new(0)));
    let waker = Waker::from(counter.clone());
    let mut queue: TimerQueue<ScheduledWaker> = TimerQueue::new();
    let mut timer = Timer::new(3);
    assert!(!timer.poll(&mut queue, ScheduledWaker::new(waker)));
    assert_eq!(counter.0.load(Ordering::SeqCst), 0);
    if let TimerAction::Fire(due) = queue.next_action(3) {
        for (_, w) in due {
            w.wake();
        }
    }
    assert_eq!(counter.0.load(Ordering::SeqCst), 1);
    assert!(timer.poll(&mut queue, ScheduledWaker::new(Waker::from(counter.clone()))));
}
