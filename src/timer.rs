use vstd::prelude::*;

use crate::id::{Id, IdGenerator};
use crate::ordered_map::{
    has_key_at, is_least_key, key_lt, lemma_all_entries_in_map, map_of, sorted_entries, DeadlineKey,
    OrderedMap,
};

verus! {

/// The keys of `m` that carry the identifier `id`.
pub open spec fn keys_with_id<W>(m: Map<DeadlineKey, W>, id: u64) -> Set<DeadlineKey> {
    m.dom().filter(|k: DeadlineKey| k.1 == id)
}

/// The pending timers of the timer subsystem: a deadline-ordered queue of
/// wakers, keyed by (deadline, identifier), and the generator that mints the
/// identifiers. Shared between threads it sits behind a lock.
pub struct TimerQueue<W> {
    ids: IdGenerator,
    scheduled: OrderedMap<W>,
}

/// What the thread that serves a `TimerQueue` does next.
pub enum TimerAction<W> {
    /// Wake these entries, which were due and have left the queue, in order.
    Fire(Vec<(DeadlineKey, W)>),
    /// Sleep until this deadline, or until the queue changes.
    ParkUntil(u64),
    /// Sleep until the queue changes: nothing is pending.
    Park,
}

impl<W> View for TimerQueue<W> {
    type V = Map<DeadlineKey, W>;

    closed spec fn view(&self) -> Map<DeadlineKey, W> {
        self.scheduled@
    }
}

impl<W> TimerQueue<W> {
    /// The queue is sorted, every identifier in it was minted before, and no
    /// identifier has two entries.
    pub closed spec fn wf(&self) -> bool {
        &&& self.scheduled.wf()
        &&& forall|k: DeadlineKey| #[trigger]
            self.scheduled@.contains_key(k) ==> k.1 < self.ids.upcoming()
        &&& forall|a: DeadlineKey, b: DeadlineKey|
            #[trigger] self.scheduled@.contains_key(a) && #[trigger] self.scheduled@.contains_key(b)
                && a.1 == b.1 ==> a == b
    }

    /// The identifier that the next registration receives.
    pub closed spec fn next_id(&self) -> u64 {
        self.ids.upcoming()
    }

    /// The pending entries in the order in which they fire.
    pub closed spec fn entries(&self) -> Seq<(DeadlineKey, W)> {
        self.scheduled.ordered()
    }

    /// The entries are sorted by key and stand for the queue's map.
    pub proof fn lemma_entries(&self)
        requires
            self.wf(),
        ensures
            sorted_entries(self.entries()),
            self@ == map_of(self.entries()),
    {
        self.scheduled.lemma_ordered_view();
    }

    pub fn new() -> (r: TimerQueue<W>)
        ensures
            r.wf(),
            r@ == Map::<DeadlineKey, W>::empty(),
            r.next_id() == 0,
    {
        TimerQueue { ids: IdGenerator::new(), scheduled: OrderedMap::new() }
    }

    /// The number of pending timers.
    pub fn len(&self) -> (r: usize)
        requires
            self.wf(),
        ensures
            r == self@.len(),
    {
        self.scheduled.len()
    }

    /// The identifier that the next registration receives.
    pub fn peek_next_id(&self) -> (r: u64)
        ensures
            r == self.next_id(),
    {
        self.ids.peek()
    }

    /// Whether the entry of timer `id` with deadline `when` is still queued.
    pub fn is_pending(&self, id: Id<Timer>, when: u64) -> (r: bool)
        requires
            self.wf(),
        ensures
            r == self@.contains_key((when, id.value)),
    {
        let key = (when, id.value);
        self.scheduled.contains_key(&key)
    }

    /// Queues `waker` under a fresh identifier and the deadline `when`.
    pub fn register(&mut self, when: u64, waker: W) -> (r: Id<Timer>)
        requires
            old(self).wf(),
            old(self).next_id() < u64::MAX,
        ensures
            final(self).wf(),
            r.value == old(self).next_id(),
            final(self).next_id() == old(self).next_id() + 1,
            !old(self)@.contains_key((when, r.value)),
            final(self)@ == old(self)@.insert((when, r.value), waker),
    {
        let id = self.ids.next();
        self.scheduled.insert((when, id.value), waker);
        proof {
            assert(forall|k: DeadlineKey| #[trigger]
                self.scheduled@.contains_key(k) ==> k == (when, id.value) || old(
                    self,
                ).scheduled@.contains_key(k));
        }
        id
    }

    /// Replaces the waker stored for timer `id` with deadline `when`; does
    /// nothing where that entry has already left the queue.
    pub fn update(&mut self, id: Id<Timer>, when: u64, waker: W)
        requires
            old(self).wf(),
        ensures
            final(self).wf(),
            final(self).next_id() == old(self).next_id(),
            final(self)@ == if old(self)@.contains_key((when, id.value)) {
                old(self)@.insert((when, id.value), waker)
            } else {
                old(self)@
            },
    {
        let key = (when, id.value);
        if self.scheduled.contains_key(&key) {
            self.scheduled.insert(key, waker);
            proof {
                assert(self.scheduled@.dom() =~= old(self).scheduled@.dom());
            }
        }
    }

    /// Removes the entry of timer `id` with deadline `when`, if it is queued.
    pub fn deregister(&mut self, id: Id<Timer>, when: u64)
        requires
            old(self).wf(),
        ensures
            final(self).wf(),
            final(self).next_id() == old(self).next_id(),
            final(self)@ == old(self)@.remove((when, id.value)),
    {
        let key = (when, id.value);
        self.scheduled.delete(&key);
    }

    /// The earliest pending deadline.
    pub fn next_deadline(&self) -> (r: Option<u64>)
        requires
            self.wf(),
        ensures
            r is None <==> self@.is_empty(),
            r matches Some(d) ==> exists|k: DeadlineKey|
                #[trigger] is_least_key(self@, k) && k.0 == d,
            r matches Some(d) ==> d == self.entries()[0].0.0,
    {
        match self.scheduled.first_key() {
            Some(k) => {
                assert(is_least_key(self@, k));
                Some(k.0)
            },
            None => None,
        }
    }

    /// Removes, in order, every entry whose deadline is at or before `now`,
    /// and returns them.
    pub fn take_due(&mut self, now: u64) -> (r: Vec<(DeadlineKey, W)>)
        requires
            old(self).wf(),
        ensures
            final(self).wf(),
            final(self).next_id() == old(self).next_id(),
            r.len() <= old(self).entries().len(),
            r@ == old(self).entries().subrange(0, r.len() as int),
            final(self).entries() == old(self).entries().subrange(
                r.len() as int,
                old(self).entries().len() as int,
            ),
            forall|i: int| 0 <= i < r.len() ==> (#[trigger] r@[i]).0.0 <= now,
            r.len() < old(self).entries().len() ==> old(self).entries()[r.len() as int].0.0 > now,
            forall|k: DeadlineKey| #[trigger]
                final(self)@.contains_key(k) <==> old(self)@.contains_key(k) && k.0 > now,
            forall|k: DeadlineKey| #[trigger]
                final(self)@.contains_key(k) ==> final(self)@[k] == old(self)@[k],
            sorted_entries(r@),
            forall|i: int|
                #![trigger r@[i]]
                0 <= i < r.len() ==> old(self)@.contains_key(r@[i].0) && old(self)@[r@[i].0]
                    == r@[i].1,
            forall|k: DeadlineKey| #[trigger]
                old(self)@.contains_key(k) && k.0 <= now ==> exists|i: int|
                    0 <= i < r.len() && (#[trigger] r@[i]).0 == k,
    {
        let mut fired: Vec<(DeadlineKey, W)> = Vec::new();
        let ghost start = self.scheduled.ordered();
        proof {
            self.scheduled.lemma_ordered_view();
        }
        loop
            invariant
                self.wf(),
                self.next_id() == old(self).next_id(),
                start == old(self).entries(),
                fired.len() <= start.len(),
                fired@ == start.subrange(0, fired.len() as int),
                self.entries() == start.subrange(fired.len() as int, start.len() as int),
                forall|i: int| 0 <= i < fired.len() ==> (#[trigger] fired@[i]).0.0 <= now,
                forall|k: DeadlineKey| #[trigger]
                    self@.contains_key(k) ==> old(self)@.contains_key(k) && self@[k]
                        == old(self)@[k],
                forall|k: DeadlineKey| #[trigger]
                    old(self)@.contains_key(k) && !self@.contains_key(k) ==> k.0 <= now,
            ensures
                fired.len() < start.len() ==> start[fired.len() as int].0.0 > now,
                self.entries() == start.subrange(fired.len() as int, start.len() as int),
            decreases start.len() - fired.len(),
        {
            match self.scheduled.first_key() {
                Some(k) => {
                    if k.0 > now {
                        break;
                    }
                    let ghost prev = self@;
                    let e = self.scheduled.pop_first();
                    match e {
                        Some(e) => {
                            proof {
                                assert(fired.len() < start.len());
                                assert(e == start[fired.len() as int]);
                            }
                            fired.push(e);
                            proof {
                                assert(fired@ =~= start.subrange(0, fired.len() as int));
                                assert(self.entries() =~= start.subrange(
                                    fired.len() as int,
                                    start.len() as int,
                                ));
                                assert forall|k: DeadlineKey| #[trigger]
                                    self@.contains_key(k) implies prev.contains_key(k)
                                    && self@[k] == prev[k] by {}
                            }
                        },
                        None => {
                            break;
                        },
                    }
                },
                None => {
                    break;
                },
            }
        }
        proof {
            self.scheduled.lemma_ordered_view();
            old(self).scheduled.lemma_ordered_view();
            assert forall|k: DeadlineKey| #[trigger] self@.contains_key(k) implies k.0 > now by {
                let s = self.entries();
                let i = choose|i: int| has_key_at(s, k, i);
                let j = fired.len() as int;
                assert(s[i] == start[j + i]);
                if i > 0 {
                    assert(key_lt(start[j].0, start[j + i].0));
                }
            }
            lemma_all_entries_in_map(start);
            lemma_all_entries_in_map(self.entries());
            let n = fired.len() as int;
            assert forall|i: int| #![trigger fired@[i]] 0 <= i < fired.len() implies old(
                self,
            )@.contains_key(fired@[i].0) && old(self)@[fired@[i].0] == fired@[i].1 by {
                assert(fired@[i] == start[i]);
            }
            assert forall|k: DeadlineKey| #[trigger]
                old(self)@.contains_key(k) && k.0 <= now implies exists|i: int|
                0 <= i < fired.len() && (#[trigger] fired@[i]).0 == k by {
                let i = choose|i: int| has_key_at(start, k, i);
                if i >= n {
                    assert(self.entries()[i - n] == start[i]);
                    assert(self@.contains_key(k));
                } else {
                    assert(fired@[i] == start[i]);
                }
            }
        }
        fired
    }

    /// The decision of the thread that serves the queue, at time `now`: fire
    /// what is due, or sleep until the earliest deadline, or sleep until the
    /// queue changes when nothing is pending.
    pub fn next_action(&mut self, now: u64) -> (r: TimerAction<W>)
        requires
            old(self).wf(),
        ensures
            final(self).wf(),
            final(self).next_id() == old(self).next_id(),
            r is Park <==> old(self)@.is_empty(),
            r is ParkUntil <==> !old(self)@.is_empty() && old(self).entries()[0].0.0 > now,
            r matches TimerAction::ParkUntil(d) ==> d > now && exists|k: DeadlineKey|
                #[trigger] is_least_key(old(self)@, k) && k.0 == d,
            r matches TimerAction::ParkUntil(d) ==> d == old(self).entries()[0].0.0,
            !(r is Fire) ==> final(self)@ == old(self)@ && final(self).entries() == old(
                self,
            ).entries(),
            r matches TimerAction::Fire(v) ==> {
                &&& v.len() > 0
                &&& v@ == old(self).entries().subrange(0, v.len() as int)
                &&& final(self).entries() == old(self).entries().subrange(
                    v.len() as int,
                    old(self).entries().len() as int,
                )
                &&& forall|i: int| 0 <= i < v.len() ==> (#[trigger] v@[i]).0.0 <= now
                &&& v.len() < old(self).entries().len() ==> old(self).entries()[v.len() as int].0.0
                    > now
                &&& sorted_entries(v@)
                &&& forall|i: int|
                    #![trigger v@[i]]
                    0 <= i < v.len() ==> old(self)@.contains_key(v@[i].0) && old(self)@[v@[i].0]
                        == v@[i].1
                &&& forall|k: DeadlineKey| #[trigger]
                    old(self)@.contains_key(k) && k.0 <= now ==> exists|i: int|
                        0 <= i < v.len() && (#[trigger] v@[i]).0 == k
                &&& forall|k: DeadlineKey| #[trigger]
                    final(self)@.contains_key(k) <==> old(self)@.contains_key(k) && k.0 > now
            },
    {
        proof {
            self.scheduled.lemma_ordered_view();
        }
        match self.next_deadline() {
            None => TimerAction::Park,
            Some(d) => {
                if d > now {
                    TimerAction::ParkUntil(d)
                } else {
                    let v = self.take_due(now);
                    TimerAction::Fire(v)
                }
            },
        }
    }
}

/// A sleep until the instant `when` of the timer clock. Its first poll
/// registers it with a `TimerQueue`; later polls refresh the stored waker. It
/// is ready once its entry has left the queue, which happens exactly when the
/// serving thread fires it, so the entry itself serves as the fired flag.
pub struct Timer {
    handle: Option<Id<Timer>>,
    when: u64,
}

impl Timer {
    /// The instant the timer waits for.
    pub closed spec fn when(&self) -> u64 {
        self.when
    }

    /// The identifier under which the timer is registered, if it is.
    pub closed spec fn registration(&self) -> Option<Id<Timer>> {
        self.handle
    }

    /// The queue key of a registered timer.
    pub open spec fn key(&self) -> DeadlineKey {
        (self.when(), self.registration()->Some_0.value)
    }

    /// A registered timer's identifier was minted by `queue`.
    pub open spec fn issued_by<W>(&self, queue: &TimerQueue<W>) -> bool {
        self.registration() matches Some(id) ==> id.value < queue.next_id()
    }

    pub fn new(when: u64) -> (r: Timer)
        ensures
            r.when() == when,
            r.registration() is None,
    {
        Timer { handle: None, when }
    }

    pub fn deadline(&self) -> (r: u64)
        ensures
            r == self.when(),
    {
        self.when
    }

    pub fn is_registered(&self) -> (r: bool)
        ensures
            r == self.registration() is Some,
    {
        self.handle.is_some()
    }

    /// Polls the timer with `waker`: registers it on its first poll and
    /// otherwise replaces its stored waker, then reports whether it has fired.
    pub fn poll<W>(&mut self, queue: &mut TimerQueue<W>, waker: W) -> (ready: bool)
        requires
            old(queue).wf(),
            old(self).issued_by(&*old(queue)),
            old(self).registration() is None ==> old(queue).next_id() < u64::MAX,
        ensures
            final(queue).wf(),
            final(self).when() == old(self).when(),
            final(self).issued_by(&*final(queue)),
            final(self).registration() is Some,
            old(self).registration() is None ==> {
                &&& final(self).registration()->Some_0.value == old(queue).next_id()
                &&& final(queue).next_id() == old(queue).next_id() + 1
                &&& !old(queue)@.contains_key(final(self).key())
                &&& final(queue)@ == old(queue)@.insert(final(self).key(), waker)
                &&& !ready
            },
            old(self).registration() is Some ==> {
                &&& final(self).registration() == old(self).registration()
                &&& final(queue).next_id() == old(queue).next_id()
                &&& ready == !old(queue)@.contains_key(old(self).key())
                &&& final(queue)@ == if ready {
                    old(queue)@
                } else {
                    old(queue)@.insert(old(self).key(), waker)
                }
            },
    {
        let id = match self.handle {
            Some(id) => {
                queue.update(id, self.when, waker);
                id
            },
            None => {
                let id = queue.register(self.when, waker);
                self.handle = Some(id);
                id
            },
        };
        !queue.is_pending(id, self.when)
    }

    /// Withdraws the timer: a registered timer's entry leaves the queue, so
    /// it can no longer fire.
    pub fn cancel<W>(&mut self, queue: &mut TimerQueue<W>)
        requires
            old(queue).wf(),
        ensures
            final(queue).wf(),
            final(self).when() == old(self).when(),
            final(self).registration() is None,
            final(queue).next_id() == old(queue).next_id(),
            final(queue)@ == if old(self).registration() is Some {
                old(queue)@.remove(old(self).key())
            } else {
                old(queue)@
            },
    {
        if let Some(id) = self.handle.take() {
            queue.deregister(id, self.when);
        }
    }
}

/// Timers registered with equal deadlines fire in the order in which they
/// were registered: the earlier identifier comes first in the queue's firing
/// order.
pub proof fn lemma_equal_deadlines_fire_in_registration_order<W>(
    queue: &TimerQueue<W>,
    when: u64,
    first: u64,
    second: u64,
    i: int,
    j: int,
)
    requires
        queue.wf(),
        first < second,
        0 <= i < queue.entries().len(),
        0 <= j < queue.entries().len(),
        queue.entries()[i].0 == (when, first),
        queue.entries()[j].0 == (when, second),
    ensures
        i < j,
{
    queue.lemma_entries();
    let s = queue.entries();
    if j < i {
        assert(key_lt(s[j].0, s[i].0));
    }
}

/// An entry that is not in the queue, such as that of a timer that was
/// withdrawn, is in no position of the firing order.
pub proof fn lemma_absent_entry_never_fires<W>(queue: &TimerQueue<W>, key: DeadlineKey)
    requires
        queue.wf(),
        !queue@.contains_key(key),
    ensures
        forall|i: int| 0 <= i < queue.entries().len() ==> (#[trigger] queue.entries()[i]).0 != key,
{
    queue.lemma_entries();
    lemma_all_entries_in_map(queue.entries());
}

/// A live timer has exactly one entry in the queue, and refreshing its waker
/// (what a repeated poll does to a pending timer) keeps exactly that entry
/// and no other change to the set of keys.
pub proof fn lemma_refresh_keeps_one_entry<W>(queue: &TimerQueue<W>, key: DeadlineKey, waker: W)
    requires
        queue.wf(),
        queue@.contains_key(key),
    ensures
        keys_with_id(queue@, key.1) == set![key],
        queue@.insert(key, waker).dom() == queue@.dom(),
        keys_with_id(queue@.insert(key, waker), key.1) == set![key],
{
    assert(keys_with_id(queue@, key.1) =~= set![key]);
    assert(queue@.insert(key, waker).dom() =~= queue@.dom());
    assert(keys_with_id(queue@.insert(key, waker), key.1) =~= set![key]);
}

} // verus!
