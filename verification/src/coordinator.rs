//! The coordinator protocol. One buffer is created; producers run against it
//! while the phase is `Producing`; only after every producer has been joined
//! does the coordinator inject exactly one sentinel per consumer and move to
//! `Shutdown`; consumers then drain until each has terminated on its own
//! sentinel. The well-formedness predicate carries the protocol's laws:
//! conservation of items, FIFO order, no sentinel before the producer
//! barrier, and one sentinel per consumer.

use vstd::prelude::*;
use vstd::multiset::Multiset;
use crate::buffer::{
    Buffer,
    Entry,
    lemma_append,
    lemma_entry_partition,
    lemma_push,
    lemma_sentinels,
    sentinel_count,
    sentinels,
    values_of,
};
use crate::consumer::{Consumer, Status};
use crate::producer::entries_of;

verus! {

/// The coordinator's phase: producers still running (no sentinel may exist),
/// or producers joined and the sentinels injected.
#[derive(Clone, Copy, Debug, PartialEq, Eq, Structural)]
pub enum Phase {
    Producing,
    Shutdown,
}

/// Everything the consumers have processed so far, over all of them,
/// as a multiset: order across consumers is scheduling, not contract.
pub open spec fn consumed_multiset(cs: Seq<Consumer>) -> Multiset<u64>
    decreases cs.len(),
{
    if cs.len() == 0 {
        Multiset::empty()
    } else {
        cs[0].processed@.to_multiset().add(consumed_multiset(cs.drop_first()))
    }
}

/// How many consumers have terminated.
pub open spec fn terminated_count(cs: Seq<Consumer>) -> nat
    decreases cs.len(),
{
    if cs.len() == 0 {
        0
    } else {
        (if cs[0].status is Terminated {
            1nat
        } else {
            0nat
        }) + terminated_count(cs.drop_first())
    }
}

pub open spec fn all_waiting(cs: Seq<Consumer>) -> bool {
    forall|i: int| 0 <= i < cs.len() ==> (#[trigger] cs[i]).status is Waiting
}

pub open spec fn all_terminated(cs: Seq<Consumer>) -> bool {
    forall|i: int| 0 <= i < cs.len() ==> (#[trigger] cs[i]).status is Terminated
}

/// Sentinels only ever stand at the back of the queue: once the head is a
/// sentinel, everything behind it is one too.
pub open spec fn sentinel_suffix(q: Seq<Entry>) -> bool {
    forall|i: int, j: int|
        0 <= i <= j < q.len() && (#[trigger] q[i]) is Sentinel ==> (#[trigger] q[j]) is Sentinel
}

/// A queue with no sentinel counted has no sentinel anywhere.
pub proof fn lemma_sentinel_count_zero(q: Seq<Entry>)
    ensures
        sentinel_count(q) == 0 <==> (forall|i: int| 0 <= i < q.len() ==> !((#[trigger] q[i]) is Sentinel)),
    decreases q.len(),
{
    if q.len() > 0 {
        lemma_sentinel_count_zero(q.drop_first());
        assert(forall|i: int|
            1 <= i < q.len() ==> q[i] == q.drop_first()[i - 1]);
    }
}

/// A queue of sentinels alone counts its whole length.
pub proof fn lemma_all_sentinel(q: Seq<Entry>)
    requires
        forall|i: int| 0 <= i < q.len() ==> (#[trigger] q[i]) is Sentinel,
    ensures
        sentinel_count(q) == q.len(),
    decreases q.len(),
{
    if q.len() > 0 {
        assert(forall|i: int|
            0 <= i < q.drop_first().len() ==> (#[trigger] q.drop_first()[i]) == q[i + 1]);
        lemma_all_sentinel(q.drop_first());
    }
}

/// Replacing one consumer exchanges its old processed values and termination
/// mark for the new ones, and touches nothing else.
pub proof fn lemma_consumers_exchange(cs: Seq<Consumer>, idx: int, c: Consumer)
    requires
        0 <= idx < cs.len(),
    ensures
        consumed_multiset(cs.update(idx, c)).add(cs[idx].processed@.to_multiset())
            == consumed_multiset(cs).add(c.processed@.to_multiset()),
        terminated_count(cs.update(idx, c)) + (if cs[idx].status is Terminated {
            1nat
        } else {
            0nat
        }) == terminated_count(cs) + (if c.status is Terminated {
            1nat
        } else {
            0nat
        }),
    decreases cs.len(),
{
    broadcast use vstd::multiset::group_multiset_axioms;

    let cs2 = cs.update(idx, c);
    let rest = cs.drop_first();
    if idx == 0 {
        assert(cs2.drop_first() =~= rest);
        assert(cs2[0] == c);
        assert forall|x: u64|
            consumed_multiset(cs2).add(cs[0].processed@.to_multiset()).count(x)
                == consumed_multiset(cs).add(c.processed@.to_multiset()).count(x) by {
            assert(consumed_multiset(cs2).count(x) == c.processed@.to_multiset().count(x)
                + consumed_multiset(rest).count(x));
            assert(consumed_multiset(cs).count(x) == cs[0].processed@.to_multiset().count(x)
                + consumed_multiset(rest).count(x));
        }
        assert(consumed_multiset(cs2).add(cs[0].processed@.to_multiset())
            =~= consumed_multiset(cs).add(c.processed@.to_multiset()));
    } else {
        let restupd = rest.update(idx - 1, c);
        assert(cs2.drop_first() =~= restupd);
        assert(cs2[0] == cs[0]);
        assert(rest[idx - 1] == cs[idx]);
        lemma_consumers_exchange(rest, idx - 1, c);
        assert forall|x: u64|
            consumed_multiset(cs2).add(cs[idx].processed@.to_multiset()).count(x)
                == consumed_multiset(cs).add(c.processed@.to_multiset()).count(x) by {
            assert(consumed_multiset(restupd).add(cs[idx].processed@.to_multiset()).count(x)
                == consumed_multiset(rest).add(c.processed@.to_multiset()).count(x));
            assert(consumed_multiset(cs2).count(x) == cs[0].processed@.to_multiset().count(x)
                + consumed_multiset(restupd).count(x));
            assert(consumed_multiset(cs).count(x) == cs[0].processed@.to_multiset().count(x)
                + consumed_multiset(rest).count(x));
        }
        assert(consumed_multiset(cs2).add(cs[idx].processed@.to_multiset())
            =~= consumed_multiset(cs).add(c.processed@.to_multiset()));
    }
}

/// Consumers with nothing processed have an empty joint multiset, and the
/// converse: an empty joint multiset means every consumer processed nothing.
pub proof fn lemma_consumed_empty(cs: Seq<Consumer>)
    ensures
        (forall|i: int| 0 <= i < cs.len() ==> (#[trigger] cs[i]).processed@.len() == 0)
            <==> consumed_multiset(cs).len() == 0,
    decreases cs.len(),
{
    broadcast use vstd::seq_lib::group_to_multiset_ensures;
    broadcast use vstd::multiset::group_multiset_axioms;

    if cs.len() > 0 {
        let rest = cs.drop_first();
        lemma_consumed_empty(rest);
        assert(forall|i: int| 0 <= i < rest.len() ==> (#[trigger] rest[i]) == cs[i + 1]);
        assert(consumed_multiset(cs).len() == cs[0].processed@.to_multiset().len()
            + consumed_multiset(rest).len());
        assert(cs[0].processed@.to_multiset().len() == cs[0].processed@.len());
        if forall|i: int| 0 <= i < cs.len() ==> (#[trigger] cs[i]).processed@.len() == 0 {
            assert forall|i: int| 0 <= i < rest.len() implies (#[trigger] rest[i]).processed@.len()
                == 0 by {
                assert(cs[i + 1].processed@.len() == 0);
            }
            assert(cs[0].processed@.len() == 0);
        }
        if consumed_multiset(cs).len() == 0 {
            assert forall|i: int| 0 <= i < cs.len() implies (#[trigger] cs[i]).processed@.len()
                == 0 by {
                if i > 0 {
                    assert(rest[i - 1].processed@.len() == 0);
                }
            }
        }
    }
}

/// Termination counting: never more than the consumers; all of them exactly
/// when the count is full; none when all still wait.
pub proof fn lemma_terminated_bounds(cs: Seq<Consumer>)
    ensures
        terminated_count(cs) <= cs.len(),
        terminated_count(cs) == cs.len() ==> all_terminated(cs),
        all_terminated(cs) ==> terminated_count(cs) == cs.len(),
        all_waiting(cs) ==> terminated_count(cs) == 0,
    decreases cs.len(),
{
    if cs.len() > 0 {
        let rest = cs.drop_first();
        lemma_terminated_bounds(rest);
        assert(forall|i: int| 0 <= i < rest.len() ==> (#[trigger] rest[i]) == cs[i + 1]);
        if terminated_count(cs) == cs.len() {
            assert forall|i: int| 0 <= i < cs.len() implies (#[trigger] cs[i]).status is Terminated by {
                assert(all_terminated(rest));
                if i > 0 {
                    assert(rest[i - 1].status is Terminated);
                }
            }
        }
        if all_terminated(cs) {
            assert forall|i: int| 0 <= i < rest.len() implies (#[trigger] rest[i]).status is Terminated by {
                assert(cs[i + 1].status is Terminated);
            }
        }
        if all_waiting(cs) {
            assert forall|i: int| 0 <= i < rest.len() implies (#[trigger] rest[i]).status is Waiting by {
                assert(cs[i + 1].status is Waiting);
            }
        }
    }
}

/// A consumer still waiting keeps the termination count strictly short.
pub proof fn lemma_waiting_strict(cs: Seq<Consumer>, idx: int)
    requires
        0 <= idx < cs.len(),
        cs[idx].status is Waiting,
    ensures
        terminated_count(cs) < cs.len(),
    decreases cs.len(),
{
    lemma_terminated_bounds(cs.drop_first());
    if idx == 0 {
    } else {
        lemma_waiting_strict(cs.drop_first(), idx - 1);
    }
}

/// The coordinator: the one shared buffer, the consumer workers, the phase,
/// and the ghost histories of every value pushed and every value popped, in
/// order.
pub struct Coordinator {
    pub buffer: Buffer,
    pub consumers: Vec<Consumer>,
    pub phase: Phase,
    pub pushed: Ghost<Seq<u64>>,
    pub popped: Ghost<Seq<u64>>,
}

impl Coordinator {
    /// The protocol invariant.
    ///
    /// - every consumer is well formed and numbered by its slot;
    /// - conservation with FIFO order: the values pushed are exactly the
    ///   values popped so far followed by the values still queued;
    /// - every popped value sits with exactly one consumer;
    /// - with a single consumer, what it processed is the pop order itself;
    /// - sentinels only ever form a suffix of the queue;
    /// - while producing, the queue holds no sentinel and no consumer has
    ///   terminated; after shutdown, the sentinels still queued and the
    ///   consumers already terminated account for one sentinel per consumer;
    /// - once every consumer has terminated, the queue is empty.
    pub open spec fn wf(self) -> bool {
        &&& forall|i: int|
            0 <= i < self.consumers@.len() ==> (#[trigger] self.consumers@[i]).wf()
                && self.consumers@[i].id == i
        &&& self.pushed@ == self.popped@ + values_of(self.buffer@)
        &&& self.popped@.to_multiset() == consumed_multiset(self.consumers@)
        &&& (self.consumers@.len() == 1 ==> self.popped@ == self.consumers@[0].processed@)
        &&& sentinel_suffix(self.buffer@)
        &&& match self.phase {
            Phase::Producing => sentinel_count(self.buffer@) == 0 && all_waiting(self.consumers@),
            Phase::Shutdown => sentinel_count(self.buffer@) + terminated_count(self.consumers@)
                == self.consumers@.len(),
        }
        &&& (self.consumers@.len() > 0 && terminated_count(self.consumers@)
            == self.consumers@.len() ==> self.buffer@.len() == 0)
    }

    /// Build the shared buffer and the consumer workers; producers may then
    /// run. Nothing has been pushed, popped or processed yet.
    pub fn new(consumer_count: usize) -> (c: Coordinator)
        ensures
            c.wf(),
            c.phase is Producing,
            c.buffer@ == Seq::<Entry>::empty(),
            c.consumers@.len() == consumer_count,
            c.pushed@ == Seq::<u64>::empty(),
            c.popped@ == Seq::<u64>::empty(),
            all_waiting(c.consumers@),
    {
        let mut consumers: Vec<Consumer> = Vec::new();
        let mut i: usize = 0;
        while i < consumer_count
            invariant
                i == consumers@.len(),
                i <= consumer_count,
                forall|j: int|
                    0 <= j < i ==> (#[trigger] consumers@[j]).wf() && consumers@[j].id == j
                        && consumers@[j].status is Waiting && consumers@[j].processed@.len() == 0,
            decreases consumer_count - i,
        {
            consumers.push(Consumer::new(i));
            i = i + 1;
        }
        let c = Coordinator {
            buffer: Buffer::new(),
            consumers,
            phase: Phase::Producing,
            pushed: Ghost(Seq::empty()),
            popped: Ghost(Seq::empty()),
        };
        proof {
            lemma_consumed_empty(c.consumers@);
            lemma_terminated_bounds(c.consumers@);
            broadcast use vstd::seq_lib::group_to_multiset_ensures;
            broadcast use vstd::multiset::group_multiset_axioms;

            assert(c.popped@.to_multiset() =~= consumed_multiset(c.consumers@));
            assert(c.pushed@ =~= c.popped@ + values_of(c.buffer@));
        }
        c
    }

    /// One producer push: wrap `value` as an item of producer `producer_id`
    /// and append it. Only possible while producing — so never after the
    /// sentinels — and it keeps the queue sentinel-free.
    pub fn push_item(&mut self, producer_id: usize, value: u64)
        requires
            old(self).wf(),
            old(self).phase is Producing,
        ensures
            final(self).wf(),
            final(self).phase is Producing,
            final(self).buffer@ == old(self).buffer@.push(
                Entry::Item { producer_id, value },
            ),
            final(self).pushed@ == old(self).pushed@.push(value),
            final(self).popped@ == old(self).popped@,
            final(self).consumers@ == old(self).consumers@,
            sentinel_count(final(self).buffer@) == 0,
    {
        proof {
            lemma_push(self.buffer@, Entry::Item { producer_id, value });
        }
        let ghost q0 = self.buffer@;
        self.buffer.push(Entry::Item { producer_id, value });
        self.pushed = Ghost(self.pushed@.push(value));
        proof {
            assert(self.pushed@ =~= self.popped@ + values_of(self.buffer@));
            lemma_sentinel_count_zero(q0);
            lemma_sentinel_count_zero(self.buffer@);
            lemma_terminated_bounds(self.consumers@);
        }
    }

    /// One producer worker's whole run: push every value of its sequence in
    /// order. Models the producer thread; in a threaded run each push is its
    /// own critical section against the same buffer.
    pub fn run_producer(&mut self, producer_id: usize, values: &Vec<u64>)
        requires
            old(self).wf(),
            old(self).phase is Producing,
        ensures
            final(self).wf(),
            final(self).phase is Producing,
            final(self).buffer@ == old(self).buffer@ + entries_of(producer_id, values@),
            final(self).pushed@ == old(self).pushed@ + values@,
            final(self).popped@ == old(self).popped@,
            final(self).consumers@ == old(self).consumers@,
    {
        let ghost q0 = self.buffer@;
        let ghost v0 = self.pushed@;
        let ghost cs0 = self.consumers@;
        let ghost o0 = self.popped@;
        proof {
            assert(q0 + entries_of(producer_id, values@.take(0)) =~= q0);
            assert(v0 + values@.take(0) =~= v0);
        }
        let mut i: usize = 0;
        while i < values.len()
            invariant
                self.wf(),
                self.phase is Producing,
                i <= values.len(),
                self.buffer@ == q0 + entries_of(producer_id, values@.take(i as int)),
                self.pushed@ == v0 + values@.take(i as int),
                self.popped@ == o0,
                self.consumers@ == cs0,
            decreases values.len() - i,
        {
            let v = values[i];
            self.push_item(producer_id, v);
            proof {
                assert(q0 + entries_of(producer_id, values@.take(i + 1)) =~= (q0 + entries_of(
                    producer_id,
                    values@.take(i as int),
                )).push(Entry::Item { producer_id, value: v }));
                assert(v0 + values@.take(i + 1) =~= (v0 + values@.take(i as int)).push(v));
            }
            i = i + 1;
        }
        proof {
            assert(values@.take(values@.len() as int) =~= values@);
        }
    }

    /// The shutdown barrier: called exactly once, after every producer has
    /// been joined, this injects one sentinel per consumer in a single batch
    /// at the back of the queue. No producer item can ever follow them.
    pub fn finish_producers(&mut self)
        requires
            old(self).wf(),
            old(self).phase is Producing,
        ensures
            final(self).wf(),
            final(self).phase is Shutdown,
            final(self).buffer@ == old(self).buffer@ + sentinels(old(self).consumers@.len()),
            final(self).pushed@ == old(self).pushed@,
            final(self).popped@ == old(self).popped@,
            final(self).consumers@ == old(self).consumers@,
    {
        let ghost q0 = self.buffer@;
        let n = self.consumers.len();
        self.buffer.push_sentinels(n);
        self.phase = Phase::Shutdown;
        proof {
            lemma_append(q0, sentinels(n as nat));
            lemma_sentinels(n as nat);
            assert(values_of(self.buffer@) =~= values_of(q0));
            lemma_sentinel_count_zero(q0);
            lemma_terminated_bounds(self.consumers@);
            assert forall|i: int, j: int|
                0 <= i <= j < self.buffer@.len() && (#[trigger] self.buffer@[i]) is Sentinel
                    implies (#[trigger] self.buffer@[j]) is Sentinel by {
                assert(i >= q0.len());
            }
        }
    }

    /// One scheduling step: consumer `idx`, awake and still waiting, pops the
    /// head of the non-empty queue and takes it. Any waiting consumer may be
    /// scheduled — the buffer does not choose. While producers still run the
    /// head is always a real item, so no consumer can terminate early.
    pub fn step(&mut self, idx: usize)
        requires
            old(self).wf(),
            idx < old(self).consumers@.len(),
            old(self).consumers@[idx as int].status is Waiting,
            old(self).buffer@.len() > 0,
        ensures
            final(self).wf(),
            final(self).phase == old(self).phase,
            final(self).buffer@ == old(self).buffer@.drop_first(),
            final(self).pushed@ == old(self).pushed@,
            final(self).consumers@.len() == old(self).consumers@.len(),
            forall|j: int|
                0 <= j < old(self).consumers@.len() && j != idx
                    ==> (#[trigger] final(self).consumers@[j]) == old(self).consumers@[j],
            final(self).consumers@[idx as int].received@
                == old(self).consumers@[idx as int].received@.push(old(self).buffer@[0]),
            match old(self).buffer@[0] {
                Entry::Item { producer_id, value } => {
                    &&& final(self).consumers@[idx as int].status is Waiting
                    &&& final(self).consumers@[idx as int].processed@
                        == old(self).consumers@[idx as int].processed@.push(value)
                    &&& final(self).popped@ == old(self).popped@.push(value)
                },
                Entry::Sentinel => {
                    &&& final(self).consumers@[idx as int].status is Terminated
                    &&& final(self).consumers@[idx as int].processed@
                        == old(self).consumers@[idx as int].processed@
                    &&& final(self).popped@ == old(self).popped@
                },
            },
            old(self).phase is Producing ==> old(self).buffer@[0] is Item,
    {
        broadcast use vstd::seq_lib::group_to_multiset_ensures;
        broadcast use vstd::multiset::group_multiset_axioms;

        let ghost q0 = self.buffer@;
        let ghost cs0 = self.consumers@;
        proof {
            if self.phase is Producing {
                lemma_sentinel_count_zero(q0);
            }
        }
        let e = self.buffer.pop_front();
        let c = &mut self.consumers[idx];
        c.accept(e);
        proof {
            let cs1 = self.consumers@;
            lemma_consumers_exchange(cs0, idx as int, cs1[idx as int]);
            assert(cs1 =~= cs0.update(idx as int, cs1[idx as int]));
            match e {
                Entry::Item { producer_id, value } => {
                    let p_old = cs0[idx as int].processed@.to_multiset();
                    assert(cs1[idx as int].processed@ == cs0[idx as int].processed@.push(value));
                    assert(cs1[idx as int].processed@.to_multiset() == p_old.insert(value));
                    assert forall|x: u64|
                        consumed_multiset(cs1).count(x) == consumed_multiset(cs0).insert(
                            value,
                        ).count(x) by {
                        assert(consumed_multiset(cs1).add(p_old).count(x) == consumed_multiset(
                            cs0,
                        ).add(p_old.insert(value)).count(x));
                        assert(consumed_multiset(cs1).add(p_old).count(x) == consumed_multiset(
                            cs1,
                        ).count(x) + p_old.count(x));
                        assert(consumed_multiset(cs0).add(p_old.insert(value)).count(x)
                            == consumed_multiset(cs0).count(x) + p_old.insert(value).count(x));
                    }
                    assert(consumed_multiset(cs1) =~= consumed_multiset(cs0).insert(value));
                    self.popped = Ghost(self.popped@.push(value));
                    assert(self.popped@.to_multiset() == consumed_multiset(cs1));
                    assert(values_of(q0) == seq![value] + values_of(q0.drop_first()));
                    assert(self.popped@ + values_of(self.buffer@) =~= self.pushed@);
                },
                Entry::Sentinel => {
                    let p_old = cs0[idx as int].processed@.to_multiset();
                    assert(cs1[idx as int].processed@.to_multiset() == p_old);
                    assert forall|x: u64|
                        consumed_multiset(cs1).count(x) == consumed_multiset(cs0).count(x) by {
                        assert(consumed_multiset(cs1).add(p_old).count(x) == consumed_multiset(
                            cs0,
                        ).add(p_old).count(x));
                        assert(consumed_multiset(cs1).add(p_old).count(x) == consumed_multiset(
                            cs1,
                        ).count(x) + p_old.count(x));
                        assert(consumed_multiset(cs0).add(p_old).count(x) == consumed_multiset(
                            cs0,
                        ).count(x) + p_old.count(x));
                    }
                    assert(consumed_multiset(cs1) =~= consumed_multiset(cs0));
                },
            }
            lemma_terminated_bounds(cs1);
            if terminated_count(cs1) == cs1.len() && cs1.len() > 0 {
                // The popped sentinel was the last one owed: everything still
                // queued is a sentinel by the suffix shape, and none is left.
                assert(e is Sentinel);
                assert(forall|j: int|
                    0 <= j < self.buffer@.len() ==> (#[trigger] self.buffer@[j]) == q0[j + 1]);
                lemma_all_sentinel(self.buffer@);
            }
        }
    }

    /// Drain to completion from any shutdown state: schedule every consumer
    /// that still waits until it has terminated on its sentinel. The whole
    /// run then ends — the queue is empty, every value pushed was popped in
    /// push order, and each consumer holds its share of the items plus
    /// exactly one sentinel.
    pub fn drain(&mut self)
        requires
            old(self).wf(),
            old(self).phase is Shutdown,
            old(self).consumers@.len() > 0,
        ensures
            final(self).wf(),
            final(self).phase is Shutdown,
            final(self).consumers@.len() == old(self).consumers@.len(),
            final(self).pushed@ == old(self).pushed@,
            all_terminated(final(self).consumers@),
            final(self).buffer@.len() == 0,
            final(self).popped@ == old(self).pushed@,
            consumed_multiset(final(self).consumers@) == old(self).pushed@.to_multiset(),
            forall|i: int|
                0 <= i < final(self).consumers@.len() ==> sentinel_count(
                    (#[trigger] final(self).consumers@[i]).received@,
                ) == 1 && final(self).consumers@[i].received@.last() is Sentinel,
            old(self).pushed@.len() == 0 ==> forall|i: int|
                0 <= i < final(self).consumers@.len()
                    ==> (#[trigger] final(self).consumers@[i]).processed@.len() == 0,
            old(self).consumers@.len() == 1 ==> final(self).consumers@[0].processed@
                == old(self).pushed@,
    {
        let ghost v0 = self.pushed@;
        let count = self.consumers.len();
        let mut idx: usize = 0;
        while idx < count
            invariant
                self.wf(),
                self.phase is Shutdown,
                self.consumers@.len() == count,
                idx <= count,
                count > 0,
                self.pushed@ == v0,
                forall|j: int| 0 <= j < idx ==> (#[trigger] self.consumers@[j]).status is Terminated,
            decreases count - idx,
        {
            while self.consumers[idx].status == Status::Waiting
                invariant
                    self.wf(),
                    self.phase is Shutdown,
                    self.consumers@.len() == count,
                    idx < count,
                    self.pushed@ == v0,
                    forall|j: int|
                        0 <= j < idx ==> (#[trigger] self.consumers@[j]).status is Terminated,
                decreases self.buffer@.len(),
            {
                proof {
                    lemma_waiting_strict(self.consumers@, idx as int);
                    lemma_entry_partition(self.buffer@);
                }
                self.step(idx);
            }
            idx = idx + 1;
        }
        proof {
            lemma_terminated_bounds(self.consumers@);
            assert(self.buffer@.len() == 0);
            assert(values_of(self.buffer@) =~= Seq::<u64>::empty());
            assert(self.popped@ =~= self.pushed@);
            lemma_consumed_empty(self.consumers@);
            broadcast use vstd::seq_lib::group_to_multiset_ensures;
            broadcast use vstd::multiset::group_multiset_axioms;
        }
    }
}

/// No premature termination: while any producer may still push — the phase
/// is still `Producing` — the queue holds no sentinel at all, so no consumer
/// can terminate ahead of the producer barrier.
pub proof fn lemma_no_premature_sentinel(c: Coordinator)
    requires
        c.wf(),
        c.phase is Producing,
    ensures
        sentinel_count(c.buffer@) == 0,
        all_waiting(c.consumers@),
{
}

/// Conservation: at every reachable state, the values pushed so far are
/// exactly the values still queued together with the values processed by
/// the consumers — nothing lost, nothing duplicated.
pub proof fn lemma_conservation(c: Coordinator)
    requires
        c.wf(),
    ensures
        c.pushed@.to_multiset() == consumed_multiset(c.consumers@).add(
            values_of(c.buffer@).to_multiset(),
        ),
{
    broadcast use vstd::multiset::group_multiset_axioms;

    vstd::seq_lib::lemma_multiset_commutative(c.popped@, values_of(c.buffer@));
    assert(c.pushed@.to_multiset() =~= consumed_multiset(c.consumers@).add(
        values_of(c.buffer@).to_multiset(),
    ));
}

/// The whole coordinated run in one verified piece, with the reference
/// replication semantics: every producer pushes the *same* full value
/// sequence, so the total pushed is `producer_count` times the sequence —
/// deliberately not a partition. Producers all run to completion, then the
/// barrier injects the sentinels, then the consumers drain: every value is
/// processed by exactly one consumer and every worker terminates.
pub fn run_session(producer_count: usize, values: &Vec<u64>, consumer_count: usize) -> (c:
    Coordinator)
    requires
        consumer_count > 0,
    ensures
        c.wf(),
        c.phase is Shutdown,
        c.consumers@.len() == consumer_count,
        all_terminated(c.consumers@),
        c.buffer@.len() == 0,
        c.pushed@ == replicated(values@, producer_count as nat),
        c.popped@ == replicated(values@, producer_count as nat),
        consumed_multiset(c.consumers@) == replicated(values@, producer_count as nat).to_multiset(),
        producer_count == 1 && consumer_count == 1 ==> c.consumers@[0].processed@ == values@,
{
    let mut c = Coordinator::new(consumer_count);
    let ghost base = c.pushed@;
    let mut pid: usize = 0;
    proof {
        assert(replicated(values@, 0) =~= Seq::<u64>::empty());
    }
    while pid < producer_count
        invariant
            c.wf(),
            c.phase is Producing,
            c.consumers@.len() == consumer_count,
            pid <= producer_count,
            c.pushed@ == replicated(values@, pid as nat),
        decreases producer_count - pid,
    {
        c.run_producer(pid, values);
        pid = pid + 1;
    }
    c.finish_producers();
    c.drain();
    proof {
        if producer_count == 1 && consumer_count == 1 {
            assert(replicated(values@, 1) =~= values@);
        }
    }
    c
}

/// `p` copies of `values`, back to back: what `p` producers with the same
/// source sequence push in total.
pub open spec fn replicated(values: Seq<u64>, p: nat) -> Seq<u64>
    decreases p,
{
    if p == 0 {
        Seq::empty()
    } else {
        replicated(values, (p - 1) as nat) + values
    }
}

} // verus!
