//! The shared FIFO buffer: an ordered queue of work items and shutdown
//! sentinels. In a threaded run the queue sits behind a mutex and a
//! condition variable; every operation here is one bounded critical
//! section, and the contracts say exactly what each does to the queue.

use vstd::prelude::*;

verus! {

/// One element of the shared queue: either a work item tagged with the
/// producer that pushed it, or the shutdown marker that terminates exactly
/// one consumer.
#[derive(Clone, Copy, Debug)]
pub enum Entry {
    Item { producer_id: usize, value: u64 },
    Sentinel,
}

/// The payload values of the work items of `q`, in queue order.
pub open spec fn values_of(q: Seq<Entry>) -> Seq<u64>
    decreases q.len(),
{
    if q.len() == 0 {
        Seq::empty()
    } else {
        match q[0] {
            Entry::Item { producer_id, value } => seq![value] + values_of(q.drop_first()),
            Entry::Sentinel => values_of(q.drop_first()),
        }
    }
}

/// How many shutdown sentinels `q` holds.
pub open spec fn sentinel_count(q: Seq<Entry>) -> nat
    decreases q.len(),
{
    if q.len() == 0 {
        0
    } else {
        (if q[0] is Sentinel {
            1nat
        } else {
            0nat
        }) + sentinel_count(q.drop_first())
    }
}

/// A queue of `n` sentinels and nothing else.
pub open spec fn sentinels(n: nat) -> Seq<Entry> {
    Seq::new(n, |i: int| Entry::Sentinel)
}

/// Appending one entry at the tail adds its value (for an item) or one
/// sentinel (for the marker) and changes nothing else.
pub proof fn lemma_push(q: Seq<Entry>, e: Entry)
    ensures
        values_of(q.push(e)) == (match e {
            Entry::Item { producer_id, value } => values_of(q).push(value),
            Entry::Sentinel => values_of(q),
        }),
        sentinel_count(q.push(e)) == sentinel_count(q) + (if e is Sentinel {
            1nat
        } else {
            0nat
        }),
    decreases q.len(),
{
    reveal_with_fuel(values_of, 2);
    reveal_with_fuel(sentinel_count, 2);
    if q.len() == 0 {
        assert(q.push(e).drop_first() =~= Seq::<Entry>::empty());
        assert(q.push(e)[0] == e);
        match e {
            Entry::Item { producer_id, value } => {
                assert(values_of(q.push(e)) == seq![value] + values_of(Seq::<Entry>::empty()));
                assert(seq![value] + Seq::<u64>::empty() =~= values_of(q).push(value));
            },
            Entry::Sentinel => {},
        }
    } else {
        assert(q.push(e).drop_first() =~= q.drop_first().push(e));
        assert(q.push(e)[0] == q[0]);
        lemma_push(q.drop_first(), e);
        match (q[0], e) {
            (Entry::Item { producer_id: p0, value: v0 }, Entry::Item { producer_id, value }) => {
                assert(values_of(q.push(e)) == seq![v0] + values_of(q.drop_first()).push(value));
                assert(seq![v0] + values_of(q.drop_first()).push(value) =~= (seq![v0] + values_of(
                    q.drop_first(),
                )).push(value));
            },
            _ => {},
        }
    }
}

/// Concatenation splits: the values and the sentinels of `q1 + q2` are those
/// of `q1` followed by those of `q2`.
pub proof fn lemma_append(q1: Seq<Entry>, q2: Seq<Entry>)
    ensures
        values_of(q1 + q2) == values_of(q1) + values_of(q2),
        sentinel_count(q1 + q2) == sentinel_count(q1) + sentinel_count(q2),
    decreases q2.len(),
{
    if q2.len() == 0 {
        assert(q1 + q2 =~= q1);
        assert(values_of(q1) + values_of(q2) =~= values_of(q1));
    } else {
        lemma_append(q1, q2.drop_last());
        lemma_push(q1 + q2.drop_last(), q2.last());
        lemma_push(q2.drop_last(), q2.last());
        assert((q1 + q2.drop_last()).push(q2.last()) =~= q1 + q2);
        assert(q2.drop_last().push(q2.last()) =~= q2);
        match q2.last() {
            Entry::Item { producer_id, value } => {
                assert(values_of(q1) + values_of(q2.drop_last()).push(value) =~= (values_of(q1)
                    + values_of(q2.drop_last())).push(value));
            },
            Entry::Sentinel => {},
        }
    }
}

/// A block of `n` sentinels holds no work value and `n` sentinels.
pub proof fn lemma_sentinels(n: nat)
    ensures
        values_of(sentinels(n)) == Seq::<u64>::empty(),
        sentinel_count(sentinels(n)) == n,
    decreases n,
{
    if n == 0 {
        assert(sentinels(0) =~= Seq::<Entry>::empty());
    } else {
        lemma_sentinels((n - 1) as nat);
        lemma_push(sentinels((n - 1) as nat), Entry::Sentinel);
        assert(sentinels((n - 1) as nat).push(Entry::Sentinel) =~= sentinels(n));
    }
}

/// A queue holds exactly its work items and its sentinels.
pub proof fn lemma_entry_partition(q: Seq<Entry>)
    ensures
        values_of(q).len() + sentinel_count(q) == q.len(),
    decreases q.len(),
{
    if q.len() > 0 {
        lemma_entry_partition(q.drop_first());
    }
}

/// The mutex-guarded FIFO queue of the monitor. Strict FIFO: `pop_front`
/// always returns the oldest entry not yet popped.
pub struct Buffer {
    queue: Vec<Entry>,
}

impl View for Buffer {
    type V = Seq<Entry>;

    closed spec fn view(&self) -> Seq<Entry> {
        self.queue@
    }
}

impl Buffer {
    /// An empty buffer, made once by the coordinator before any worker runs.
    pub fn new() -> (b: Buffer)
        ensures
            b@ == Seq::<Entry>::empty(),
    {
        Buffer { queue: Vec::new() }
    }

    /// Append one entry at the tail.
    pub fn push(&mut self, e: Entry)
        ensures
            final(self)@ == old(self)@.push(e),
    {
        self.queue.push(e);
    }

    /// Remove and return the head: the oldest entry still queued. Callers
    /// must have seen the buffer non-empty while holding the lock.
    pub fn pop_front(&mut self) -> (e: Entry)
        requires
            old(self)@.len() > 0,
        ensures
            e == old(self)@[0],
            final(self)@ == old(self)@.drop_first(),
    {
        let e = self.queue.remove(0);
        proof {
            assert(self.queue@ =~= old(self)@.drop_first());
        }
        e
    }

    /// Append `n` sentinels in one critical section; the coordinator calls
    /// this exactly once, after every producer has been joined.
    pub fn push_sentinels(&mut self, n: usize)
        ensures
            final(self)@ == old(self)@ + sentinels(n as nat),
    {
        let ghost orig = self@;
        proof {
            assert(orig + sentinels(0) =~= orig);
        }
        let mut i: usize = 0;
        while i < n
            invariant
                i <= n,
                self@ == orig + sentinels(i as nat),
            decreases n - i,
        {
            self.push(Entry::Sentinel);
            proof {
                assert(orig + sentinels((i + 1) as nat) =~= (orig + sentinels(
                    i as nat,
                )).push(Entry::Sentinel));
            }
            i = i + 1;
        }
    }

    /// How many entries are queued.
    pub fn len(&self) -> (n: usize)
        ensures
            n == self@.len(),
    {
        self.queue.len()
    }

    /// The emptiness test of the monitor's wait loop: a woken consumer
    /// re-checks this before popping, against spurious wakeups.
    pub fn is_empty(&self) -> (r: bool)
        ensures
            r == (self@.len() == 0),
    {
        self.queue.len() == 0
    }
}

} // verus!
