//! The consumer worker's state machine. A consumer loops between waiting on
//! the buffer and processing a popped item, and terminates the first time it
//! pops a sentinel; it never accepts another entry after that. The ghost
//! `received` history pins down that a consumer's lifetime holds exactly one
//! sentinel, and that it is the last entry it ever took.

use vstd::prelude::*;
use crate::buffer::{Buffer, Entry, sentinel_count, values_of};

verus! {

/// Where a consumer stands: parked on (or eligible to pop from) the buffer,
/// or terminated for good after its sentinel.
#[derive(Clone, Copy, Debug, PartialEq, Eq, Structural)]
pub enum Status {
    Waiting,
    Terminated,
}

/// One consumer worker: its identifier, the values it has processed in the
/// order it popped them, and its state. `received` is the ghost history of
/// every entry this consumer ever popped.
pub struct Consumer {
    pub id: usize,
    pub processed: Vec<u64>,
    pub status: Status,
    pub received: Ghost<Seq<Entry>>,
}

impl Consumer {
    /// The consumer invariant: everything processed is exactly the values of
    /// the items it received; a waiting consumer has never seen a sentinel;
    /// a terminated one received exactly one, as its last entry ever.
    pub open spec fn wf(self) -> bool {
        &&& self.processed@ == values_of(self.received@)
        &&& match self.status {
            Status::Waiting => sentinel_count(self.received@) == 0,
            Status::Terminated => {
                &&& sentinel_count(self.received@) == 1
                &&& self.received@.len() > 0
                &&& self.received@.last() is Sentinel
            },
        }
    }

    /// A fresh consumer: waiting, with nothing processed and nothing received.
    pub fn new(id: usize) -> (c: Consumer)
        ensures
            c.wf(),
            c.id == id,
            c.status is Waiting,
            c.processed@ == Seq::<u64>::empty(),
            c.received@ == Seq::<Entry>::empty(),
    {
        Consumer { id, processed: Vec::new(), status: Status::Waiting, received: Ghost(Seq::empty()) }
    }

    /// Take one popped entry: process an item and keep waiting, or terminate
    /// on a sentinel. Only a waiting consumer may accept — a terminated one
    /// never pops again.
    pub fn accept(&mut self, e: Entry)
        requires
            old(self).wf(),
            old(self).status is Waiting,
        ensures
            final(self).wf(),
            final(self).id == old(self).id,
            final(self).received@ == old(self).received@.push(e),
            match e {
                Entry::Item { producer_id, value } => {
                    &&& final(self).status is Waiting
                    &&& final(self).processed@ == old(self).processed@.push(value)
                },
                Entry::Sentinel => {
                    &&& final(self).status is Terminated
                    &&& final(self).processed@ == old(self).processed@
                },
            },
    {
        match e {
            Entry::Item { producer_id: _, value } => {
                self.processed.push(value);
            },
            Entry::Sentinel => {
                self.status = Status::Terminated;
            },
        }
        proof {
            crate::buffer::lemma_push(self.received@, e);
        }
        self.received = Ghost(self.received@.push(e));
    }
}

/// Sentinel exactness: over its whole lifetime a terminated consumer has
/// received exactly one sentinel, and it is the last entry it ever accepted;
/// a consumer still waiting has received none. (That it never pops again
/// after terminating is `accept`'s precondition: only a waiting consumer
/// may accept.)
pub proof fn lemma_sentinel_exactness(c: Consumer)
    requires
        c.wf(),
    ensures
        c.status is Terminated ==> sentinel_count(c.received@) == 1 && c.received@.last() is Sentinel,
        c.status is Waiting ==> sentinel_count(c.received@) == 0,
{
}

/// The index of the first sentinel of `q` (its length if there is none).
pub open spec fn first_sentinel(q: Seq<Entry>) -> int
    decreases q.len(),
{
    if q.len() == 0 {
        0
    } else if q[0] is Sentinel {
        0
    } else {
        1 + first_sentinel(q.drop_first())
    }
}

/// In a queue that holds a sentinel, the first sentinel is a real position,
/// and everything before it is a work item.
pub proof fn lemma_first_sentinel(q: Seq<Entry>)
    requires
        sentinel_count(q) > 0,
    ensures
        0 <= first_sentinel(q) < q.len(),
        q[first_sentinel(q)] is Sentinel,
        forall|i: int| 0 <= i < first_sentinel(q) ==> q[i] is Item,
    decreases q.len(),
{
    if q.len() > 0 && !(q[0] is Sentinel) {
        lemma_first_sentinel(q.drop_first());
        assert(forall|i: int|
            1 <= i < first_sentinel(q) ==> q[i] == q.drop_first()[i - 1] && q.drop_first()[i
                - 1] is Item);
    }
}

/// One consumer's whole run against a buffer it has to itself: pop until the
/// first sentinel, processing every item on the way, then terminate. This is
/// the consumer loop of the monitor pattern in one verified piece; in a
/// threaded run, each pop is one critical section instead.
pub fn consume_all(buf: &mut Buffer, con: &mut Consumer)
    requires
        old(con).wf(),
        old(con).status is Waiting,
        sentinel_count(old(buf)@) > 0,
    ensures
        final(con).wf(),
        final(con).status is Terminated,
        final(con).id == old(con).id,
        final(con).processed@ == old(con).processed@ + values_of(
            old(buf)@.take(first_sentinel(old(buf)@)),
        ),
        final(con).received@ == old(con).received@ + old(buf)@.take(first_sentinel(old(buf)@) + 1),
        final(buf)@ == old(buf)@.skip(first_sentinel(old(buf)@) + 1),
{
    let ghost q0 = buf@;
    let ghost r0 = con.received@;
    let ghost p0 = con.processed@;
    let ghost k = first_sentinel(q0);
    let ghost id0 = con.id;
    let ghost j: int = 0;
    proof {
        lemma_first_sentinel(q0);
        assert(q0.take(0) =~= Seq::<Entry>::empty());
        assert(q0.skip(0) =~= q0);
        assert(p0 + values_of(q0.take(0)) =~= p0);
        assert(r0 + q0.take(0) =~= r0);
    }
    while con.status == Status::Waiting
        invariant
            con.wf(),
            con.id == id0,
            k == first_sentinel(q0),
            sentinel_count(q0) > 0,
            q0[k] is Sentinel,
            forall|i: int| 0 <= i < k ==> q0[i] is Item,
            k < q0.len(),
            con.status is Waiting ==> {
                &&& 0 <= j <= k
                &&& buf@ == q0.skip(j)
                &&& con.processed@ == p0 + values_of(q0.take(j))
                &&& con.received@ == r0 + q0.take(j)
            },
            con.status is Terminated ==> {
                &&& buf@ == q0.skip(k + 1)
                &&& con.processed@ == p0 + values_of(q0.take(k))
                &&& con.received@ == r0 + q0.take(k + 1)
            },
        decreases q0.len() - j,
    {
        proof {
            assert(buf@.len() == q0.len() - j);
        }
        let e = buf.pop_front();
        proof {
            assert(q0.skip(j)[0] == q0[j]);
            assert(q0.skip(j).drop_first() =~= q0.skip(j + 1));
            assert(q0.take(j + 1) =~= q0.take(j).push(q0[j]));
            crate::buffer::lemma_push(q0.take(j), q0[j]);
        }
        con.accept(e);
        proof {
            assert(con.received@ =~= r0 + q0.take(j + 1));
            if e is Sentinel {
                assert(j == k);
                assert(con.processed@ =~= p0 + values_of(q0.take(k)));
            } else {
                assert(con.processed@ =~= p0 + values_of(q0.take(j + 1)));
            }
            j = j + 1;
        }
    }
}

} // verus!
