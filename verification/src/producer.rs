//! The producer worker. A producer owns a finite, ordered sequence of values
//! from the work-item source; it wraps each as an item tagged with its own
//! identifier and pushes it at the buffer's tail, in order, then terminates.
//! Producers know nothing of consumers or sentinels.

use vstd::prelude::*;
use crate::buffer::{Buffer, Entry, sentinel_count, values_of};

verus! {

/// The entries a producer with identifier `id` pushes for `values`: the same
/// values, in the same order, each tagged with `id`.
pub open spec fn entries_of(id: usize, values: Seq<u64>) -> Seq<Entry> {
    Seq::new(values.len(), |i: int| Entry::Item { producer_id: id, value: values[i] })
}

/// A producer's entries carry exactly its values, and never a sentinel.
pub proof fn lemma_entries_of(id: usize, values: Seq<u64>)
    ensures
        values_of(entries_of(id, values)) == values,
        sentinel_count(entries_of(id, values)) == 0,
    decreases values.len(),
{
    if values.len() == 0 {
        assert(entries_of(id, values) =~= Seq::<Entry>::empty());
        assert(values_of(Seq::<Entry>::empty()) =~= values);
    } else {
        lemma_entries_of(id, values.drop_last());
        crate::buffer::lemma_push(
            entries_of(id, values.drop_last()),
            Entry::Item { producer_id: id, value: values.last() },
        );
        assert(entries_of(id, values.drop_last()).push(
            Entry::Item { producer_id: id, value: values.last() },
        ) =~= entries_of(id, values));
        assert(values.drop_last().push(values.last()) =~= values);
    }
}

/// One producer's whole run against a buffer it has to itself: push every
/// value of its sequence, in order, wrapped as its own item. In a threaded
/// run each push is one critical section; the effect on the queue is the
/// same appended block.
pub fn produce(buf: &mut Buffer, id: usize, values: &Vec<u64>)
    ensures
        final(buf)@ == old(buf)@ + entries_of(id, values@),
        values_of(final(buf)@) == values_of(old(buf)@) + values@,
        sentinel_count(final(buf)@) == sentinel_count(old(buf)@),
{
    let ghost q0 = buf@;
    proof {
        assert(q0 + entries_of(id, values@.take(0)) =~= q0);
    }
    let mut i: usize = 0;
    while i < values.len()
        invariant
            i <= values.len(),
            buf@ == q0 + entries_of(id, values@.take(i as int)),
        decreases values.len() - i,
    {
        let v = values[i];
        buf.push(Entry::Item { producer_id: id, value: v });
        proof {
            assert(q0 + entries_of(id, values@.take(i + 1)) =~= (q0 + entries_of(
                id,
                values@.take(i as int),
            )).push(Entry::Item { producer_id: id, value: v }));
        }
        i = i + 1;
    }
    proof {
        assert(values@.take(values@.len() as int) =~= values@);
        crate::buffer::lemma_append(q0, entries_of(id, values@));
        lemma_entries_of(id, values@);
    }
}

} // verus!
