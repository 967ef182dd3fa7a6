//! Bounded sample channel: a fixed-capacity drop-oldest ring buffer for
//! point-in-time snapshots, paired with a lossless delivery queue.
//! Producer and consumer halves share one of these behind a lock in the
//! unverified binary; the semantics of every operation live here.
use vstd::prelude::*;

use crate::util::all_le;

verus! {

/// Ring contents after one value is appended: the oldest entry is
/// evicted once the ring is full.
pub open spec fn ring_step(r: Seq<i64>, v: i64, cap: nat) -> Seq<i64> {
    if r.len() >= cap {
        r.drop_first().push(v)
    } else {
        r.push(v)
    }
}

/// Ring contents after every value of `vals` is sent, oldest first,
/// into a channel that started empty.
pub open spec fn ring_after_sends(vals: Seq<i64>, cap: nat) -> Seq<i64>
    decreases vals.len(),
{
    if vals.len() == 0 {
        Seq::<i64>::empty()
    } else {
        ring_step(ring_after_sends(vals.drop_last(), cap), vals.last(), cap)
    }
}

/// Fixed-capacity overwrite-oldest buffer plus a lossless delivery
/// queue. `send` never blocks and never drops a delivery; the ring
/// keeps only the most recent `capacity` values for snapshot readers.
pub struct BoundedChannel {
    pub ring: Vec<i64>,
    pub pending: Vec<i64>,
    pub capacity: usize,
}

impl BoundedChannel {
    pub open spec fn wf(&self) -> bool {
        &&& self.capacity > 0
        &&& self.ring@.len() <= self.capacity
    }

    /// Appends to the ring (evicting the oldest value when full) and
    /// enqueues on the delivery queue.
    pub fn send(&mut self, val: i64)
        requires
            old(self).wf(),
        ensures
            final (self).wf(),
            final (self).capacity == old(self).capacity,
            final (self).ring@ == ring_step(old(self).ring@, val, old(self).capacity as nat),
            final (self).pending@ == old(self).pending@.push(val),
    {
        if self.ring.len() == self.capacity {
            self.ring.remove(0);
            proof {
                assert(self.ring@ =~= old(self).ring@.drop_first());
            }
        }
        self.ring.push(val);
        self.pending.push(val);
    }

    /// Non-blocking pop from the lossless delivery queue.
    pub fn recv(&mut self) -> (r: Option<i64>)
        ensures
            final (self).ring == old(self).ring,
            final (self).capacity == old(self).capacity,
            old(self).pending@.len() == 0 ==> r is None && final (self).pending == old(self).pending,
            old(self).pending@.len() > 0 ==> r == Some(old(self).pending@[0]) && final (self).pending@
                == old(self).pending@.drop_first(),
    {
        if self.pending.len() == 0 {
            None
        } else {
            let v: i64 = self.pending.remove(0);
            proof {
                assert(self.pending@ =~= old(self).pending@.drop_first());
            }
            Some(v)
        }
    }

    /// Point-in-time copy of the ring: the most recent `capacity`
    /// values, in arrival order.
    pub fn snapshot(&self) -> (r: Vec<i64>)
        ensures
            r@ == self.ring@,
    {
        let mut out: Vec<i64> = Vec::new();
        let mut i: usize = 0;
        while i < self.ring.len()
            invariant
                i <= self.ring@.len(),
                out@ == self.ring@.subrange(0, i as int),
            decreases self.ring@.len() - i,
        {
            out.push(self.ring[i]);
            i = i + 1;
            proof {
                assert(out@ =~= self.ring@.subrange(0, i as int));
            }
        }
        proof {
            assert(out@ =~= self.ring@);
        }
        out
    }
}

/// Creates an empty bounded channel.
pub fn deque_channel(capacity: usize) -> (ch: BoundedChannel)
    requires
        capacity > 0,
    ensures
        ch.wf(),
        ch.capacity == capacity,
        ch.ring@ == Seq::<i64>::empty(),
        ch.pending@ == Seq::<i64>::empty(),
{
    BoundedChannel { ring: Vec::new(), pending: Vec::new(), capacity }
}

/// The overwrite-oldest law: sending any series of values into an empty
/// channel leaves the ring holding exactly the most recent `capacity`
/// of them, in arrival order — the whole series while it still fits.
pub proof fn lemma_ring_keeps_most_recent(vals: Seq<i64>, cap: nat)
    requires
        cap > 0,
    ensures
        vals.len() <= cap ==> ring_after_sends(vals, cap) == vals,
        vals.len() > cap ==> ring_after_sends(vals, cap) == vals.skip(vals.len() - cap),
        ring_after_sends(vals, cap).len() <= cap,
    decreases vals.len(),
{
    if vals.len() == 0 {
        assert(ring_after_sends(vals, cap) =~= vals);
    } else {
        let head = vals.drop_last();
        lemma_ring_keeps_most_recent(head, cap);
        let prev = ring_after_sends(head, cap);
        if vals.len() <= cap {
            assert(prev == head);
            assert(prev.push(vals.last()) =~= vals);
        } else if vals.len() == cap + 1 {
            assert(prev == head);
            assert(prev.drop_first().push(vals.last()) =~= vals.skip(1));
        } else {
            assert(prev == head.skip(head.len() - cap));
            assert(prev.drop_first().push(vals.last()) =~= vals.skip(vals.len() - cap));
        }
    }
}


/// A bound on every ring element survives one send of a bounded value.
pub proof fn lemma_ring_step_all_le(r: Seq<i64>, v: i64, cap: nat, b: int)
    requires
        0 < cap,
        all_le(r, b),
        -b <= v <= b,
    ensures
        all_le(ring_step(r, v, cap), b),
{
    let r2 = ring_step(r, v, cap);
    assert forall|i: int| 0 <= i < r2.len() implies -b <= #[trigger] r2[i] <= b by {
        if i < r2.len() - 1 {
            if r.len() >= cap {
                assert(r2[i] == r[i + 1]);
            } else {
                assert(r2[i] == r[i]);
            }
        }
    }
}

} // verus!
