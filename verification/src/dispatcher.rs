//! The consumer contract and the dispatcher that fans drained records out
//! to a list of consumers, tracking per-drain statistics. What a consumer
//! does with a record is its own affair: the dispatcher promises only the
//! counts and that records are handed over in FIFO order.

use vstd::prelude::*;
use crate::event::EventHeader;
use crate::frame::{lemma_record_stream_first, lemma_stream_count_bound, parse_records};
use crate::ring::RingBuffer;
use crate::spsc::SpscRingBuffer;

verus! {

/// A record sink, implemented by the library's users. No contract is
/// placed on implementations: the dispatcher counts what `consume`
/// reports and promises nothing further about it.
pub trait EventConsumer: Send {
    /// Processes one record; reports success.
    fn consume(&mut self, header: &EventHeader, payload: &[u8]) -> bool;

    /// Best-effort end-of-batch hook; doing nothing is fine.
    fn flush(&mut self) {
    }

    /// Debugging label.
    fn name(&self) -> &str;
}

/// Counts from one drain: records taken from the ring, and per-consumer
/// delivery outcomes.
#[derive(Debug, Clone, Copy, PartialEq, Eq, Structural)]
pub struct DrainStats {
    pub events_read: u64,
    pub events_delivered: u64,
    pub events_failed: u64,
}

impl Default for DrainStats {
    fn default() -> (s: DrainStats)
        ensures
            s == (DrainStats { events_read: 0, events_delivered: 0, events_failed: 0 }),
    {
        DrainStats { events_read: 0, events_delivered: 0, events_failed: 0 }
    }
}

/// An ordered list of consumers; each drained record is offered to every
/// consumer in list order.
pub struct EventDispatcher<C: EventConsumer> {
    pub consumers: Vec<C>,
}

impl<C: EventConsumer> Default for EventDispatcher<C> {
    fn default() -> (d: EventDispatcher<C>)
        ensures
            d.consumers@.len() == 0,
    {
        EventDispatcher { consumers: Vec::new() }
    }
}

impl<C: EventConsumer> EventDispatcher<C> {
    pub fn new() -> (d: EventDispatcher<C>)
        ensures
            d.consumers@.len() == 0,
    {
        EventDispatcher { consumers: Vec::new() }
    }

    pub fn add_consumer(&mut self, consumer: C)
        ensures
            final(self).consumers@.len() == old(self).consumers@.len() + 1,
    {
        self.consumers.push(consumer);
    }

    /// Drains the ring empty, offering each record to every consumer in
    /// order. `events_read` counts exactly the records that were queued;
    /// every read record is either delivered or failed, once per
    /// consumer. The counter bound keeps the 64-bit tallies exact.
    pub fn drain(&mut self, ring: &mut RingBuffer) -> (stats: DrainStats)
        requires
            old(ring).wf(),
            parse_records(old(ring).queue()).len() * old(self).consumers@.len() <= u64::MAX,
        ensures
            final(ring).wf(),
            final(ring).queue().len() == 0,
            final(ring).capacity == old(ring).capacity,
            final(self).consumers@.len() == old(self).consumers@.len(),
            stats.events_read == parse_records(old(ring).queue()).len(),
            stats.events_delivered + stats.events_failed == stats.events_read * old(
                self,
            ).consumers@.len(),
    {
        let mut stats = DrainStats::default();
        let ghost rs0len = parse_records(old(ring).queue()).len() as int;
        let ghost n = old(self).consumers@.len() as int;
        proof {
            lemma_stream_count_bound(old(ring).queue());
        }
        loop
            invariant
                ring.wf(),
                ring.capacity == old(ring).capacity,
                self.consumers@.len() == n,
                rs0len == parse_records(old(ring).queue()).len(),
                rs0len * n <= u64::MAX,
                16 * rs0len <= old(ring).queue().len(),
                old(ring).queue().len() < old(ring).capacity,
                stats.events_read + parse_records(ring.queue()).len() == rs0len,
                stats.events_delivered + stats.events_failed == stats.events_read * n,
            ensures
                ring.wf(),
                ring.queue().len() == 0,
                ring.capacity == old(ring).capacity,
                self.consumers@.len() == n,
                stats.events_read == rs0len,
                stats.events_delivered + stats.events_failed == stats.events_read * n,
            decreases ring.queue().len(),
        {
            let ghost qpre = ring.queue();
            let r = ring.read_event();
            match r {
                None => {
                    proof {
                        assert(parse_records(qpre) =~= Seq::<(EventHeader, Seq<u8>)>::empty());
                    }
                    break;
                },
                Some((header, payload)) => {
                    let ghost done = stats.events_read as int;
                    proof {
                        lemma_record_stream_first(qpre);
                        assert(done + 1 <= rs0len);
                        assert(done * n + n == (done + 1) * n) by (nonlinear_arith);
                        assert((done + 1) * n <= rs0len * n) by (nonlinear_arith)
                            requires
                                done + 1 <= rs0len,
                                n >= 0,
                        ;
                    }
                    let mut i: usize = 0;
                    while i < self.consumers.len()
                        invariant
                            self.consumers@.len() == n,
                            i <= n,
                            done * n + n <= u64::MAX,
                            stats.events_read == done,
                            stats.events_delivered + stats.events_failed == done * n + i,
                        decreases n - i,
                    {
                        if self.consumers[i].consume(&header, payload.as_slice()) {
                            stats.events_delivered = stats.events_delivered + 1;
                        } else {
                            stats.events_failed = stats.events_failed + 1;
                        }
                        i = i + 1;
                    }
                    stats.events_read = stats.events_read + 1;
                    proof {
                        assert(stats.events_delivered + stats.events_failed == (done + 1) * n);
                    }
                },
            }
        }
        let m = self.consumers.len();
        let mut j: usize = 0;
        while j < m
            invariant
                self.consumers@.len() == n,
                m == n,
                j <= m,
            decreases m - j,
        {
            self.consumers[j].flush();
            j = j + 1;
        }
        stats
    }

    /// Like `drain`, but takes at most `limit` records and skips the
    /// end-of-batch flush.
    pub fn drain_batch(&mut self, ring: &mut RingBuffer, limit: usize) -> (stats: DrainStats)
        requires
            old(ring).wf(),
            parse_records(old(ring).queue()).len() * old(self).consumers@.len() <= u64::MAX,
        ensures
            final(ring).wf(),
            final(ring).capacity == old(ring).capacity,
            final(self).consumers@.len() == old(self).consumers@.len(),
            stats.events_read == vstd::math::min(
                limit as int,
                parse_records(old(ring).queue()).len() as int,
            ),
            parse_records(final(ring).queue()) == parse_records(old(ring).queue()).skip(
                stats.events_read as int,
            ),
            stats.events_delivered + stats.events_failed == stats.events_read * old(
                self,
            ).consumers@.len(),
    {
        let mut stats = DrainStats::default();
        let ghost rs0 = parse_records(old(ring).queue());
        let ghost rs0len = rs0.len() as int;
        let ghost n = old(self).consumers@.len() as int;
        proof {
            lemma_stream_count_bound(old(ring).queue());
            assert(rs0.skip(0) =~= rs0);
        }
        let mut taken: usize = 0;
        loop
            invariant
                ring.wf(),
                ring.capacity == old(ring).capacity,
                self.consumers@.len() == n,
                rs0 == parse_records(old(ring).queue()),
                rs0len == rs0.len(),
                rs0len * n <= u64::MAX,
                taken <= limit,
                stats.events_read == taken,
                stats.events_read <= rs0len,
                parse_records(ring.queue()) == rs0.skip(taken as int),
                stats.events_delivered + stats.events_failed == stats.events_read * n,
            ensures
                ring.wf(),
                ring.capacity == old(ring).capacity,
                self.consumers@.len() == n,
                stats.events_read == vstd::math::min(limit as int, rs0len),
                parse_records(ring.queue()) == rs0.skip(stats.events_read as int),
                stats.events_delivered + stats.events_failed == stats.events_read * n,
            decreases limit - taken,
        {
            if taken >= limit {
                break;
            }
            let ghost qpre = ring.queue();
            let r = ring.read_event();
            match r {
                None => {
                    proof {
                        assert(parse_records(qpre) =~= Seq::<(EventHeader, Seq<u8>)>::empty());
                    }
                    break;
                },
                Some((header, payload)) => {
                    let ghost done = stats.events_read as int;
                    proof {
                        lemma_record_stream_first(qpre);
                        assert(rs0.skip(done).skip(1) =~= rs0.skip(done + 1));
                        assert(done + 1 <= rs0len);
                        assert(done * n + n == (done + 1) * n) by (nonlinear_arith);
                        assert((done + 1) * n <= rs0len * n) by (nonlinear_arith)
                            requires
                                done + 1 <= rs0len,
                                n >= 0,
                        ;
                    }
                    let mut i: usize = 0;
                    while i < self.consumers.len()
                        invariant
                            self.consumers@.len() == n,
                            i <= n,
                            done * n + n <= u64::MAX,
                            stats.events_read == done,
                            stats.events_delivered + stats.events_failed == done * n + i,
                        decreases n - i,
                    {
                        if self.consumers[i].consume(&header, payload.as_slice()) {
                            stats.events_delivered = stats.events_delivered + 1;
                        } else {
                            stats.events_failed = stats.events_failed + 1;
                        }
                        i = i + 1;
                    }
                    stats.events_read = stats.events_read + 1;
                    taken = taken + 1;
                    proof {
                        assert(stats.events_delivered + stats.events_failed == (done + 1) * n);
                    }
                },
            }
        }
        stats
    }

    /// `drain` over the SPSC ring's consumer side.
    pub fn drain_spsc(&mut self, ring: &mut SpscRingBuffer) -> (stats: DrainStats)
        requires
            old(ring).wf(),
            parse_records(old(ring).queue()).len() * old(self).consumers@.len() <= u64::MAX,
        ensures
            final(ring).wf(),
            final(ring).queue().len() == 0,
            final(ring).capacity == old(ring).capacity,
            final(self).consumers@.len() == old(self).consumers@.len(),
            stats.events_read == parse_records(old(ring).queue()).len(),
            stats.events_delivered + stats.events_failed == stats.events_read * old(
                self,
            ).consumers@.len(),
    {
        let mut stats = DrainStats::default();
        let ghost rs0len = parse_records(old(ring).queue()).len() as int;
        let ghost n = old(self).consumers@.len() as int;
        proof {
            lemma_stream_count_bound(old(ring).queue());
        }
        loop
            invariant
                ring.wf(),
                ring.capacity == old(ring).capacity,
                self.consumers@.len() == n,
                rs0len == parse_records(old(ring).queue()).len(),
                rs0len * n <= u64::MAX,
                16 * rs0len <= old(ring).queue().len(),
                old(ring).queue().len() < old(ring).capacity,
                stats.events_read + parse_records(ring.queue()).len() == rs0len,
                stats.events_delivered + stats.events_failed == stats.events_read * n,
            ensures
                ring.wf(),
                ring.queue().len() == 0,
                ring.capacity == old(ring).capacity,
                self.consumers@.len() == n,
                stats.events_read == rs0len,
                stats.events_delivered + stats.events_failed == stats.events_read * n,
            decreases ring.queue().len(),
        {
            let ghost qpre = ring.queue();
            let r = ring.read_event();
            match r {
                None => {
                    proof {
                        assert(parse_records(qpre) =~= Seq::<(EventHeader, Seq<u8>)>::empty());
                    }
                    break;
                },
                Some((header, payload)) => {
                    let ghost done = stats.events_read as int;
                    proof {
                        lemma_record_stream_first(qpre);
                        assert(done + 1 <= rs0len);
                        assert(done * n + n == (done + 1) * n) by (nonlinear_arith);
                        assert((done + 1) * n <= rs0len * n) by (nonlinear_arith)
                            requires
                                done + 1 <= rs0len,
                                n >= 0,
                        ;
                    }
                    let mut i: usize = 0;
                    while i < self.consumers.len()
                        invariant
                            self.consumers@.len() == n,
                            i <= n,
                            done * n + n <= u64::MAX,
                            stats.events_read == done,
                            stats.events_delivered + stats.events_failed == done * n + i,
                        decreases n - i,
                    {
                        if self.consumers[i].consume(&header, payload.as_slice()) {
                            stats.events_delivered = stats.events_delivered + 1;
                        } else {
                            stats.events_failed = stats.events_failed + 1;
                        }
                        i = i + 1;
                    }
                    stats.events_read = stats.events_read + 1;
                    proof {
                        assert(stats.events_delivered + stats.events_failed == (done + 1) * n);
                    }
                },
            }
        }
        let m = self.consumers.len();
        let mut j: usize = 0;
        while j < m
            invariant
                self.consumers@.len() == n,
                m == n,
                j <= m,
            decreases m - j,
        {
            self.consumers[j].flush();
            j = j + 1;
        }
        stats
    }

    /// `drain_batch` over the SPSC ring's consumer side.
    pub fn drain_spsc_batch(&mut self, ring: &mut SpscRingBuffer, limit: usize) -> (stats:
        DrainStats)
        requires
            old(ring).wf(),
            parse_records(old(ring).queue()).len() * old(self).consumers@.len() <= u64::MAX,
        ensures
            final(ring).wf(),
            final(ring).capacity == old(ring).capacity,
            final(self).consumers@.len() == old(self).consumers@.len(),
            stats.events_read == vstd::math::min(
                limit as int,
                parse_records(old(ring).queue()).len() as int,
            ),
            parse_records(final(ring).queue()) == parse_records(old(ring).queue()).skip(
                stats.events_read as int,
            ),
            stats.events_delivered + stats.events_failed == stats.events_read * old(
                self,
            ).consumers@.len(),
    {
        let mut stats = DrainStats::default();
        let ghost rs0 = parse_records(old(ring).queue());
        let ghost rs0len = rs0.len() as int;
        let ghost n = old(self).consumers@.len() as int;
        proof {
            lemma_stream_count_bound(old(ring).queue());
            assert(rs0.skip(0) =~= rs0);
        }
        let mut taken: usize = 0;
        loop
            invariant
                ring.wf(),
                ring.capacity == old(ring).capacity,
                self.consumers@.len() == n,
                rs0 == parse_records(old(ring).queue()),
                rs0len == rs0.len(),
                rs0len * n <= u64::MAX,
                taken <= limit,
                stats.events_read == taken,
                stats.events_read <= rs0len,
                parse_records(ring.queue()) == rs0.skip(taken as int),
                stats.events_delivered + stats.events_failed == stats.events_read * n,
            ensures
                ring.wf(),
                ring.capacity == old(ring).capacity,
                self.consumers@.len() == n,
                stats.events_read == vstd::math::min(limit as int, rs0len),
                parse_records(ring.queue()) == rs0.skip(stats.events_read as int),
                stats.events_delivered + stats.events_failed == stats.events_read * n,
            decreases limit - taken,
        {
            if taken >= limit {
                break;
            }
            let ghost qpre = ring.queue();
            let r = ring.read_event();
            match r {
                None => {
                    proof {
                        assert(parse_records(qpre) =~= Seq::<(EventHeader, Seq<u8>)>::empty());
                    }
                    break;
                },
                Some((header, payload)) => {
                    let ghost done = stats.events_read as int;
                    proof {
                        lemma_record_stream_first(qpre);
                        assert(rs0.skip(done).skip(1) =~= rs0.skip(done + 1));
                        assert(done + 1 <= rs0len);
                        assert(done * n + n == (done + 1) * n) by (nonlinear_arith);
                        assert((done + 1) * n <= rs0len * n) by (nonlinear_arith)
                            requires
                                done + 1 <= rs0len,
                                n >= 0,
                        ;
                    }
                    let mut i: usize = 0;
                    while i < self.consumers.len()
                        invariant
                            self.consumers@.len() == n,
                            i <= n,
                            done * n + n <= u64::MAX,
                            stats.events_read == done,
                            stats.events_delivered + stats.events_failed == done * n + i,
                        decreases n - i,
                    {
                        if self.consumers[i].consume(&header, payload.as_slice()) {
                            stats.events_delivered = stats.events_delivered + 1;
                        } else {
                            stats.events_failed = stats.events_failed + 1;
                        }
                        i = i + 1;
                    }
                    stats.events_read = stats.events_read + 1;
                    taken = taken + 1;
                    proof {
                        assert(stats.events_delivered + stats.events_failed == (done + 1) * n);
                    }
                },
            }
        }
        stats
    }
}

} // verus!
