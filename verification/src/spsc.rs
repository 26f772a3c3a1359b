//! The SPSC ring: the same byte framing as the single-threaded ring, but
//! with head and tail kept as monotonically increasing 64-bit counters that
//! wrap at 2^64. Positions in the buffer are the counters reduced modulo
//! the power-of-two capacity, which keeps indexing consistent across a
//! counter wrap. A write fails with `false` when the record does not fit
//! and never blocks; a read returns nothing when the ring is empty.

use vstd::prelude::*;
use vstd::arithmetic::div_mod::{
    lemma_add_mod_noop_right, lemma_mod_add_multiples_vanish, lemma_small_mod, lemma_sub_mod_noop,
};
use vstd::arithmetic::power2::is_pow2;
use crate::event::{header_bytes, header_of, EventHeader};
use crate::frame::{
    is_record_stream, lemma_record_stream_append, lemma_record_stream_first, parse_records,
    record_bytes,
};
use crate::wrap::{
    copy_wrapped, lemma_mod_range, lemma_mod_wrap64, lemma_neg_mod, lemma_wdist_between,
    read_wrapped, wdist, zero_bytes,
};

verus! {

/// Circular byte buffer indexed by free-running 64-bit counters. The
/// producer side advances `head`, the consumer side advances `tail`;
/// `head - tail` (wrapping) never exceeds `capacity - 1`, one byte being
/// sacrificed so empty and full stay distinguishable.
pub struct SpscRingBuffer {
    pub buf: Vec<u8>,
    pub capacity: usize,
    pub head: u64,
    pub tail: u64,
}

impl SpscRingBuffer {
    pub open spec fn cap(self) -> int {
        self.capacity as int
    }

    /// Bytes currently queued: the wrapping distance from tail up to head.
    pub open spec fn used_int(self) -> int {
        (self.head - self.tail) % 0x10000000000000000
    }

    /// Bytes a write may still claim; one byte is sacrificed.
    pub open spec fn avail_int(self) -> int {
        self.cap() - self.used_int() - 1
    }

    /// Structural well-formedness: a power-of-two buffer of at least 64
    /// bytes, with at most `capacity - 1` bytes in flight.
    pub open spec fn wf_shape(self) -> bool {
        &&& self.buf@.len() == self.capacity
        &&& is_pow2(self.capacity as int)
        &&& self.capacity >= 64
        &&& self.used_int() <= self.cap() - 1
    }

    /// The queued bytes in order, oldest first.
    pub open spec fn queue(self) -> Seq<u8> {
        Seq::new(self.used_int() as nat, |i: int| self.buf@[(self.tail + i) % self.cap()])
    }

    /// Full well-formedness: shape plus the framing invariant.
    pub open spec fn wf(self) -> bool {
        self.wf_shape() && is_record_stream(self.queue())
    }

    /// The queued records in FIFO order, oldest first.
    pub open spec fn records(self) -> Seq<(EventHeader, Seq<u8>)> {
        parse_records(self.queue())
    }

    /// Occupancy law: used plus available plus the sacrificed byte equals
    /// the capacity, with the wrapping 64-bit counter arithmetic.
    pub proof fn lemma_occupancy(self)
        requires
            self.wf_shape(),
        ensures
            self.used_int() + self.avail_int() + 1 == self.capacity,
            0 <= self.used_int() < self.capacity,
            self.queue().len() == self.used_int(),
    {
        lemma_mod_range(self.head - self.tail, 0x10000000000000000);
    }

    /// The head counter's buffer position is the tail's advanced by the
    /// used bytes, even across a 2^64 counter wrap.
    proof fn lemma_head_pos(self)
        requires
            self.wf_shape(),
        ensures
            (self.head as int) % self.cap() == ((self.tail as int) % self.cap()
                + self.used_int()) % self.cap(),
    {
        let t64: int = 0x10000000000000000;
        lemma_mod_wrap64(self.tail + self.used_int(), self.cap());
        lemma_add_mod_noop_right(self.tail as int, self.head - self.tail, t64);
        lemma_small_mod(self.head as nat, t64 as nat);
        lemma_mod_wrap64(self.head as int, self.cap());
        lemma_add_mod_noop_right(self.used_int(), self.tail as int, self.cap());
    }

    /// Builds an empty ring. The capacity must be a power of two of at
    /// least 64 bytes; the caller checks this before construction.
    pub fn new(capacity: usize) -> (r: SpscRingBuffer)
        requires
            is_pow2(capacity as int),
            capacity >= 64,
        ensures
            r.wf(),
            r.capacity == capacity,
            r.queue() == Seq::<u8>::empty(),
    {
        let buf = zero_bytes(capacity);
        let rb = SpscRingBuffer { buf, capacity, head: 0, tail: 0 };
        proof {
            lemma_small_mod(0, 0x10000000000000000);
            assert(rb.queue() =~= Seq::<u8>::empty());
        }
        rb
    }

    pub fn is_empty(&self) -> (e: bool)
        requires
            self.wf_shape(),
        ensures
            e == (self.queue().len() == 0),
    {
        proof {
            if self.head >= self.tail {
                lemma_small_mod((self.head - self.tail) as nat, 0x10000000000000000);
            } else {
                lemma_neg_mod(self.head - self.tail, 0x10000000000000000);
            }
        }
        self.head == self.tail
    }

    /// Appends one record, or returns `false` and leaves the ring
    /// untouched when the record does not fit. Never blocks.
    pub fn write_event(&mut self, header: &EventHeader, payload: &[u8]) -> (ok: bool)
        requires
            old(self).wf(),
            payload@.len() == header.payload_len,
        ensures
            final(self).wf(),
            final(self).capacity == old(self).capacity,
            final(self).tail == old(self).tail,
            header.spec_total_size() <= old(self).avail_int() ==> (ok && final(self).queue()
                == old(self).queue() + record_bytes(*header, payload@) && final(self).records()
                == old(self).records().push((*header, payload@))),
            header.spec_total_size() > old(self).avail_int() ==> (!ok && *final(self) == *old(
                self,
            )),
    {
        let ghost t64: int = 0x10000000000000000;
        let total_size = header.total_size();
        let head = self.head;
        let tail = self.tail;
        let used = head.wrapping_sub(tail);
        proof {
            if head >= tail {
                lemma_small_mod((head - tail) as nat, t64 as nat);
            } else {
                lemma_neg_mod(head - tail, t64);
            }
            assert(used as int == self.used_int());
        }
        let available = (self.capacity as u64) - used - 1;
        if (total_size as u64) > available {
            return false;
        }
        let ghost pre = *self;
        let ghost cap = self.cap();
        let ghost u = pre.used_int();
        let ghost total = header.spec_total_size();
        let ghost tw = (pre.tail as int) % cap;
        let start = (head % (self.capacity as u64)) as usize;
        proof {
            lemma_mod_range(head as int, cap);
            lemma_mod_range(pre.tail as int, cap);
            pre.lemma_head_pos();
            assert(start as int == (tw + u) % cap);
        }
        let hb = header.to_bytes();
        copy_wrapped(&mut self.buf, start, hb.as_slice());
        let pstart = if start >= self.capacity - 16 {
            start - (self.capacity - 16)
        } else {
            start + 16
        };
        proof {
            if start >= self.capacity - 16 {
                lemma_mod_add_multiples_vanish(start + 16 - cap, cap);
                lemma_small_mod((start + 16 - self.capacity) as nat, self.capacity as nat);
            } else {
                lemma_small_mod((start + 16) as nat, self.capacity as nat);
            }
            assert(pstart as int == (start + 16) % cap);
            lemma_add_mod_noop_right(16, tw + u, cap);
            assert(pstart as int == (tw + (u + 16)) % cap);
        }
        copy_wrapped(&mut self.buf, pstart, payload);
        self.head = head.wrapping_add(total_size as u64);
        proof {
            let new_head = self.head as int;
            if head + total_size as u64 > u64::MAX {
                lemma_mod_add_multiples_vanish(head + total - t64, t64);
                lemma_small_mod((head + total - t64) as nat, t64 as nat);
            } else {
                lemma_small_mod((head + total) as nat, t64 as nat);
            }
            assert(new_head == (head + total) % t64);
            // the new used count is the old one plus the record size
            lemma_small_mod(pre.tail as nat, t64 as nat);
            lemma_sub_mod_noop(head + total, pre.tail as int, t64);
            lemma_add_mod_noop_right(total - pre.tail, pre.tail + u, t64);
            lemma_small_mod((u + total) as nat, t64 as nat);
            assert(self.used_int() == u + total);
            // every queued position holds the right byte
            assert forall|i: int| 0 <= i < u + total implies self.queue()[i] == (pre.queue()
                + record_bytes(*header, payload@))[i] by {
                lemma_add_mod_noop_right(i, pre.tail as int, cap);
                assert((pre.tail + i) % cap == (tw + i) % cap);
                lemma_mod_range(tw + i, cap);
                lemma_wdist_between(tw, i, u, cap);
                lemma_wdist_between(tw, i, u + 16, cap);
                if i < u {
                    lemma_neg_mod(i - u, cap);
                    lemma_neg_mod(i - (u + 16), cap);
                } else if i < u + 16 {
                    lemma_small_mod((i - u) as nat, cap as nat);
                    lemma_neg_mod(i - (u + 16), cap);
                } else {
                    lemma_small_mod((i - u) as nat, cap as nat);
                    lemma_small_mod((i - (u + 16)) as nat, cap as nat);
                }
            }
            assert(self.queue() =~= pre.queue() + record_bytes(*header, payload@));
            lemma_record_stream_append(pre.queue(), *header, payload@);
        }
        true
    }

    /// Removes and returns the oldest record, or returns nothing when the
    /// ring is empty. Never blocks.
    pub fn read_event(&mut self) -> (r: Option<(EventHeader, Vec<u8>)>)
        requires
            old(self).wf(),
        ensures
            final(self).wf(),
            final(self).capacity == old(self).capacity,
            final(self).head == old(self).head,
            old(self).queue().len() == 0 ==> (r is None && *final(self) == *old(self)),
            old(self).queue().len() > 0 ==> (r matches Some((h, p))
                && header_bytes(h) == old(self).queue().take(16)
                && h == header_of(old(self).queue().take(16))
                && p@ == old(self).queue().subrange(16, h.spec_total_size())
                && p@.len() == h.payload_len
                && final(self).queue() == old(self).queue().skip(h.spec_total_size())
                && (h, p@) == old(self).records()[0]
                && final(self).records() == old(self).records().skip(1)),
    {
        let ghost t64: int = 0x10000000000000000;
        proof {
            if self.head >= self.tail {
                lemma_small_mod((self.head - self.tail) as nat, t64 as nat);
            } else {
                lemma_neg_mod(self.head - self.tail, t64);
            }
        }
        if self.head == self.tail {
            return None;
        }
        let ghost pre = *self;
        let ghost cap = self.cap();
        let ghost u = pre.used_int();
        let ghost tw = (pre.tail as int) % cap;
        let tail = self.tail;
        proof {
            lemma_record_stream_first(pre.queue());
            lemma_mod_range(pre.tail as int, cap);
        }
        let start = (tail % (self.capacity as u64)) as usize;
        proof {
            lemma_mod_range(tail as int, cap);
        }
        let hb = read_wrapped(&self.buf, start, 16);
        proof {
            assert forall|i: int| 0 <= i < 16 implies hb@[i] == pre.queue()[i] by {
                lemma_add_mod_noop_right(i, pre.tail as int, cap);
                assert((tw + i) % cap == (pre.tail + i) % cap);
            }
            assert(hb@ =~= pre.queue().take(16));
        }
        let header = EventHeader::from_bytes(hb.as_slice());
        let payload_len = header.payload_len as usize;
        let ghost plen = header.payload_len as int;
        let ghost total = header.spec_total_size();
        let pstart = if start >= self.capacity - 16 {
            start - (self.capacity - 16)
        } else {
            start + 16
        };
        proof {
            if start >= self.capacity - 16 {
                lemma_mod_add_multiples_vanish(start + 16 - cap, cap);
                lemma_small_mod((start + 16 - self.capacity) as nat, self.capacity as nat);
            } else {
                lemma_small_mod((start + 16) as nat, self.capacity as nat);
            }
            assert(pstart as int == (start + 16) % cap);
        }
        let payload = read_wrapped(&self.buf, pstart, payload_len);
        proof {
            assert forall|i: int| 0 <= i < plen implies payload@[i] == pre.queue()[16 + i] by {
                lemma_add_mod_noop_right(i, tw + 16, cap);
                assert((pstart + i) % cap == (tw + (16 + i)) % cap);
                lemma_add_mod_noop_right(16 + i, pre.tail as int, cap);
                assert((tw + (16 + i)) % cap == (pre.tail + (16 + i)) % cap);
            }
            assert(payload@ =~= pre.queue().subrange(16, total));
        }
        let total_size = header.total_size();
        self.tail = tail.wrapping_add(total_size as u64);
        proof {
            let new_tail = self.tail as int;
            if tail + total_size as u64 > u64::MAX {
                lemma_mod_add_multiples_vanish(tail + total - t64, t64);
                lemma_small_mod((tail + total - t64) as nat, t64 as nat);
            } else {
                lemma_small_mod((tail + total) as nat, t64 as nat);
            }
            assert(new_tail == (tail + total) % t64);
            // the new used count drops by the record size
            lemma_small_mod(tail as nat, t64 as nat);
            lemma_small_mod(total as nat, t64 as nat);
            vstd::arithmetic::div_mod::lemma_sub_mod_noop_right(pre.head as int, tail + total, t64);
            lemma_sub_mod_noop(pre.head - tail, total, t64);
            lemma_small_mod((u - total) as nat, t64 as nat);
            assert(self.used_int() == u - total);
            // the remaining queued bytes are the old ones past the record
            assert forall|i: int| 0 <= i < u - total implies self.queue()[i] == pre.queue()[
                total + i
            ] by {
                lemma_mod_wrap64(tail + total, cap);
                lemma_add_mod_noop_right(i, new_tail, cap);
                lemma_add_mod_noop_right(i, tail + total, cap);
                assert((new_tail + i) % cap == (tail + total + i) % cap);
                lemma_add_mod_noop_right(total + i, tail as int, cap);
                assert((tail + (total + i)) % cap == ((tail as int) % cap + (total + i)) % cap);
                lemma_add_mod_noop_right(total + i, tw, cap);
            }
            assert(self.queue() =~= pre.queue().skip(total));
        }
        Some((header, payload))
    }
}

} // verus!
