//! The single-threaded ring: a circular byte buffer that stages framed
//! event records. Writes append a whole record behind the head position or
//! fail without touching state; reads remove the oldest record. The queued
//! bytes are modelled as the sequence from tail forward to head, and are
//! invariably a dense run of whole records.

use vstd::prelude::*;
use vstd::arithmetic::div_mod::{
    lemma_add_mod_noop_right, lemma_mod_add_multiples_vanish, lemma_small_mod, lemma_sub_mod_noop,
    lemma_sub_mod_noop_right,
};
use vstd::arithmetic::power2::is_pow2;
use crate::errors::RingError;
use crate::event::{header_bytes, header_of, EventHeader};
use crate::frame::{
    is_record_stream, lemma_record_stream_append, lemma_record_stream_first, parse_records,
    record_bytes,
};
use crate::wrap::{
    check_pow2, copy_wrapped, lemma_mod_range, lemma_neg_mod, lemma_wdist_between, read_wrapped,
    wdist, zero_bytes,
};

verus! {

/// Circular byte buffer with head (next write) and tail (next read)
/// positions, both stored modulo the capacity. One byte is permanently
/// sacrificed so that empty (`head == tail`) and full stay distinguishable.
pub struct RingBuffer {
    pub buf: Vec<u8>,
    pub capacity: usize,
    pub head: usize,
    pub tail: usize,
}

impl RingBuffer {
    pub open spec fn cap(self) -> int {
        self.capacity as int
    }

    /// Bytes currently queued: the distance from tail forward to head.
    pub open spec fn used_int(self) -> int {
        (self.head - self.tail) % self.cap()
    }

    /// Bytes a write may still claim; one byte is sacrificed.
    pub open spec fn avail_int(self) -> int {
        self.cap() - self.used_int() - 1
    }

    /// Structural well-formedness: a power-of-two backing buffer of at
    /// least 32 bytes, with both positions inside it.
    pub open spec fn wf_shape(self) -> bool {
        &&& self.buf@.len() == self.capacity
        &&& is_pow2(self.capacity as int)
        &&& self.capacity >= 32
        &&& self.head < self.capacity
        &&& self.tail < self.capacity
    }

    /// The queued bytes in order, oldest first.
    pub open spec fn queue(self) -> Seq<u8> {
        Seq::new(self.used_int() as nat, |i: int| self.buf@[(self.tail + i) % self.cap()])
    }

    /// Full well-formedness: shape plus the framing invariant — the queued
    /// bytes are always a dense run of whole records.
    pub open spec fn wf(self) -> bool {
        self.wf_shape() && is_record_stream(self.queue())
    }

    /// The queued records in FIFO order, oldest first.
    pub open spec fn records(self) -> Seq<(EventHeader, Seq<u8>)> {
        parse_records(self.queue())
    }

    /// Occupancy law: for any well-formed ring, used plus available plus
    /// the one sacrificed byte equals the capacity.
    pub proof fn lemma_occupancy(self)
        requires
            self.wf_shape(),
        ensures
            self.used_int() + self.avail_int() + 1 == self.capacity,
            0 <= self.used_int() < self.capacity,
            self.queue().len() == self.used_int(),
    {
        lemma_mod_range(self.head - self.tail, self.cap());
    }

    /// The head position is the tail position advanced by the used bytes.
    proof fn lemma_head_pos(self)
        requires
            self.wf_shape(),
        ensures
            self.head as int == (self.tail + self.used_int()) % self.cap(),
    {
        lemma_add_mod_noop_right(self.tail as int, self.head - self.tail, self.cap());
        lemma_small_mod(self.head as nat, self.capacity as nat);
    }

    /// Builds an empty ring. The capacity must be a power of two no
    /// smaller than twice the 16-byte header size; anything else is
    /// rejected with `InvalidCapacity`.
    pub fn new(capacity: usize) -> (r: Result<RingBuffer, RingError>)
        ensures
            r is Ok <==> (is_pow2(capacity as int) && capacity >= 32),
            r is Ok ==> (r matches Ok(rb) && rb.wf() && rb.capacity == capacity && rb.queue()
                == Seq::<u8>::empty()),
            r is Err ==> (r matches Err(e) && e matches RingError::InvalidCapacity {
                capacity: c,
                reason,
            } && c == capacity && reason@ == (if is_pow2(capacity as int) {
                "too small, must be at least 2x EventHeader::SIZE"@
            } else {
                "must be a power of two"@
            })),
    {
        if !check_pow2(capacity) {
            return Err(
                RingError::InvalidCapacity { capacity, reason: "must be a power of two" },
            );
        }
        if capacity < 32 {
            return Err(
                RingError::InvalidCapacity {
                    capacity,
                    reason: "too small, must be at least 2x EventHeader::SIZE",
                },
            );
        }
        let buf = zero_bytes(capacity);
        let rb = RingBuffer { buf, capacity, head: 0, tail: 0 };
        proof {
            lemma_small_mod(0, capacity as nat);
            assert(rb.queue() =~= Seq::<u8>::empty());
        }
        Ok(rb)
    }

    pub fn used(&self) -> (n: usize)
        requires
            self.wf_shape(),
        ensures
            n == self.used_int(),
    {
        let n: usize;
        if self.head >= self.tail {
            n = self.head - self.tail;
        } else {
            n = self.head + (self.capacity - self.tail);
        }
        proof {
            if self.head >= self.tail {
                lemma_small_mod((self.head - self.tail) as nat, self.capacity as nat);
            } else {
                lemma_neg_mod(self.head - self.tail, self.cap());
            }
        }
        n
    }

    /// Free bytes: capacity minus used minus the sacrificed byte.
    pub fn available(&self) -> (n: usize)
        requires
            self.wf_shape(),
        ensures
            n == self.avail_int(),
            n + self.used_int() + 1 == self.capacity,
    {
        let u = self.used();
        proof {
            lemma_mod_range(self.head - self.tail, self.cap());
        }
        self.capacity - u - 1
    }

    pub fn is_empty(&self) -> (e: bool)
        requires
            self.wf_shape(),
        ensures
            e == (self.queue().len() == 0),
    {
        proof {
            if self.head >= self.tail {
                lemma_small_mod((self.head - self.tail) as nat, self.capacity as nat);
            } else {
                lemma_neg_mod(self.head - self.tail, self.cap());
            }
        }
        self.head == self.tail
    }

    /// Appends one record — the header's byte image, then the payload — or
    /// fails with `NotEnoughSpace` and leaves the ring untouched.
    pub fn write_event(&mut self, header: &EventHeader, payload: &[u8]) -> (r: Result<
        (),
        RingError,
    >)
        requires
            old(self).wf(),
            payload@.len() == header.payload_len,
        ensures
            final(self).wf(),
            final(self).capacity == old(self).capacity,
            final(self).tail == old(self).tail,
            header.spec_total_size() <= old(self).avail_int() ==> (r is Ok && final(self).queue()
                == old(self).queue() + record_bytes(*header, payload@) && final(self).records()
                == old(self).records().push((*header, payload@))),
            header.spec_total_size() > old(self).avail_int() ==> (r matches Err(
                RingError::NotEnoughSpace { required, available },
            ) && required == header.spec_total_size() && available == old(self).avail_int()
                && *final(self) == *old(self)),
    {
        let total_size = header.total_size();
        let available = self.available();
        if total_size > available {
            return Err(RingError::NotEnoughSpace { required: total_size, available });
        }
        let ghost pre = *self;
        let ghost cap = self.cap();
        let ghost u = pre.used_int();
        let ghost tail = pre.tail as int;
        let ghost total = header.spec_total_size();
        proof {
            pre.lemma_head_pos();
            lemma_mod_range(pre.head - pre.tail, cap);
        }
        let hb = header.to_bytes();
        let start = self.head;
        copy_wrapped(&mut self.buf, start, hb.as_slice());
        let pstart = if start >= self.capacity - 16 {
            start - (self.capacity - 16)
        } else {
            start + 16
        };
        proof {
            if start >= self.capacity - 16 {
                lemma_mod_add_multiples_vanish(start + 16 - cap, cap);
                lemma_small_mod((start + 16 - self.capacity) as nat, self.capacity as nat);
            } else {
                lemma_small_mod((start + 16) as nat, self.capacity as nat);
            }
            assert(pstart as int == (start + 16) % cap);
            lemma_add_mod_noop_right(16, tail + u, cap);
            assert(pstart as int == (tail + (u + 16)) % cap);
        }
        copy_wrapped(&mut self.buf, pstart, payload);
        let new_head = if start >= self.capacity - total_size {
            start - (self.capacity - total_size)
        } else {
            start + total_size
        };
        self.head = new_head;
        proof {
            if start >= pre.capacity - total_size {
                lemma_mod_add_multiples_vanish(start + total - cap, cap);
                lemma_small_mod((start + total_size - pre.capacity) as nat, pre.capacity as nat);
            } else {
                lemma_small_mod((start + total_size) as nat, pre.capacity as nat);
            }
            assert(new_head as int == (start + total) % cap);
            // the new used count is the old one plus the record size
            lemma_small_mod(pre.tail as nat, pre.capacity as nat);
            lemma_sub_mod_noop(start + total, tail, cap);
            lemma_add_mod_noop_right(total - tail, tail + u, cap);
            lemma_small_mod((u + total) as nat, pre.capacity as nat);
            assert(self.used_int() == u + total);
            // every queued position holds the right byte
            assert forall|i: int| 0 <= i < u + total implies self.queue()[i] == (pre.queue()
                + record_bytes(*header, payload@))[i] by {
                lemma_mod_range(tail + i, cap);
                lemma_wdist_between(tail, i, u, cap);
                lemma_wdist_between(tail, i, u + 16, cap);
                if i < u {
                    lemma_neg_mod(i - u, cap);
                    lemma_neg_mod(i - (u + 16), cap);
                } else if i < u + 16 {
                    lemma_small_mod((i - u) as nat, cap as nat);
                    if i < u + 16 {
                        lemma_neg_mod(i - (u + 16), cap);
                    }
                } else {
                    lemma_small_mod((i - u) as nat, cap as nat);
                    lemma_small_mod((i - (u + 16)) as nat, cap as nat);
                }
            }
            assert(self.queue() =~= pre.queue() + record_bytes(*header, payload@));
            lemma_record_stream_append(pre.queue(), *header, payload@);
        }
        Ok(())
    }

    /// Removes and returns the oldest record, or returns nothing when the
    /// ring is empty. The returned header's byte image and the payload are
    /// exactly the front of the queued bytes.
    pub fn read_event(&mut self) -> (r: Option<(EventHeader, Vec<u8>)>)
        requires
            old(self).wf(),
        ensures
            final(self).wf(),
            final(self).capacity == old(self).capacity,
            final(self).head == old(self).head,
            old(self).queue().len() == 0 ==> (r is None && *final(self) == *old(self)),
            old(self).queue().len() > 0 ==> (r matches Some((h, p))
                && header_bytes(h) == old(self).queue().take(16)
                && h == header_of(old(self).queue().take(16))
                && p@ == old(self).queue().subrange(16, h.spec_total_size())
                && p@.len() == h.payload_len
                && final(self).queue() == old(self).queue().skip(h.spec_total_size())
                && (h, p@) == old(self).records()[0]
                && final(self).records() == old(self).records().skip(1)),
    {
        proof {
            if self.head >= self.tail {
                lemma_small_mod((self.head - self.tail) as nat, self.capacity as nat);
            } else {
                lemma_neg_mod(self.head - self.tail, self.cap());
            }
        }
        if self.head == self.tail {
            return None;
        }
        let ghost pre = *self;
        let ghost cap = self.cap();
        let ghost u = pre.used_int();
        let ghost tail = pre.tail as int;
        proof {
            lemma_record_stream_first(pre.queue());
        }
        let hb = read_wrapped(&self.buf, self.tail, 16);
        proof {
            assert(hb@ =~= pre.queue().take(16));
        }
        let header = EventHeader::from_bytes(hb.as_slice());
        let payload_len = header.payload_len as usize;
        let ghost plen = header.payload_len as int;
        let ghost total = header.spec_total_size();
        let pstart = if self.tail >= self.capacity - 16 {
            self.tail - (self.capacity - 16)
        } else {
            self.tail + 16
        };
        proof {
            if pre.tail >= pre.capacity - 16 {
                lemma_mod_add_multiples_vanish(tail + 16 - cap, cap);
                lemma_small_mod((pre.tail + 16 - pre.capacity) as nat, pre.capacity as nat);
            } else {
                lemma_small_mod((pre.tail + 16) as nat, pre.capacity as nat);
            }
            assert(pstart as int == (tail + 16) % cap);
        }
        let payload = read_wrapped(&self.buf, pstart, payload_len);
        proof {
            assert forall|i: int| 0 <= i < plen implies payload@[i] == pre.queue()[16 + i] by {
                lemma_add_mod_noop_right(i, tail + 16, cap);
                assert((pstart + i) % cap == (tail + (16 + i)) % cap);
            }
            assert(payload@ =~= pre.queue().subrange(16, total));
        }
        let total_size = header.total_size();
        let new_tail = if self.tail >= self.capacity - total_size {
            self.tail - (self.capacity - total_size)
        } else {
            self.tail + total_size
        };
        self.tail = new_tail;
        proof {
            if pre.tail >= pre.capacity - total_size {
                lemma_mod_add_multiples_vanish(tail + total - cap, cap);
                lemma_small_mod((pre.tail + total_size - pre.capacity) as nat, pre.capacity as nat);
            } else {
                lemma_small_mod((pre.tail + total_size) as nat, pre.capacity as nat);
            }
            assert(new_tail as int == (tail + total) % cap);
            // the new used count drops by the record size
            lemma_small_mod(pre.tail as nat, pre.capacity as nat);
            lemma_small_mod(total as nat, pre.capacity as nat);
            lemma_sub_mod_noop_right(pre.head as int, tail + total, cap);
            lemma_sub_mod_noop(pre.head - tail, total, cap);
            lemma_small_mod((u - total) as nat, pre.capacity as nat);
            assert(self.used_int() == u - total);
            // the remaining queued bytes are the old ones past the record
            assert forall|i: int| 0 <= i < u - total implies self.queue()[i] == pre.queue()[
                total + i
            ] by {
                lemma_add_mod_noop_right(i, tail + total, cap);
                assert((new_tail + i) % cap == (tail + (total + i)) % cap);
            }
            assert(self.queue() =~= pre.queue().skip(total));
        }
        Some((header, payload))
    }
}

} // verus!
