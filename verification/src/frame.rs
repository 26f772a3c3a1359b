//! Record framing over byte streams: what it means for a run of bytes to be
//! a dense sequence of whole records, how such a stream parses back into
//! records, and the laws that make the framing FIFO — appended records come
//! back out in order, byte for byte.

use vstd::prelude::*;
use crate::event::{EventHeader, header_bytes, header_of, lemma_header_of_bytes};

verus! {

/// The byte image of one record: the 16 header bytes followed by the payload.
pub open spec fn record_bytes(h: EventHeader, p: Seq<u8>) -> Seq<u8> {
    header_bytes(h) + p
}

/// Whether `s` is a dense run of whole records that ends exactly at the end
/// of `s`.
pub open spec fn is_record_stream(s: Seq<u8>) -> bool
    decreases s.len(),
{
    if s.len() == 0 {
        true
    } else if s.len() < 16 {
        false
    } else {
        let t = 16 + header_of(s.take(16)).payload_len;
        if t > s.len() {
            false
        } else {
            is_record_stream(s.skip(t))
        }
    }
}

/// The records in a prefix of `s`: whole records are read off the front
/// until the remaining bytes are too short for the next one.
pub open spec fn parse_records(s: Seq<u8>) -> Seq<(EventHeader, Seq<u8>)>
    decreases s.len(),
{
    if s.len() < 16 {
        Seq::empty()
    } else {
        let h = header_of(s.take(16));
        let t = 16 + h.payload_len;
        if t > s.len() {
            Seq::empty()
        } else {
            seq![(h, s.subrange(16, t))] + parse_records(s.skip(t))
        }
    }
}

/// Each payload in a record sequence is as long as its header announces.
pub open spec fn records_wf(rs: Seq<(EventHeader, Seq<u8>)>) -> bool {
    forall|i: int| 0 <= i < rs.len() ==> (#[trigger] rs[i]).1.len() == rs[i].0.payload_len
}

/// Placing one record in front of a record stream gives a record stream,
/// and parsing finds that record first, unchanged.
pub proof fn lemma_record_stream_cons(h: EventHeader, p: Seq<u8>, s: Seq<u8>)
    requires
        p.len() == h.payload_len,
        is_record_stream(s),
    ensures
        is_record_stream(record_bytes(h, p) + s),
        parse_records(record_bytes(h, p) + s) == seq![(h, p)] + parse_records(s),
{
    let w = record_bytes(h, p) + s;
    let t = 16 + h.payload_len as int;
    assert(w.take(16) =~= header_bytes(h));
    lemma_header_of_bytes(h);
    assert(w.subrange(16, t) =~= p);
    assert(w.skip(t) =~= s);
}

/// Appending one record to a record stream gives a record stream, and the
/// parsed records gain exactly that record at the end: writes enter the
/// stream in order.
pub proof fn lemma_record_stream_append(s: Seq<u8>, h: EventHeader, p: Seq<u8>)
    requires
        is_record_stream(s),
        p.len() == h.payload_len,
    ensures
        is_record_stream(s + record_bytes(h, p)),
        parse_records(s + record_bytes(h, p)) == parse_records(s).push((h, p)),
    decreases s.len(),
{
    let rb = record_bytes(h, p);
    if s.len() == 0 {
        assert(s + rb =~= rb + Seq::<u8>::empty());
        lemma_record_stream_cons(h, p, Seq::<u8>::empty());
        assert(seq![(h, p)] + parse_records(Seq::<u8>::empty()) =~= parse_records(s).push(
            (h, p),
        ));
    } else {
        let t0 = 16 + header_of(s.take(16)).payload_len as int;
        let w = s + rb;
        assert(w.take(16) =~= s.take(16));
        assert(w.subrange(16, t0) =~= s.subrange(16, t0));
        assert(w.skip(t0) =~= s.skip(t0) + rb);
        lemma_record_stream_append(s.skip(t0), h, p);
        assert(seq![(header_of(s.take(16)), s.subrange(16, t0))] + parse_records(
            s.skip(t0),
        ).push((h, p)) =~= (seq![(header_of(s.take(16)), s.subrange(16, t0))] + parse_records(
            s.skip(t0),
        )).push((h, p)));
    }
}

/// A non-empty record stream starts with a whole record, and removing it
/// removes exactly the first parsed record: reads leave the stream in order.
pub proof fn lemma_record_stream_first(s: Seq<u8>)
    requires
        is_record_stream(s),
        s.len() > 0,
    ensures
        s.len() >= 16,
        16 + header_of(s.take(16)).payload_len <= s.len(),
        parse_records(s).len() >= 1,
        parse_records(s)[0] == (
            header_of(s.take(16)),
            s.subrange(16, 16 + header_of(s.take(16)).payload_len),
        ),
        is_record_stream(s.skip(16 + header_of(s.take(16)).payload_len)),
        parse_records(s.skip(16 + header_of(s.take(16)).payload_len)) == parse_records(s).skip(1),
{
    let t = 16 + header_of(s.take(16)).payload_len as int;
    assert((seq![(header_of(s.take(16)), s.subrange(16, t))] + parse_records(s.skip(t))).skip(1)
        =~= parse_records(s.skip(t)));
}

/// Every record takes at least 16 bytes, so a stream holds at most
/// `len / 16` records.
pub proof fn lemma_stream_count_bound(s: Seq<u8>)
    requires
        is_record_stream(s),
    ensures
        16 * parse_records(s).len() <= s.len(),
    decreases s.len(),
{
    if s.len() == 0 {
    } else {
        let t = 16 + header_of(s.take(16)).payload_len as int;
        lemma_stream_count_bound(s.skip(t));
    }
}

/// Framing is unambiguous: if one byte run reads as a record followed by a
/// rest in two ways, the records and the rests coincide — the header byte
/// image and the payload of the k-th record read are exactly those of the
/// k-th record written.
pub proof fn lemma_record_framing_unique(
    h1: EventHeader,
    p1: Seq<u8>,
    r1: Seq<u8>,
    h2: EventHeader,
    p2: Seq<u8>,
    r2: Seq<u8>,
)
    requires
        p1.len() == h1.payload_len,
        p2.len() == h2.payload_len,
        record_bytes(h1, p1) + r1 == record_bytes(h2, p2) + r2,
    ensures
        h1 == h2,
        p1 == p2,
        r1 == r2,
{
    let a = record_bytes(h1, p1) + r1;
    let b = record_bytes(h2, p2) + r2;
    assert(a.take(16) =~= header_bytes(h1));
    assert(b.take(16) =~= header_bytes(h2));
    lemma_header_of_bytes(h1);
    lemma_header_of_bytes(h2);
    assert(p1 =~= a.subrange(16, 16 + p1.len() as int));
    assert(p2 =~= b.subrange(16, 16 + p2.len() as int));
    assert(r1 =~= a.skip(16 + p1.len() as int));
    assert(r2 =~= b.skip(16 + p2.len() as int));
}

/// The byte stream that a sequence of writes lays down, first write first.
pub open spec fn stream_of(rs: Seq<(EventHeader, Seq<u8>)>) -> Seq<u8>
    decreases rs.len(),
{
    if rs.len() == 0 {
        Seq::empty()
    } else {
        record_bytes(rs[0].0, rs[0].1) + stream_of(rs.skip(1))
    }
}

/// FIFO round trip: the bytes laid down by any sequence of writes form a
/// record stream that parses back into exactly those records, in order.
pub proof fn lemma_stream_roundtrip(rs: Seq<(EventHeader, Seq<u8>)>)
    requires
        records_wf(rs),
    ensures
        is_record_stream(stream_of(rs)),
        parse_records(stream_of(rs)) == rs,
    decreases rs.len(),
{
    if rs.len() == 0 {
        assert(parse_records(stream_of(rs)) =~= rs);
    } else {
        assert forall|i: int| 0 <= i < rs.skip(1).len() implies (#[trigger] rs.skip(1)[i]).1.len()
            == rs.skip(1)[i].0.payload_len by {
            assert(rs.skip(1)[i] == rs[i + 1]);
        }
        lemma_stream_roundtrip(rs.skip(1));
        lemma_record_stream_cons(rs[0].0, rs[0].1, stream_of(rs.skip(1)));
        assert((rs[0].0, rs[0].1) == rs[0]);
        assert(seq![rs[0]] + rs.skip(1) =~= rs);
    }
}

} // verus!
