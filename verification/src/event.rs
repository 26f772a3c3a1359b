//! Event framing: the fixed 16-byte record header and its little-endian
//! byte image, together with the decode direction and round-trip proofs.

use vstd::prelude::*;

verus! {

/// Fixed 16-byte record header. The byte image is little-endian with the
/// layout: timestamp (8), event_type (1), flags (1), payload_len (2),
/// reserved (4). A record is this header immediately followed by exactly
/// `payload_len` payload bytes.
#[derive(Debug, Clone, Copy, PartialEq, Eq, Structural)]
pub struct EventHeader {
    pub timestamp: u64,
    pub event_type: u8,
    pub flags: u8,
    pub payload_len: u16,
    pub _reserved: u32,
}

/// Byte `j` (0 or 1) of the little-endian image of `x`.
pub open spec fn u16_le_byte(x: u16, j: int) -> u8 {
    if j == 0 {
        (x & 0xff) as u8
    } else {
        ((x >> 8) & 0xff) as u8
    }
}

/// The `u16` whose little-endian image is `b0, b1`.
pub open spec fn u16_of_le(b0: u8, b1: u8) -> u16 {
    (b0 as u16) | ((b1 as u16) << 8)
}

/// Byte `j` (0 to 3) of the little-endian image of `x`.
pub open spec fn u32_le_byte(x: u32, j: int) -> u8 {
    if j == 0 {
        (x & 0xff) as u8
    } else if j == 1 {
        ((x >> 8) & 0xff) as u8
    } else if j == 2 {
        ((x >> 16) & 0xff) as u8
    } else {
        ((x >> 24) & 0xff) as u8
    }
}

/// The `u32` whose little-endian image is `b0, b1, b2, b3`.
pub open spec fn u32_of_le(b0: u8, b1: u8, b2: u8, b3: u8) -> u32 {
    (b0 as u32) | ((b1 as u32) << 8) | ((b2 as u32) << 16) | ((b3 as u32) << 24)
}

/// Byte `j` (0 to 7) of the little-endian image of `x`.
pub open spec fn u64_le_byte(x: u64, j: int) -> u8 {
    if j == 0 {
        (x & 0xff) as u8
    } else if j == 1 {
        ((x >> 8) & 0xff) as u8
    } else if j == 2 {
        ((x >> 16) & 0xff) as u8
    } else if j == 3 {
        ((x >> 24) & 0xff) as u8
    } else if j == 4 {
        ((x >> 32) & 0xff) as u8
    } else if j == 5 {
        ((x >> 40) & 0xff) as u8
    } else if j == 6 {
        ((x >> 48) & 0xff) as u8
    } else {
        ((x >> 56) & 0xff) as u8
    }
}

/// The `u64` whose little-endian image is `b0` through `b7`.
pub open spec fn u64_of_le(b0: u8, b1: u8, b2: u8, b3: u8, b4: u8, b5: u8, b6: u8, b7: u8) -> u64 {
    (b0 as u64) | ((b1 as u64) << 8) | ((b2 as u64) << 16) | ((b3 as u64) << 24)
        | ((b4 as u64) << 32) | ((b5 as u64) << 40) | ((b6 as u64) << 48) | ((b7 as u64) << 56)
}

/// Byte `i` (0 to 15) of the byte image of header `h`.
pub open spec fn header_byte(h: EventHeader, i: int) -> u8 {
    if i < 8 {
        u64_le_byte(h.timestamp, i)
    } else if i == 8 {
        h.event_type
    } else if i == 9 {
        h.flags
    } else if i < 12 {
        u16_le_byte(h.payload_len, i - 10)
    } else {
        u32_le_byte(h._reserved, i - 12)
    }
}

/// The 16-byte image of header `h`, exactly as it is written into a ring or
/// a log file.
pub open spec fn header_bytes(h: EventHeader) -> Seq<u8> {
    Seq::new(16, |i: int| header_byte(h, i))
}

/// The header whose byte image is `s` (meaningful when `s.len() == 16`).
pub open spec fn header_of(s: Seq<u8>) -> EventHeader {
    EventHeader {
        timestamp: u64_of_le(s[0], s[1], s[2], s[3], s[4], s[5], s[6], s[7]),
        event_type: s[8],
        flags: s[9],
        payload_len: u16_of_le(s[10], s[11]),
        _reserved: u32_of_le(s[12], s[13], s[14], s[15]),
    }
}

pub proof fn lemma_u16_le_round_trip(x: u16)
    ensures
        u16_of_le(u16_le_byte(x, 0), u16_le_byte(x, 1)) == x,
{
    assert(((((x & 0xff) as u8) as u16) | (((((x >> 8) & 0xff) as u8) as u16) << 8)) == x)
        by (bit_vector);
}

pub proof fn lemma_u16_le_bytes(b0: u8, b1: u8)
    ensures
        u16_le_byte(u16_of_le(b0, b1), 0) == b0,
        u16_le_byte(u16_of_le(b0, b1), 1) == b1,
{
    let x = u16_of_le(b0, b1);
    assert({
        let y = (b0 as u16) | ((b1 as u16) << 8);
        ((y & 0xff) as u8) == b0 && (((y >> 8) & 0xff) as u8) == b1
    }) by (bit_vector);
}

pub proof fn lemma_u32_le_round_trip(x: u32)
    ensures
        u32_of_le(u32_le_byte(x, 0), u32_le_byte(x, 1), u32_le_byte(x, 2), u32_le_byte(x, 3))
            == x,
{
    assert(((((x & 0xff) as u8) as u32) | (((((x >> 8) & 0xff) as u8) as u32) << 8)
        | (((((x >> 16) & 0xff) as u8) as u32) << 16)
        | (((((x >> 24) & 0xff) as u8) as u32) << 24)) == x) by (bit_vector);
}

pub proof fn lemma_u32_le_bytes(b0: u8, b1: u8, b2: u8, b3: u8)
    ensures
        u32_le_byte(u32_of_le(b0, b1, b2, b3), 0) == b0,
        u32_le_byte(u32_of_le(b0, b1, b2, b3), 1) == b1,
        u32_le_byte(u32_of_le(b0, b1, b2, b3), 2) == b2,
        u32_le_byte(u32_of_le(b0, b1, b2, b3), 3) == b3,
{
    assert({
        let y = (b0 as u32) | ((b1 as u32) << 8) | ((b2 as u32) << 16) | ((b3 as u32) << 24);
        ((y & 0xff) as u8) == b0 && (((y >> 8) & 0xff) as u8) == b1
            && (((y >> 16) & 0xff) as u8) == b2 && (((y >> 24) & 0xff) as u8) == b3
    }) by (bit_vector);
}

pub proof fn lemma_u64_le_round_trip(x: u64)
    ensures
        u64_of_le(
            u64_le_byte(x, 0),
            u64_le_byte(x, 1),
            u64_le_byte(x, 2),
            u64_le_byte(x, 3),
            u64_le_byte(x, 4),
            u64_le_byte(x, 5),
            u64_le_byte(x, 6),
            u64_le_byte(x, 7),
        ) == x,
{
    assert(((((x & 0xff) as u8) as u64) | (((((x >> 8) & 0xff) as u8) as u64) << 8)
        | (((((x >> 16) & 0xff) as u8) as u64) << 16)
        | (((((x >> 24) & 0xff) as u8) as u64) << 24)
        | (((((x >> 32) & 0xff) as u8) as u64) << 32)
        | (((((x >> 40) & 0xff) as u8) as u64) << 40)
        | (((((x >> 48) & 0xff) as u8) as u64) << 48)
        | (((((x >> 56) & 0xff) as u8) as u64) << 56)) == x) by (bit_vector);
}

pub proof fn lemma_u64_le_bytes(b0: u8, b1: u8, b2: u8, b3: u8, b4: u8, b5: u8, b6: u8, b7: u8)
    ensures
        u64_le_byte(u64_of_le(b0, b1, b2, b3, b4, b5, b6, b7), 0) == b0,
        u64_le_byte(u64_of_le(b0, b1, b2, b3, b4, b5, b6, b7), 1) == b1,
        u64_le_byte(u64_of_le(b0, b1, b2, b3, b4, b5, b6, b7), 2) == b2,
        u64_le_byte(u64_of_le(b0, b1, b2, b3, b4, b5, b6, b7), 3) == b3,
        u64_le_byte(u64_of_le(b0, b1, b2, b3, b4, b5, b6, b7), 4) == b4,
        u64_le_byte(u64_of_le(b0, b1, b2, b3, b4, b5, b6, b7), 5) == b5,
        u64_le_byte(u64_of_le(b0, b1, b2, b3, b4, b5, b6, b7), 6) == b6,
        u64_le_byte(u64_of_le(b0, b1, b2, b3, b4, b5, b6, b7), 7) == b7,
{
    assert({
        let y = (b0 as u64) | ((b1 as u64) << 8) | ((b2 as u64) << 16) | ((b3 as u64) << 24)
            | ((b4 as u64) << 32) | ((b5 as u64) << 40) | ((b6 as u64) << 48)
            | ((b7 as u64) << 56);
        ((y & 0xff) as u8) == b0 && (((y >> 8) & 0xff) as u8) == b1
            && (((y >> 16) & 0xff) as u8) == b2 && (((y >> 24) & 0xff) as u8) == b3
            && (((y >> 32) & 0xff) as u8) == b4 && (((y >> 40) & 0xff) as u8) == b5
            && (((y >> 48) & 0xff) as u8) == b6 && (((y >> 56) & 0xff) as u8) == b7
    }) by (bit_vector);
}

/// Decoding the byte image of a header recovers the header: the image
/// determines every field.
pub proof fn lemma_header_of_bytes(h: EventHeader)
    ensures
        header_of(header_bytes(h)) == h,
{
    lemma_u64_le_round_trip(h.timestamp);
    lemma_u16_le_round_trip(h.payload_len);
    lemma_u32_le_round_trip(h._reserved);
}

/// Re-encoding a decoded 16-byte image gives the image back: every 16-byte
/// sequence is the image of exactly one header.
pub proof fn lemma_header_bytes_of(s: Seq<u8>)
    requires
        s.len() == 16,
    ensures
        header_bytes(header_of(s)) == s,
{
    lemma_u64_le_bytes(s[0], s[1], s[2], s[3], s[4], s[5], s[6], s[7]);
    lemma_u16_le_bytes(s[10], s[11]);
    lemma_u32_le_bytes(s[12], s[13], s[14], s[15]);
    assert(header_bytes(header_of(s)) =~= s);
}

impl EventHeader {
    /// The byte length of the header image.
    pub const SIZE: usize = 16;

    pub fn new(timestamp: u64, event_type: u8, payload_len: u16) -> (h: EventHeader)
        ensures
            h == (EventHeader {
                timestamp,
                event_type,
                flags: 0,
                payload_len,
                _reserved: 0,
            }),
    {
        EventHeader { timestamp, event_type, flags: 0, payload_len, _reserved: 0 }
    }

    /// The whole record size for this header: 16 header bytes plus the
    /// payload bytes.
    pub open spec fn spec_total_size(self) -> int {
        16 + self.payload_len
    }

    pub fn total_size(&self) -> (n: usize)
        ensures
            n == self.spec_total_size(),
    {
        16 + self.payload_len as usize
    }

    /// The 16-byte little-endian image of this header.
    pub fn to_bytes(&self) -> (b: Vec<u8>)
        ensures
            b@ == header_bytes(*self),
    {
        let mut b: Vec<u8> = Vec::new();
        let ts = self.timestamp;
        b.push(#[verifier::truncate] ((ts & 0xff) as u8));
        b.push(#[verifier::truncate] (((ts >> 8) & 0xff) as u8));
        b.push(#[verifier::truncate] (((ts >> 16) & 0xff) as u8));
        b.push(#[verifier::truncate] (((ts >> 24) & 0xff) as u8));
        b.push(#[verifier::truncate] (((ts >> 32) & 0xff) as u8));
        b.push(#[verifier::truncate] (((ts >> 40) & 0xff) as u8));
        b.push(#[verifier::truncate] (((ts >> 48) & 0xff) as u8));
        b.push(#[verifier::truncate] (((ts >> 56) & 0xff) as u8));
        b.push(self.event_type);
        b.push(self.flags);
        let pl = self.payload_len;
        b.push(#[verifier::truncate] ((pl & 0xff) as u8));
        b.push(#[verifier::truncate] (((pl >> 8) & 0xff) as u8));
        let rv = self._reserved;
        b.push(#[verifier::truncate] ((rv & 0xff) as u8));
        b.push(#[verifier::truncate] (((rv >> 8) & 0xff) as u8));
        b.push(#[verifier::truncate] (((rv >> 16) & 0xff) as u8));
        b.push(#[verifier::truncate] (((rv >> 24) & 0xff) as u8));
        proof {
            assert(b@ =~= header_bytes(*self));
        }
        b
    }

    /// Decodes a 16-byte little-endian image into a header.
    pub fn from_bytes(b: &[u8]) -> (h: EventHeader)
        requires
            b@.len() == 16,
        ensures
            h == header_of(b@),
            header_bytes(h) == b@,
    {
        let h = EventHeader {
            timestamp: (b[0] as u64) | ((b[1] as u64) << 8) | ((b[2] as u64) << 16)
                | ((b[3] as u64) << 24) | ((b[4] as u64) << 32) | ((b[5] as u64) << 40)
                | ((b[6] as u64) << 48) | ((b[7] as u64) << 56),
            event_type: b[8],
            flags: b[9],
            payload_len: (b[10] as u16) | ((b[11] as u16) << 8),
            _reserved: (b[12] as u32) | ((b[13] as u32) << 8) | ((b[14] as u32) << 16)
                | ((b[15] as u32) << 24),
        };
        proof {
            lemma_header_bytes_of(b@);
        }
        h
    }
}

/// One decoded record: a header together with an owned copy of its payload.
#[derive(Debug, Clone)]
pub struct EventView {
    pub header: EventHeader,
    pub payload: Vec<u8>,
}

impl EventView {
    /// The record holds as many payload bytes as its header announces.
    pub open spec fn wf(self) -> bool {
        self.payload@.len() == self.header.payload_len
    }

    pub fn total_size(&self) -> (n: usize)
        ensures
            n == self.header.spec_total_size(),
    {
        self.header.total_size()
    }

    /// Decodes the record that starts at `offset` in `buf`: the 16 header
    /// bytes, then the `payload_len` payload bytes that follow them.
    pub fn from_bytes(buf: &[u8], offset: usize) -> (v: EventView)
        requires
            offset + 16 <= buf@.len(),
            offset + 16 + header_of(buf@.subrange(offset as int, offset + 16)).payload_len
                <= buf@.len(),
        ensures
            v.wf(),
            v.header == header_of(buf@.subrange(offset as int, offset + 16)),
            v.payload@ == buf@.subrange(
                offset + 16,
                offset + 16 + v.header.payload_len,
            ),
    {
        let ghost hspec = header_of(buf@.subrange(offset as int, offset + 16));
        let blen = buf.len();
        let mut hb: Vec<u8> = Vec::new();
        let mut i: usize = 0;
        while i < 16
            invariant
                i <= 16,
                blen == buf@.len(),
                offset + 16 <= blen,
                hb@ == buf@.subrange(offset as int, offset + i),
            decreases 16 - i,
        {
            hb.push(buf[offset + i]);
            i = i + 1;
            proof {
                assert(hb@ =~= buf@.subrange(offset as int, offset + i));
            }
        }
        let header = EventHeader::from_bytes(hb.as_slice());
        let payload_len = header.payload_len as usize;
        let mut payload: Vec<u8> = Vec::new();
        let mut j: usize = 0;
        proof {
            assert(header == hspec);
        }
        while j < payload_len
            invariant
                j <= payload_len,
                payload_len == hspec.payload_len,
                blen == buf@.len(),
                offset + 16 + payload_len <= blen,
                payload@ == buf@.subrange(offset + 16, offset + 16 + j),
            decreases payload_len - j,
        {
            payload.push(buf[offset + 16 + j]);
            j = j + 1;
            proof {
                assert(payload@ =~= buf@.subrange(offset + 16, offset + 16 + j));
            }
        }
        EventView { header, payload }
    }
}

} // verus!
