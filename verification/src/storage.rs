//! The persisted log image: a 64-byte file header followed by densely
//! packed records. The writer appends records to an owned byte image of the
//! mapped file and keeps the in-image metadata — event count and write
//! offset — true after every write; the reader validates the header and
//! replays the records. File I/O (mapping, flushing) lives outside the
//! library; the image here is byte-for-byte the file's contents.

use vstd::prelude::*;
use crate::errors::StorageError;
use crate::event::{
    header_of, u32_le_byte, u32_of_le, u64_le_byte, u64_of_le, EventHeader, EventView,
    lemma_u32_le_bytes, lemma_u32_le_round_trip, lemma_u64_le_bytes, lemma_u64_le_round_trip,
};
use crate::frame::{
    is_record_stream, lemma_record_stream_append, lemma_stream_count_bound, parse_records,
    record_bytes,
};

verus! {

/// Casting a signed 64-bit value to unsigned and back recovers it.
pub proof fn lemma_i64_cast_round_trip(x: i64)
    ensures
        ((x as u64) as i64) == x,
{
    assert(((x as u64) as i64) == x) by (bit_vector);
}

/// Casting an unsigned 64-bit value to signed and back recovers it.
pub proof fn lemma_u64_cast_round_trip(v: u64)
    ensures
        ((v as i64) as u64) == v,
{
    assert(((v as i64) as u64) == v) by (bit_vector);
}

/// Fixed 64-byte block at offset 0 of the log image: little-endian magic
/// (the four bytes of ASCII `"EVIL"` read as a `u32`), version, creation
/// time, total record count, and the offset of the next write. Bytes 32 to
/// 63 of the block are reserved: zeroed at creation, ignored on read.
#[derive(Debug, Clone, Copy, PartialEq, Eq, Structural)]
pub struct FileHeader {
    pub magic: u32,
    pub version: u32,
    pub created_at: i64,
    pub event_count: u64,
    pub write_offset: u64,
}

/// Byte `i` (0 to 31) of the meaningful prefix of the file header block.
pub open spec fn file_meta_byte(fh: FileHeader, i: int) -> u8 {
    if i < 4 {
        u32_le_byte(fh.magic, i)
    } else if i < 8 {
        u32_le_byte(fh.version, i - 4)
    } else if i < 16 {
        u64_le_byte(fh.created_at as u64, i - 8)
    } else if i < 24 {
        u64_le_byte(fh.event_count, i - 16)
    } else {
        u64_le_byte(fh.write_offset, i - 24)
    }
}

/// The 32 meaningful bytes of the file header block, as persisted.
pub open spec fn file_meta_bytes(fh: FileHeader) -> Seq<u8> {
    Seq::new(32, |i: int| file_meta_byte(fh, i))
}

/// The file header whose block starts `s` (meaningful when `s.len() >= 32`).
pub open spec fn file_meta_of(s: Seq<u8>) -> FileHeader {
    FileHeader {
        magic: u32_of_le(s[0], s[1], s[2], s[3]),
        version: u32_of_le(s[4], s[5], s[6], s[7]),
        created_at: u64_of_le(s[8], s[9], s[10], s[11], s[12], s[13], s[14], s[15]) as i64,
        event_count: u64_of_le(s[16], s[17], s[18], s[19], s[20], s[21], s[22], s[23]),
        write_offset: u64_of_le(s[24], s[25], s[26], s[27], s[28], s[29], s[30], s[31]),
    }
}

/// Decoding an encoded file header recovers every field.
pub proof fn lemma_file_meta_of_bytes(fh: FileHeader)
    ensures
        file_meta_of(file_meta_bytes(fh)) == fh,
{
    lemma_u32_le_round_trip(fh.magic);
    lemma_u32_le_round_trip(fh.version);
    lemma_u64_le_round_trip(fh.created_at as u64);
    lemma_i64_cast_round_trip(fh.created_at);
    lemma_u64_le_round_trip(fh.event_count);
    lemma_u64_le_round_trip(fh.write_offset);
}

/// Re-encoding a decoded file header block reproduces its first 32 bytes.
pub proof fn lemma_file_meta_bytes_of(s: Seq<u8>)
    requires
        s.len() >= 32,
    ensures
        file_meta_bytes(file_meta_of(s)) == s.take(32),
{
    lemma_u32_le_bytes(s[0], s[1], s[2], s[3]);
    lemma_u32_le_bytes(s[4], s[5], s[6], s[7]);
    lemma_u64_le_bytes(s[8], s[9], s[10], s[11], s[12], s[13], s[14], s[15]);
    lemma_u64_cast_round_trip(
        u64_of_le(s[8], s[9], s[10], s[11], s[12], s[13], s[14], s[15]),
    );
    lemma_u64_le_bytes(s[16], s[17], s[18], s[19], s[20], s[21], s[22], s[23]);
    lemma_u64_le_bytes(s[24], s[25], s[26], s[27], s[28], s[29], s[30], s[31]);
    assert(file_meta_bytes(file_meta_of(s)) =~= s.take(32));
}

impl FileHeader {
    /// The byte length of the whole header block.
    pub const SIZE: usize = 64;

    /// Whether this header carries the expected magic and version.
    pub open spec fn spec_valid(self) -> bool {
        self.magic == 0x4C495645 && self.version == 1
    }

    /// Stamps a fresh header: magic, version 1, the given creation time,
    /// no records yet, next write at offset 64.
    pub fn new(created_at: i64) -> (fh: FileHeader)
        ensures
            fh == (FileHeader {
                magic: 0x4C495645,
                version: 1,
                created_at,
                event_count: 0,
                write_offset: 64,
            }),
            fh.spec_valid(),
    {
        FileHeader { magic: 0x4C495645, version: 1, created_at, event_count: 0, write_offset: 64 }
    }

    /// Checks magic and version; other fields are not the header's to
    /// judge.
    pub fn validate(&self) -> (ok: bool)
        ensures
            ok == self.spec_valid(),
    {
        self.magic == 0x4C495645 && self.version == 1
    }

    /// The 32 meaningful bytes of the header block, little-endian.
    pub fn to_bytes(&self) -> (b: Vec<u8>)
        ensures
            b@ == file_meta_bytes(*self),
    {
        let mut b: Vec<u8> = Vec::new();
        let mg = self.magic;
        b.push(#[verifier::truncate] ((mg & 0xff) as u8));
        b.push(#[verifier::truncate] (((mg >> 8) & 0xff) as u8));
        b.push(#[verifier::truncate] (((mg >> 16) & 0xff) as u8));
        b.push(#[verifier::truncate] (((mg >> 24) & 0xff) as u8));
        let vs = self.version;
        b.push(#[verifier::truncate] ((vs & 0xff) as u8));
        b.push(#[verifier::truncate] (((vs >> 8) & 0xff) as u8));
        b.push(#[verifier::truncate] (((vs >> 16) & 0xff) as u8));
        b.push(#[verifier::truncate] (((vs >> 24) & 0xff) as u8));
        let ca = #[verifier::truncate] (self.created_at as u64);
        b.push(#[verifier::truncate] ((ca & 0xff) as u8));
        b.push(#[verifier::truncate] (((ca >> 8) & 0xff) as u8));
        b.push(#[verifier::truncate] (((ca >> 16) & 0xff) as u8));
        b.push(#[verifier::truncate] (((ca >> 24) & 0xff) as u8));
        b.push(#[verifier::truncate] (((ca >> 32) & 0xff) as u8));
        b.push(#[verifier::truncate] (((ca >> 40) & 0xff) as u8));
        b.push(#[verifier::truncate] (((ca >> 48) & 0xff) as u8));
        b.push(#[verifier::truncate] (((ca >> 56) & 0xff) as u8));
        let ec = self.event_count;
        b.push(#[verifier::truncate] ((ec & 0xff) as u8));
        b.push(#[verifier::truncate] (((ec >> 8) & 0xff) as u8));
        b.push(#[verifier::truncate] (((ec >> 16) & 0xff) as u8));
        b.push(#[verifier::truncate] (((ec >> 24) & 0xff) as u8));
        b.push(#[verifier::truncate] (((ec >> 32) & 0xff) as u8));
        b.push(#[verifier::truncate] (((ec >> 40) & 0xff) as u8));
        b.push(#[verifier::truncate] (((ec >> 48) & 0xff) as u8));
        b.push(#[verifier::truncate] (((ec >> 56) & 0xff) as u8));
        let wo = self.write_offset;
        b.push(#[verifier::truncate] ((wo & 0xff) as u8));
        b.push(#[verifier::truncate] (((wo >> 8) & 0xff) as u8));
        b.push(#[verifier::truncate] (((wo >> 16) & 0xff) as u8));
        b.push(#[verifier::truncate] (((wo >> 24) & 0xff) as u8));
        b.push(#[verifier::truncate] (((wo >> 32) & 0xff) as u8));
        b.push(#[verifier::truncate] (((wo >> 40) & 0xff) as u8));
        b.push(#[verifier::truncate] (((wo >> 48) & 0xff) as u8));
        b.push(#[verifier::truncate] (((wo >> 56) & 0xff) as u8));
        proof {
            assert(b@ =~= file_meta_bytes(*self));
        }
        b
    }

    /// Decodes the header block that starts `b`.
    pub fn from_bytes(b: &[u8]) -> (fh: FileHeader)
        requires
            b@.len() >= 32,
        ensures
            fh == file_meta_of(b@),
    {
        FileHeader {
            magic: (b[0] as u32) | ((b[1] as u32) << 8) | ((b[2] as u32) << 16)
                | ((b[3] as u32) << 24),
            version: (b[4] as u32) | ((b[5] as u32) << 8) | ((b[6] as u32) << 16)
                | ((b[7] as u32) << 24),
            created_at: #[verifier::truncate] (((b[8] as u64) | ((b[9] as u64) << 8)
                | ((b[10] as u64) << 16) | ((b[11] as u64) << 24) | ((b[12] as u64) << 32)
                | ((b[13] as u64) << 40) | ((b[14] as u64) << 48) | ((b[15] as u64) << 56))
                as i64),
            event_count: (b[16] as u64) | ((b[17] as u64) << 8) | ((b[18] as u64) << 16)
                | ((b[19] as u64) << 24) | ((b[20] as u64) << 32) | ((b[21] as u64) << 40)
                | ((b[22] as u64) << 48) | ((b[23] as u64) << 56),
            write_offset: (b[24] as u64) | ((b[25] as u64) << 8) | ((b[26] as u64) << 16)
                | ((b[27] as u64) << 24) | ((b[28] as u64) << 32) | ((b[29] as u64) << 40)
                | ((b[30] as u64) << 48) | ((b[31] as u64) << 56),
        }
    }
}

/// Writes `src` over `dst` starting at `off`; every other byte keeps its
/// value.
fn splice_bytes(dst: &mut Vec<u8>, off: usize, src: &[u8])
    requires
        off + src@.len() <= old(dst)@.len(),
    ensures
        final(dst)@.len() == old(dst)@.len(),
        forall|p: int| 0 <= p < off ==> #[trigger] final(dst)@[p] == old(dst)@[p],
        forall|p: int|
            off <= p < off + src@.len() ==> #[trigger] final(dst)@[p] == src@[p - off],
        forall|p: int|
            off + src@.len() <= p < old(dst)@.len() ==> #[trigger] final(dst)@[p] == old(
                dst,
            )@[p],
{
    let m = src.len();
    let n = dst.len();
    let mut j: usize = 0;
    while j < m
        invariant
            dst@.len() == old(dst)@.len(),
            dst@.len() == n,
            src@.len() == m,
            off + m <= n,
            j <= m,
            forall|p: int| 0 <= p < off ==> #[trigger] dst@[p] == old(dst)@[p],
            forall|p: int| off <= p < off + j ==> #[trigger] dst@[p] == src@[p - off],
            forall|p: int| off + j <= p < dst@.len() ==> #[trigger] dst@[p] == old(dst)@[p],
        decreases m - j,
    {
        dst.set(off + j, src[j]);
        j = j + 1;
    }
}

/// Walks `[start, end)` of the image and counts whole records; answers
/// nothing when the region is not a dense run of whole records ending
/// exactly at `end`.
fn scan_records(data: &Vec<u8>, start: usize, end: usize) -> (r: Option<u64>)
    requires
        start <= end,
        end <= data@.len(),
    ensures
        r is Some <==> is_record_stream(data@.subrange(start as int, end as int)),
        r matches Some(c) ==> c == parse_records(
            data@.subrange(start as int, end as int),
        ).len(),
{
    let ghost whole = data@.subrange(start as int, end as int);
    let mut off = start;
    let mut count: u64 = 0;
    while off < end
        invariant
            start <= off <= end <= data@.len(),
            16 * count <= off - start,
            whole == data@.subrange(start as int, end as int),
            is_record_stream(whole) <==> is_record_stream(
                data@.subrange(off as int, end as int),
            ),
            is_record_stream(data@.subrange(off as int, end as int)) ==> parse_records(
                whole,
            ).len() == count + parse_records(data@.subrange(off as int, end as int)).len(),
        decreases end - off,
    {
        let ghost cur = data@.subrange(off as int, end as int);
        let rem = end - off;
        if rem < 16 {
            return None;
        }
        let mut hb: Vec<u8> = Vec::new();
        let mut i: usize = 0;
        while i < 16
            invariant
                i <= 16,
                off + 16 <= end <= data@.len(),
                hb@ == data@.subrange(off as int, off + i),
            decreases 16 - i,
        {
            hb.push(data[off + i]);
            i = i + 1;
            proof {
                assert(hb@ =~= data@.subrange(off as int, off + i));
            }
        }
        let h = EventHeader::from_bytes(hb.as_slice());
        let total = h.total_size();
        proof {
            assert(cur.take(16) =~= hb@);
        }
        if total > rem {
            return None;
        }
        proof {
            assert(cur.skip(h.spec_total_size()) =~= data@.subrange(off + total, end as int));
        }
        off = off + total;
        count = count + 1;
    }
    proof {
        assert(data@.subrange(off as int, end as int) =~= Seq::<u8>::empty());
    }
    Some(count)
}

/// Append-only writer over the log image. `create` stamps a fresh header;
/// `open` revalidates an existing image; `write_event` appends one framed
/// record and keeps the in-image metadata true of the record region.
pub struct MmapWriter {
    pub data: Vec<u8>,
    pub write_offset: usize,
    pub header: FileHeader,
}

impl MmapWriter {
    /// The bytes of the record region written so far.
    pub open spec fn records_bytes(self) -> Seq<u8> {
        self.data@.subrange(64, self.write_offset as int)
    }

    /// The records persisted so far, in write order.
    pub open spec fn records(self) -> Seq<(EventHeader, Seq<u8>)> {
        parse_records(self.records_bytes())
    }

    /// Well-formedness: the image starts with the encoded header block,
    /// the write offset stays inside the image, the record region is a
    /// dense run of whole records, and `event_count` counts exactly those
    /// records.
    pub open spec fn wf(self) -> bool {
        &&& self.data@.len() >= 64
        &&& 64 <= self.write_offset <= self.data@.len()
        &&& self.header.spec_valid()
        &&& self.header.write_offset == self.write_offset
        &&& self.header.event_count == self.records().len()
        &&& self.data@.subrange(0, 32) == file_meta_bytes(self.header)
        &&& is_record_stream(self.records_bytes())
    }

    /// What `open` accepts: a header-sized image whose header block is
    /// valid and whose metadata is true of its record region.
    pub open spec fn image_ok(s: Seq<u8>) -> bool {
        &&& s.len() >= 64
        &&& file_meta_of(s).spec_valid()
        &&& 64 <= file_meta_of(s).write_offset <= s.len()
        &&& is_record_stream(s.subrange(64, file_meta_of(s).write_offset as int))
        &&& file_meta_of(s).event_count == parse_records(
            s.subrange(64, file_meta_of(s).write_offset as int),
        ).len()
    }

    /// Builds a fresh image: capacity clamped up to at least 4096 bytes,
    /// zero-filled, stamped with a new header created at the given time.
    pub fn create(capacity: usize, created_at: i64) -> (w: MmapWriter)
        ensures
            w.wf(),
            capacity >= 4096 ==> w.data@.len() == capacity,
            capacity < 4096 ==> w.data@.len() == 4096,
            w.write_offset == 64,
            w.header == (FileHeader {
                magic: 0x4C495645,
                version: 1,
                created_at,
                event_count: 0,
                write_offset: 64,
            }),
            w.records() == Seq::<(EventHeader, Seq<u8>)>::empty(),
    {
        let cap = if capacity < 4096 {
            4096
        } else {
            capacity
        };
        let mut data = crate::wrap::zero_bytes(cap);
        let header = FileHeader::new(created_at);
        let hb = header.to_bytes();
        splice_bytes(&mut data, 0, hb.as_slice());
        let w = MmapWriter { data, write_offset: 64, header };
        proof {
            assert(w.records_bytes() =~= Seq::<u8>::empty());
            assert(w.data@.subrange(0, 32) =~= file_meta_bytes(header));
            assert(w.records() =~= Seq::<(EventHeader, Seq<u8>)>::empty());
        }
        w
    }

    /// Reopens an existing image for appending. Rejects with
    /// `InvalidData` an image shorter than the header block, a wrong
    /// magic or version, a write offset outside `[64, len]`, and a record
    /// region whose framing or count disagrees with the metadata.
    pub fn open(data: Vec<u8>) -> (r: Result<MmapWriter, StorageError>)
        ensures
            r is Ok <==> Self::image_ok(data@),
            r matches Ok(w) ==> w.wf() && w.data@ == data@ && w.header == file_meta_of(data@)
                && w.write_offset == file_meta_of(data@).write_offset,
            r is Err ==> (r matches Err(e) && e == StorageError::InvalidData),
    {
        let n = data.len();
        if n < 64 {
            return Err(StorageError::InvalidData);
        }
        let header = FileHeader::from_bytes(data.as_slice());
        if !header.validate() {
            return Err(StorageError::InvalidData);
        }
        if header.write_offset < 64 {
            return Err(StorageError::InvalidData);
        }
        if header.write_offset > n as u64 {
            return Err(StorageError::InvalidData);
        }
        let wo = header.write_offset as usize;
        let count = match scan_records(&data, 64, wo) {
            Some(c) => c,
            None => {
                return Err(StorageError::InvalidData);
            },
        };
        if count != header.event_count {
            return Err(StorageError::InvalidData);
        }
        let w = MmapWriter { data, write_offset: wo, header };
        proof {
            lemma_file_meta_bytes_of(w.data@);
            assert(w.data@.subrange(0, 32) =~= w.data@.take(32));
        }
        Ok(w)
    }

    /// Free bytes left in the image past the write offset.
    pub fn available(&self) -> (n: usize)
        requires
            self.wf(),
        ensures
            n == self.data@.len() - self.write_offset,
    {
        self.data.len() - self.write_offset
    }

    pub fn write_offset(&self) -> (n: usize)
        ensures
            n == self.write_offset,
    {
        self.write_offset
    }

    /// The current header block, as persisted in the image.
    pub fn file_header(&self) -> (fh: FileHeader)
        ensures
            fh == self.header,
    {
        self.header
    }

    /// The whole image, byte-for-byte what a conforming file holds.
    pub fn image(&self) -> (r: &Vec<u8>)
        ensures
            r@ == self.data@,
    {
        &self.data
    }

    /// Gives up the writer and hands out the image.
    pub fn into_bytes(self) -> (r: Vec<u8>)
        ensures
            r@ == self.data@,
    {
        self.data
    }

    /// Appends one record, or returns `false` and leaves everything
    /// unchanged when the record does not fit in the remaining image
    /// space; the image is never grown. On success the event count rises
    /// by one and the write offset advances past the record; earlier
    /// record bytes keep their values.
    pub fn write_event(&mut self, header: &EventHeader, payload: &[u8]) -> (ok: bool)
        requires
            old(self).wf(),
            payload@.len() == header.payload_len,
        ensures
            final(self).wf(),
            final(self).data@.len() == old(self).data@.len(),
            header.spec_total_size() > old(self).data@.len() - old(self).write_offset ==> (!ok
                && *final(self) == *old(self)),
            header.spec_total_size() <= old(self).data@.len() - old(self).write_offset ==> (ok
                && final(self).write_offset == old(self).write_offset + header.spec_total_size()
                && final(self).records() == old(self).records().push((*header, payload@))
                && final(self).header == (FileHeader {
                    event_count: (old(self).header.event_count + 1) as u64,
                    write_offset: (old(self).write_offset + header.spec_total_size()) as u64,
                    ..old(self).header
                })
                && final(self).records_bytes() == old(self).records_bytes() + record_bytes(
                    *header,
                    payload@,
                )),
    {
        let total_size = header.total_size();
        let n = self.data.len();
        let avail = n - self.write_offset;
        if total_size > avail {
            return false;
        }
        let ghost pre = *self;
        let ghost wo = pre.write_offset as int;
        let ghost total = header.spec_total_size();
        proof {
            lemma_stream_count_bound(pre.records_bytes());
        }
        let hb = header.to_bytes();
        splice_bytes(&mut self.data, self.write_offset, hb.as_slice());
        splice_bytes(&mut self.data, self.write_offset + 16, payload);
        let new_off = self.write_offset + total_size;
        self.header = FileHeader {
            event_count: self.header.event_count + 1,
            write_offset: new_off as u64,
            ..self.header
        };
        let mb = self.header.to_bytes();
        splice_bytes(&mut self.data, 0, mb.as_slice());
        self.write_offset = new_off;
        proof {
            assert(self.records_bytes() =~= pre.records_bytes() + record_bytes(
                *header,
                payload@,
            ));
            lemma_record_stream_append(pre.records_bytes(), *header, payload@);
            assert(self.data@.subrange(0, 32) =~= mb@);
        }
        true
    }

    /// Persisted-count law: for any well-formed writer, the image's event
    /// count equals the number of whole records in `[64, write_offset)`,
    /// the write offset stays inside the image, and the image's header
    /// block decodes to exactly the writer's header.
    pub proof fn lemma_persisted_counts(self)
        requires
            self.wf(),
        ensures
            self.header.event_count == parse_records(
                self.data@.subrange(64, self.write_offset as int),
            ).len(),
            64 <= self.write_offset <= self.data@.len(),
            file_meta_of(self.data@) == self.header,
    {
        lemma_file_meta_of_bytes(self.header);
        assert(self.data@.take(32) =~= self.data@.subrange(0, 32));
        assert(file_meta_of(self.data@) == file_meta_of(self.data@.take(32)));
    }

    /// Round-trip law: a well-formed writer's image is accepted by the
    /// reader, reopening it as a writer is accepted too, and parsing its
    /// record region yields exactly the records written, in order.
    pub proof fn lemma_image_recoverable(self)
        requires
            self.wf(),
        ensures
            MmapReader::image_ok(self.data@),
            Self::image_ok(self.data@),
            file_meta_of(self.data@) == self.header,
            parse_records(self.data@.subrange(64, self.write_offset as int)) == self.records(),
    {
        self.lemma_persisted_counts();
    }

    /// Round-trip law, reader side: a reader holding a well-formed
    /// writer's bytes carries the writer's header, stops replay exactly
    /// at the writer's offset, and replays exactly the records written —
    /// as many as the persisted event count says.
    pub proof fn lemma_reader_matches_writer(self, r: MmapReader)
        requires
            self.wf(),
            r.wf(),
            r.data@ == self.data@,
        ensures
            r.header == self.header,
            r.end_int() == self.write_offset,
            parse_records(r.region()) == self.records(),
            r.header.event_count == parse_records(r.region()).len(),
    {
        self.lemma_persisted_counts();
        assert(r.region() =~= self.records_bytes());
    }
}

/// Read-only view of a persisted log image: validates the header block on
/// open, then replays the records in `[64, write_offset)`.
pub struct MmapReader {
    pub data: Vec<u8>,
    pub header: FileHeader,
}

impl MmapReader {
    /// What `open` accepts: at least a header block, with the right magic
    /// and version. Anything beyond that is the replay's concern.
    pub open spec fn image_ok(s: Seq<u8>) -> bool {
        &&& s.len() >= 64
        &&& file_meta_of(s).spec_valid()
    }

    pub open spec fn wf(self) -> bool {
        &&& self.data@.len() >= 64
        &&& self.header == file_meta_of(self.data@)
        &&& self.header.spec_valid()
    }

    /// Where replay stops: the recorded write offset, clamped into
    /// `[64, len]` so that a corrupt offset never reaches outside the
    /// image.
    pub open spec fn end_int(self) -> int {
        let e = if self.header.write_offset <= self.data@.len() {
            self.header.write_offset as int
        } else {
            self.data@.len() as int
        };
        if e < 64 {
            64
        } else {
            e
        }
    }

    /// The record region that replay walks.
    pub open spec fn region(self) -> Seq<u8> {
        self.data@.subrange(64, self.end_int())
    }

    /// Opens an image read-only. Rejects with `InvalidData` exactly the
    /// images shorter than the 64-byte header block and those with a
    /// wrong magic or version.
    pub fn open(data: Vec<u8>) -> (r: Result<MmapReader, StorageError>)
        ensures
            r is Ok <==> Self::image_ok(data@),
            r matches Ok(rd) ==> rd.wf() && rd.data@ == data@ && rd.header == file_meta_of(
                data@,
            ),
            r is Err ==> (r matches Err(e) && e == StorageError::InvalidData),
    {
        let n = data.len();
        if n < 64 {
            return Err(StorageError::InvalidData);
        }
        let header = FileHeader::from_bytes(data.as_slice());
        if !header.validate() {
            return Err(StorageError::InvalidData);
        }
        Ok(MmapReader { data, header })
    }

    pub fn event_count(&self) -> (n: u64)
        ensures
            n == self.header.event_count,
    {
        self.header.event_count
    }

    pub fn created_at(&self) -> (t: i64)
        ensures
            t == self.header.created_at,
    {
        self.header.created_at
    }

    /// The position where replay stops, clamped into the image.
    fn end_pos(&self) -> (e: usize)
        requires
            self.wf(),
        ensures
            e == self.end_int(),
            64 <= e <= self.data@.len(),
    {
        let n = self.data.len();
        let e = if self.header.write_offset <= n as u64 {
            self.header.write_offset as usize
        } else {
            n
        };
        if e < 64 {
            64
        } else {
            e
        }
    }

    /// Replays every whole record in `[64, write_offset)`, in order,
    /// stopping cleanly at a truncated record and never reading past the
    /// image.
    pub fn replay(&self) -> (out: Vec<EventView>)
        requires
            self.wf(),
        ensures
            out@.len() == parse_records(self.region()).len(),
            forall|i: int|
                0 <= i < out@.len() ==> (#[trigger] out@[i]).wf() && out@[i].header
                    == parse_records(self.region())[i].0 && out@[i].payload@ == parse_records(
                    self.region(),
                )[i].1,
    {
        let end = self.end_pos();
        let ghost region = self.region();
        let mut out: Vec<EventView> = Vec::new();
        let mut off: usize = 64;
        loop
            invariant
                self.wf(),
                64 <= off <= end <= self.data@.len(),
                end == self.end_int(),
                region == self.region(),
                parse_records(region).skip(out@.len() as int) == parse_records(
                    self.data@.subrange(off as int, end as int),
                ),
                out@.len() <= parse_records(region).len(),
                forall|i: int|
                    0 <= i < out@.len() ==> (#[trigger] out@[i]).wf() && out@[i].header
                        == parse_records(region)[i].0 && out@[i].payload@ == parse_records(
                        region,
                    )[i].1,
            ensures
                out@.len() == parse_records(region).len(),
                forall|i: int|
                    0 <= i < out@.len() ==> (#[trigger] out@[i]).wf() && out@[i].header
                        == parse_records(region)[i].0 && out@[i].payload@ == parse_records(
                        region,
                    )[i].1,
            decreases end - off,
        {
            let ghost cur = self.data@.subrange(off as int, end as int);
            if off >= end {
                proof {
                    assert(cur =~= Seq::<u8>::empty());
                    assert(parse_records(cur) =~= Seq::<(EventHeader, Seq<u8>)>::empty());
                    assert(parse_records(region).len() == out@.len());
                }
                break;
            }
            let rem = end - off;
            if rem < 16 {
                proof {
                    assert(parse_records(cur) =~= Seq::<(EventHeader, Seq<u8>)>::empty());
                    assert(parse_records(region).len() == out@.len());
                }
                break;
            }
            let mut hb: Vec<u8> = Vec::new();
            let mut i: usize = 0;
            while i < 16
                invariant
                    i <= 16,
                    off + 16 <= end <= self.data@.len(),
                    hb@ == self.data@.subrange(off as int, off + i),
                decreases 16 - i,
            {
                hb.push(self.data[off + i]);
                i = i + 1;
                proof {
                    assert(hb@ =~= self.data@.subrange(off as int, off + i));
                }
            }
            let h = EventHeader::from_bytes(hb.as_slice());
            let total = h.total_size();
            proof {
                assert(cur.take(16) =~= hb@);
            }
            if total > rem {
                proof {
                    assert(parse_records(cur) =~= Seq::<(EventHeader, Seq<u8>)>::empty());
                    assert(parse_records(region).len() == out@.len());
                }
                break;
            }
            proof {
                assert(self.data@.subrange(off as int, off + 16) =~= cur.take(16));
                assert(cur.subrange(16, h.spec_total_size()) =~= self.data@.subrange(
                    off + 16,
                    off + h.spec_total_size(),
                ));
                assert(cur.skip(h.spec_total_size()) =~= self.data@.subrange(
                    off + total,
                    end as int,
                ));
            }
            let v = EventView::from_bytes(self.data.as_slice(), off);
            out.push(v);
            proof {
                let k = out@.len() as int - 1;
                assert(parse_records(cur) == seq![(h, cur.subrange(16, h.spec_total_size()))]
                    + parse_records(cur.skip(h.spec_total_size())));
                assert(parse_records(cur).len() >= 1);
                assert(parse_records(region).skip(k)[0] == parse_records(region)[k]);
                assert(parse_records(region)[k] == parse_records(cur)[0]);
                assert((seq![(h, cur.subrange(16, h.spec_total_size()))] + parse_records(
                    cur.skip(h.spec_total_size()),
                )).skip(1) =~= parse_records(cur.skip(h.spec_total_size())));
                assert(parse_records(region).skip(k).skip(1) =~= parse_records(region).skip(
                    k + 1,
                ));
                assert(parse_records(region).skip(k + 1) == parse_records(cur).skip(1));
            }
            off = off + total;
        }
        out
    }

    /// A lazy, forward-only walk over the same records as `replay`.
    pub fn iter(&self) -> (it: EventIterator<'_>)
        requires
            self.wf(),
        ensures
            it.wf(),
            it.remaining() == parse_records(self.region()),
            it.reader == self,
    {
        EventIterator { reader: self, offset: 64, end: self.end_pos() }
    }
}

/// Forward-only cursor over a reader's record region; `next` hands out one
/// record at a time in write order.
pub struct EventIterator<'a> {
    pub reader: &'a MmapReader,
    pub offset: usize,
    pub end: usize,
}

impl<'a> EventIterator<'a> {
    pub open spec fn wf(self) -> bool {
        &&& self.reader.wf()
        &&& 64 <= self.offset <= self.end
        &&& self.end == self.reader.end_int()
    }

    /// The records not yet handed out.
    pub open spec fn remaining(self) -> Seq<(EventHeader, Seq<u8>)> {
        parse_records(self.reader.data@.subrange(self.offset as int, self.end as int))
    }

    /// Hands out the next record, or nothing once no whole record is
    /// left before the end of the region.
    pub fn next(&mut self) -> (r: Option<EventView>)
        requires
            old(self).wf(),
        ensures
            final(self).wf(),
            final(self).reader == old(self).reader,
            old(self).remaining().len() == 0 ==> (r is None && *final(self) == *old(self)),
            old(self).remaining().len() > 0 ==> (r matches Some(v)
                && v.wf()
                && v.header == old(self).remaining()[0].0
                && v.payload@ == old(self).remaining()[0].1
                && final(self).remaining() == old(self).remaining().skip(1)),
    {
        let ghost cur = self.reader.data@.subrange(self.offset as int, self.end as int);
        let rem = self.end - self.offset;
        if rem < 16 {
            proof {
                assert(parse_records(cur) =~= Seq::<(EventHeader, Seq<u8>)>::empty());
            }
            return None;
        }
        let off = self.offset;
        let mut hb: Vec<u8> = Vec::new();
        let mut i: usize = 0;
        while i < 16
            invariant
                i <= 16,
                off + 16 <= self.end <= self.reader.data@.len(),
                self.reader == old(self).reader,
                hb@ == self.reader.data@.subrange(off as int, off + i),
            decreases 16 - i,
        {
            hb.push(self.reader.data[off + i]);
            i = i + 1;
            proof {
                assert(hb@ =~= self.reader.data@.subrange(off as int, off + i));
            }
        }
        let h = EventHeader::from_bytes(hb.as_slice());
        let total = h.total_size();
        proof {
            assert(cur.take(16) =~= hb@);
        }
        if total > rem {
            proof {
                assert(parse_records(cur) =~= Seq::<(EventHeader, Seq<u8>)>::empty());
            }
            return None;
        }
        proof {
            assert(self.reader.data@.subrange(off as int, off + 16) =~= cur.take(16));
            assert(cur.subrange(16, h.spec_total_size()) =~= self.reader.data@.subrange(
                off + 16,
                off + h.spec_total_size(),
            ));
            assert(cur.skip(h.spec_total_size()) =~= self.reader.data@.subrange(
                off + total,
                self.end as int,
            ));
            assert((seq![(h, cur.subrange(16, h.spec_total_size()))] + parse_records(
                cur.skip(h.spec_total_size()),
            )).skip(1) =~= parse_records(cur.skip(h.spec_total_size())));
        }
        let v = EventView::from_bytes(self.reader.data.as_slice(), off);
        self.offset = off + total;
        Some(v)
    }

    /// Bounds on how many records are left: none are promised, and at
    /// most one per 16 remaining bytes is possible.
    pub fn size_hint(&self) -> (r: (usize, Option<usize>))
        requires
            self.wf(),
        ensures
            r.0 == 0,
            r.1 == Some((self.end - self.offset) as usize / 16),
    {
        (0, Some((self.end - self.offset) / 16))
    }
}

} // verus!
