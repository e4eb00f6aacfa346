//! Segment file format: the binary layout of data records and hint
//! records, their serialization into byte buffers, and their parsing.
//!
//! A data record is a 16-byte header (CRC, timestamp, key size, value
//! size, each a big-endian `u32`) followed by the key bytes and the
//! value bytes. A hint record is a 16-byte header (big-endian `u64`
//! offset, `u32` key size, `u32` value size) followed by the key bytes.

use vstd::prelude::*;

use crate::bytes::append_slice;
use crate::bytes::push_u32_be;
use crate::bytes::push_u64_be;
use crate::bytes::read_u32_be;
use crate::bytes::read_u64_be;
use crate::bytes::lemma_u32_roundtrip;
use crate::bytes::lemma_u64_roundtrip;
use crate::bytes::spec_u32_bytes;
use crate::bytes::spec_u32_from_bytes;
use crate::bytes::spec_u64_bytes;
use crate::bytes::spec_u64_from_bytes;
use crate::clock::clock_secs;
use crate::error::StoreError;

verus! {

/// Size in bytes of both header layouts.
pub const HEADER_SIZE: usize = 16;

/// Header of a data record.
#[derive(Debug, Default, Clone, Copy, PartialEq, Eq, Structural)]
pub struct DataHeader {
    /// CRC field; written as zero and preserved as an opaque word.
    pub crc: u32,
    /// Seconds since the epoch at which the record was written.
    pub timestamp: u32,
    /// Length of the key in bytes.
    pub key_sz: u32,
    /// Length of the value in bytes.
    pub value_sz: u32,
}

/// The 16 bytes a data header serializes to.
pub open spec fn spec_header_bytes(h: DataHeader) -> Seq<u8> {
    spec_u32_bytes(h.crc) + spec_u32_bytes(h.timestamp) + spec_u32_bytes(h.key_sz)
        + spec_u32_bytes(h.value_sz)
}

impl DataHeader {
    /// Builds a header from its four fields.
    pub fn new(crc: u32, timestamp: u32, key_sz: u32, value_sz: u32) -> (r: DataHeader)
        ensures
            r == (DataHeader { crc, timestamp, key_sz, value_sz }),
    {
        DataHeader { crc, timestamp, key_sz, value_sz }
    }

    /// The CRC field.
    pub fn crc(&self) -> (r: u32)
        ensures
            r == self.crc,
    {
        self.crc
    }

    /// The timestamp field.
    pub fn timestamp(&self) -> (r: u32)
        ensures
            r == self.timestamp,
    {
        self.timestamp
    }

    /// The key size field.
    pub fn key_sz(&self) -> (r: u32)
        ensures
            r == self.key_sz,
    {
        self.key_sz
    }

    /// The value size field.
    pub fn value_sz(&self) -> (r: u32)
        ensures
            r == self.value_sz,
    {
        self.value_sz
    }
}

/// A parsed data record, as spec-level data.
pub ghost struct RecordV {
    pub crc: u32,
    pub timestamp: u32,
    pub key: Seq<u8>,
    pub value: Seq<u8>,
}

impl RecordV {
    /// Total on-disk size of the record.
    pub open spec fn size(self) -> int {
        HEADER_SIZE + self.key.len() + self.value.len()
    }

    /// The header the record carries.
    pub open spec fn header(self) -> DataHeader {
        DataHeader {
            crc: self.crc,
            timestamp: self.timestamp,
            key_sz: self.key.len() as u32,
            value_sz: self.value.len() as u32,
        }
    }
}

/// The bytes a data record serializes to.
pub open spec fn spec_record_bytes(crc: u32, timestamp: u32, key: Seq<u8>, value: Seq<u8>) -> Seq<
    u8,
> {
    spec_header_bytes(
        DataHeader { crc, timestamp, key_sz: key.len() as u32, value_sz: value.len() as u32 },
    ) + key + value
}

/// Outcome of parsing a stream position as a data record.
pub ghost enum ParseStep {
    /// Fewer than 16 bytes remain: no more records.
    End,
    /// The header was read but the payload is truncated.
    Corrupt,
    /// A whole record.
    Rec(RecordV),
}

/// Parses the data record at offset `off` of stream `s`.
///
/// Fewer than 16 remaining bytes mean the end of the stream; a payload
/// that the remaining bytes cannot cover is a deserialization error.
pub open spec fn parse_record_at(s: Seq<u8>, off: int) -> ParseStep {
    if off < 0 || s.len() - off < HEADER_SIZE {
        ParseStep::End
    } else {
        let key_sz = spec_u32_from_bytes(s[off + 8], s[off + 9], s[off + 10], s[off + 11]);
        let value_sz = spec_u32_from_bytes(s[off + 12], s[off + 13], s[off + 14], s[off + 15]);
        if off + HEADER_SIZE + key_sz + value_sz > s.len() {
            ParseStep::Corrupt
        } else {
            ParseStep::Rec(
                RecordV {
                    crc: spec_u32_from_bytes(s[off], s[off + 1], s[off + 2], s[off + 3]),
                    timestamp: spec_u32_from_bytes(s[off + 4], s[off + 5], s[off + 6], s[off + 7]),
                    key: s.subrange(off + HEADER_SIZE, off + HEADER_SIZE + key_sz),
                    value: s.subrange(
                        off + HEADER_SIZE + key_sz,
                        off + HEADER_SIZE + key_sz + value_sz,
                    ),
                },
            )
        }
    }
}

/// A data record carried between the engine and a segment.
#[derive(Debug, PartialEq, Eq)]
pub struct DataEntry {
    /// Header of the record.
    pub header: DataHeader,
    /// Key bytes.
    pub key: Vec<u8>,
    /// Value bytes.
    pub value: Vec<u8>,
    /// Offset of the record in its segment, once known.
    pub offset: Option<u64>,
    /// Id of the segment holding the record, once known.
    pub file_id: Option<u64>,
}

impl DataEntry {
    /// The header's size fields agree with the carried key and value.
    pub open spec fn wf(self) -> bool {
        &&& self.key@.len() <= u32::MAX
        &&& self.value@.len() <= u32::MAX
        &&& self.header.key_sz == self.key@.len()
        &&& self.header.value_sz == self.value@.len()
    }

    /// The spec-level record this entry carries.
    pub open spec fn record(self) -> RecordV {
        RecordV {
            crc: self.header.crc,
            timestamp: self.header.timestamp,
            key: self.key@,
            value: self.value@,
        }
    }

    /// The header of the entry.
    pub open spec fn spec_header(self) -> DataHeader {
        self.header
    }

    /// Builds a record for `key` and `value`, stamped with the current
    /// wall-clock second and a zero CRC.
    pub fn new(key: Vec<u8>, value: Vec<u8>) -> (r: DataEntry)
        requires
            key@.len() <= u32::MAX,
            value@.len() <= u32::MAX,
        ensures
            r.wf(),
            r.key@ == key@,
            r.value@ == value@,
            r.spec_header().crc == 0,
            r.spec_header().timestamp >= 1,
            r.offset is None,
            r.file_id is None,
    {
        let timestamp = clock_secs();
        Self::with_timestamp(key, value, timestamp)
    }

    /// Builds a record for `key` and `value` with the given timestamp
    /// and a zero CRC.
    pub fn with_timestamp(key: Vec<u8>, value: Vec<u8>, timestamp: u32) -> (r: DataEntry)
        requires
            key@.len() <= u32::MAX,
            value@.len() <= u32::MAX,
        ensures
            r.wf(),
            r.key@ == key@,
            r.value@ == value@,
            r.spec_header() == (DataHeader {
                crc: 0,
                timestamp,
                key_sz: key@.len() as u32,
                value_sz: value@.len() as u32,
            }),
            r.offset is None,
            r.file_id is None,
    {
        let key_sz = key.len() as u32;
        let value_sz = value.len() as u32;
        DataEntry {
            header: DataHeader { crc: 0, timestamp, key_sz, value_sz },
            key,
            value,
            offset: None,
            file_id: None,
        }
    }

    /// Attaches an offset.
    pub fn offset(self, offset: u64) -> (r: DataEntry)
        ensures
            r == (DataEntry { offset: Some(offset), ..self }),
    {
        DataEntry { offset: Some(offset), ..self }
    }

    /// Attaches a segment id.
    pub fn file_id(self, file_id: u64) -> (r: DataEntry)
        ensures
            r == (DataEntry { file_id: Some(file_id), ..self }),
    {
        DataEntry { file_id: Some(file_id), ..self }
    }

    /// Total on-disk size of the record in bytes.
    pub fn size(&self) -> (r: u64)
        requires
            self.wf(),
        ensures
            r == self.record().size(),
    {
        HEADER_SIZE as u64 + self.key.len() as u64 + self.value.len() as u64
    }

    /// The record's timestamp.
    pub fn timestamp(&self) -> (r: u32)
        ensures
            r == self.spec_header().timestamp,
    {
        self.header.timestamp
    }

    /// Parses the data record at `offset` of `buf`, yielding `None` at
    /// the end of the stream and a deserialization error on a record
    /// whose payload is truncated.
    pub fn read_from(buf: &Vec<u8>, offset: u64) -> (r: Result<Option<DataEntry>, StoreError>)
        ensures
            match parse_record_at(buf@, offset as int) {
                ParseStep::End => r matches Ok(e) && e is None,
                ParseStep::Corrupt => r matches Err(StoreError::DeserializeError),
                ParseStep::Rec(rec) => r matches Ok(Some(e)) && e.wf() && e.record() == rec
                    && e.offset is None && e.file_id is None,
            },
    {
        let len = buf.len();
        if offset > len as u64 {
            return Ok(None);
        }
        let off = offset as usize;
        if len - off < HEADER_SIZE {
            return Ok(None);
        }
        let crc = read_u32_be(buf, off);
        let timestamp = read_u32_be(buf, off + 4);
        let key_sz = read_u32_be(buf, off + 8);
        let value_sz = read_u32_be(buf, off + 12);
        let avail = (len - off - HEADER_SIZE) as u64;
        if avail < key_sz as u64 + value_sz as u64 {
            return Err(StoreError::DeserializeError);
        }
        let key_start = off + HEADER_SIZE;
        let key_end = key_start + key_sz as usize;
        let value_end = key_end + value_sz as usize;
        let mut key: Vec<u8> = Vec::new();
        append_slice(&mut key, buf.as_slice(), key_start, key_end);
        let mut value: Vec<u8> = Vec::new();
        append_slice(&mut value, buf.as_slice(), key_end, value_end);
        Ok(
            Some(
                DataEntry {
                    header: DataHeader { crc, timestamp, key_sz, value_sz },
                    key,
                    value,
                    offset: None,
                    file_id: None,
                },
            ),
        )
    }

    /// Appends the record's serialized bytes to `buf` and returns the
    /// offset at which they begin.
    pub fn write_to(&self, buf: &mut Vec<u8>) -> (r: Result<u64, StoreError>)
        requires
            self.wf(),
        ensures
            final(buf)@ =~= old(buf)@ + spec_record_bytes(
                self.spec_header().crc,
                self.spec_header().timestamp,
                self.key@,
                self.value@,
            ),
            r matches Ok(off) && off == old(buf)@.len(),
    {
        let off = buf.len() as u64;
        push_u32_be(buf, self.header.crc);
        push_u32_be(buf, self.header.timestamp);
        push_u32_be(buf, self.header.key_sz);
        push_u32_be(buf, self.header.value_sz);
        append_slice(buf, self.key.as_slice(), 0, self.key.len());
        append_slice(buf, self.value.as_slice(), 0, self.value.len());
        proof {
            assert(self.key@.subrange(0, self.key@.len() as int) =~= self.key@);
            assert(self.value@.subrange(0, self.value@.len() as int) =~= self.value@);
        }
        Ok(off)
    }
}

/// Appends one serialized data record to `buf`.
pub fn append_record(buf: &mut Vec<u8>, crc: u32, timestamp: u32, key: &[u8], value: &[u8])
    requires
        key@.len() <= u32::MAX,
        value@.len() <= u32::MAX,
    ensures
        final(buf)@ =~= old(buf)@ + spec_record_bytes(crc, timestamp, key@, value@),
{
    push_u32_be(buf, crc);
    push_u32_be(buf, timestamp);
    push_u32_be(buf, key.len() as u32);
    push_u32_be(buf, value.len() as u32);
    append_slice(buf, key, 0, key.len());
    append_slice(buf, value, 0, value.len());
    proof {
        assert(key@.subrange(0, key@.len() as int) =~= key@);
        assert(value@.subrange(0, value@.len() as int) =~= value@);
    }
}

/// Appends one serialized hint record to `buf`.
pub fn append_hint(buf: &mut Vec<u8>, offset: u64, key_sz: u32, value_sz: u32, key: &[u8])
    requires
        key@.len() == key_sz,
    ensures
        final(buf)@ =~= old(buf)@ + spec_hint_bytes(offset, key_sz, value_sz, key@),
{
    push_u64_be(buf, offset);
    push_u32_be(buf, key_sz);
    push_u32_be(buf, value_sz);
    append_slice(buf, key, 0, key.len());
    proof {
        assert(key@.subrange(0, key@.len() as int) =~= key@);
    }
}

/// Decoding the sixteen header bytes of a data record recovers the
/// header's four fields exactly.
pub proof fn lemma_header_fields(s: Seq<u8>, off: int, h: DataHeader)
    requires
        0 <= off,
        off + HEADER_SIZE <= s.len(),
        s.subrange(off, off + HEADER_SIZE) =~= spec_header_bytes(h),
    ensures
        spec_u32_from_bytes(s[off], s[off + 1], s[off + 2], s[off + 3]) == h.crc,
        spec_u32_from_bytes(s[off + 4], s[off + 5], s[off + 6], s[off + 7]) == h.timestamp,
        spec_u32_from_bytes(s[off + 8], s[off + 9], s[off + 10], s[off + 11]) == h.key_sz,
        spec_u32_from_bytes(s[off + 12], s[off + 13], s[off + 14], s[off + 15]) == h.value_sz,
{
    let hb = spec_header_bytes(h);
    assert forall|j: int| off <= j < off + 16 implies #[trigger] s[j] == hb[j - off] by {
        assert(s.subrange(off, off + HEADER_SIZE)[j - off] == s[j]);
    }
    lemma_u32_roundtrip(h.crc);
    lemma_u32_roundtrip(h.timestamp);
    lemma_u32_roundtrip(h.key_sz);
    lemma_u32_roundtrip(h.value_sz);
}

/// Parsing at the start of a serialized record embedded in a stream
/// recovers the record exactly.
pub proof fn lemma_parse_record_bytes(s: Seq<u8>, off: int, rec: RecordV)
    requires
        0 <= off,
        rec.key.len() <= u32::MAX,
        rec.value.len() <= u32::MAX,
        off + rec.size() <= s.len(),
        s.subrange(off, off + rec.size()) =~= spec_record_bytes(
            rec.crc,
            rec.timestamp,
            rec.key,
            rec.value,
        ),
    ensures
        parse_record_at(s, off) == ParseStep::Rec(rec),
{
    let rb = spec_record_bytes(rec.crc, rec.timestamp, rec.key, rec.value);
    let n = rec.size();
    assert forall|j: int| off <= j < off + n implies #[trigger] s[j] == rb[j - off] by {
        assert(s.subrange(off, off + n)[j - off] == s[j]);
    }
    assert(s.subrange(off, off + HEADER_SIZE) =~= spec_header_bytes(rec.header()));
    lemma_header_fields(s, off, rec.header());
    let klen = rec.key.len() as int;
    let vlen = rec.value.len() as int;
    assert(s.subrange(off + HEADER_SIZE, off + HEADER_SIZE + klen) =~= rec.key);
    assert(s.subrange(off + HEADER_SIZE + klen, off + HEADER_SIZE + klen + vlen) =~= rec.value);
}

/// A record parse depends only on the bytes of the record's own span:
/// two streams that agree on that span parse the same record there.
pub proof fn lemma_parse_record_local(s1: Seq<u8>, s2: Seq<u8>, off: int, rec: RecordV)
    requires
        0 <= off,
        parse_record_at(s1, off) == ParseStep::Rec(rec),
        off + rec.size() <= s2.len(),
        s2.subrange(off, off + rec.size()) =~= s1.subrange(off, off + rec.size()),
    ensures
        parse_record_at(s2, off) == ParseStep::Rec(rec),
{
    let n = rec.size();
    assert(off + n <= s1.len());
    assert forall|j: int| off <= j < off + n implies #[trigger] s2[j] == s1[j] by {
        assert(s2.subrange(off, off + n)[j - off] == s2[j]);
        assert(s1.subrange(off, off + n)[j - off] == s1[j]);
    }
    assert(s2.subrange(off + HEADER_SIZE, off + HEADER_SIZE + rec.key.len()) =~= s1.subrange(
        off + HEADER_SIZE,
        off + HEADER_SIZE + rec.key.len(),
    ));
    assert(s2.subrange(
        off + HEADER_SIZE + rec.key.len(),
        off + HEADER_SIZE + rec.key.len() + rec.value.len(),
    ) =~= s1.subrange(
        off + HEADER_SIZE + rec.key.len(),
        off + HEADER_SIZE + rec.key.len() + rec.value.len(),
    ));
}

/// A record parse depends only on the bytes of the record's own span:
/// a stream holding the same span at another offset parses the same
/// record there.
pub proof fn lemma_parse_record_span(s1: Seq<u8>, off1: int, s2: Seq<u8>, off2: int, rec: RecordV)
    requires
        0 <= off1,
        0 <= off2,
        parse_record_at(s1, off1) == ParseStep::Rec(rec),
        off2 + rec.size() <= s2.len(),
        s2.subrange(off2, off2 + rec.size()) =~= s1.subrange(off1, off1 + rec.size()),
    ensures
        parse_record_at(s2, off2) == ParseStep::Rec(rec),
{
    let n = rec.size();
    assert forall|d: int| off2 <= d < off2 + n implies #[trigger] s2[d] == s1[off1 + (d - off2)] by {
        assert(s2.subrange(off2, off2 + n)[d - off2] == s2[d]);
        assert(s1.subrange(off1, off1 + n)[d - off2] == s1[off1 + (d - off2)]);
    }
    assert(s2[off2 + 8] == s1[off1 + 8] && s2[off2 + 9] == s1[off1 + 9] && s2[off2 + 10] == s1[off1
        + 10] && s2[off2 + 11] == s1[off1 + 11]);
    assert(s2.subrange(off2 + HEADER_SIZE, off2 + HEADER_SIZE + rec.key.len()) =~= s1.subrange(
        off1 + HEADER_SIZE,
        off1 + HEADER_SIZE + rec.key.len(),
    ));
    assert(s2.subrange(
        off2 + HEADER_SIZE + rec.key.len(),
        off2 + HEADER_SIZE + rec.key.len() + rec.value.len(),
    ) =~= s1.subrange(
        off1 + HEADER_SIZE + rec.key.len(),
        off1 + HEADER_SIZE + rec.key.len() + rec.value.len(),
    ));
}

/// Header of a hint record.
#[derive(Debug, Clone, Copy, PartialEq, Eq, Structural)]
pub struct HintHeader {
    /// Offset of the referenced data record in its data segment.
    pub offset: u64,
    /// Length of the key in bytes.
    pub key_sz: u32,
    /// Length of the referenced record's value in bytes.
    pub value_sz: u32,
}

/// The 16 bytes a hint header serializes to.
pub open spec fn spec_hint_header_bytes(h: HintHeader) -> Seq<u8> {
    spec_u64_bytes(h.offset) + spec_u32_bytes(h.key_sz) + spec_u32_bytes(h.value_sz)
}

impl HintHeader {
    /// Builds a hint header from its fields.
    pub fn new(offset: u64, key_sz: u32, value_sz: u32) -> (r: HintHeader)
        ensures
            r == (HintHeader { offset, key_sz, value_sz }),
    {
        HintHeader { offset, key_sz, value_sz }
    }

    /// The referenced record's offset.
    pub fn offset(&self) -> (r: u64)
        ensures
            r == self.offset,
    {
        self.offset
    }

    /// The key length in bytes.
    pub fn key_sz(&self) -> (r: usize)
        ensures
            r == self.key_sz,
    {
        self.key_sz as usize
    }

    /// The referenced record's value length in bytes.
    pub fn value_sz(&self) -> (r: usize)
        ensures
            r == self.value_sz,
    {
        self.value_sz as usize
    }

    /// The size of the referenced data record.
    pub fn size(&self) -> (r: u64)
        ensures
            r == HEADER_SIZE + self.key_sz + self.value_sz,
    {
        HEADER_SIZE as u64 + self.key_sz as u64 + self.value_sz as u64
    }
}

/// A parsed hint record, as spec-level data.
pub ghost struct HintRecV {
    pub offset: u64,
    pub key_sz: u32,
    pub value_sz: u32,
    pub key: Seq<u8>,
}

impl HintRecV {
    /// The size of the hint record itself in the hint stream.
    pub open spec fn self_size(self) -> int {
        HEADER_SIZE + self.key.len()
    }

    /// The size of the referenced data record.
    pub open spec fn data_size(self) -> int {
        HEADER_SIZE + self.key_sz + self.value_sz
    }
}

/// The bytes a hint record serializes to.
pub open spec fn spec_hint_bytes(offset: u64, key_sz: u32, value_sz: u32, key: Seq<u8>) -> Seq<
    u8,
> {
    spec_hint_header_bytes(HintHeader { offset, key_sz, value_sz }) + key
}

/// Outcome of parsing a stream position as a hint record.
pub ghost enum HintStep {
    /// Fewer than 16 bytes remain: no more records.
    End,
    /// The header was read but the key is truncated.
    Corrupt,
    /// A whole hint record.
    Rec(HintRecV),
}

/// Parses the hint record at offset `off` of stream `s`.
pub open spec fn parse_hint_at(s: Seq<u8>, off: int) -> HintStep {
    if off < 0 || s.len() - off < HEADER_SIZE {
        HintStep::End
    } else {
        let key_sz = spec_u32_from_bytes(s[off + 8], s[off + 9], s[off + 10], s[off + 11]);
        if off + HEADER_SIZE + key_sz > s.len() {
            HintStep::Corrupt
        } else {
            HintStep::Rec(
                HintRecV {
                    offset: spec_u64_from_bytes(
                        s[off],
                        s[off + 1],
                        s[off + 2],
                        s[off + 3],
                        s[off + 4],
                        s[off + 5],
                        s[off + 6],
                        s[off + 7],
                    ),
                    key_sz,
                    value_sz: spec_u32_from_bytes(
                        s[off + 12],
                        s[off + 13],
                        s[off + 14],
                        s[off + 15],
                    ),
                    key: s.subrange(off + HEADER_SIZE, off + HEADER_SIZE + key_sz),
                },
            )
        }
    }
}

/// A hint record carried between the engine and a hint segment.
#[derive(Debug)]
pub struct HintEntry {
    /// Header of the hint record.
    pub header: HintHeader,
    /// Key bytes.
    pub key: Vec<u8>,
}

impl HintEntry {
    /// The header's key size agrees with the carried key.
    pub open spec fn wf(self) -> bool {
        &&& self.key@.len() <= u32::MAX
        &&& self.header.key_sz == self.key@.len()
    }

    /// The spec-level hint record this entry carries.
    pub open spec fn hint_rec(self) -> HintRecV {
        HintRecV {
            offset: self.header.offset,
            key_sz: self.header.key_sz,
            value_sz: self.header.value_sz,
            key: self.key@,
        }
    }

    /// The header of the entry.
    pub open spec fn spec_header(self) -> HintHeader {
        self.header
    }

    /// Builds a hint record for a data record of total size `size`
    /// found at `offset`.
    pub fn new(key: Vec<u8>, offset: u64, size: u64) -> (r: HintEntry)
        requires
            key@.len() <= u32::MAX,
            HEADER_SIZE + key@.len() <= size,
            size - HEADER_SIZE - key@.len() <= u32::MAX,
        ensures
            r.wf(),
            r.key@ == key@,
            r.spec_header() == (HintHeader {
                offset,
                key_sz: key@.len() as u32,
                value_sz: (size - HEADER_SIZE - key@.len()) as u32,
            }),
    {
        let key_sz = key.len() as u32;
        let value_sz = (size - HEADER_SIZE as u64 - key_sz as u64) as u32;
        HintEntry { header: HintHeader { offset, key_sz, value_sz }, key }
    }

    /// The referenced record's offset in its data segment.
    pub fn offset(&self) -> (r: u64)
        ensures
            r == self.spec_header().offset,
    {
        self.header.offset
    }

    /// The size of the referenced data record.
    pub fn size(&self) -> (r: u64)
        ensures
            r == self.hint_rec().data_size(),
    {
        self.header.size()
    }

    /// The size of the hint record itself.
    pub fn selfsize(&self) -> (r: u64)
        requires
            self.wf(),
        ensures
            r == self.hint_rec().self_size(),
    {
        HEADER_SIZE as u64 + self.key.len() as u64
    }

    /// Parses the hint record at `offset` of `buf`, yielding `None` at
    /// the end of the stream and a deserialization error on a record
    /// whose key is truncated.
    pub fn read_from(buf: &Vec<u8>, offset: u64) -> (r: Result<Option<HintEntry>, StoreError>)
        ensures
            match parse_hint_at(buf@, offset as int) {
                HintStep::End => r matches Ok(e) && e is None,
                HintStep::Corrupt => r matches Err(StoreError::DeserializeError),
                HintStep::Rec(rec) => r matches Ok(Some(e)) && e.wf() && e.hint_rec() == rec,
            },
    {
        let len = buf.len();
        if offset > len as u64 {
            return Ok(None);
        }
        let off = offset as usize;
        if len - off < HEADER_SIZE {
            return Ok(None);
        }
        let rec_offset = read_u64_be(buf, off);
        let key_sz = read_u32_be(buf, off + 8);
        let value_sz = read_u32_be(buf, off + 12);
        let avail = (len - off - HEADER_SIZE) as u64;
        if avail < key_sz as u64 {
            return Err(StoreError::DeserializeError);
        }
        let key_start = off + HEADER_SIZE;
        let key_end = key_start + key_sz as usize;
        let mut key: Vec<u8> = Vec::new();
        append_slice(&mut key, buf.as_slice(), key_start, key_end);
        Ok(Some(HintEntry { header: HintHeader { offset: rec_offset, key_sz, value_sz }, key }))
    }

    /// Appends the hint record's serialized bytes to `buf` and returns
    /// the offset at which they begin.
    pub fn write_to(&self, buf: &mut Vec<u8>) -> (r: Result<u64, StoreError>)
        requires
            self.wf(),
        ensures
            final(buf)@ =~= old(buf)@ + spec_hint_bytes(
                self.spec_header().offset,
                self.spec_header().key_sz,
                self.spec_header().value_sz,
                self.key@,
            ),
            r matches Ok(off) && off == old(buf)@.len(),
    {
        let off = buf.len() as u64;
        push_u64_be(buf, self.header.offset);
        push_u32_be(buf, self.header.key_sz);
        push_u32_be(buf, self.header.value_sz);
        append_slice(buf, self.key.as_slice(), 0, self.key.len());
        proof {
            assert(self.key@.subrange(0, self.key@.len() as int) =~= self.key@);
        }
        Ok(off)
    }
}

/// Parsing at the start of a serialized hint record embedded in a
/// stream recovers the hint exactly.
pub proof fn lemma_parse_hint_bytes(s: Seq<u8>, off: int, rec: HintRecV)
    requires
        0 <= off,
        rec.key.len() <= u32::MAX,
        rec.key_sz == rec.key.len(),
        off + rec.self_size() <= s.len(),
        s.subrange(off, off + rec.self_size()) =~= spec_hint_bytes(
            rec.offset,
            rec.key_sz,
            rec.value_sz,
            rec.key,
        ),
    ensures
        parse_hint_at(s, off) == HintStep::Rec(rec),
{
    let rb = spec_hint_bytes(rec.offset, rec.key_sz, rec.value_sz, rec.key);
    let n = rec.self_size();
    assert forall|j: int| off <= j < off + n implies #[trigger] s[j] == rb[j - off] by {
        assert(s.subrange(off, off + n)[j - off] == s[j]);
    }
    lemma_u64_roundtrip(rec.offset);
    lemma_u32_roundtrip(rec.key_sz);
    lemma_u32_roundtrip(rec.value_sz);
    assert(s.subrange(off + HEADER_SIZE, off + HEADER_SIZE + rec.key.len()) =~= rec.key);
}

/// A hint parse depends only on the bytes of the record's own span:
/// two streams that agree on that span parse the same hint there.
pub proof fn lemma_parse_hint_local(s1: Seq<u8>, s2: Seq<u8>, off: int, rec: HintRecV)
    requires
        0 <= off,
        parse_hint_at(s1, off) == HintStep::Rec(rec),
        off + rec.self_size() <= s2.len(),
        s2.subrange(off, off + rec.self_size()) =~= s1.subrange(off, off + rec.self_size()),
    ensures
        parse_hint_at(s2, off) == HintStep::Rec(rec),
{
    let n = rec.self_size();
    assert(off + n <= s1.len());
    assert forall|j: int| off <= j < off + n implies #[trigger] s2[j] == s1[j] by {
        assert(s2.subrange(off, off + n)[j - off] == s2[j]);
        assert(s1.subrange(off, off + n)[j - off] == s1[j]);
    }
    assert(s2.subrange(off + HEADER_SIZE, off + HEADER_SIZE + rec.key.len()) =~= s1.subrange(
        off + HEADER_SIZE,
        off + HEADER_SIZE + rec.key.len(),
    ));
}

} // verus!
