//! The engine core: the set of segment files, the single active
//! (appendable) segment, the key directory, and the write, read,
//! replay and compaction paths over them.
//!
//! The engine works on an explicit model of the data directory: each
//! segment is carried as its id, its data bytes, and the bytes of its
//! hint file when one exists. The I/O boundary around the library
//! reads the real files into this model and mirrors every append back
//! out; everything the engine decides about those bytes is verified
//! here.

use vstd::prelude::*;

use crate::bytes::append_slice;
use crate::bytes::bytes_eq;
use crate::clock::clock_secs;
use crate::error::StoreError;
use crate::format::append_hint;
use crate::format::append_record;
use crate::format::parse_hint_at;
use crate::format::parse_record_at;
use crate::format::spec_hint_bytes;
use crate::format::spec_record_bytes;
use crate::format::DataEntry;
use crate::format::HintEntry;
use crate::format::HintRecV;
use crate::format::HintStep;
use crate::format::ParseStep;
use crate::format::RecordV;
use crate::format::HEADER_SIZE;
use crate::keydir::kd_map;
use crate::keydir::spec_kd_put;
use crate::keydir::HashmapKeydir;
use crate::keydir::KeydirEntry;
use crate::options::spec_default_options;
use crate::options::StoreOptions;
use crate::settings::remove_tombstone;
use crate::settings::spec_tombstone;

verus! {

/// One segment of the directory model: the numeric file id, the data
/// file's bytes, and the hint file's bytes when a hint exists.
#[derive(Debug)]
pub struct SegmentFile {
    /// The numeric id parsed from the segment's filename.
    pub id: u64,
    /// The content of the data file.
    pub data: Vec<u8>,
    /// The content of the hint file, if one sits beside the data file.
    pub hint: Option<Vec<u8>>,
}

/// Spec-level image of one segment.
pub ghost struct SegView {
    pub id: u64,
    pub data: Seq<u8>,
    pub hint: Option<Seq<u8>>,
}

impl View for SegmentFile {
    type V = SegView;

    open spec fn view(&self) -> SegView {
        SegView {
            id: self.id,
            data: self.data@,
            hint: if self.hint is Some {
                Some(self.hint->0@)
            } else {
                None
            },
        }
    }
}

/// Spec-level image of the whole engine.
pub ghost struct StoreView {
    /// All segments, ascending by id; index `active_idx` is active.
    pub dir: Seq<SegView>,
    /// Which segment is the active (appendable) one.
    pub active_idx: int,
    /// The key directory's pairs.
    pub kd: Seq<(Seq<u8>, KeydirEntry)>,
    /// The configured limits.
    pub opts: StoreOptions,
    /// An upper bound of every timestamp the directory holds.
    pub ts_floor: u32,
}

impl StoreView {
    /// The mapping the key directory denotes.
    pub open spec fn kd_map(self) -> Map<Seq<u8>, KeydirEntry> {
        kd_map(self.kd)
    }

    /// The active segment.
    pub open spec fn active(self) -> SegView {
        self.dir[self.active_idx]
    }
}

/// Whether some segment carries id `id`.
pub open spec fn has_seg(dir: Seq<SegView>, id: u64) -> bool {
    exists|i: int| 0 <= i < dir.len() && (#[trigger] dir[i]).id == id
}

/// The first segment carrying id `id`, if any.
pub open spec fn find_seg(dir: Seq<SegView>, id: u64) -> Option<SegView>
    decreases dir.len(),
{
    if dir.len() == 0 {
        None
    } else if dir[0].id == id {
        Some(dir[0])
    } else {
        find_seg(dir.drop_first(), id)
    }
}

/// Segment ids strictly increase along the directory.
pub open spec fn ids_ascending(dir: Seq<SegView>) -> bool {
    forall|i: int, j: int| 0 <= i < j < dir.len() ==> (#[trigger] dir[i]).id < (#[trigger] dir[j]).id
}

/// A segment is found exactly when its id occurs, and under distinct
/// ids the segment found at an id is the one standing at it.
pub proof fn lemma_find_seg(dir: Seq<SegView>, id: u64)
    ensures
        find_seg(dir, id) is Some <==> has_seg(dir, id),
        find_seg(dir, id) matches Some(s) ==> exists|i: int|
            0 <= i < dir.len() && #[trigger] dir[i] == s && s.id == id,
    decreases dir.len(),
{
    if dir.len() > 0 {
        if dir[0].id == id {
        } else {
            lemma_find_seg(dir.drop_first(), id);
            if has_seg(dir, id) {
                let i = choose|i: int| 0 <= i < dir.len() && (#[trigger] dir[i]).id == id;
                assert(dir.drop_first()[i - 1] == dir[i]);
            }
            if has_seg(dir.drop_first(), id) {
                let i = choose|i: int|
                    0 <= i < dir.drop_first().len() && (#[trigger] dir.drop_first()[i]).id == id;
                assert(dir[i + 1] == dir.drop_first()[i]);
            }
            match find_seg(dir.drop_first(), id) {
                Option::Some(s) => {
                    let i = choose|i: int|
                        0 <= i < dir.drop_first().len() && #[trigger] dir.drop_first()[i] == s;
                    assert(dir[i + 1] == s);
                },
                Option::None => {},
            }
        }
    }
}

/// Under strictly ascending ids, looking up the id of the segment at
/// position `i` finds exactly that segment.
pub proof fn lemma_find_seg_at(dir: Seq<SegView>, i: int)
    requires
        ids_ascending(dir),
        0 <= i < dir.len(),
    ensures
        find_seg(dir, dir[i].id) == Some(dir[i]),
    decreases dir.len(),
{
    if i == 0 {
    } else {
        assert(dir[0].id < dir[i].id);
        assert(dir.drop_first()[i - 1] == dir[i]);
        assert forall|a: int, b: int| 0 <= a < b < dir.drop_first().len() implies (
        #[trigger] dir.drop_first()[a]).id < (#[trigger] dir.drop_first()[b]).id by {
            assert(dir.drop_first()[a] == dir[a + 1]);
            assert(dir.drop_first()[b] == dir[b + 1]);
        }
        lemma_find_seg_at(dir.drop_first(), i - 1);
    }
}

/// Replacing the segment at position `i` by one with the same id moves
/// lookups of that id to the new segment and leaves the rest alone.
pub proof fn lemma_find_seg_update(dir: Seq<SegView>, i: int, s2: SegView, id: u64)
    requires
        ids_ascending(dir),
        0 <= i < dir.len(),
        s2.id == dir[i].id,
    ensures
        id == s2.id ==> find_seg(dir.update(i, s2), id) == Some(s2),
        id != s2.id ==> find_seg(dir.update(i, s2), id) == find_seg(dir, id),
{
    let upd = dir.update(i, s2);
    assert forall|a: int, b: int| 0 <= a < b < upd.len() implies (#[trigger] upd[a]).id < (
    #[trigger] upd[b]).id by {
        assert(upd[a].id == dir[a].id && upd[b].id == dir[b].id);
    }
    if id == s2.id {
        lemma_find_seg_at(upd, i);
    } else {
        lemma_find_seg_frame(dir, upd, id);
    }
}

/// Appending a segment with a fresh, larger id leaves all other
/// lookups alone and makes the new segment findable.
pub proof fn lemma_find_seg_push(dir: Seq<SegView>, x: SegView, id: u64)
    requires
        ids_ascending(dir),
        forall|i: int| 0 <= i < dir.len() ==> (#[trigger] dir[i]).id < x.id,
    ensures
        id == x.id ==> find_seg(dir.push(x), id) == Some(x),
        id != x.id ==> find_seg(dir.push(x), id) == find_seg(dir, id),
{
    let p = dir.push(x);
    assert forall|a: int, b: int| 0 <= a < b < p.len() implies (#[trigger] p[a]).id < (
    #[trigger] p[b]).id by {
        if b == p.len() - 1 {
            assert(p[a] == dir[a]);
        } else {
            assert(p[a] == dir[a] && p[b] == dir[b]);
        }
    }
    if id == x.id {
        lemma_find_seg_at(p, p.len() - 1);
    } else {
        lemma_find_seg_frame(dir, p, id);
    }
}

/// Two directories whose segments carry `id` in the same positions
/// with the same content agree on the lookup of `id`.
pub proof fn lemma_find_seg_frame(dir1: Seq<SegView>, dir2: Seq<SegView>, id: u64)
    requires
        dir1.len() <= dir2.len(),
        forall|i: int|
            0 <= i < dir1.len() ==> ((#[trigger] dir1[i]).id == id <==> (#[trigger] dir2[i]).id
                == id),
        forall|i: int| 0 <= i < dir1.len() && (#[trigger] dir1[i]).id == id ==> dir1[i] == dir2[i],
        forall|i: int| dir1.len() <= i < dir2.len() ==> (#[trigger] dir2[i]).id != id,
    ensures
        find_seg(dir1, id) == find_seg(dir2, id),
    decreases dir2.len(),
{
    if dir1.len() == 0 {
        lemma_find_seg(dir2, id);
        if has_seg(dir2, id) {
            let i = choose|i: int| 0 <= i < dir2.len() && (#[trigger] dir2[i]).id == id;
        }
    } else {
        assert(dir1[0].id == id <==> dir2[0].id == id);
        if dir1[0].id == id {
        } else {
            assert forall|i: int| 0 <= i < dir1.drop_first().len() implies ((
            #[trigger] dir1.drop_first()[i]).id == id <==> dir2.drop_first()[i].id == id) by {
                assert(dir1.drop_first()[i] == dir1[i + 1]);
                assert(dir2.drop_first()[i] == dir2[i + 1]);
            }
            assert forall|i: int|
                0 <= i < dir1.drop_first().len() && (#[trigger] dir1.drop_first()[i]).id
                    == id implies dir1.drop_first()[i] == dir2.drop_first()[i] by {
                assert(dir1.drop_first()[i] == dir1[i + 1]);
                assert(dir2.drop_first()[i] == dir2[i + 1]);
            }
            assert forall|i: int|
                dir1.drop_first().len() <= i < dir2.drop_first().len() implies (
            #[trigger] dir2.drop_first()[i]).id != id by {
                assert(dir2.drop_first()[i] == dir2[i + 1]);
            }
            lemma_find_seg_frame(dir1.drop_first(), dir2.drop_first(), id);
        }
    }
}

/// What a lookup of key `k` observes.
pub ghost enum ReadResult {
    /// The key is absent, or its locator points past the segment.
    Absent,
    /// The value bytes of the record the locator points at.
    Value(Seq<u8>),
    /// The locator points at a truncated record, or at no segment.
    Corrupt,
}

/// The outcome `get` is specified to produce on view `v` and key `k`.
pub open spec fn spec_get(v: StoreView, k: Seq<u8>) -> ReadResult {
    if !v.kd_map().contains_key(k) {
        ReadResult::Absent
    } else {
        let e = v.kd_map()[k];
        match find_seg(v.dir, e.file_id) {
            Option::None => ReadResult::Corrupt,
            Option::Some(s) => match parse_record_at(s.data, e.offset as int) {
                ParseStep::End => ReadResult::Absent,
                ParseStep::Corrupt => ReadResult::Corrupt,
                ParseStep::Rec(r) => ReadResult::Value(r.value),
            },
        }
    }
}

/// The key's locator points at a whole record whose recorded size is
/// the locator's size.
pub open spec fn entry_sound(v: StoreView, k: Seq<u8>) -> bool {
    v.kd_map().contains_key(k) && {
        let e = v.kd_map()[k];
        match find_seg(v.dir, e.file_id) {
            Option::None => false,
            Option::Some(s) => parse_record_at(s.data, e.offset as int) matches ParseStep::Rec(r)
                && r.size() == e.size,
        }
    }
}

/// A key rejected by the configured bound, or too long for the
/// header's 32-bit size field.
pub open spec fn key_too_large(opts: StoreOptions, k: Seq<u8>) -> bool {
    k.len() > opts.max_key_size || k.len() > u32::MAX
}

/// A value rejected by the configured bound, or too long for the
/// header's 32-bit size field.
pub open spec fn value_too_large(opts: StoreOptions, val: Seq<u8>) -> bool {
    val.len() > opts.max_value_size || val.len() > u32::MAX
}

/// Whether the next append must first rotate to a fresh segment.
pub open spec fn needs_rotation(v: StoreView) -> bool {
    v.active().data.len() > v.opts.max_log_file_size
}

/// Whether no fresh segment id is left for a rotation.
pub open spec fn ids_exhausted(v: StoreView) -> bool {
    needs_rotation(v) && v.dir.last().id == u64::MAX
}

/// The key-directory entry one append of `(key, value)` at timestamp
/// `ts` produces on view `v0`.
pub open spec fn new_entry(v0: StoreView, ts: u32, key: Seq<u8>, value: Seq<u8>) -> KeydirEntry {
    if !needs_rotation(v0) {
        KeydirEntry {
            file_id: v0.active().id,
            offset: v0.active().data.len() as u64,
            size: (HEADER_SIZE + key.len() + value.len()) as u64,
            timestamp: ts,
        }
    } else {
        KeydirEntry {
            file_id: (v0.dir.last().id + 1) as u64,
            offset: 0,
            size: (HEADER_SIZE + key.len() + value.len()) as u64,
            timestamp: ts,
        }
    }
}

/// How one append of the record `(crc, ts, key, value)` relates the
/// view before (`v0`) to the view after (`v1`): either the bytes are
/// appended to the active segment, or — when the active segment is
/// over the rotation threshold — a fresh segment with the next id is
/// created and receives them.
pub open spec fn wrote_record(
    v0: StoreView,
    v1: StoreView,
    crc: u32,
    ts: u32,
    key: Seq<u8>,
    value: Seq<u8>,
) -> bool {
    let rb = spec_record_bytes(crc, ts, key, value);
    if !needs_rotation(v0) {
        &&& v1.active_idx == v0.active_idx
        &&& v1.dir =~= v0.dir.update(
            v0.active_idx,
            SegView { id: v0.active().id, data: v0.active().data + rb, hint: v0.active().hint },
        )
    } else {
        &&& v1.active_idx == v0.dir.len()
        &&& v1.dir =~= v0.dir.push(
            SegView { id: (v0.dir.last().id + 1) as u64, data: rb, hint: None },
        )
    }
}

/// The spec-level images of a directory's segments.
pub open spec fn seg_views(files: Seq<SegmentFile>) -> Seq<SegView> {
    files.map_values(|s: SegmentFile| s@)
}

/// The id the fresh active segment receives on open: one past the
/// largest existing id, or 1 in an empty directory.
pub open spec fn spec_next_id(dir: Seq<SegView>) -> u64 {
    if dir.len() == 0 {
        1
    } else {
        (dir.last().id + 1) as u64
    }
}

/// One data-record replay step: a tombstone deletes its key, any other
/// record becomes a locator offered to the key directory under the
/// timestamp rule.
pub open spec fn data_step(
    m: Map<Seq<u8>, KeydirEntry>,
    fid: u64,
    off: int,
    r: RecordV,
) -> Map<Seq<u8>, KeydirEntry> {
    if r.value == spec_tombstone() {
        m.remove(r.key)
    } else {
        spec_kd_put(
            m,
            r.key,
            KeydirEntry {
                file_id: fid,
                offset: off as u64,
                size: r.size() as u64,
                timestamp: r.timestamp,
            },
        )
    }
}

/// Replay of the data records of segment `fid` from offset `off` on.
/// `None` means a truncated record was met.
pub open spec fn replay_data_from(
    m: Map<Seq<u8>, KeydirEntry>,
    fid: u64,
    s: Seq<u8>,
    off: int,
) -> Option<Map<Seq<u8>, KeydirEntry>>
    decreases s.len() - off,
{
    match parse_record_at(s, off) {
        ParseStep::End => Some(m),
        ParseStep::Corrupt => None,
        ParseStep::Rec(r) => replay_data_from(data_step(m, fid, off, r), fid, s, off + r.size()),
    }
}

/// One hint-record replay step: the recorded locator is offered to the
/// key directory with the sentinel timestamp 0, so that any later
/// data-derived entry supersedes it.
pub open spec fn hint_step(
    m: Map<Seq<u8>, KeydirEntry>,
    fid: u64,
    hr: HintRecV,
) -> Map<Seq<u8>, KeydirEntry> {
    spec_kd_put(
        m,
        hr.key,
        KeydirEntry {
            file_id: fid,
            offset: hr.offset,
            size: hr.data_size() as u64,
            timestamp: 0,
        },
    )
}

/// Replay of the hint records of segment `fid` from offset `off` on.
pub open spec fn replay_hint_from(
    m: Map<Seq<u8>, KeydirEntry>,
    fid: u64,
    s: Seq<u8>,
    off: int,
) -> Option<Map<Seq<u8>, KeydirEntry>>
    decreases s.len() - off,
{
    match parse_hint_at(s, off) {
        HintStep::End => Some(m),
        HintStep::Corrupt => None,
        HintStep::Rec(hr) => replay_hint_from(hint_step(m, fid, hr), fid, s, off + hr.self_size()),
    }
}

/// Replay of one segment: its hint file when one exists, else its data
/// records.
pub open spec fn replay_seg(
    m: Map<Seq<u8>, KeydirEntry>,
    seg: SegView,
) -> Option<Map<Seq<u8>, KeydirEntry>> {
    match seg.hint {
        Option::Some(h) => replay_hint_from(m, seg.id, h, 0),
        Option::None => replay_data_from(m, seg.id, seg.data, 0),
    }
}

/// Replay of the segments from position `i` on, in directory order.
pub open spec fn replay_from(
    m: Map<Seq<u8>, KeydirEntry>,
    dir: Seq<SegView>,
    i: int,
) -> Option<Map<Seq<u8>, KeydirEntry>>
    decreases dir.len() - i,
{
    if i < 0 || i >= dir.len() {
        Some(m)
    } else {
        match replay_seg(m, dir[i]) {
            Option::None => None,
            Option::Some(m2) => replay_from(m2, dir, i + 1),
        }
    }
}

/// The key directory a directory of segments denotes: all segments
/// replayed in ascending id order, starting from the empty mapping.
pub open spec fn spec_replay(dir: Seq<SegView>) -> Option<Map<Seq<u8>, KeydirEntry>> {
    replay_from(Map::empty(), dir, 0)
}

/// The disk storage engine: the directory lock's holder, the segment
/// table, the active segment, the key directory and the configured
/// limits.
#[derive(Debug)]
pub struct DiskStorage {
    /// All segments, ascending by id.
    pub segments: Vec<SegmentFile>,
    /// Index of the active (appendable) segment.
    pub active_idx: usize,
    /// The in-memory index of live keys.
    pub keydir: HashmapKeydir,
    /// The configured limits.
    pub opts: StoreOptions,
    /// An upper bound of every timestamp written or replayed so far.
    pub ts_floor: u32,
}

impl View for DiskStorage {
    type V = StoreView;

    open spec fn view(&self) -> StoreView {
        StoreView {
            dir: self.segments@.map_values(|s: SegmentFile| s@),
            active_idx: self.active_idx as int,
            kd: self.keydir.entries(),
            opts: self.opts,
            ts_floor: self.ts_floor,
        }
    }
}

impl DiskStorage {
    /// Internal consistency of the engine: ascending segment ids, a
    /// valid active segment without a hint, a key directory with
    /// distinct keys whose entries point at existing segments, carry
    /// sizes their keys fit into, and timestamps below the floor.
    pub open spec fn wf(&self) -> bool {
        let v = self@;
        &&& ids_ascending(v.dir)
        &&& 0 <= v.active_idx < v.dir.len()
        &&& v.active().hint is None
        &&& keys_ok(v)
        &&& v.ts_floor >= 1
    }

    /// The configured limits.
    pub open spec fn spec_opts(&self) -> StoreOptions {
        self.opts
    }

    /// The configured limits.
    pub fn options(&self) -> (r: StoreOptions)
        ensures
            r == self@.opts,
    {
        self.opts
    }

    /// Finds the position of the segment with id `id`.
    fn find_segment(&self, id: u64) -> (r: usize)
        requires
            has_seg(self@.dir, id),
        ensures
            r < self@.dir.len(),
            self@.dir[r as int].id == id,
    {
        let n = self.segments.len();
        let mut i: usize = 0;
        while i < n
            invariant
                n == self@.dir.len(),
                i <= n,
                has_seg(self@.dir, id),
                forall|j: int| 0 <= j < i ==> (#[trigger] self@.dir[j]).id != id,
            decreases n - i,
        {
            if self.segments[i].id == id {
                return i;
            }
            i = i + 1;
        }
        proof {
            let j = choose|j: int| 0 <= j < self@.dir.len() && (#[trigger] self@.dir[j]).id == id;
            assert(false);
        }
        0
    }

    /// Appends one record to the active segment and returns the offset
    /// at which it begins.
    fn append_to_active(&mut self, timestamp: u32, key: &[u8], value: &[u8]) -> (off: u64)
        requires
            old(self).wf(),
            key@.len() <= u32::MAX,
            value@.len() <= u32::MAX,
        ensures
            off == old(self)@.active().data.len(),
            final(self)@.dir =~= old(self)@.dir.update(
                old(self)@.active_idx,
                SegView {
                    id: old(self)@.active().id,
                    data: old(self)@.active().data + spec_record_bytes(
                        0,
                        timestamp,
                        key@,
                        value@,
                    ),
                    hint: old(self)@.active().hint,
                },
            ),
            final(self)@.active_idx == old(self)@.active_idx,
            final(self)@.kd == old(self)@.kd,
            final(self)@.opts == old(self)@.opts,
            final(self)@.ts_floor == old(self)@.ts_floor,
    {
        let ghost v0 = self@;
        let i = self.active_idx;
        let mut seg = self.segments.remove(i);
        let off = seg.data.len() as u64;
        append_record(&mut seg.data, 0, timestamp, key, value);
        self.segments.insert(i, seg);
        proof {
            assert(final(self)@.dir =~= v0.dir.update(
                v0.active_idx,
                SegView {
                    id: v0.active().id,
                    data: v0.active().data + spec_record_bytes(0, timestamp, key@, value@),
                    hint: v0.active().hint,
                },
            ));
        }
        off
    }

    /// Appends one record for `(key, value)`, rotating to a fresh
    /// segment first when the active one is over the threshold, and
    /// returns the segment id, offset and timestamp of the new record.
    fn write_record(&mut self, key: &[u8], value: &[u8]) -> (r: Result<(u64, u64, u32), StoreError>)
        requires
            old(self).wf(),
            key@.len() <= u32::MAX,
            value@.len() <= u32::MAX,
        ensures
            final(self).wf(),
            final(self)@.kd == old(self)@.kd,
            final(self)@.opts == old(self)@.opts,
            (r is Err <==> ids_exhausted(old(self)@)),
            (r matches Err(StoreError::Custom(_)) <==> ids_exhausted(old(self)@)),
            r is Err ==> *final(self) == *old(self),
            r matches Ok(t) ==> {
                let v0 = old(self)@;
                let v1 = final(self)@;
                &&& t.2 == v1.ts_floor
                &&& t.2 >= v0.ts_floor
                &&& t.2 >= 1
                &&& wrote_record(v0, v1, 0, t.2, key@, value@)
                &&& (KeydirEntry {
                    file_id: t.0,
                    offset: t.1,
                    size: (HEADER_SIZE + key@.len() + value@.len()) as u64,
                    timestamp: t.2,
                }) == new_entry(v0, t.2, key@, value@)
                &&& t.0 == v1.active().id
            },
    {
        let ghost v0 = self@;
        let active_len = self.segments[self.active_idx].data.len() as u64;
        if active_len > self.opts.max_log_file_size {
            let last = self.segments.len() - 1;
            let last_id = self.segments[last].id;
            if last_id == u64::MAX {
                return Err(StoreError::Custom(String::from_str("segment id space exhausted")));
            }
            let new_id = last_id + 1;
            self.segments.push(SegmentFile { id: new_id, data: Vec::new(), hint: None });
            self.active_idx = self.segments.len() - 1;
            proof {
                let v = self@;
                assert(v.dir =~= v0.dir.push(SegView { id: new_id, data: Seq::empty(), hint: None }));
                assert forall|i: int| 0 <= i < v0.dir.len() implies (#[trigger] v0.dir[i]).id
                    < new_id by {
                    if i < v0.dir.len() - 1 {
                        assert(v0.dir[i].id < v0.dir[v0.dir.len() - 1].id);
                    }
                }
                assert forall|a: int, b: int| 0 <= a < b < v.dir.len() implies (
                #[trigger] v.dir[a]).id < (#[trigger] v.dir[b]).id by {
                    if b < v.dir.len() - 1 {
                        assert(v.dir[a] == v0.dir[a] && v.dir[b] == v0.dir[b]);
                    } else {
                        assert(v.dir[a] == v0.dir[a]);
                    }
                }
                assert forall|k: Seq<u8>| #[trigger] v.kd_map().contains_key(k) implies has_seg(
                    v.dir,
                    v.kd_map()[k].file_id,
                ) by {
                    assert(v0.kd_map().contains_key(k));
                    let j = choose|j: int|
                        0 <= j < v0.dir.len() && (#[trigger] v0.dir[j]).id == v0.kd_map()[
                            k
                        ].file_id;
                    assert(v.dir[j] == v0.dir[j]);
                }
            }
        }
        let ghost v0r = self@;
        let mut ts = clock_secs();
        if ts < self.ts_floor {
            ts = self.ts_floor;
        } else {
            self.ts_floor = ts;
        }
        proof {
            assert(self.wf()) by {
                let v = self@;
                assert(v.dir == v0r.dir && v.kd == v0r.kd);
                assert forall|k: Seq<u8>| #[trigger] v.kd_map().contains_key(k) implies v.kd_map()[
                    k
                ].timestamp <= v.ts_floor by {
                    assert(v0r.kd_map().contains_key(k) && v0r.kd_map()[k].timestamp
                        <= v0r.ts_floor);
                }
            }
        }
        let ghost v1pre = self@;
        let off = self.append_to_active(ts, key, value);
        let fid = self.segments[self.active_idx].id;
        proof {
            let v1 = self@;
            assert(v1.active() == v1.dir[v1.active_idx]);
            assert forall|k: Seq<u8>| #[trigger] v1.kd_map().contains_key(k) implies has_seg(
                v1.dir,
                v1.kd_map()[k].file_id,
            ) by {
                assert(v1pre.kd_map().contains_key(k));
                let j = choose|j: int|
                    0 <= j < v1pre.dir.len() && (#[trigger] v1pre.dir[j]).id == v1pre.kd_map()[
                        k
                    ].file_id;
                assert(v1.dir[j].id == v1pre.dir[j].id);
            }
            assert forall|a: int, b: int| 0 <= a < b < self@.dir.len() implies (
            #[trigger] self@.dir[a]).id < (#[trigger] self@.dir[b]).id by {
                assert(self@.dir[a].id == v1pre.dir[a].id && self@.dir[b].id == v1pre.dir[b].id);
            }
            if !needs_rotation(v0) {
                assert(wrote_record(v0, self@, 0, ts, key@, value@));
            } else {
                assert(v1pre.dir =~= v0.dir.push(
                    SegView { id: (v0.dir.last().id + 1) as u64, data: Seq::empty(), hint: None },
                ));
                assert(self@.dir =~= v0.dir.push(
                    SegView {
                        id: (v0.dir.last().id + 1) as u64,
                        data: spec_record_bytes(0, ts, key@, value@),
                        hint: None,
                    },
                )) by {
                    assert(Seq::empty() + spec_record_bytes(0, ts, key@, value@)
                        =~= spec_record_bytes(0, ts, key@, value@));
                    assert(self@.dir =~= v1pre.dir.update(
                        v1pre.active_idx,
                        SegView {
                            id: v1pre.active().id,
                            data: v1pre.active().data + spec_record_bytes(0, ts, key@, value@),
                            hint: v1pre.active().hint,
                        },
                    ));
                }
            }
        }
        Ok((fid, off, ts))
    }

    /// Stores `value` under `key`.
    ///
    /// A key or value over its configured bound (or over the header's
    /// 32-bit size field) is rejected and the store is unchanged.
    /// Otherwise one data record is appended — to a freshly rotated
    /// segment when the active one is over the threshold — and the key
    /// directory maps the key to it: a later `get` of the key reads
    /// back exactly this value, and sound reads of every other key are
    /// unchanged.
    pub fn set(&mut self, key: Vec<u8>, value: Vec<u8>) -> (r: Result<(), StoreError>)
        requires
            old(self).wf(),
        ensures
            final(self).wf(),
            final(self)@.opts == old(self)@.opts,
            (r matches Err(StoreError::KeyIsTooLarge) <==> key_too_large(old(self)@.opts, key@)),
            (r matches Err(StoreError::ValueIsTooLarge) <==> !key_too_large(old(self)@.opts, key@)
                && value_too_large(old(self)@.opts, value@)),
            (r matches Err(StoreError::Custom(_)) <==> !key_too_large(old(self)@.opts, key@)
                && !value_too_large(old(self)@.opts, value@) && ids_exhausted(old(self)@)),
            r is Err ==> *final(self) == *old(self),
            (r is Ok <==> !key_too_large(old(self)@.opts, key@) && !value_too_large(
                old(self)@.opts,
                value@,
            ) && !ids_exhausted(old(self)@)),
            r is Ok ==> set_ok(old(self)@, final(self)@, key@, value@),
            (log_consistent(old(self)@) && value@ != spec_tombstone() && r is Ok)
                ==> log_consistent(final(self)@),
    {
        if key.len() as u64 > self.opts.max_key_size || key.len() as u64 > u32::MAX as u64 {
            return Err(StoreError::KeyIsTooLarge);
        }
        if value.len() as u64 > self.opts.max_value_size || value.len() as u64 > u32::MAX as u64 {
            return Err(StoreError::ValueIsTooLarge);
        }
        let ghost v0 = self@;
        let (fid, off, ts) = match self.write_record(key.as_slice(), value.as_slice()) {
            Ok(t) => t,
            Err(e) => {
                return Err(e);
            },
        };
        let size = HEADER_SIZE as u64 + key.len() as u64 + value.len() as u64;
        let entry = KeydirEntry::new(fid, off, size, ts);
        let ghost v1 = self@;
        proof {
            if v0.kd_map().contains_key(key@) {
                crate::keydir::lemma_kd_map_domain(v0.kd, key@);
                let i = choose|i: int| 0 <= i < v0.kd.len() && (#[trigger] v0.kd[i]).0 == key@;
                crate::keydir::lemma_kd_map_index(v0.kd, i);
            }
        }
        let _ = self.keydir.put(key, entry);
        proof {
            let v2 = self@;
            let rec = RecordV { crc: 0, timestamp: ts, key: key@, value: value@ };
            assert(v2.kd_map() =~= v0.kd_map().insert(key@, entry));
            // well-formedness of the key directory after the insert
            assert forall|k: Seq<u8>| #[trigger] v2.kd_map().contains_key(k) implies {
                let e = v2.kd_map()[k];
                &&& has_seg(v2.dir, e.file_id)
                &&& k.len() <= u32::MAX
                &&& HEADER_SIZE + k.len() <= e.size
                &&& e.size - HEADER_SIZE - k.len() <= u32::MAX
                &&& e.timestamp <= v2.ts_floor
            } by {
                lemma_find_seg_at(v1.dir, v1.active_idx);
                if k == key@ {
                    assert(v2.kd_map()[k] == entry);
                } else {
                    assert(v1.kd_map().contains_key(k) && v2.kd_map()[k] == v1.kd_map()[k]);
                }
            }
            // the fresh record reads back
            lemma_find_seg_at(v1.dir, v1.active_idx);
            let s1 = v1.active();
            assert(s1.data.subrange(entry.offset as int, entry.offset + rec.size())
                =~= spec_record_bytes(0, ts, key@, value@));
            crate::format::lemma_parse_record_bytes(s1.data, entry.offset as int, rec);
            assert(spec_get(v2, key@) == ReadResult::Value(value@));
            // sound reads of other keys are untouched
            assert forall|k: Seq<u8>| k != key@ && entry_sound(v0, k) implies #[trigger] spec_get(
                v2,
                k,
            ) == spec_get(v0, k) && entry_sound(v2, k) by {
                let e2 = v0.kd_map()[k];
                crate::keydir::lemma_kd_map_domain(v0.kd, k);
                let i = choose|i: int| 0 <= i < v0.kd.len() && (#[trigger] v0.kd[i]).0 == k;
                crate::keydir::lemma_kd_map_index(v0.kd, i);
                assert(v0.kd[i].1 == e2);
                assert(has_seg(v0.dir, e2.file_id));
                lemma_wrote_preserves_read(v0, v1, 0, ts, key@, value@, e2);
                assert(v2.kd_map()[k] == e2);
            }
            assert forall|k: Seq<u8>|
                k != key@ && !v0.kd_map().contains_key(k) implies #[trigger] spec_get(v2, k)
                    == ReadResult::Absent by {
                assert(!v2.kd_map().contains_key(k));
            }
            if log_consistent(v0) && value@ != spec_tombstone() {
                lemma_log_consistent_write(v0, v2, ts, key@, value@, entry);
            }
        }
        Ok(())
    }

    /// Deletes `key`.
    ///
    /// Deleting an absent key succeeds and changes nothing. Otherwise
    /// a tombstone record is appended — with the same rotation rule as
    /// `set` — and the key leaves the directory: a later `get` of the
    /// key reports it absent, and sound reads of every other key are
    /// unchanged.
    pub fn delete(&mut self, key: &[u8]) -> (r: Result<(), StoreError>)
        requires
            old(self).wf(),
        ensures
            final(self).wf(),
            final(self)@.opts == old(self)@.opts,
            !old(self)@.kd_map().contains_key(key@) ==> r is Ok && *final(self) == *old(self),
            old(self)@.kd_map().contains_key(key@) ==> {
                let v0 = old(self)@;
                let v1 = final(self)@;
                &&& (r is Err <==> ids_exhausted(v0))
                &&& (r is Err ==> (r matches Err(StoreError::Custom(_))) && *final(self) == *old(
                    self,
                ))
                &&& (r is Ok ==> delete_ok(v0, v1, key@))
            },
            (log_consistent(old(self)@) && r is Ok) ==> log_consistent(final(self)@),
    {
        if !self.keydir.contains_key(key) {
            return Ok(());
        }
        let ghost v0 = self@;
        let tomb = remove_tombstone();
        match self.write_record(key, tomb.as_slice()) {
            Ok(_) => {},
            Err(e) => {
                return Err(e);
            },
        }
        let ghost v1 = self@;
        self.keydir.remove(key);
        proof {
            let v2 = self@;
            assert(v2.kd_map() =~= v0.kd_map().remove(key@));
            assert forall|k: Seq<u8>| #[trigger] v2.kd_map().contains_key(k) implies {
                let e = v2.kd_map()[k];
                &&& has_seg(v2.dir, e.file_id)
                &&& k.len() <= u32::MAX
                &&& HEADER_SIZE + k.len() <= e.size
                &&& e.size - HEADER_SIZE - k.len() <= u32::MAX
                &&& e.timestamp <= v2.ts_floor
            } by {
                assert(v1.kd_map().contains_key(k) && v2.kd_map()[k] == v1.kd_map()[k]);
            }
            assert forall|k: Seq<u8>| k != key@ && entry_sound(v0, k) implies #[trigger] spec_get(
                v2,
                k,
            ) == spec_get(v0, k) && entry_sound(v2, k) by {
                let e2 = v0.kd_map()[k];
                lemma_wrote_preserves_read(v0, v1, 0, v1.ts_floor, key@, spec_tombstone(), e2);
                assert(v2.kd_map()[k] == e2);
            }
            if log_consistent(v0) {
                lemma_log_consistent_erase(v0, v2, v1.ts_floor, key@);
            }
        }
        Ok(())
    }

    /// Rewrites every live record into fresh, dense segments and
    /// removes the originals.
    ///
    /// With `f` the largest existing id, the active segment rotates to
    /// `f + 1`, outputs are written from `f + 2` on — rolling to the
    /// next id whenever one exceeds the rotation threshold — with a
    /// hint file beside each, and every segment with id at most `f` is
    /// dropped. Each key's locator keeps its size and timestamp and
    /// points at a byte-identical copy of its record, so every sound
    /// read returns what it returned before. Compaction refuses to
    /// start — leaving the store unchanged — when some locator's span
    /// lies outside its segment or the id space is too tight.
    pub fn compact(&mut self) -> (r: Result<(), StoreError>)
        requires
            old(self).wf(),
        ensures
            final(self).wf(),
            final(self)@.opts == old(self)@.opts,
            final(self)@.ts_floor == old(self)@.ts_floor,
            (r is Err <==> !compact_possible(old(self)@)),
            r is Err ==> (r matches Err(StoreError::Custom(_))) && *final(self) == *old(self),
            r is Ok ==> compacted(old(self)@, final(self)@),
            r is Ok ==> spec_replay(final(self)@.dir) == Some(hinted_map(final(self)@.kd)),
    {
        let ghost v0 = self@;
        let num = self.keydir.num_entries();
        if num as u64 > u64::MAX - 3 {
            return Err(StoreError::Custom(String::from_str("segment id space exhausted")));
        }
        let n0 = self.segments.len();
        let f = self.segments[n0 - 1].id;
        if f > u64::MAX - 3 - num as u64 {
            return Err(StoreError::Custom(String::from_str("segment id space exhausted")));
        }
        // every locator must point at a span within its segment
        let mut j: usize = 0;
        while j < num
            invariant
                self.wf(),
                self@ == v0,
                *self == *old(self),
                j <= num,
                num == v0.kd.len(),
                forall|i: int|
                    0 <= i < j ==> {
                        let e0 = (#[trigger] v0.kd[i]).1;
                        &&& find_seg(v0.dir, e0.file_id) is Some
                        &&& e0.offset + e0.size <= find_seg(v0.dir, e0.file_id)->0.data.len()
                    },
            decreases num - j,
        {
            let e = self.keydir.entry_at(j);
            proof {
                crate::keydir::lemma_kd_map_index(v0.kd, j as int);
                assert(v0.kd_map().contains_key(v0.kd[j as int].0));
                assert(has_seg(v0.dir, e.file_id));
            }
            let idx = self.find_segment(e.file_id);
            proof {
                lemma_find_seg_at(v0.dir, idx as int);
            }
            let slen = self.segments[idx].data.len() as u64;
            if e.offset > slen || e.size > slen - e.offset {
                proof {
                    assert(!entry_in_range(v0, v0.kd[j as int].0));
                }
                return Err(
                    StoreError::Custom(String::from_str("record span outside its segment")),
                );
            }
            j = j + 1;
        }
        proof {
            assert forall|k: Seq<u8>| #[trigger] v0.kd_map().contains_key(k) implies entry_in_range(
                v0,
                k,
            ) by {
                crate::keydir::lemma_kd_map_domain(v0.kd, k);
                let i = choose|i: int| 0 <= i < v0.kd.len() && (#[trigger] v0.kd[i]).0 == k;
                crate::keydir::lemma_kd_map_index(v0.kd, i);
            }
            assert(compact_possible(v0));
        }
        // rotate: a fresh, empty active segment with id f + 1
        self.segments.push(SegmentFile { id: f + 1, data: Vec::new(), hint: None });
        self.active_idx = self.segments.len() - 1;
        proof {
            assert(self@.dir =~= v0.dir.push(
                SegView { id: (f + 1) as u64, data: Seq::empty(), hint: None },
            ));
            assert forall|i: int| 0 <= i < v0.dir.len() implies (#[trigger] v0.dir[i]).id
                <= f by {
                if i < v0.dir.len() - 1 {
                    assert(v0.dir[i].id < v0.dir[v0.dir.len() - 1].id);
                }
            }
        }
        // copy all live records into compaction outputs from f + 2 on
        let mut out_id: u64 = f + 2;
        let mut out_data: Vec<u8> = Vec::new();
        let mut out_hint: Vec<u8> = Vec::new();
        proof {
            let active = SegView { id: (f + 1) as u64, data: Seq::<u8>::empty(), hint: None };
            let buf = SegView { id: (f + 2) as u64, data: Seq::empty(), hint: Some(Seq::empty()) };
            let cons = self@.dir.subrange(n0 as int, self@.dir.len() as int).push(buf);
            assert(self@.dir.subrange(n0 as int, self@.dir.len() as int) =~= seq![active]);
            assert(cons =~= seq![active, buf]);
            assert(cons[0] == active && cons[1] == buf);
            assert(parse_record_at(Seq::<u8>::empty(), 0) is End);
            assert(parse_hint_at(Seq::<u8>::empty(), 0) is End);
            assert(replay_seg(Map::empty(), active) == Some(Map::<Seq<u8>, KeydirEntry>::empty()));
            assert(replay_seg(Map::empty(), buf) == Some(Map::<Seq<u8>, KeydirEntry>::empty()));
            assert(replay_from(Map::empty(), cons, 2) == Some(Map::<Seq<u8>, KeydirEntry>::empty()));
            assert(replay_from(Map::empty(), cons, 1) == Some(Map::<Seq<u8>, KeydirEntry>::empty()));
            assert(replay_from(Map::empty(), cons, 0) == Some(Map::<Seq<u8>, KeydirEntry>::empty()));
            assert(hinted_pairs(self@.kd, 0) =~= Seq::<(Seq<u8>, KeydirEntry)>::empty());
            assert(kd_map(hinted_pairs(self@.kd, 0)) =~= Map::<Seq<u8>, KeydirEntry>::empty());
            assert(hint_end(Seq::<u8>::empty(), 0) == Some(0int));
        }
        let mut j: usize = 0;
        while j < num
            invariant
                j <= num,
                n0 == v0.dir.len(),
                1 <= n0,
                f == v0.dir.last().id,
                ids_ascending(v0.dir),
                keys_ok(v0),
                crate::keydir::keys_unique(v0.kd),
                num == v0.kd.len(),
                num + 3 <= u64::MAX,
                f + 3 + num <= u64::MAX,
                forall|i: int|
                    0 <= i < num ==> {
                        let e0 = (#[trigger] v0.kd[i]).1;
                        &&& find_seg(v0.dir, e0.file_id) is Some
                        &&& e0.offset + e0.size <= find_seg(v0.dir, e0.file_id)->0.data.len()
                    },
                forall|i: int| 0 <= i < v0.dir.len() ==> (#[trigger] v0.dir[i]).id <= f,
                // directory layout during the copy
                self@.dir.len() == n0 + 1 + (out_id - (f + 2)),
                forall|p: int| 0 <= p < n0 ==> #[trigger] self@.dir[p] == v0.dir[p],
                self@.dir[n0 as int] == (SegView {
                    id: (f + 1) as u64,
                    data: Seq::<u8>::empty(),
                    hint: None,
                }),
                forall|p: int|
                    n0 < p < self@.dir.len() ==> (#[trigger] self@.dir[p]).id == f + 2 + (p - n0
                        - 1) && self@.dir[p].hint is Some,
                ids_ascending(self@.dir),
                self@.active_idx == n0,
                f + 2 <= out_id <= f + 2 + j,
                // the key directory during the copy
                self.keydir.wf(),
                self@.kd.len() == num,
                forall|i: int| 0 <= i < num ==> (#[trigger] self@.kd[i]).0 == v0.kd[i].0,
                forall|i: int| j <= i < num ==> (#[trigger] self@.kd[i]).1 == v0.kd[i].1,
                forall|i: int|
                    0 <= i < j ==> #[trigger] copied_ok(v0, self@, i, n0 as int, f, out_id, out_data@),
                self@.opts == v0.opts,
                self@.ts_floor == v0.ts_floor,
                hint_end(out_hint@, 0) == Some(out_hint@.len() as int),
                replay_from(
                    Map::empty(),
                    self@.dir.subrange(n0 as int, self@.dir.len() as int).push(
                        SegView { id: out_id, data: out_data@, hint: Some(out_hint@) },
                    ),
                    0,
                ) == Some(kd_map(hinted_pairs(self@.kd, j as int))),
            decreases num - j,
        {
            let ghost pre = self@;
            // roll the output when it is over the rotation threshold
            if out_data.len() as u64 > self.opts.max_log_file_size {
                let mut fin_data: Vec<u8> = Vec::new();
                let mut fin_hint: Vec<u8> = Vec::new();
                core::mem::swap(&mut fin_data, &mut out_data);
                core::mem::swap(&mut fin_hint, &mut out_hint);
                let ghost sealed = fin_data@;
                self.segments.push(SegmentFile { id: out_id, data: fin_data, hint: Some(fin_hint) });
                proof {
                    assert(self@.dir =~= pre.dir.push(
                        SegView { id: out_id, data: sealed, hint: Some(fin_hint@) },
                    ));
                    assert forall|a: int, b: int| 0 <= a < b < self@.dir.len() implies (
                    #[trigger] self@.dir[a]).id < (#[trigger] self@.dir[b]).id by {
                        if b < self@.dir.len() - 1 {
                            assert(self@.dir[a] == pre.dir[a] && self@.dir[b] == pre.dir[b]);
                        } else {
                            assert(self@.dir[a] == pre.dir[a]);
                            if a < n0 {
                                assert(pre.dir[a].id <= f);
                            }
                        }
                    }
                    assert forall|i: int| 0 <= i < j implies #[trigger] copied_ok(
                        v0,
                        self@,
                        i,
                        n0 as int,
                        f,
                        (out_id + 1) as u64,
                        out_data@,
                    ) by {
                        assert(copied_ok(v0, pre, i, n0 as int, f, out_id, sealed));
                        let e1 = self@.kd[i].1;
                        if e1.file_id == out_id {
                            let p = n0 + 1 + (e1.file_id - (f + 2));
                            assert(self@.dir[p as int].data == sealed);
                        } else {
                            let p = n0 + 1 + (e1.file_id - (f + 2));
                            assert(self@.dir[p as int] == pre.dir[p as int]);
                        }
                    }
                    // the sealed output keeps its place in the hint replay
                    let old_buf = SegView { id: out_id, data: sealed, hint: Some(fin_hint@) };
                    let cons = pre.dir.subrange(n0 as int, pre.dir.len() as int).push(old_buf);
                    let fresh_buf = SegView {
                        id: (out_id + 1) as u64,
                        data: Seq::empty(),
                        hint: Some(Seq::empty()),
                    };
                    let cons2 = self@.dir.subrange(n0 as int, self@.dir.len() as int).push(
                        fresh_buf,
                    );
                    assert(cons2 =~= cons.push(fresh_buf));
                    lemma_replay_push(Map::empty(), cons, fresh_buf, 0);
                    match replay_from(Map::empty(), cons, 0) {
                        Option::Some(mm) => {
                            assert(parse_hint_at(Seq::<u8>::empty(), 0) is End);
                            assert(replay_seg(mm, fresh_buf) == Some(mm));
                        },
                        Option::None => {
                            assert(false);
                        },
                    }
                    assert(hint_end(Seq::<u8>::empty(), 0) == Some(0int));
                    assert(replay_from(Map::empty(), cons2, 0) == Some(
                        kd_map(hinted_pairs(self@.kd, j as int)),
                    ));
                }
                out_id = out_id + 1;
            }
            let ghost cur = self@;
            let ghost odata0 = out_data@;
            let ghost ohint0 = out_hint@;
            let e = self.keydir.entry_at(j);
            proof {
                crate::keydir::lemma_kd_map_index(v0.kd, j as int);
                assert(e == v0.kd[j as int].1);
                lemma_find_seg(v0.dir, e.file_id);
                let p = choose|p: int|
                    0 <= p < v0.dir.len() && #[trigger] v0.dir[p] == find_seg(
                        v0.dir,
                        e.file_id,
                    )->0 && find_seg(v0.dir, e.file_id)->0.id == e.file_id;
                assert(self@.dir[p] == v0.dir[p]);
                assert(has_seg(self@.dir, e.file_id));
            }
            let src_idx = self.find_segment(e.file_id);
            proof {
                lemma_find_seg_at(v0.dir, src_idx as int);
                assert(src_idx < n0) by {
                    if src_idx >= n0 {
                        assert(self@.dir[src_idx as int].id > f);
                        assert(v0.kd[j as int].1.file_id <= f) by {
                            crate::keydir::lemma_kd_map_domain(v0.kd, v0.kd[j as int].0);
                            let q = choose|q: int|
                                0 <= q < v0.dir.len() && (#[trigger] v0.dir[q]).id == e.file_id;
                        }
                    }
                }
                assert(self@.dir[src_idx as int] == v0.dir[src_idx as int]);
                assert(find_seg(v0.dir, e.file_id) == Some(v0.dir[src_idx as int]));
            }
            let dst_off = out_data.len() as u64;
            let slen = self.segments[src_idx].data.len();
            proof {
                assert(e.offset + e.size <= slen);
            }
            let src_lo = e.offset as usize;
            let src_hi = (e.offset + e.size) as usize;
            append_slice(&mut out_data, self.segments[src_idx].data.as_slice(), src_lo, src_hi);
            let key = self.keydir.key_at(j);
            proof {
                assert(key@ == v0.kd[j as int].0);
                assert(v0.kd_map().contains_key(key@)) by {
                    crate::keydir::lemma_kd_map_index(v0.kd, j as int);
                }
            }
            let ksz = key.len() as u32;
            let vsz = (e.size - HEADER_SIZE as u64 - ksz as u64) as u32;
            append_hint(&mut out_hint, dst_off, ksz, vsz, key.as_slice());
            self.keydir.set_entry_at(j, KeydirEntry::new(out_id, dst_off, e.size, e.timestamp));
            proof {
                let now = self@;
                assert(now.dir == cur.dir);
                assert forall|i: int| 0 <= i < j + 1 implies #[trigger] copied_ok(
                    v0,
                    now,
                    i,
                    n0 as int,
                    f,
                    out_id,
                    out_data@,
                ) by {
                    if i < j {
                        assert(copied_ok(v0, cur, i, n0 as int, f, out_id, odata0));
                        assert(now.kd[i].1 == cur.kd[i].1);
                        let e1 = now.kd[i].1;
                        if e1.file_id == out_id {
                            assert(out_data@.subrange(e1.offset as int, e1.offset + e1.size)
                                =~= odata0.subrange(e1.offset as int, e1.offset + e1.size));
                        }
                    } else {
                        let e1 = now.kd[i].1;
                        assert(e1 == (KeydirEntry {
                            file_id: out_id,
                            offset: dst_off,
                            size: e.size,
                            timestamp: e.timestamp,
                        }));
                        assert(out_data@.subrange(dst_off as int, dst_off + e.size) =~= v0.dir[
                            src_idx as int
                        ].data.subrange(e.offset as int, e.offset + e.size));
                        assert(source_span(v0, i) == v0.dir[src_idx as int].data.subrange(
                            e.offset as int,
                            e.offset + e.size,
                        ));
                    }
                }
                // the hint replay gains exactly this entry
                let kv = v0.kd[j as int].0;
                let hr = HintRecV {
                    offset: dst_off,
                    key_sz: kv.len() as u32,
                    value_sz: (e.size - HEADER_SIZE - kv.len()) as u32,
                    key: kv,
                };
                let e1 = KeydirEntry {
                    file_id: out_id,
                    offset: dst_off,
                    size: e.size,
                    timestamp: e.timestamp,
                };
                let mm = kd_map(hinted_pairs(cur.kd, j as int));
                let buf0 = SegView { id: out_id, data: odata0, hint: Some(ohint0) };
                let buf1 = SegView { id: out_id, data: out_data@, hint: Some(out_hint@) };
                let base = cur.dir.subrange(n0 as int, cur.dir.len() as int);
                let cons0 = base.push(buf0);
                let cons1 = now.dir.subrange(n0 as int, now.dir.len() as int).push(buf1);
                assert(replay_from(Map::empty(), cons0, 0) == Some(mm));
                assert(cons1 =~= cons0.update(cons0.len() - 1, buf1));
                lemma_replay_update_last(Map::empty(), cons0, buf1, 0);
                lemma_replay_update_last(Map::empty(), cons0, buf0, 0);
                assert(cons0.update(cons0.len() - 1, buf0) =~= cons0);
                match replay_from(Map::empty(), cons0.drop_last(), 0) {
                    Option::Some(mp) => {
                        assert(replay_seg(mp, buf0) == replay_hint_from(mp, out_id, ohint0, 0));
                        assert(replay_hint_from(mp, out_id, ohint0, 0) == Some(mm));
                        lemma_replay_hint_append(mp, out_id, ohint0, 0, hr);
                        assert(out_hint@ =~= ohint0 + spec_hint_bytes(
                            hr.offset,
                            hr.key_sz,
                            hr.value_sz,
                            hr.key,
                        ));
                        assert(replay_seg(mp, buf1) == Some(hint_step(mm, out_id, hr)));
                        // the written key is fresh among the hinted prefix
                        crate::keydir::lemma_kd_map_domain(hinted_pairs(cur.kd, j as int), kv);
                        if crate::keydir::has_key(hinted_pairs(cur.kd, j as int), kv) {
                            let q = choose|q: int|
                                0 <= q < hinted_pairs(cur.kd, j as int).len() && (
                                #[trigger] hinted_pairs(cur.kd, j as int)[q]).0 == kv;
                            assert(cur.kd[q].0 == v0.kd[q].0);
                            assert(false);
                        }
                        assert(hr.data_size() == e.size);
                        assert(hint_step(mm, out_id, hr) =~= mm.insert(kv, hinted(e1)));
                        assert(hinted_pairs(now.kd, j + 1) =~= hinted_pairs(
                            cur.kd,
                            j as int,
                        ).push((kv, hinted(e1))));
                        crate::keydir::lemma_kd_map_push(
                            hinted_pairs(cur.kd, j as int),
                            kv,
                            hinted(e1),
                        );
                        assert(kd_map(hinted_pairs(now.kd, j + 1)) =~= mm.insert(kv, hinted(e1)));
                        assert(replay_from(Map::empty(), cons1, 0) == Some(
                            kd_map(hinted_pairs(now.kd, j + 1)),
                        ));
                    },
                    Option::None => {
                        assert(false);
                    },
                }
            }
            j = j + 1;
        }
        // seal the final output and drop everything older than f + 1
        let ghost pre = self@;
        let ghost sealed = out_data@;
        let ghost fhint = out_hint@;
        self.segments.push(SegmentFile { id: out_id, data: out_data, hint: Some(out_hint) });
        proof {
            assert(self@.dir =~= pre.dir.push(
                SegView { id: out_id, data: sealed, hint: Some(fhint) },
            ));
        }
        let ghost whole = self@;
        let tail = self.segments.split_off(n0);
        self.segments = tail;
        self.active_idx = 0;
        proof {
            self.lemma_compact_post(v0, pre, whole, n0 as int, f, out_id, sealed, num as int);
            // the hint files of the remaining directory replay to the
            // key directory
            let buf = SegView { id: out_id, data: sealed, hint: Some(fhint) };
            let consf = pre.dir.subrange(n0 as int, pre.dir.len() as int).push(buf);
            assert(self@.dir =~= consf);
            assert(replay_from(Map::empty(), consf, 0) == Some(
                kd_map(hinted_pairs(pre.kd, num as int)),
            ));
            assert(hinted_pairs(self@.kd, self@.kd.len() as int) =~= hinted_pairs(
                pre.kd,
                num as int,
            ));
            assert(spec_replay(self@.dir) == Some(hinted_map(self@.kd)));
        }
        Ok(())
    }

    /// The bulk of `compact`'s postcondition, from the facts the copy
    /// loop establishes: `v0` is the view at entry, `pre` the view
    /// after the copy loop, `whole` the view with the final output
    /// sealed, and `self` the view with everything older than the
    /// rotated active segment dropped.
    proof fn lemma_compact_post(
        &self,
        v0: StoreView,
        pre: StoreView,
        whole: StoreView,
        n0: int,
        f: u64,
        out_id: u64,
        sealed: Seq<u8>,
        num: int,
    )
        requires
            ids_ascending(v0.dir),
            n0 == v0.dir.len(),
            1 <= n0,
            f == v0.dir.last().id,
            keys_ok(v0),
            v0.ts_floor >= 1,
            crate::keydir::keys_unique(v0.kd),
            num == v0.kd.len(),
            num + 3 <= u64::MAX,
            f + 3 + num <= u64::MAX,
            forall|i: int|
                0 <= i < num ==> {
                    let e0 = (#[trigger] v0.kd[i]).1;
                    &&& find_seg(v0.dir, e0.file_id) is Some
                    &&& e0.offset + e0.size <= find_seg(v0.dir, e0.file_id)->0.data.len()
                },
            pre.dir.len() == n0 + 1 + (out_id - (f + 2)),
            forall|p: int| 0 <= p < n0 ==> #[trigger] pre.dir[p] == v0.dir[p],
            pre.dir[n0] == (SegView { id: (f + 1) as u64, data: Seq::<u8>::empty(), hint: None }),
            forall|p: int|
                n0 < p < pre.dir.len() ==> (#[trigger] pre.dir[p]).id == f + 2 + (p - n0 - 1)
                    && pre.dir[p].hint is Some,
            f + 2 <= out_id <= f + 2 + num,
            crate::keydir::keys_unique(pre.kd),
            pre.kd.len() == num,
            forall|i: int| 0 <= i < num ==> (#[trigger] pre.kd[i]).0 == v0.kd[i].0,
            forall|i: int| 0 <= i < num ==> copied_ok(v0, pre, i, n0, f, out_id, sealed),
            whole.dir.len() == pre.dir.len() + 1,
            forall|p: int| 0 <= p < pre.dir.len() ==> #[trigger] whole.dir[p] == pre.dir[p],
            whole.dir.last().id == out_id,
            whole.dir.last().data == sealed,
            whole.dir.last().hint is Some,
            self@.dir =~= whole.dir.subrange(n0, whole.dir.len() as int),
            self@.active_idx == 0,
            self@.kd == pre.kd,
            self@.opts == v0.opts,
            self@.ts_floor == v0.ts_floor,
        ensures
            self.wf(),
            compacted(v0, self@),
    {
        let v1 = self@;
        let d = v1.dir;
        let dlen = d.len();
        assert(dlen == out_id - f);
        // every remaining segment carries id f + 1 + its position
        assert forall|q: int| 0 <= q < dlen implies (#[trigger] d[q]).id == f + 1 + q && (q >= 1
            ==> d[q].hint is Some) by {
            assert(d[q] == whole.dir[n0 + q]);
            if n0 + q < pre.dir.len() {
                assert(whole.dir[n0 + q] == pre.dir[n0 + q]);
            }
        }
        assert(d[0] == whole.dir[n0] && whole.dir[n0] == pre.dir[n0]);
        assert forall|a: int, b: int| 0 <= a < b < dlen implies (#[trigger] d[a]).id < (
        #[trigger] d[b]).id by {}
        // the key sets agree
        assert forall|k: Seq<u8>| #[trigger] v1.kd_map().contains_key(k) implies v0.kd_map(
        ).contains_key(k) by {
            crate::keydir::lemma_kd_map_domain(v1.kd, k);
            let i = choose|i: int| 0 <= i < v1.kd.len() && (#[trigger] v1.kd[i]).0 == k;
            crate::keydir::lemma_kd_map_index(v0.kd, i);
        }
        assert forall|k: Seq<u8>| #[trigger] v0.kd_map().contains_key(k) implies v1.kd_map(
        ).contains_key(k) by {
            crate::keydir::lemma_kd_map_domain(v0.kd, k);
            let i = choose|i: int| 0 <= i < v0.kd.len() && (#[trigger] v0.kd[i]).0 == k;
            crate::keydir::lemma_kd_map_index(v1.kd, i);
        }
        // each locator keeps its size and timestamp and points at a
        // byte-identical copy of its old span
        assert forall|k: Seq<u8>| #[trigger] v0.kd_map().contains_key(k) implies {
            let e0 = v0.kd_map()[k];
            let e1 = v1.kd_map()[k];
            &&& e1.size == e0.size
            &&& e1.timestamp == e0.timestamp
            &&& e1.file_id >= f + 2
            &&& entry_in_range(v1, k)
            &&& has_seg(v1.dir, e1.file_id)
            &&& find_seg(v1.dir, e1.file_id)->0.data.subrange(e1.offset as int, e1.offset
                + e1.size) =~= find_seg(v0.dir, e0.file_id)->0.data.subrange(
                e0.offset as int,
                e0.offset + e0.size,
            )
        } by {
            crate::keydir::lemma_kd_map_domain(v0.kd, k);
            let i = choose|i: int| 0 <= i < v0.kd.len() && (#[trigger] v0.kd[i]).0 == k;
            crate::keydir::lemma_kd_map_index(v0.kd, i);
            crate::keydir::lemma_kd_map_index(v1.kd, i);
            assert(copied_ok(v0, pre, i, n0, f, out_id, sealed));
            let e0 = v0.kd[i].1;
            let e1 = v1.kd[i].1;
            let q = e1.file_id - (f + 1);
            assert(1 <= q < dlen);
            lemma_find_seg_at(d, q);
            assert(find_seg(v1.dir, e1.file_id) == Some(d[q]));
            lemma_find_seg(d, e1.file_id);
            if e1.file_id == out_id {
                assert(q == dlen - 1);
                assert(d[q] == whole.dir[n0 + q] && n0 + q == whole.dir.len() - 1);
                assert(d[q].data == sealed);
            } else {
                let p = n0 + 1 + (e1.file_id - (f + 2));
                assert(d[q] == whole.dir[n0 + q] && n0 + q == p && whole.dir[p] == pre.dir[p]);
            }
        }
        // sound reads return what they returned before
        assert forall|k: Seq<u8>| #[trigger] entry_sound(v0, k) implies spec_get(v1, k) == spec_get(
            v0,
            k,
        ) && entry_sound(v1, k) by {
            let e0 = v0.kd_map()[k];
            let e1 = v1.kd_map()[k];
            let s0 = find_seg(v0.dir, e0.file_id)->0;
            let s1 = find_seg(v1.dir, e1.file_id)->0;
            match parse_record_at(s0.data, e0.offset as int) {
                ParseStep::Rec(r) => {
                    assert(s1.data.subrange(e1.offset as int, e1.offset + r.size())
                        =~= s0.data.subrange(e0.offset as int, e0.offset + r.size()));
                    crate::format::lemma_parse_record_span(
                        s0.data,
                        e0.offset as int,
                        s1.data,
                        e1.offset as int,
                        r,
                    );
                },
                _ => {
                    assert(false);
                },
            }
        }
        // well-formedness of the compacted store
        assert forall|k: Seq<u8>| #[trigger] v1.kd_map().contains_key(k) implies {
            let e = v1.kd_map()[k];
            &&& has_seg(v1.dir, e.file_id)
            &&& k.len() <= u32::MAX
            &&& HEADER_SIZE + k.len() <= e.size
            &&& e.size - HEADER_SIZE - k.len() <= u32::MAX
            &&& e.timestamp <= v1.ts_floor
        } by {
            assert(v0.kd_map().contains_key(k));
        }
        assert(self.wf());
    }

    /// Looks `key` up and reads its value bytes back from the segment
    /// its locator points at.
    ///
    /// An absent key — or a locator pointing past the end of its
    /// segment — yields a null value; a locator pointing at a record
    /// whose payload is truncated yields a deserialization error.
    pub fn get(&mut self, key: &[u8]) -> (r: Result<Option<Vec<u8>>, StoreError>)
        requires
            old(self).wf(),
        ensures
            *final(self) == *old(self),
            match spec_get(old(self)@, key@) {
                ReadResult::Absent => r matches Ok(v) && v is None,
                ReadResult::Value(val) => r matches Ok(Some(v)) && v@ == val,
                ReadResult::Corrupt => r matches Err(StoreError::DeserializeError),
            },
    {
        let ghost v = self@;
        let entry = match self.keydir.get(key) {
            None => {
                return Ok(None);
            },
            Some(e) => *e,
        };
        proof {
            assert(v.kd_map()[key@] == entry);
            assert(has_seg(v.dir, entry.file_id));
            crate::keydir::lemma_kd_map_domain(v.kd, key@);
        }
        let idx = self.find_segment(entry.file_id);
        proof {
            lemma_find_seg_at(v.dir, idx as int);
        }
        let seg = &self.segments[idx];
        match DataEntry::read_from(&seg.data, entry.offset) {
            Ok(None) => Ok(None),
            Ok(Some(e)) => Ok(Some(e.value)),
            Err(err) => Err(err),
        }
    }

    /// A snapshot of all live keys, in key directory order.
    pub fn keys(&self) -> (r: Result<Vec<Vec<u8>>, StoreError>)
        ensures
            r matches Ok(ks) && ks@.len() == self@.kd.len(),
            r matches Ok(ks) ==> forall|i: int|
                0 <= i < ks@.len() ==> ks@[i]@ == (#[trigger] self@.kd[i]).0,
    {
        Ok(self.keydir.keys())
    }

    /// Number of live keys.
    pub fn len(&self) -> (r: u64)
        ensures
            r == self@.kd.len(),
    {
        self.keydir.len()
    }

    /// Whether no key is live.
    pub fn is_empty(&self) -> (r: bool)
        ensures
            r <==> self@.kd.len() == 0,
    {
        self.keydir.num_entries() == 0
    }

    /// Whether `key` is live.
    pub fn contains_key(&self, key: &[u8]) -> (r: bool)
        requires
            self.wf(),
        ensures
            r <==> self@.kd_map().contains_key(key@),
    {
        self.keydir.contains_key(key)
    }

    /// Collects every live `(key, value)` pair, in key directory
    /// order, reading each value back from its segment. Keys whose
    /// locator points past its segment are silently skipped; a locator
    /// pointing at a truncated record aborts with an error.
    pub fn for_each(&mut self) -> (r: Result<Vec<(Vec<u8>, Vec<u8>)>, StoreError>)
        requires
            old(self).wf(),
        ensures
            *final(self) == *old(self),
            (r is Err <==> spec_any_corrupt(old(self)@, 0)),
            r matches Err(e) ==> e is DeserializeError,
            r matches Ok(pairs) ==> pairs_view(pairs@) =~= spec_live_pairs(old(self)@, 0),
    {
        let ghost v = self@;
        let n = self.keydir.num_entries();
        let mut out: Vec<(Vec<u8>, Vec<u8>)> = Vec::new();
        let mut j: usize = 0;
        while j < n
            invariant
                self.wf(),
                self@ == v,
                j <= n,
                n == v.kd.len(),
                pairs_view(out@) + spec_live_pairs(v, j as int) =~= spec_live_pairs(v, 0),
                spec_any_corrupt(v, 0) == spec_any_corrupt(v, j as int),
            decreases n - j,
        {
            let entry = self.keydir.entry_at(j);
            proof {
                crate::keydir::lemma_kd_map_index(v.kd, j as int);
            }
            let idx = self.find_segment(entry.file_id);
            proof {
                lemma_find_seg_at(v.dir, idx as int);
            }
            let ghost out0 = out@;
            match DataEntry::read_from(&self.segments[idx].data, entry.offset) {
                Ok(None) => {},
                Err(_) => {
                    return Err(StoreError::DeserializeError);
                },
                Ok(Some(e)) => {
                    let key = self.keydir.key_at(j);
                    let mut key_copy: Vec<u8> = Vec::new();
                    append_slice(&mut key_copy, key.as_slice(), 0, key.len());
                    proof {
                        assert(key@.subrange(0, key@.len() as int) =~= key@);
                    }
                    out.push((key_copy, e.value));
                    proof {
                        assert(pairs_view(out@) =~= pairs_view(out0).push(
                            (v.kd[j as int].0, spec_get_value(v, v.kd[j as int].0)),
                        ));
                        assert(pairs_view(out0) + spec_live_pairs(v, j as int) =~= pairs_view(out@)
                            + spec_live_pairs(v, j + 1));
                    }
                },
            }
            j = j + 1;
        }
        Ok(out)
    }

    /// Flushes pending writes of the active segment. The engine model
    /// holds every byte already; durably writing them to the backing
    /// files is the I/O boundary's part.
    pub fn sync(&mut self) -> (r: Result<(), StoreError>)
        ensures
            *final(self) == *old(self),
            r is Ok,
    {
        Ok(())
    }

    /// Closes the store, flushing pending writes.
    pub fn close(&mut self) -> (r: Result<(), StoreError>)
        ensures
            *final(self) == *old(self),
            r is Ok,
    {
        self.sync()
    }

    /// Opens a directory with the default options.
    pub fn open(files: Vec<SegmentFile>, lock_acquired: bool) -> (r: Result<
        DiskStorage,
        StoreError,
    >)
        requires
            ids_ascending(seg_views(files@)),
            forall|i: int| 0 <= i < files@.len() ==> (#[trigger] files@[i]).id < u64::MAX,
        ensures
            !lock_acquired <==> r matches Err(StoreError::AlreadyLocked),
            lock_acquired ==> (r matches Err(StoreError::DeserializeError) <==> spec_replay(
                seg_views(files@),
            ) is None),
            lock_acquired ==> (spec_replay(seg_views(files@)) matches Some(m) ==> ({
                &&& r matches Ok(st)
                &&& open_result(st@, seg_views(files@), m, spec_default_options())
                &&& st.wf()
                &&& log_consistent(st@)
            })),
    {
        Self::open_with_options(files, lock_acquired, StoreOptions::default())
    }

    /// Opens a directory: acquires nothing itself, but refuses to
    /// proceed when the directory lock was not obtained, replays every
    /// segment in ascending id order — through its hint file when one
    /// exists — and registers a fresh, empty active segment with the
    /// next id.
    pub fn open_with_options(files: Vec<SegmentFile>, lock_acquired: bool, opts: StoreOptions) -> (r:
        Result<DiskStorage, StoreError>)
        requires
            ids_ascending(seg_views(files@)),
            forall|i: int| 0 <= i < files@.len() ==> (#[trigger] files@[i]).id < u64::MAX,
        ensures
            !lock_acquired <==> r matches Err(StoreError::AlreadyLocked),
            lock_acquired ==> (r matches Err(StoreError::DeserializeError) <==> spec_replay(
                seg_views(files@),
            ) is None),
            lock_acquired ==> (spec_replay(seg_views(files@)) matches Some(m) ==> ({
                &&& r matches Ok(st)
                &&& open_result(st@, seg_views(files@), m, opts)
                &&& st.wf()
                &&& log_consistent(st@)
            })),
    {
        if !lock_acquired {
            return Err(StoreError::AlreadyLocked);
        }
        let ghost dirv = seg_views(files@);
        let mut keydir = HashmapKeydir::new();
        let n = files.len();
        let mut i: usize = 0;
        while i < n
            invariant
                lock_acquired,
                keydir.wf(),
                i <= n,
                n == files@.len(),
                dirv == seg_views(files@),
                ids_ascending(dirv),
                replay_from(keydir.as_map(), dirv, i as int) == spec_replay(dirv),
                kd_entries_ok(keydir.as_map(), dirv),
            decreases n - i,
        {
            let ghost m0 = keydir.as_map();
            let file_id = files[i].id;
            proof {
                assert(dirv[i as int] == files@[i as int]@);
            }
            match &files[i].hint {
                Some(h) => {
                    let seg_len = h.len();
                    let mut off: u64 = 0;
                    let mut done = false;
                    while !done
                        invariant
                            seg_len == h@.len(),
                            off <= seg_len,
                            keydir.wf(),
                            0 <= i < n,
                            n == files@.len(),
                            dirv == seg_views(files@),
                            ids_ascending(dirv),
                            dirv[i as int].hint == Some(h@),
                            dirv[i as int].id == file_id,
                            replay_from(m0, dirv, i as int) == spec_replay(dirv),
                            lock_acquired,
                            replay_hint_from(keydir.as_map(), file_id, h@, off as int)
                                == replay_hint_from(m0, file_id, h@, 0),
                            kd_entries_ok(keydir.as_map(), dirv),
                            done ==> parse_hint_at(h@, off as int) is End,
                        decreases h@.len() - off + (if done { 0int } else { 1int }),
                    {
                        match HintEntry::read_from(h, off) {
                            Ok(None) => {
                                done = true;
                            },
                            Err(_) => {
                                proof {
                                    assert(replay_hint_from(
                                        keydir.as_map(),
                                        file_id,
                                        h@,
                                        off as int,
                                    ) is None);
                                    assert(replay_seg(m0, dirv[i as int]) is None);
                                    assert(spec_replay(dirv) is None);
                                }
                                return Err(StoreError::DeserializeError);
                            },
                            Ok(Some(entry)) => {
                                let ghost hr = entry.hint_rec();
                                proof {
                                    assert(off + hr.self_size() <= h@.len());
                                }
                                let sz = entry.selfsize();
                                let e = KeydirEntry::new(file_id, entry.offset(), entry.size(), 0);
                                let _ = keydir.put(entry.key, e);
                                off = off + sz;
                            },
                        }
                    }
                },
                None => {
                    let data = &files[i].data;
                    let seg_len = data.len();
                    let mut off: u64 = 0;
                    let mut done = false;
                    while !done
                        invariant
                            seg_len == data@.len(),
                            off <= seg_len,
                            keydir.wf(),
                            0 <= i < n,
                            n == files@.len(),
                            dirv == seg_views(files@),
                            ids_ascending(dirv),
                            dirv[i as int].hint is None,
                            dirv[i as int].data == data@,
                            dirv[i as int].id == file_id,
                            replay_from(m0, dirv, i as int) == spec_replay(dirv),
                            lock_acquired,
                            replay_data_from(keydir.as_map(), file_id, data@, off as int)
                                == replay_data_from(m0, file_id, data@, 0),
                            kd_entries_ok(keydir.as_map(), dirv),
                            done ==> parse_record_at(data@, off as int) is End,
                        decreases data@.len() - off + (if done { 0int } else { 1int }),
                    {
                        match DataEntry::read_from(data, off) {
                            Ok(None) => {
                                done = true;
                            },
                            Err(_) => {
                                proof {
                                    assert(replay_data_from(
                                        keydir.as_map(),
                                        file_id,
                                        data@,
                                        off as int,
                                    ) is None);
                                    assert(replay_seg(m0, dirv[i as int]) is None);
                                    assert(spec_replay(dirv) is None);
                                }
                                return Err(StoreError::DeserializeError);
                            },
                            Ok(Some(entry)) => {
                                let ghost rec = entry.record();
                                proof {
                                    assert(off + rec.size() <= data@.len());
                                }
                                let sz = entry.size();
                                let tomb = remove_tombstone();
                                if bytes_eq(entry.value.as_slice(), tomb.as_slice()) {
                                    keydir.remove(entry.key.as_slice());
                                } else {
                                    let e = KeydirEntry::new(file_id, off, sz, entry.timestamp());
                                    let _ = keydir.put(entry.key, e);
                                }
                                off = off + sz;
                            },
                        }
                    }
                },
            }
            i = i + 1;
        }
        // a fresh, empty active segment with the next id
        let next_id = if n == 0 {
            1
        } else {
            files[n - 1].id + 1
        };
        let mut segments = files;
        segments.push(SegmentFile { id: next_id, data: Vec::new(), hint: None });
        let active_idx = segments.len() - 1;
        // the floor starts at 1 and covers every replayed timestamp
        let mut ts_floor: u32 = 1;
        let kn = keydir.num_entries();
        let mut j: usize = 0;
        while j < kn
            invariant
                j <= kn,
                kn == keydir.entries().len(),
                ts_floor >= 1,
                forall|jj: int|
                    0 <= jj < j ==> (#[trigger] keydir.entries()[jj]).1.timestamp <= ts_floor,
            decreases kn - j,
        {
            let e = keydir.entry_at(j);
            if e.timestamp > ts_floor {
                ts_floor = e.timestamp;
            }
            j = j + 1;
        }
        let st = DiskStorage { segments, active_idx, keydir, opts, ts_floor };
        proof {
            let v = st@;
            assert(v.dir =~= dirv.push(SegView { id: next_id, data: Seq::empty(), hint: None }));
            assert forall|a: int| 0 <= a < dirv.len() implies (#[trigger] dirv[a]).id
                < next_id by {
                if a < dirv.len() - 1 {
                    assert(dirv[a].id < dirv[dirv.len() - 1].id);
                }
                assert(dirv[dirv.len() - 1].id == files@[files@.len() - 1].id);
            }
            assert forall|a: int, b: int| 0 <= a < b < v.dir.len() implies (
            #[trigger] v.dir[a]).id < (#[trigger] v.dir[b]).id by {
                if b < v.dir.len() - 1 {
                    assert(v.dir[a] == dirv[a] && v.dir[b] == dirv[b]);
                } else {
                    assert(v.dir[a] == dirv[a]);
                }
            }
            assert forall|k: Seq<u8>| #[trigger] v.kd_map().contains_key(k) implies {
                let e = v.kd_map()[k];
                &&& has_seg(v.dir, e.file_id)
                &&& k.len() <= u32::MAX
                &&& HEADER_SIZE + k.len() <= e.size
                &&& e.size - HEADER_SIZE - k.len() <= u32::MAX
                &&& e.timestamp <= v.ts_floor
            } by {
                let j2 = choose|j2: int|
                    0 <= j2 < dirv.len() && (#[trigger] dirv[j2]).id == v.kd_map()[k].file_id;
                assert(v.dir[j2] == dirv[j2]);
                crate::keydir::lemma_kd_map_domain(v.kd, k);
                let i2 = choose|i2: int| 0 <= i2 < v.kd.len() && (#[trigger] v.kd[i2]).0 == k;
                crate::keydir::lemma_kd_map_index(v.kd, i2);
            }
            assert(st.wf());
            let fresh = SegView { id: next_id, data: Seq::empty(), hint: None };
            let md = st.keydir.as_map();
            assert(spec_replay(dirv) == Some(md)) by {
                assert(replay_from(md, dirv, n as int) == Some(md));
            }
            lemma_replay_push(Map::empty(), dirv, fresh, 0);
            assert(replay_seg(md, fresh) == replay_data_from(md, next_id, Seq::empty(), 0));
            assert(parse_record_at(Seq::<u8>::empty(), 0) is End);
            assert(replay_data_from(md, next_id, Seq::empty(), 0) == Some(md));
            assert(spec_replay(v.dir) == Some(md)) by {
                assert(v.dir =~= dirv.push(fresh));
            }
            assert(data_end(Seq::<u8>::empty(), 0) == Some(0int));
            assert(log_consistent(v));
        }
        Ok(st)
    }
}

/// A single appended record leaves every earlier whole-record read in
/// place: the segment a locator points at still exists, and a locator
/// that parsed as a whole record parses to the same record.
pub proof fn lemma_wrote_preserves_read(
    v0: StoreView,
    v1: StoreView,
    crc: u32,
    ts: u32,
    key: Seq<u8>,
    value: Seq<u8>,
    e: KeydirEntry,
)
    requires
        ids_ascending(v0.dir),
        0 <= v0.active_idx < v0.dir.len(),
        wrote_record(v0, v1, crc, ts, key, value),
        needs_rotation(v0) ==> v0.dir.last().id < u64::MAX,
        has_seg(v0.dir, e.file_id),
    ensures
        find_seg(v1.dir, e.file_id) is Some,
        ({
            let s0 = find_seg(v0.dir, e.file_id)->0;
            let s1 = find_seg(v1.dir, e.file_id)->0;
            forall|r: RecordV|
                parse_record_at(s0.data, e.offset as int) == ParseStep::Rec(r)
                    ==> parse_record_at(s1.data, e.offset as int) == ParseStep::Rec(r)
        }),
{
    let rb = spec_record_bytes(crc, ts, key, value);
    lemma_find_seg(v0.dir, e.file_id);
    let s0 = find_seg(v0.dir, e.file_id)->0;
    let aid = v0.active().id;
    if !needs_rotation(v0) {
        let ext = SegView { id: aid, data: v0.active().data + rb, hint: v0.active().hint };
        lemma_find_seg_update(v0.dir, v0.active_idx, ext, e.file_id);
        assert(find_seg(v1.dir, e.file_id) == find_seg(v0.dir.update(v0.active_idx, ext), e.file_id));
        if e.file_id == aid {
            lemma_find_seg_at(v0.dir, v0.active_idx);
            assert(s0 == v0.active());
            assert(find_seg(v1.dir, e.file_id) == Some(ext));
            assert forall|r: RecordV|
                parse_record_at(s0.data, e.offset as int) == ParseStep::Rec(r) implies parse_record_at(
                ext.data,
                e.offset as int,
            ) == ParseStep::Rec(r) by {
                assert(e.offset + r.size() <= s0.data.len());
                assert(ext.data.subrange(e.offset as int, e.offset + r.size()) =~= s0.data.subrange(
                    e.offset as int,
                    e.offset + r.size(),
                ));
                crate::format::lemma_parse_record_local(s0.data, ext.data, e.offset as int, r);
            }
        } else {
            assert(find_seg(v1.dir, e.file_id) == find_seg(v0.dir, e.file_id));
        }
    } else {
        let nid = (v0.dir.last().id + 1) as u64;
        let fresh = SegView { id: nid, data: rb, hint: None };
        assert(e.file_id != nid) by {
            let j = choose|j: int| 0 <= j < v0.dir.len() && (#[trigger] v0.dir[j]).id == e.file_id;
            if j < v0.dir.len() - 1 {
                assert(v0.dir[j].id < v0.dir[v0.dir.len() - 1].id);
            }
        }
        assert forall|i: int| 0 <= i < v0.dir.len() implies (#[trigger] v0.dir[i]).id < nid by {
            if i < v0.dir.len() - 1 {
                assert(v0.dir[i].id < v0.dir[v0.dir.len() - 1].id);
            }
        }
        lemma_find_seg_push(v0.dir, fresh, e.file_id);
        assert(find_seg(v1.dir, e.file_id) == find_seg(v0.dir, e.file_id));
    }
}


/// The key's locator points at a span that lies within its segment.
pub open spec fn entry_in_range(v: StoreView, k: Seq<u8>) -> bool {
    let e = v.kd_map()[k];
    &&& find_seg(v.dir, e.file_id) is Some
    &&& e.offset + e.size <= find_seg(v.dir, e.file_id)->0.data.len()
}

/// Every live locator points at a span within its segment.
pub open spec fn all_entries_in_range(v: StoreView) -> bool {
    forall|k: Seq<u8>| #[trigger] v.kd_map().contains_key(k) ==> entry_in_range(v, k)
}

/// Compaction can run: every locator's span lies within its segment,
/// and enough fresh segment ids remain for the new active segment and
/// for one output per live key.
pub open spec fn compact_possible(v: StoreView) -> bool {
    &&& v.kd.len() + 3 <= u64::MAX
    &&& v.dir.last().id + 3 + v.kd.len() <= u64::MAX
    &&& all_entries_in_range(v)
}

/// The bytes of the record span the locator of pair `i` points at.
pub open spec fn source_span(v0: StoreView, i: int) -> Seq<u8> {
    let e0 = v0.kd[i].1;
    find_seg(v0.dir, e0.file_id)->0.data.subrange(e0.offset as int, e0.offset + e0.size)
}

/// During compaction, pair `i` has been rewritten: its locator keeps
/// its size and timestamp and points — into the output buffer when its
/// id is the current output id, else into an already sealed output —
/// at a byte-identical copy of its old span.
pub open spec fn copied_ok(
    v0: StoreView,
    cur: StoreView,
    i: int,
    n0: int,
    f: u64,
    out_id: u64,
    out_data: Seq<u8>,
) -> bool {
    let e0 = v0.kd[i].1;
    let e1 = cur.kd[i].1;
    &&& e1.size == e0.size
    &&& e1.timestamp == e0.timestamp
    &&& f + 2 <= e1.file_id <= out_id
    &&& if e1.file_id == out_id {
        &&& e1.offset + e1.size <= out_data.len()
        &&& out_data.subrange(e1.offset as int, e1.offset + e1.size) =~= source_span(v0, i)
    } else {
        let p = n0 + 1 + (e1.file_id - (f + 2));
        &&& 0 <= p < cur.dir.len()
        &&& cur.dir[p].id == e1.file_id
        &&& e1.offset + e1.size <= cur.dir[p].data.len()
        &&& cur.dir[p].data.subrange(e1.offset as int, e1.offset + e1.size) =~= source_span(v0, i)
    }
}

/// How a completed compaction relates the view before (`v0`) to the
/// view after (`v1`), where `f` is the largest id `v0` held: the new
/// active segment `f + 1` is empty and stands first; every other
/// remaining segment is a compaction output with id at least `f + 2`
/// and a hint file beside it; the live keys are unchanged; and each
/// key's locator keeps its size and timestamp and points at a
/// byte-identical copy of its old span.
pub open spec fn compacted(v0: StoreView, v1: StoreView) -> bool {
    let f = v0.dir.last().id;
    &&& v1.active_idx == 0
    &&& v1.dir.len() >= 2
    &&& v1.dir[0] == (SegView { id: (f + 1) as u64, data: Seq::<u8>::empty(), hint: None })
    &&& forall|j: int|
        1 <= j < v1.dir.len() ==> (#[trigger] v1.dir[j]).id >= f + 2 && v1.dir[j].hint is Some
    &&& forall|k: Seq<u8>|
        #[trigger] v1.kd_map().contains_key(k) <==> v0.kd_map().contains_key(k)
    &&& forall|k: Seq<u8>|
        #[trigger] v0.kd_map().contains_key(k) ==> {
            let e0 = v0.kd_map()[k];
            let e1 = v1.kd_map()[k];
            &&& e1.size == e0.size
            &&& e1.timestamp == e0.timestamp
            &&& e1.file_id >= f + 2
            &&& entry_in_range(v1, k)
            &&& find_seg(v1.dir, e1.file_id)->0.data.subrange(
                e1.offset as int,
                e1.offset + e1.size,
            ) =~= find_seg(v0.dir, e0.file_id)->0.data.subrange(
                e0.offset as int,
                e0.offset + e0.size,
            )
        }
    &&& forall|k: Seq<u8>|
        #[trigger] entry_sound(v0, k) ==> spec_get(v1, k) == spec_get(v0, k) && entry_sound(v1, k)
}

/// The spec-level pairs a sequence of owned pairs denotes.
pub open spec fn pairs_view(s: Seq<(Vec<u8>, Vec<u8>)>) -> Seq<(Seq<u8>, Seq<u8>)> {
    s.map_values(|p: (Vec<u8>, Vec<u8>)| (p.0@, p.1@))
}

/// The value bytes a lookup of `k` observes, where it observes any.
pub open spec fn spec_get_value(v: StoreView, k: Seq<u8>) -> Seq<u8> {
    match spec_get(v, k) {
        ReadResult::Value(val) => val,
        _ => Seq::empty(),
    }
}

/// The live pairs of the key directory from position `i` on: one pair
/// for each key whose locator reads back a whole record, in key
/// directory order.
pub open spec fn spec_live_pairs(v: StoreView, i: int) -> Seq<(Seq<u8>, Seq<u8>)>
    decreases v.kd.len() - i,
{
    if i < 0 || i >= v.kd.len() {
        Seq::empty()
    } else {
        let rest = spec_live_pairs(v, i + 1);
        match spec_get(v, v.kd[i].0) {
            ReadResult::Value(val) => seq![(v.kd[i].0, val)] + rest,
            _ => rest,
        }
    }
}

/// Whether some key at position `i` or later has a locator pointing at
/// a truncated record.
pub open spec fn spec_any_corrupt(v: StoreView, i: int) -> bool
    decreases v.kd.len() - i,
{
    if i < 0 || i >= v.kd.len() {
        false
    } else {
        spec_get(v, v.kd[i].0) is Corrupt || spec_any_corrupt(v, i + 1)
    }
}

/// Every replayed entry points at a segment of the directory and fits
/// the header's size fields.
pub open spec fn kd_entries_ok(m: Map<Seq<u8>, KeydirEntry>, dir: Seq<SegView>) -> bool {
    forall|k: Seq<u8>|
        #[trigger] m.contains_key(k) ==> {
            let e = m[k];
            &&& has_seg(dir, e.file_id)
            &&& k.len() <= u32::MAX
            &&& HEADER_SIZE + k.len() <= e.size
            &&& e.size - HEADER_SIZE - k.len() <= u32::MAX
        }
}

/// How the engine built by `open` relates to the directory it was
/// given: the replayed key directory, the given options, a fresh empty
/// active segment with the next id, and a timestamp floor over every
/// replayed entry.
pub open spec fn open_result(
    v: StoreView,
    dirv: Seq<SegView>,
    m: Map<Seq<u8>, KeydirEntry>,
    opts: StoreOptions,
) -> bool {
    &&& v.kd_map() =~= m
    &&& v.opts == opts
    &&& v.dir =~= dirv.push(SegView { id: spec_next_id(dirv), data: Seq::empty(), hint: None })
    &&& v.active_idx == dirv.len()
    &&& v.ts_floor >= 1
}

/// Every key directory entry points at an existing segment, fits the
/// header's size fields, and carries a timestamp below the floor.
pub open spec fn keys_ok(v: StoreView) -> bool {
    &&& keys_unique_view(v)
    &&& forall|k: Seq<u8>|
        #[trigger] v.kd_map().contains_key(k) ==> {
            let e = v.kd_map()[k];
            &&& has_seg(v.dir, e.file_id)
            &&& k.len() <= u32::MAX
            &&& HEADER_SIZE + k.len() <= e.size
            &&& e.size - HEADER_SIZE - k.len() <= u32::MAX
            &&& e.timestamp <= v.ts_floor
        }
}

/// The key directory's keys are pairwise distinct.
pub open spec fn keys_unique_view(v: StoreView) -> bool {
    crate::keydir::keys_unique(v.kd)
}

/// The offset at which data-record replay from `off` meets the end of
/// the stream, or nothing when it meets a truncated record.
pub open spec fn data_end(s: Seq<u8>, off: int) -> Option<int>
    decreases s.len() - off,
{
    match parse_record_at(s, off) {
        ParseStep::End => Some(off),
        ParseStep::Corrupt => None,
        ParseStep::Rec(r) => data_end(s, off + r.size()),
    }
}

/// The engine's log denotes its key directory: the active segment is
/// the last one, its records fill it exactly, and replaying the whole
/// directory yields exactly the key directory. This holds from open
/// until a compaction rotates the active segment below the compaction
/// outputs.
pub open spec fn log_consistent(v: StoreView) -> bool {
    &&& v.active_idx == v.dir.len() - 1
    &&& data_end(v.active().data, 0) == Some(v.active().data.len() as int)
    &&& spec_replay(v.dir) == Some(v.kd_map())
}

/// Appending one serialized record to a stream whose records fill it
/// exactly extends its replay by exactly one replay step.
pub proof fn lemma_replay_data_append(
    m: Map<Seq<u8>, KeydirEntry>,
    fid: u64,
    s: Seq<u8>,
    off: int,
    rec: RecordV,
)
    requires
        0 <= off <= s.len(),
        data_end(s, off) == Some(s.len() as int),
        rec.key.len() <= u32::MAX,
        rec.value.len() <= u32::MAX,
    ensures
        replay_data_from(m, fid, s, off) is Some,
        data_end(s + spec_record_bytes(rec.crc, rec.timestamp, rec.key, rec.value), off) == Some(
            s.len() + rec.size(),
        ),
        replay_data_from(m, fid, s + spec_record_bytes(rec.crc, rec.timestamp, rec.key, rec.value), off)
            == Some(
            data_step(replay_data_from(m, fid, s, off)->0, fid, s.len() as int, rec),
        ),
    decreases s.len() - off,
{
    let rb = spec_record_bytes(rec.crc, rec.timestamp, rec.key, rec.value);
    let s2 = s + rb;
    match parse_record_at(s, off) {
        ParseStep::End => {
            assert(off == s.len());
            assert(s2.subrange(off, off + rec.size()) =~= rb);
            crate::format::lemma_parse_record_bytes(s2, off, rec);
            assert(replay_data_from(m, fid, s, off) == Some(m));
            assert(parse_record_at(s2, off + rec.size()) is End);
            assert(data_end(s2, off + rec.size()) == Some(off + rec.size()));
            assert(data_end(s2, off) == Some(s.len() + rec.size()));
            let m1 = data_step(m, fid, off, rec);
            assert(replay_data_from(m1, fid, s2, off + rec.size()) == Some(m1));
            assert(replay_data_from(m, fid, s2, off) == Some(m1));
        },
        ParseStep::Corrupt => {
            assert(false);
        },
        ParseStep::Rec(r) => {
            assert(off + r.size() <= s.len());
            assert(s2.subrange(off, off + r.size()) =~= s.subrange(off, off + r.size()));
            crate::format::lemma_parse_record_local(s, s2, off, r);
            lemma_replay_data_append(data_step(m, fid, off, r), fid, s, off + r.size(), rec);
        },
    }
}

/// Replaying a directory with one segment appended replays the
/// original directory and then the appended segment.
pub proof fn lemma_replay_push(
    m: Map<Seq<u8>, KeydirEntry>,
    dir: Seq<SegView>,
    x: SegView,
    i: int,
)
    requires
        0 <= i <= dir.len(),
    ensures
        replay_from(m, dir.push(x), i) == (match replay_from(m, dir, i) {
            Option::Some(m1) => replay_seg(m1, x),
            Option::None => None,
        }),
    decreases dir.len() - i,
{
    if i == dir.len() {
        assert(dir.push(x)[i] == x);
        assert(replay_from(m, dir, i) == Some(m));
        match replay_seg(m, x) {
            Option::Some(m2) => {
                assert(replay_from(m2, dir.push(x), i + 1) == Some(m2));
            },
            Option::None => {},
        }
    } else {
        assert(dir.push(x)[i] == dir[i]);
        match replay_seg(m, dir[i]) {
            Option::Some(m2) => {
                lemma_replay_push(m2, dir, x, i + 1);
            },
            Option::None => {},
        }
    }
}

/// Replaying a directory with its last segment replaced replays all
/// earlier segments and then the replacement.
pub proof fn lemma_replay_update_last(
    m: Map<Seq<u8>, KeydirEntry>,
    dir: Seq<SegView>,
    ext: SegView,
    i: int,
)
    requires
        dir.len() >= 1,
        0 <= i <= dir.len() - 1,
    ensures
        replay_from(m, dir.update(dir.len() - 1, ext), i) == (match replay_from(
            m,
            dir.drop_last(),
            i,
        ) {
            Option::Some(m1) => replay_seg(m1, ext),
            Option::None => None,
        }),
    decreases dir.len() - i,
{
    let n = dir.len() as int;
    let dir2 = dir.update(n - 1, ext);
    if i == n - 1 {
        assert(dir2[i] == ext);
        assert(replay_from(m, dir.drop_last(), i) == Some(m));
        match replay_seg(m, ext) {
            Option::Some(m2) => {
                assert(replay_from(m2, dir2, i + 1) == Some(m2));
            },
            Option::None => {},
        }
    } else {
        assert(dir2[i] == dir[i] && dir.drop_last()[i] == dir[i]);
        match replay_seg(m, dir[i]) {
            Option::Some(m2) => {
                lemma_replay_update_last(m2, dir, ext, i + 1);
            },
            Option::None => {},
        }
    }
}

/// Persistence across reopen: a consistent engine that is closed and
/// whose directory is opened again reads back exactly what it read
/// before, for present keys and absent ones alike.
pub proof fn lemma_reopen_preserves_get(
    v: StoreView,
    v2: StoreView,
    m: Map<Seq<u8>, KeydirEntry>,
    opts: StoreOptions,
)
    requires
        ids_ascending(v.dir),
        v.dir.len() >= 1,
        keys_ok(v),
        log_consistent(v),
        v.dir.last().id < u64::MAX,
        spec_replay(v.dir) == Some(m),
        open_result(v2, v.dir, m, opts),
    ensures
        forall|k: Seq<u8>| #[trigger] spec_get(v2, k) == spec_get(v, k),
{
    let fresh = SegView { id: spec_next_id(v.dir), data: Seq::empty(), hint: None };
    assert(v2.kd_map() == v.kd_map());
    assert forall|k: Seq<u8>| #[trigger] spec_get(v2, k) == spec_get(v, k) by {
        if v.kd_map().contains_key(k) {
            let e = v.kd_map()[k];
            assert forall|i: int| 0 <= i < v.dir.len() implies (#[trigger] v.dir[i]).id
                < fresh.id by {
                if i < v.dir.len() - 1 {
                    assert(v.dir[i].id < v.dir[v.dir.len() - 1].id);
                }
            }
            lemma_find_seg(v.dir, e.file_id);
            let i = choose|i: int| 0 <= i < v.dir.len() && (#[trigger] v.dir[i]).id == e.file_id;
            lemma_find_seg_push(v.dir, fresh, e.file_id);
            assert(v2.dir =~= v.dir.push(fresh));
            assert(find_seg(v2.dir, e.file_id) == find_seg(v.dir, e.file_id));
        }
    }
}

/// One appended record extends the whole-directory replay of a
/// consistent log by exactly one replay step, and leaves the log's
/// records filling the active segment exactly.
proof fn lemma_log_consistent_step(
    v0: StoreView,
    v2: StoreView,
    crc: u32,
    ts: u32,
    key: Seq<u8>,
    value: Seq<u8>,
)
    requires
        0 <= v0.active_idx < v0.dir.len(),
        v0.active().hint is None,
        log_consistent(v0),
        key.len() <= u32::MAX,
        value.len() <= u32::MAX,
        wrote_record(v0, v2, crc, ts, key, value),
    ensures
        v2.active_idx == v2.dir.len() - 1,
        v2.active().hint is None,
        data_end(v2.active().data, 0) == Some(v2.active().data.len() as int),
        spec_replay(v2.dir) == Some(
            data_step(
                v0.kd_map(),
                v2.active().id,
                if needs_rotation(v0) {
                    0int
                } else {
                    v0.active().data.len() as int
                },
                RecordV { crc, timestamp: ts, key, value },
            ),
        ),
{
    let rec = RecordV { crc, timestamp: ts, key, value };
    let rb = spec_record_bytes(crc, ts, key, value);
    let n = v0.dir.len() as int;
    if !needs_rotation(v0) {
        let ext = SegView { id: v0.active().id, data: v0.active().data + rb, hint: v0.active().hint };
        assert(v0.active() == v0.dir.last());
        lemma_replay_update_last(Map::empty(), v0.dir, ext, 0);
        lemma_replay_update_last(Map::empty(), v0.dir, v0.dir.last(), 0);
        assert(v0.dir.update(n - 1, v0.dir.last()) =~= v0.dir);
        match replay_from(Map::empty(), v0.dir.drop_last(), 0) {
            Option::Some(m1) => {
                assert(replay_seg(m1, v0.dir.last()) == replay_data_from(
                    m1,
                    v0.active().id,
                    v0.active().data,
                    0,
                ));
                assert(replay_data_from(m1, v0.active().id, v0.active().data, 0) == Some(
                    v0.kd_map(),
                ));
                lemma_replay_data_append(m1, v0.active().id, v0.active().data, 0, rec);
                assert(replay_seg(m1, ext) == Some(
                    data_step(v0.kd_map(), v0.active().id, v0.active().data.len() as int, rec),
                ));
                assert(v2.dir =~= v0.dir.update(n - 1, ext));
                assert(spec_replay(v2.dir) == replay_seg(m1, ext));
                lemma_replay_data_append(Map::empty(), v0.active().id, v0.active().data, 0, rec);
                assert(v2.active() == ext);
            },
            Option::None => {
                assert(spec_replay(v0.dir) is None);
                assert(false);
            },
        }
    } else {
        let nid = (v0.dir.last().id + 1) as u64;
        let fresh = SegView { id: nid, data: rb, hint: None };
        lemma_replay_push(Map::empty(), v0.dir, fresh, 0);
        assert(replay_seg(v0.kd_map(), fresh) == replay_data_from(v0.kd_map(), nid, rb, 0));
        assert(parse_record_at(Seq::<u8>::empty(), 0) is End);
        assert(data_end(Seq::<u8>::empty(), 0) == Some(0int));
        lemma_replay_data_append(v0.kd_map(), nid, Seq::empty(), 0, rec);
        assert(Seq::<u8>::empty() + rb =~= rb);
        assert(replay_data_from(v0.kd_map(), nid, Seq::empty(), 0) == Some(v0.kd_map()));
        assert(replay_data_from(v0.kd_map(), nid, rb, 0) == Some(
            data_step(v0.kd_map(), nid, 0, rec),
        ));
        assert(v2.dir =~= v0.dir.push(fresh));
        assert(spec_replay(v2.dir) == replay_seg(v0.kd_map(), fresh));
        assert(v2.active() == fresh);
        assert(data_end(rb, 0) == Some(rb.len() as int));
    }
}

/// A successful non-tombstone `set` on a consistent log leaves the log
/// consistent.
proof fn lemma_log_consistent_write(
    v0: StoreView,
    v2: StoreView,
    ts: u32,
    key: Seq<u8>,
    value: Seq<u8>,
    entry: KeydirEntry,
)
    requires
        0 <= v0.active_idx < v0.dir.len(),
        v0.active().hint is None,
        keys_ok(v0),
        log_consistent(v0),
        value != spec_tombstone(),
        key.len() <= u32::MAX,
        value.len() <= u32::MAX,
        ts >= v0.ts_floor,
        wrote_record(v0, v2, 0, ts, key, value),
        entry == new_entry(v0, ts, key, value),
        v2.kd_map() =~= v0.kd_map().insert(key, entry),
    ensures
        log_consistent(v2),
{
    let rec = RecordV { crc: 0, timestamp: ts, key, value };
    lemma_log_consistent_step(v0, v2, 0, ts, key, value);
    let off: int = if needs_rotation(v0) {
        0int
    } else {
        v0.active().data.len() as int
    };
    let stepped = data_step(v0.kd_map(), v2.active().id, off, rec);
    if v0.kd_map().contains_key(key) {
        assert(v0.kd_map()[key].timestamp <= v0.ts_floor);
    }
    assert(stepped =~= v0.kd_map().insert(key, entry));
    assert(stepped == v2.kd_map());
}

/// A successful `delete` of a live key on a consistent log leaves the
/// log consistent.
proof fn lemma_log_consistent_erase(v0: StoreView, v2: StoreView, ts: u32, key: Seq<u8>)
    requires
        0 <= v0.active_idx < v0.dir.len(),
        v0.active().hint is None,
        log_consistent(v0),
        key.len() <= u32::MAX,
        wrote_record(v0, v2, 0, ts, key, spec_tombstone()),
        v2.kd_map() =~= v0.kd_map().remove(key),
    ensures
        log_consistent(v2),
{
    let rec = RecordV { crc: 0, timestamp: ts, key, value: spec_tombstone() };
    lemma_log_consistent_step(v0, v2, 0, ts, key, spec_tombstone());
    let off: int = if needs_rotation(v0) {
        0int
    } else {
        v0.active().data.len() as int
    };
    let stepped = data_step(v0.kd_map(), v2.active().id, off, rec);
    assert(stepped =~= v0.kd_map().remove(key));
    assert(stepped == v2.kd_map());
}

/// The offset at which hint-record replay from `off` meets the end of
/// the stream, or nothing when it meets a truncated record.
pub open spec fn hint_end(s: Seq<u8>, off: int) -> Option<int>
    decreases s.len() - off,
{
    match parse_hint_at(s, off) {
        HintStep::End => Some(off),
        HintStep::Corrupt => None,
        HintStep::Rec(r) => hint_end(s, off + r.self_size()),
    }
}

/// The locator a hint file records for an entry: the same place with
/// the sentinel timestamp 0.
pub open spec fn hinted(e: KeydirEntry) -> KeydirEntry {
    KeydirEntry { timestamp: 0, ..e }
}

/// The first `j` key directory pairs with their hint-file locators.
pub open spec fn hinted_pairs(s: Seq<(Seq<u8>, KeydirEntry)>, j: int) -> Seq<
    (Seq<u8>, KeydirEntry),
> {
    s.take(j).map_values(|p: (Seq<u8>, KeydirEntry)| (p.0, hinted(p.1)))
}

/// The mapping a whole key directory denotes through hint files.
pub open spec fn hinted_map(s: Seq<(Seq<u8>, KeydirEntry)>) -> Map<Seq<u8>, KeydirEntry> {
    kd_map(hinted_pairs(s, s.len() as int))
}

/// Appending one serialized hint record to a stream whose records fill
/// it exactly extends its replay by exactly one hint step.
proof fn lemma_replay_hint_append(
    m: Map<Seq<u8>, KeydirEntry>,
    fid: u64,
    s: Seq<u8>,
    off: int,
    hr: HintRecV,
)
    requires
        0 <= off <= s.len(),
        hint_end(s, off) == Some(s.len() as int),
        hr.key.len() <= u32::MAX,
        hr.key_sz == hr.key.len(),
    ensures
        replay_hint_from(m, fid, s, off) is Some,
        hint_end(s + spec_hint_bytes(hr.offset, hr.key_sz, hr.value_sz, hr.key), off) == Some(
            s.len() + hr.self_size(),
        ),
        replay_hint_from(m, fid, s + spec_hint_bytes(hr.offset, hr.key_sz, hr.value_sz, hr.key), off)
            == Some(hint_step(replay_hint_from(m, fid, s, off)->0, fid, hr)),
    decreases s.len() - off,
{
    let hb = spec_hint_bytes(hr.offset, hr.key_sz, hr.value_sz, hr.key);
    let s2 = s + hb;
    match parse_hint_at(s, off) {
        HintStep::End => {
            assert(off == s.len());
            assert(s2.subrange(off, off + hr.self_size()) =~= hb);
            crate::format::lemma_parse_hint_bytes(s2, off, hr);
            assert(replay_hint_from(m, fid, s, off) == Some(m));
            assert(parse_hint_at(s2, off + hr.self_size()) is End);
            assert(hint_end(s2, off + hr.self_size()) == Some(off + hr.self_size()));
            let m1 = hint_step(m, fid, hr);
            assert(replay_hint_from(m1, fid, s2, off + hr.self_size()) == Some(m1));
            assert(replay_hint_from(m, fid, s2, off) == Some(m1));
        },
        HintStep::Corrupt => {
            assert(false);
        },
        HintStep::Rec(r) => {
            assert(off + r.self_size() <= s.len());
            assert(s2.subrange(off, off + r.self_size()) =~= s.subrange(off, off + r.self_size()));
            crate::format::lemma_parse_hint_local(s, s2, off, r);
            lemma_replay_hint_append(hint_step(m, fid, r), fid, s, off + r.self_size(), hr);
        },
    }
}

/// How one successful `set` of `(key, value)` relates the view before
/// (`v0`) to the view after (`v1`).
pub open spec fn set_ok(v0: StoreView, v1: StoreView, key: Seq<u8>, value: Seq<u8>) -> bool {
    let ts = v1.ts_floor;
    &&& ts >= v0.ts_floor
    &&& wrote_record(v0, v1, 0, ts, key, value)
    &&& v1.kd_map() =~= v0.kd_map().insert(key, new_entry(v0, ts, key, value))
    &&& spec_get(v1, key) == ReadResult::Value(value)
    &&& entry_sound(v1, key)
    &&& forall|k: Seq<u8>|
        k != key && entry_sound(v0, k) ==> #[trigger] spec_get(v1, k) == spec_get(v0, k)
            && entry_sound(v1, k)
    &&& forall|k: Seq<u8>|
        k != key && !v0.kd_map().contains_key(k) ==> #[trigger] spec_get(v1, k)
            == ReadResult::Absent
    &&& v1.opts == v0.opts
}

/// How one successful `delete` of a live `key` relates the view before
/// (`v0`) to the view after (`v1`).
pub open spec fn delete_ok(v0: StoreView, v1: StoreView, key: Seq<u8>) -> bool {
    let ts = v1.ts_floor;
    &&& ts >= v0.ts_floor
    &&& wrote_record(v0, v1, 0, ts, key, spec_tombstone())
    &&& v1.kd_map() =~= v0.kd_map().remove(key)
    &&& spec_get(v1, key) == ReadResult::Absent
    &&& forall|k: Seq<u8>|
        k != key && entry_sound(v0, k) ==> #[trigger] spec_get(v1, k) == spec_get(v0, k)
            && entry_sound(v1, k)
    &&& forall|k: Seq<u8>|
        k != key && !v0.kd_map().contains_key(k) ==> #[trigger] spec_get(v1, k)
            == ReadResult::Absent
    &&& v1.opts == v0.opts
}

/// Round-trip: after a successful `set` of `(key, value)`, a lookup of
/// `key` reads back exactly `value`, through a sound locator.
pub proof fn lemma_round_trip(v0: StoreView, v1: StoreView, key: Seq<u8>, value: Seq<u8>)
    requires
        set_ok(v0, v1, key, value),
    ensures
        spec_get(v1, key) == ReadResult::Value(value),
        entry_sound(v1, key),
{
}

/// Round-trip under later writes: a successful `set` of another key
/// afterwards leaves the first key reading back its value.
pub proof fn lemma_round_trip_after_other_set(
    v0: StoreView,
    v1: StoreView,
    v2: StoreView,
    key: Seq<u8>,
    value: Seq<u8>,
    key2: Seq<u8>,
    value2: Seq<u8>,
)
    requires
        set_ok(v0, v1, key, value),
        set_ok(v1, v2, key2, value2),
        key2 != key,
    ensures
        spec_get(v2, key) == ReadResult::Value(value),
        entry_sound(v2, key),
{
}

/// Delete idempotence: after a successful `delete`, the key reads back
/// absent and has left the key directory, so a second `delete` of it
/// succeeds while changing nothing.
pub proof fn lemma_delete_idempotent(v0: StoreView, v1: StoreView, key: Seq<u8>)
    requires
        delete_ok(v0, v1, key),
    ensures
        spec_get(v1, key) == ReadResult::Absent,
        !v1.kd_map().contains_key(key),
{
}

/// Last-writer-wins: after two successive successful `set`s of the
/// same key, a lookup reads back the later value.
pub proof fn lemma_last_writer_wins(
    v0: StoreView,
    v1: StoreView,
    v2: StoreView,
    key: Seq<u8>,
    first: Seq<u8>,
    second: Seq<u8>,
)
    requires
        set_ok(v0, v1, key, first),
        set_ok(v1, v2, key, second),
    ensures
        spec_get(v2, key) == ReadResult::Value(second),
{
}

/// Rotation: a `set` that finds the active segment over the threshold
/// adds a fresh segment, and every sound read of another key is
/// unchanged while the written key reads back its value.
pub proof fn lemma_rotation(v0: StoreView, v1: StoreView, key: Seq<u8>, value: Seq<u8>)
    requires
        set_ok(v0, v1, key, value),
        needs_rotation(v0),
    ensures
        v1.dir.len() == v0.dir.len() + 1,
        spec_get(v1, key) == ReadResult::Value(value),
        forall|k: Seq<u8>|
            k != key && entry_sound(v0, k) ==> #[trigger] spec_get(v1, k) == spec_get(v0, k),
{
}

/// Compaction preservation: a completed compaction leaves every sound
/// read returning what it returned before, and only the rotated active
/// segment and the compaction outputs remain.
pub proof fn lemma_compaction_preservation(v0: StoreView, v1: StoreView, k: Seq<u8>)
    requires
        compacted(v0, v1),
        entry_sound(v0, k),
    ensures
        spec_get(v1, k) == spec_get(v0, k),
        entry_sound(v1, k),
        forall|j: int| 0 <= j < v1.dir.len() ==> (#[trigger] v1.dir[j]).id > v0.dir.last().id,
{
    assert forall|j: int| 0 <= j < v1.dir.len() implies (#[trigger] v1.dir[j]).id
        > v0.dir.last().id by {
        if j >= 1 {
            assert(v1.dir[j].id >= v0.dir.last().id + 2);
        }
    }
}

/// Replay from hint: reopening a freshly compacted directory goes
/// through the hint files and yields the same live keys, each reading
/// back exactly what it read before — the hint files only locate
/// records, the data segments stay authoritative for the values.
pub proof fn lemma_reopen_after_compact(
    v1: StoreView,
    v2: StoreView,
    m: Map<Seq<u8>, KeydirEntry>,
    opts: StoreOptions,
)
    requires
        ids_ascending(v1.dir),
        v1.dir.len() >= 1,
        keys_ok(v1),
        v1.dir.last().id < u64::MAX,
        spec_replay(v1.dir) == Some(hinted_map(v1.kd)),
        m == hinted_map(v1.kd),
        open_result(v2, v1.dir, m, opts),
    ensures
        forall|k: Seq<u8>| #[trigger] spec_get(v2, k) == spec_get(v1, k),
{
    let hp = hinted_pairs(v1.kd, v1.kd.len() as int);
    assert(hp.len() == v1.kd.len());
    assert forall|i: int| 0 <= i < hp.len() implies #[trigger] hp[i] == (
        v1.kd[i].0,
        hinted(v1.kd[i].1),
    ) by {
        assert(v1.kd.take(v1.kd.len() as int)[i] == v1.kd[i]);
    }
    assert(crate::keydir::keys_unique(hp));
    let fresh = SegView { id: spec_next_id(v1.dir), data: Seq::empty(), hint: None };
    assert forall|i: int| 0 <= i < v1.dir.len() implies (#[trigger] v1.dir[i]).id < fresh.id by {
        if i < v1.dir.len() - 1 {
            assert(v1.dir[i].id < v1.dir[v1.dir.len() - 1].id);
        }
    }
    assert forall|k: Seq<u8>| #[trigger] spec_get(v2, k) == spec_get(v1, k) by {
        crate::keydir::lemma_kd_map_domain(v1.kd, k);
        crate::keydir::lemma_kd_map_domain(hp, k);
        if v1.kd_map().contains_key(k) {
            let i = choose|i: int| 0 <= i < v1.kd.len() && (#[trigger] v1.kd[i]).0 == k;
            crate::keydir::lemma_kd_map_index(v1.kd, i);
            assert(hp[i].0 == k);
            crate::keydir::lemma_kd_map_index(hp, i);
            let e = v1.kd_map()[k];
            assert(v2.kd_map()[k] == hinted(e));
            lemma_find_seg_push(v1.dir, fresh, e.file_id);
            assert(v2.dir =~= v1.dir.push(fresh));
            assert(find_seg(v2.dir, e.file_id) == find_seg(v1.dir, e.file_id));
        } else {
            assert(!crate::keydir::has_key(hp, k)) by {
                if crate::keydir::has_key(hp, k) {
                    let q = choose|q: int|
                        0 <= q < hp.len() && (#[trigger] hp[q]).0 == k;
                    assert(v1.kd[q].0 == k);
                }
            }
            assert(!v2.kd_map().contains_key(k));
        }
    }
}

/// Two directories with the same ids and data bytes position by
/// position find the same data at every id, whatever their hints say.
proof fn lemma_find_seg_same_data(dir1: Seq<SegView>, dir2: Seq<SegView>, id: u64)
    requires
        dir1.len() == dir2.len(),
        forall|i: int|
            0 <= i < dir1.len() ==> (#[trigger] dir2[i]).id == dir1[i].id && dir2[i].data
                == dir1[i].data,
    ensures
        find_seg(dir1, id) is Some <==> find_seg(dir2, id) is Some,
        (find_seg(dir1, id) is Some && find_seg(dir2, id) is Some) ==> find_seg(dir2, id)->0.data
            == find_seg(dir1, id)->0.data,
    decreases dir1.len(),
{
    if dir1.len() > 0 {
        assert(dir2[0].id == dir1[0].id);
        if dir1[0].id != id {
            assert forall|i: int| 0 <= i < dir1.drop_first().len() implies (
            #[trigger] dir2.drop_first()[i]).id == dir1.drop_first()[i].id
                && dir2.drop_first()[i].data == dir1.drop_first()[i].data by {
                assert(dir1.drop_first()[i] == dir1[i + 1]);
                assert(dir2.drop_first()[i] == dir2[i + 1]);
            }
            lemma_find_seg_same_data(dir1.drop_first(), dir2.drop_first(), id);
        }
    }
}

/// The data segments are authoritative for values: what a lookup
/// observes depends only on the key directory and the data bytes,
/// never on the hint files beside them.
pub proof fn lemma_hints_do_not_affect_reads(v1: StoreView, v2: StoreView)
    requires
        v1.kd == v2.kd,
        v1.dir.len() == v2.dir.len(),
        forall|i: int|
            0 <= i < v1.dir.len() ==> (#[trigger] v2.dir[i]).id == v1.dir[i].id && v2.dir[i].data
                == v1.dir[i].data,
    ensures
        forall|k: Seq<u8>| #[trigger] spec_get(v2, k) == spec_get(v1, k),
{
    assert forall|k: Seq<u8>| #[trigger] spec_get(v2, k) == spec_get(v1, k) by {
        if v1.kd_map().contains_key(k) {
            let e = v1.kd_map()[k];
            lemma_find_seg_same_data(v1.dir, v2.dir, e.file_id);
        }
    }
}

/// The storage engine under its key directory.
pub type Store = DiskStorage;

} // verus!
