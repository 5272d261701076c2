//! The store: which bodies there are, where they are, and where the next one
//! goes.
//!
//! Each operation that touches the disk comes in steps. The store says what is
//! to be read or written; the caller does it and reports back when it has
//! succeeded. When it fails, the caller reports nothing and gives up the
//! operation.

use crate::checksum::crc32;
use crate::error::{BodyStoreError, ErrorModel};
use crate::format::{
    decode_body_header, encode_body_header, parse_body_header, BodyHeader, BODY_HEADER_SIZE,
    FILE_HEADER_SIZE,
};
use crate::job::BodyId;
use crate::model::{
    ids_have_successors, index_with, lemma_with_segment_wf, next_id_after, BodyLocation, Segment,
    StoreModel, WriteModel,
};
use crate::scan::{sum_len, ScanEntry, SegmentScan};
use crate::sums::{lemma_listed_sum, listed_sum, map_sum};
use std::collections::{BTreeMap, HashMap};
use vstd::prelude::*;

verus! {

broadcast use {
    vstd::std_specs::btree::group_btree_axioms,
    vstd::std_specs::hash::group_hash_axioms,
};

/// A body that is to be written, and where.
///
/// First, if there is a segment to seal, its file is synced. Then, if the
/// segment is to be created, its file is created or emptied, given the file
/// header and synced, and [`BodyStore::segment_started`] is told. Then the file
/// is cut off at `header_offset`, so that nothing of an incomplete record is left
/// that could be taken for records later. Then the header and the body are
/// written at their offsets, and [`BodyStore::body_written`] is told.
#[derive(Debug)]
pub struct BodyWrite {
    pub body_id: BodyId,
    /// The segment that gets no more records after this.
    pub seal: Option<u64>,
    /// Whether the segment has to be given its file header first.
    pub create: bool,
    /// The segment that the record goes into.
    pub seq: u64,
    pub header_offset: u64,
    pub header: Vec<u8>,
    pub body_offset: u64,
    /// Bytes of the body.
    pub len: u64,
}

impl View for BodyWrite {
    type V = WriteModel;

    open spec fn view(&self) -> WriteModel {
        WriteModel {
            body_id: self.body_id,
            seal: self.seal,
            create: self.create,
            seq: self.seq,
            header_offset: self.header_offset,
            header: self.header@,
            body_offset: self.body_offset,
            len: self.len,
        }
    }
}

/// A store of bodies in numbered segment files.
#[derive(Debug)]
pub struct BodyStore {
    segment_size: u64,
    next_body_id: u64,
    segments: BTreeMap<u64, Segment>,
    current_seq: Option<u64>,
    next_seq: u64,
    index: HashMap<u64, BodyLocation>,
}

impl View for BodyStore {
    type V = StoreModel;

    closed spec fn view(&self) -> StoreModel {
        StoreModel {
            segment_size: self.segment_size,
            next_body_id: self.next_body_id,
            segments: self.segments@,
            current_seq: self.current_seq,
            next_seq: self.next_seq,
            index: self.index@,
        }
    }
}

/// What reading the body `id` comes to, when its record has the header bytes
/// `header` and the body bytes `body`.
pub open spec fn read_outcome(
    index: Map<u64, BodyLocation>,
    id: BodyId,
    header: Seq<u8>,
    body: Seq<u8>,
) -> Result<Seq<u8>, ErrorModel> {
    if !index.contains_key(id.0) {
        Err(ErrorModel::NotFound(id))
    } else {
        checked_body(id, parse_body_header(header).crc, crc32(body), body)
    }
}

/// The body bytes, if the checksum that was recorded is the one that was found.
pub open spec fn checked_body(id: BodyId, expected: u32, found: u32, body: Seq<u8>) -> Result<
    Seq<u8>,
    ErrorModel,
> {
    if found != expected {
        Err(ErrorModel::BadCrc { expected, found, body_id: id })
    } else {
        Ok(body)
    }
}

/// Hands out `body` if the checksum that was recorded is the one that was
/// found.
pub fn check_body(id: BodyId, expected: u32, found: u32, body: Vec<u8>) -> (result: Result<
    Vec<u8>,
    BodyStoreError,
>)
    ensures
        match checked_body(id, expected, found, body@) {
            Ok(bytes) => result matches Ok(v) && v@ == bytes,
            Err(e) => result matches Err(error) && error@ == e,
        },
{
    if found != expected {
        return Err(BodyStoreError::BadCrc { expected, found, body_id: id });
    }
    Ok(body)
}

/// Which of a segment's two counts is meant.
#[derive(Clone, Copy, PartialEq, Eq, Structural)]
enum Count {
    Total,
    Live,
}

impl Count {
    /// This count of each segment.
    spec fn of_segments(self, m: StoreModel) -> Map<u64, nat> {
        match self {
            Count::Total => m.totals(),
            Count::Live => m.lives(),
        }
    }
}

/// Whether `keys` are the numbers of `segments`, each once, and `list` the
/// segments in that order.
spec fn lists(segments: Map<u64, Segment>, keys: Seq<u64>, list: Seq<Segment>) -> bool {
    &&& keys.no_duplicates()
    &&& keys.to_set() == segments.dom()
    &&& list.len() == keys.len()
    &&& forall|i: int|
        0 <= i < list.len() ==> segments.contains_key(#[trigger] keys[i]) && list[i]
            == segments[keys[i]]
}

proof fn lemma_sum_len_prefix(entries: Seq<ScanEntry>, n: int)
    requires
        0 <= n <= entries.len(),
    ensures
        sum_len(entries.take(n)) <= sum_len(entries),
    decreases entries.len() - n,
{
    if n < entries.len() {
        lemma_sum_len_prefix(entries, n + 1);
        assert(entries.take(n + 1).drop_last() =~= entries.take(n));
    } else {
        assert(entries.take(n) =~= entries);
    }
}

proof fn lemma_prefix_sum(values: Map<u64, nat>, keys: Seq<u64>, n: int)
    requires
        0 <= n <= keys.len(),
    ensures
        listed_sum(values, keys.take(n)) <= listed_sum(values, keys),
        n > 0 ==> listed_sum(values, keys.take(n)) == listed_sum(values, keys.take(n - 1))
            + values[keys[n - 1]],
    decreases keys.len() - n,
{
    if n > 0 {
        assert(keys.take(n).drop_last() =~= keys.take(n - 1));
    }
    if n < keys.len() {
        lemma_prefix_sum(values, keys, n + 1);
    } else {
        assert(keys.take(n) =~= keys);
    }
}

impl BodyLocation {
    /// Where the header of the body's record is: right in front of the body.
    pub fn header_offset(&self) -> (offset: u64)
        requires
            self.offset >= BODY_HEADER_SIZE,
        ensures
            offset == self.offset - BODY_HEADER_SIZE,
    {
        self.offset - BODY_HEADER_SIZE as u64
    }
}

impl BodyStore {
    /// A store without segments.
    pub(crate) fn without_segments(segment_size: u64) -> (store: BodyStore)
        ensures
            store@ == StoreModel::empty(segment_size),
            store@.wf(),
    {
        let store = BodyStore {
            segment_size,
            next_body_id: 0,
            segments: BTreeMap::new(),
            current_seq: None,
            next_seq: 0,
            index: HashMap::new(),
        };
        proof {
            assert(store@ =~= StoreModel::empty(segment_size));
        }
        store
    }

    /// Takes in what segment `seq` was found to hold.
    pub(crate) fn add_segment(&mut self, seq: u64, scan: &SegmentScan)
        requires
            old(self)@.wf(),
            seq < u64::MAX,
            forall|s: u64| #[trigger] old(self)@.segments.contains_key(s) ==> s < seq,
            scan.wf(),
            ids_have_successors(scan.entries@),
        ensures
            final(self)@ == old(self)@.with_segment(seq, scan.entries@, scan.consumed),
            final(self)@.wf(),
    {
        let ghost before = self@;
        let ghost entries = scan.entries@;
        proof {
            lemma_with_segment_wf(before, seq, entries, scan.consumed);
            assert(entries.take(0) =~= Seq::empty());
        }
        let mut live_bytes: u64 = 0;
        let mut i: usize = 0;
        while i < scan.entries.len()
            invariant
                i <= entries.len(),
                entries == scan.entries@,
                ids_have_successors(entries),
                sum_len(entries) <= u64::MAX,
                live_bytes == sum_len(entries.take(i as int)),
                self@ == (StoreModel {
                    next_body_id: next_id_after(before.next_body_id, entries.take(i as int)),
                    index: index_with(before.index, seq, entries.take(i as int)),
                    ..before
                }),
            decreases entries.len() - i,
        {
            let e = scan.entries[i];
            proof {
                assert(entries.take(i + 1).drop_last() =~= entries.take(i as int));
                assert(entries.take(i + 1).last() == entries[i as int]);
                lemma_sum_len_prefix(entries, i + 1);
            }
            if e.body_id.0 >= self.next_body_id {
                self.next_body_id = e.body_id.0 + 1;
            }
            live_bytes = live_bytes + e.len as u64;
            self.index.insert(
                e.body_id.0,
                BodyLocation { seq, offset: e.body_offset, len: e.len },
            );
            i = i + 1;
            proof {
                assert(self@ =~= StoreModel {
                    next_body_id: next_id_after(before.next_body_id, entries.take(i as int)),
                    index: index_with(before.index, seq, entries.take(i as int)),
                    ..before
                });
            }
        }
        self.segments.insert(seq, Segment { total_bytes: scan.consumed, live_bytes });
        self.current_seq = Some(seq);
        self.next_seq = seq + 1;
        proof {
            assert(entries.take(i as int) =~= entries);
            assert(self@ =~= before.with_segment(seq, entries, scan.consumed));
        }
    }

    /// Whether a body of `len` bytes goes into a new segment.
    fn needs_rotation(&self, len: u64) -> (rotate: bool)
        requires
            self@.wf(),
        ensures
            rotate == self@.needs_rotation(len as nat),
    {
        match self.current_seq {
            None => true,
            Some(current) => {
                let total_bytes: u64 = match self.segments.get(&current) {
                    Some(s) => s.total_bytes,
                    None => 0,
                };
                let start: u64 = if total_bytes == 0 {
                    FILE_HEADER_SIZE as u64
                } else {
                    total_bytes
                };
                start as u128 + BODY_HEADER_SIZE as u128 + len as u128 > self.segment_size as u128
            },
        }
    }

    /// Whether the numbers that writing a body of `len` bytes takes exist.
    pub fn has_numbers_for(&self, len: usize) -> (fits: bool)
        requires
            self@.wf(),
        ensures
            fits == self@.has_numbers_for(len as nat),
    {
        let space: u64 = u64::MAX - (FILE_HEADER_SIZE as u64 + BODY_HEADER_SIZE as u64);
        if len as u64 > space {
            return false;
        }
        self.next_seq < u64::MAX || !self.needs_rotation(len as u64)
    }

    /// Begins to write `bytes`, into the current segment or, if that would grow
    /// beyond the segment size, into a new one.
    pub fn write_body(&mut self, bytes: &[u8]) -> (write: BodyWrite)
        requires
            old(self)@.wf(),
            old(self)@.has_numbers_for(bytes@.len()),
        ensures
            write@ == old(self)@.write_of(bytes@.len(), crc32(bytes@)),
            final(self)@ == old(self)@.begun(bytes@.len()),
            final(self)@.wf(),
            write.create ==> final(self)@.can_start(write.seq) && final(self)@.started(
                write.seq,
            ).has_place_for(write@),
            !write.create ==> final(self)@.has_place_for(write@),
    {
        let crc = crc32fast::hash(bytes);
        self.begin_write(bytes.len(), crc)
    }

    /// Begins to write a body of `len` bytes with the checksum `crc`.
    pub fn begin_write(&mut self, len: usize, crc: u32) -> (write: BodyWrite)
        requires
            old(self)@.wf(),
            old(self)@.has_numbers_for(len as nat),
        ensures
            write@ == old(self)@.write_of(len as nat, crc),
            final(self)@ == old(self)@.begun(len as nat),
            final(self)@.wf(),
            write.create ==> final(self)@.can_start(write.seq) && final(self)@.started(
                write.seq,
            ).has_place_for(write@),
            !write.create ==> final(self)@.has_place_for(write@),
    {
        let ghost before = self@;
        let rotate = self.needs_rotation(len as u64);
        let body_id = BodyId(self.next_body_id);
        self.next_body_id = self.next_body_id.wrapping_add(1);
        let mut seal: Option<u64> = None;
        let mut seq: u64 = self.next_seq;
        let mut total_bytes: u64 = 0;
        if rotate {
            seal = self.current_seq;
            self.next_seq = self.next_seq + 1;
        } else if let Some(current) = self.current_seq {
            seq = current;
            if let Some(s) = self.segments.get(&current) {
                total_bytes = s.total_bytes;
            }
        }
        let header_offset: u64 = if total_bytes == 0 {
            FILE_HEADER_SIZE as u64
        } else {
            total_bytes
        };
        let header = encode_body_header(
            BodyHeader { body_id, len: (len as u64 % 0x1_0000_0000) as u32, crc },
        );
        let write = BodyWrite {
            body_id,
            seal,
            create: total_bytes == 0,
            seq,
            header_offset,
            header,
            body_offset: header_offset + BODY_HEADER_SIZE as u64,
            len: len as u64,
        };
        proof {
            assert(self@ =~= before.begun(len as nat));
            assert(write@ =~= before.write_of(len as nat, crc));
        }
        write
    }

    /// Takes note that segment `seq` has been given its file header, and makes
    /// it the one that bodies are appended to.
    pub fn segment_started(&mut self, seq: u64)
        requires
            old(self)@.wf(),
            old(self)@.can_start(seq),
        ensures
            final(self)@ == old(self)@.started(seq),
            final(self)@.wf(),
    {
        let ghost before = self@;
        self.segments.insert(
            seq,
            Segment { total_bytes: FILE_HEADER_SIZE as u64, live_bytes: 0 },
        );
        self.current_seq = Some(seq);
        proof {
            assert(self@ =~= before.started(seq));
        }
    }

    /// Takes note that the record of `write` has been written.
    pub fn body_written(&mut self, write: &BodyWrite) -> (id: BodyId)
        requires
            old(self)@.wf(),
            old(self)@.has_place_for(write@),
        ensures
            id == write.body_id,
            final(self)@ == old(self)@.written(write@),
            final(self)@.wf(),
    {
        let ghost before = self@;
        let live_bytes: u64 = match self.segments.get(&write.seq) {
            Some(s) => s.live_bytes,
            None => 0,
        };
        self.segments.insert(
            write.seq,
            Segment {
                total_bytes: write.body_offset + write.len,
                live_bytes: live_bytes + write.len,
            },
        );
        self.index.insert(
            write.body_id.0,
            BodyLocation {
                seq: write.seq,
                offset: write.body_offset,
                len: (write.len % 0x1_0000_0000) as u32,
            },
        );
        proof {
            assert(self@ =~= before.written(write@));
        }
        write.body_id
    }

    /// Where the body `id` is.
    pub fn locate(&self, id: BodyId) -> (result: Result<BodyLocation, BodyStoreError>)
        ensures
            match result {
                Ok(location) => self@.index.contains_key(id.0) && location == self@.index[id.0],
                Err(error) => !self@.index.contains_key(id.0) && error@ == ErrorModel::NotFound(id),
            },
    {
        match self.index.get(&id.0) {
            Some(location) => Ok(*location),
            None => Err(BodyStoreError::NotFound(id)),
        }
    }

    /// Hands out the body `id` once the header of its record and its bytes have
    /// been read, if the bytes have the checksum that was recorded with them.
    pub fn read_body(&self, id: BodyId, header: &[u8], body: Vec<u8>) -> (result: Result<
        Vec<u8>,
        BodyStoreError,
    >)
        requires
            header@.len() == BODY_HEADER_SIZE,
        ensures
            match read_outcome(self@.index, id, header@, body@) {
                Ok(bytes) => result matches Ok(v) && v@ == bytes,
                Err(e) => result matches Err(error) && error@ == e,
            },
    {
        match self.index.get(&id.0) {
            None => Err(BodyStoreError::NotFound(id)),
            Some(_) => {
                let expected = decode_body_header(header).crc;
                let found = crc32fast::hash(body.as_slice());
                check_body(id, expected, found, body)
            },
        }
    }

    /// Takes note that the body `id` is no longer referred to. An id that is
    /// not there changes nothing.
    pub fn delete(&mut self, id: BodyId)
        requires
            old(self)@.wf(),
        ensures
            final(self)@ == old(self)@.deleted(id.0),
            final(self)@.wf(),
    {
        let ghost before = self@;
        if let Some(location) = self.index.remove(&id.0) {
            let segment: Option<Segment> = match self.segments.get(&location.seq) {
                Some(s) => Some(*s),
                None => None,
            };
            if let Some(s) = segment {
                self.segments.insert(
                    location.seq,
                    Segment {
                        total_bytes: s.total_bytes,
                        live_bytes: s.live_bytes.saturating_sub(location.len as u64),
                    },
                );
            }
        }
        proof {
            assert(self@ =~= before.deleted(id.0));
        }
    }

    /// The segment whose file has to be synced for all bodies written so far to
    /// be durable. The others were synced when they were sealed.
    pub fn fsync(&self) -> (seq: Option<u64>)
        ensures
            seq == self@.current_seq,
    {
        self.current_seq
    }

    /// The segments in a listing.
    fn listing(&self) -> (list: Vec<Segment>)
        ensures
            exists|keys: Seq<u64>| #[trigger] lists(self@.segments, keys, list@),
    {
        let values = self.segments.values();
        let ghost keys = choose|keys: Seq<u64>|
            {
                &&& vstd::std_specs::btree::increasing_seq(keys)
                &&& keys.to_set() == self.segments@.dom()
                &&& keys.no_duplicates()
                &&& vstd::std_specs::iter::IteratorSpec::remaining(&values) == keys.map(
                    |i: int, k: u64| &self.segments@[k],
                )
            };
        let mut list: Vec<Segment> = Vec::new();
        for s in it: values
            invariant
                it.seq() == keys.map(|i: int, k: u64| &self.segments@[k]),
                list@.len() == it.index(),
                forall|i: int|
                    0 <= i < it.index() ==> list@[i] == self.segments@[#[trigger] keys[i]],
        {
            list.push(*s);
        }
        proof {
            assert(lists(self@.segments, keys, list@));
        }
        list
    }

    /// The sum of one count over all segments, or `None` if it does not fit in 64
    /// bits.
    fn checked_sum(&self, count: Count) -> (sum: Option<u64>)
        ensures
            match sum {
                Some(n) => n == map_sum(count.of_segments(self@)),
                None => map_sum(count.of_segments(self@)) > u64::MAX,
            },
    {
        let list = self.listing();
        let ghost keys = choose|keys: Seq<u64>| #[trigger] lists(self@.segments, keys, list@);
        let ghost counts = count.of_segments(self@);
        let mut sum: u64 = 0;
        let mut i: usize = 0;
        proof {
            assert(counts.dom() =~= self@.segments.dom());
            lemma_listed_sum(counts, keys);
            assert(keys.take(0).len() == 0);
        }
        while i < list.len()
            invariant
                i <= list@.len(),
                lists(self@.segments, keys, list@),
                counts == count.of_segments(self@),
                listed_sum(counts, keys) == map_sum(counts),
                sum == listed_sum(counts, keys.take(i as int)),
            decreases list@.len() - i,
        {
            proof {
                lemma_prefix_sum(counts, keys, i as int);
                lemma_prefix_sum(counts, keys, i + 1);
                assert(self@.segments.contains_key(keys[i as int]));
            }
            let bytes: u64 = match count {
                Count::Total => list[i].total_bytes,
                Count::Live => list[i].live_bytes,
            };
            if sum > u64::MAX - bytes {
                return None;
            }
            sum = sum + bytes;
            i = i + 1;
        }
        proof {
            assert(keys.take(i as int) =~= keys);
        }
        Some(sum)
    }

    /// Bytes used in all segment files, headers and bodies, or `None` if they
    /// cannot be counted in 64 bits.
    pub fn checked_total_bytes(&self) -> (total: Option<u64>)
        ensures
            match total {
                Some(n) => n == self@.total_bytes(),
                None => self@.total_bytes() > u64::MAX,
            },
    {
        self.checked_sum(Count::Total)
    }

    /// Bytes used in all segment files, headers and bodies.
    pub fn total_bytes(&self) -> (total: u64)
        requires
            self@.total_bytes() <= u64::MAX,
        ensures
            total == self@.total_bytes(),
    {
        match self.checked_total_bytes() {
            Some(total) => total,
            None => 0,
        }
    }

    /// Body bytes that live ids still refer to, or `None` if they cannot be
    /// counted in 64 bits.
    pub fn checked_live_bytes(&self) -> (live: Option<u64>)
        ensures
            match live {
                Some(n) => n == self@.live_bytes(),
                None => self@.live_bytes() > u64::MAX,
            },
    {
        self.checked_sum(Count::Live)
    }

    /// Body bytes that live ids still refer to.
    pub fn live_bytes(&self) -> (live: u64)
        requires
            self@.live_bytes() <= u64::MAX,
        ensures
            live == self@.live_bytes(),
    {
        match self.checked_live_bytes() {
            Some(live) => live,
            None => 0,
        }
    }

    /// Number of segments on disk.
    pub fn segment_count(&self) -> (count: usize)
        ensures
            count == self@.segments.len(),
    {
        self.segments.len()
    }
}

} // verus!
