//! The state of a store as a mathematical value, and what each operation makes
//! of it.

use crate::format::{body_header_bytes, BodyHeader, BODY_HEADER_SIZE, FILE_HEADER_SIZE};
use crate::job::BodyId;
use crate::scan::{lemma_chained, scan_in_order, sum_len, ScanEntry};
use crate::sums::map_sum;
use vstd::prelude::*;

verus! {

/// Where a body lives on disk.
#[derive(Debug, Clone, Copy, PartialEq, Eq, Structural)]
pub struct BodyLocation {
    pub seq: u64,
    /// Where the body's bytes begin, past the record's header.
    pub offset: u64,
    pub len: u32,
}

/// What is known of a segment file.
#[derive(Debug, Clone, Copy, PartialEq, Eq, Structural)]
pub struct Segment {
    /// Bytes used in the file, headers too: where the next record goes. Zero
    /// for a file that does not have its file header yet.
    pub total_bytes: u64,
    /// Body bytes that live ids still refer to.
    pub live_bytes: u64,
}

/// A body's length as its record and its location hold it: the lowest 32 bits.
pub open spec fn recorded_len(len: nat) -> u32 {
    (len % 0x1_0000_0000) as u32
}

/// Where the first record may go in a segment of which `total_bytes` are used.
pub open spec fn append_offset(total_bytes: u64) -> int {
    if total_bytes == 0 {
        FILE_HEADER_SIZE as int
    } else {
        total_bytes as int
    }
}

/// A body that is to be written.
#[verifier::ext_equal]
pub struct WriteModel {
    pub body_id: BodyId,
    pub seal: Option<u64>,
    pub create: bool,
    pub seq: u64,
    pub header_offset: u64,
    pub header: Seq<u8>,
    pub body_offset: u64,
    pub len: u64,
}

/// The state of a store.
#[verifier::ext_equal]
pub struct StoreModel {
    pub segment_size: u64,
    /// The id that the next body gets.
    pub next_body_id: u64,
    /// The segments on disk, by number.
    pub segments: Map<u64, Segment>,
    /// The segment that bodies are appended to.
    pub current_seq: Option<u64>,
    /// The number that the next segment gets.
    pub next_seq: u64,
    /// Where each live body is, by id.
    pub index: Map<u64, BodyLocation>,
}

/// Where the body of the record `e` of segment `seq` is.
pub open spec fn location_of(seq: u64, e: ScanEntry) -> BodyLocation {
    BodyLocation { seq, offset: e.body_offset, len: e.len }
}

/// What is indexed once the records `entries` of segment `seq` are taken in,
/// one after the other.
pub open spec fn index_with(
    index: Map<u64, BodyLocation>,
    seq: u64,
    entries: Seq<ScanEntry>,
) -> Map<u64, BodyLocation>
    decreases entries.len(),
{
    if entries.len() == 0 {
        index
    } else {
        let e = entries.last();
        index_with(index, seq, entries.drop_last()).insert(
            e.body_id.0,
            location_of(seq, e),
        )
    }
}

/// The least number that is at least `n` and greater than every id of
/// `entries`.
pub open spec fn next_id_after(n: u64, entries: Seq<ScanEntry>) -> u64
    decreases entries.len(),
{
    if entries.len() == 0 {
        n
    } else {
        let before = next_id_after(n, entries.drop_last());
        let id = entries.last().body_id.0;
        if id >= before {
            (id + 1) as u64
        } else {
            before
        }
    }
}

/// Whether no record has the greatest of all ids, behind which there is no next
/// one.
pub open spec fn ids_have_successors(entries: Seq<ScanEntry>) -> bool {
    forall|i: int| 0 <= i < entries.len() ==> (#[trigger] entries[i]).body_id.0 < u64::MAX
}

/// Whether every live id is below the next one.
pub open spec fn ids_below_next(m: StoreModel) -> bool {
    forall|id: u64| #[trigger] m.index.contains_key(id) ==> id < m.next_body_id
}

/// What an index holds once records are taken in: for each id the location of
/// some record that has it, and for the other ids what it held before.
pub proof fn lemma_index_with(index: Map<u64, BodyLocation>, seq: u64, entries: Seq<ScanEntry>)
    ensures
        index.dom().finite() ==> index_with(index, seq, entries).dom().finite(),
        forall|id: u64| #[trigger]
            index_with(index, seq, entries).contains_key(id) ==> ({
                ||| index.contains_key(id) && index_with(index, seq, entries)[id] == index[id]
                ||| exists|i: int|
                    0 <= i < entries.len() && index_with(index, seq, entries)[id] == location_of(
                        seq,
                        #[trigger] entries[i],
                    )
            }),
    decreases entries.len(),
{
    if entries.len() > 0 {
        let rest = entries.drop_last();
        let with = index_with(index, seq, entries);
        lemma_index_with(index, seq, rest);
        assert forall|id: u64| #[trigger] with.contains_key(id) implies ({
            ||| index.contains_key(id) && with[id] == index[id]
            ||| exists|i: int|
                0 <= i < entries.len() && with[id] == location_of(seq, #[trigger] entries[i])
        }) by {
            if id == entries.last().body_id.0 {
                assert(with[id] == location_of(seq, entries[entries.len() - 1]));
            } else {
                assert(index_with(index, seq, rest).contains_key(id));
                if !(index.contains_key(id) && with[id] == index[id]) {
                    let i = choose|i: int|
                        0 <= i < rest.len() && with[id] == location_of(seq, #[trigger] rest[i]);
                    assert(entries[i] == rest[i]);
                }
            }
        }
    }
}

/// Taking in a segment behind all others keeps the store in order.
pub proof fn lemma_with_segment_wf(
    m: StoreModel,
    seq: u64,
    entries: Seq<ScanEntry>,
    consumed: u64,
)
    requires
        m.wf(),
        seq < u64::MAX,
        forall|s: u64| #[trigger] m.segments.contains_key(s) ==> s < seq,
        scan_in_order(entries, consumed),
    ensures
        m.with_segment(seq, entries, consumed).wf(),
        sum_len(entries) <= consumed,
{
    if consumed > 0 {
        lemma_chained(entries, FILE_HEADER_SIZE as int, consumed as int);
    }
    lemma_index_with(m.index, seq, entries);
}

/// The ids of records are below the next one.
pub proof fn lemma_next_id_after(n: u64, entries: Seq<ScanEntry>)
    requires
        ids_have_successors(entries),
    ensures
        n <= next_id_after(n, entries),
        forall|i: int|
            0 <= i < entries.len() ==> (#[trigger] entries[i]).body_id.0 < next_id_after(
                n,
                entries,
            ),
    decreases entries.len(),
{
    if entries.len() > 0 {
        let rest = entries.drop_last();
        assert forall|i: int| 0 <= i < rest.len() implies (#[trigger] rest[i]).body_id.0
            < u64::MAX by {
            assert(rest[i] == entries[i]);
        }
        lemma_next_id_after(n, rest);
        assert(entries.last() == entries[entries.len() - 1]);
        assert forall|i: int| 0 <= i < entries.len() implies (#[trigger] entries[i]).body_id.0
            < next_id_after(n, entries) by {
            if i < rest.len() {
                assert(rest[i] == entries[i]);
            }
        }
    }
}

impl StoreModel {
    /// A store without segments.
    pub open spec fn empty(segment_size: u64) -> Self {
        StoreModel {
            segment_size,
            next_body_id: 0,
            segments: Map::empty(),
            current_seq: None,
            next_seq: 0,
            index: Map::empty(),
        }
    }

    pub open spec fn wf(self) -> bool {
        &&& self.segments.dom().finite()
        &&& self.index.dom().finite()
        &&& forall|seq: u64| #[trigger]
            self.segments.contains_key(seq) ==> {
                let s = self.segments[seq];
                &&& seq < self.next_seq
                &&& s.total_bytes == 0 && s.live_bytes == 0 || s.total_bytes >= FILE_HEADER_SIZE
                    && s.live_bytes <= s.total_bytes - FILE_HEADER_SIZE
            }
        &&& match self.current_seq {
            None => forall|seq: u64| !self.segments.contains_key(seq),
            Some(current) => {
                &&& self.segments.contains_key(current)
                &&& forall|seq: u64| #[trigger]
                    self.segments.contains_key(seq) ==> seq <= current
            },
        }
        &&& forall|id: u64| #[trigger]
            self.index.contains_key(id) ==> {
                let loc = self.index[id];
                &&& self.segments.contains_key(loc.seq)
                &&& loc.offset >= FILE_HEADER_SIZE + BODY_HEADER_SIZE
                &&& loc.offset + loc.len <= self.segments[loc.seq].total_bytes
            }
    }

    /// Whether a body of `len` bytes goes into a new segment: there is none
    /// yet, or the current one would grow beyond the segment size.
    pub open spec fn needs_rotation(self, len: nat) -> bool {
        match self.current_seq {
            None => true,
            Some(current) => append_offset(self.segments[current].total_bytes) + BODY_HEADER_SIZE
                + len > self.segment_size,
        }
    }

    /// Whether the numbers that writing a body of `len` bytes takes exist: the
    /// end of a record at the start of a segment, and the next segment's number
    /// where there is to be one.
    pub open spec fn has_numbers_for(self, len: nat) -> bool {
        &&& FILE_HEADER_SIZE + BODY_HEADER_SIZE + len <= u64::MAX
        &&& self.needs_rotation(len) ==> self.next_seq < u64::MAX
    }

    /// How a body of `len` bytes with the checksum `crc` is to be written.
    pub open spec fn write_of(self, len: nat, crc: u32) -> WriteModel {
        let rotate = self.needs_rotation(len);
        let total_bytes = if rotate {
            0
        } else {
            self.segments[self.current_seq->0].total_bytes
        };
        WriteModel {
            body_id: BodyId(self.next_body_id),
            seal: if rotate {
                self.current_seq
            } else {
                None
            },
            create: total_bytes == 0,
            seq: if rotate {
                self.next_seq
            } else {
                self.current_seq->0
            },
            header_offset: append_offset(total_bytes) as u64,
            header: body_header_bytes(
                BodyHeader { body_id: BodyId(self.next_body_id), len: recorded_len(len), crc },
            ),
            body_offset: (append_offset(total_bytes) + BODY_HEADER_SIZE) as u64,
            len: len as u64,
        }
    }

    /// The store once that write is begun: its id, and the number of the new
    /// segment if it needs one, are given away, whatever comes of it.
    pub open spec fn begun(self, len: nat) -> Self {
        StoreModel {
            next_body_id: if self.next_body_id == u64::MAX {
                0
            } else {
                (self.next_body_id + 1) as u64
            },
            next_seq: if self.needs_rotation(len) {
                (self.next_seq + 1) as u64
            } else {
                self.next_seq
            },
            ..self
        }
    }

    /// Whether segment `seq` can be started: it has a number given away behind
    /// those of all others, or it is the last one and still empty.
    pub open spec fn can_start(self, seq: u64) -> bool {
        &&& seq < self.next_seq
        &&& forall|s: u64| #[trigger] self.segments.contains_key(s) ==> s <= seq
        &&& self.segments.contains_key(seq) ==> self.segments[seq].total_bytes == 0
    }

    /// The store once segment `seq` has its file header.
    pub open spec fn started(self, seq: u64) -> Self {
        StoreModel {
            segments: self.segments.insert(
                seq,
                Segment { total_bytes: FILE_HEADER_SIZE as u64, live_bytes: 0 },
            ),
            current_seq: Some(seq),
            ..self
        }
    }

    /// Whether `w` goes right behind the last record of its segment.
    pub open spec fn has_place_for(self, w: WriteModel) -> bool {
        &&& self.segments.contains_key(w.seq)
        &&& self.segments[w.seq].total_bytes == w.header_offset
        &&& w.header_offset >= FILE_HEADER_SIZE
        &&& w.body_offset == w.header_offset + BODY_HEADER_SIZE
        &&& w.body_offset + w.len <= u64::MAX
    }

    /// The store once the record of `w` is written.
    pub open spec fn written(self, w: WriteModel) -> Self {
        StoreModel {
            segments: self.segments.insert(
                w.seq,
                Segment {
                    total_bytes: (w.body_offset + w.len) as u64,
                    live_bytes: (self.segments[w.seq].live_bytes + w.len) as u64,
                },
            ),
            index: self.index.insert(
                w.body_id.0,
                BodyLocation {
                    seq: w.seq,
                    offset: w.body_offset,
                    len: recorded_len(w.len as nat),
                },
            ),
            ..self
        }
    }

    /// The store once `id` is no longer referred to.
    pub open spec fn deleted(self, id: u64) -> Self {
        if self.index.contains_key(id) {
            let loc = self.index[id];
            let s = self.segments[loc.seq];
            StoreModel {
                segments: self.segments.insert(
                    loc.seq,
                    Segment {
                        live_bytes: if s.live_bytes >= loc.len {
                            (s.live_bytes - loc.len) as u64
                        } else {
                            0
                        },
                        ..s
                    },
                ),
                index: self.index.remove(id),
                ..self
            }
        } else {
            self
        }
    }

    /// The store once segment `seq`, behind all others, is found to hold
    /// `entries` up to `consumed`.
    pub open spec fn with_segment(self, seq: u64, entries: Seq<ScanEntry>, consumed: u64) -> Self {
        StoreModel {
            segment_size: self.segment_size,
            next_body_id: next_id_after(self.next_body_id, entries),
            segments: self.segments.insert(
                seq,
                Segment { total_bytes: consumed, live_bytes: sum_len(entries) as u64 },
            ),
            current_seq: Some(seq),
            next_seq: (seq + 1) as u64,
            index: index_with(self.index, seq, entries),
        }
    }

    /// The bytes used in each segment.
    pub open spec fn totals(self) -> Map<u64, nat> {
        self.segments.map_values(|s: Segment| s.total_bytes as nat)
    }

    /// The body bytes in each segment that live ids refer to.
    pub open spec fn lives(self) -> Map<u64, nat> {
        self.segments.map_values(|s: Segment| s.live_bytes as nat)
    }

    /// The bytes used in all segments.
    pub open spec fn total_bytes(self) -> nat {
        map_sum(self.totals())
    }

    /// The body bytes in all segments that live ids refer to.
    pub open spec fn live_bytes(self) -> nat {
        map_sum(self.lives())
    }
}

} // verus!
