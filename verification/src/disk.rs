//! The bytes on disk, and what the store's reads and writes do with them.

use crate::checksum::crc32;
use crate::error::ErrorModel;
use crate::format::{file_header_bytes, BodyHeader, BODY_HEADER_SIZE, FILE_HEADER_SIZE};
use crate::job::BodyId;
use crate::model::{ids_have_successors, location_of, BodyLocation, StoreModel, WriteModel};
use crate::names::ascending;
use crate::scan::{header_at, records_end, scan_spec, ScanEntry};
use crate::store::read_outcome;
use vstd::prelude::*;

verus! {

/// The disk once segment `seq` has been created or emptied and given its file
/// header. A disk is the bytes of each segment file, by the segment's number.
pub open spec fn disk_started(disk: Map<u64, Seq<u8>>, seq: u64) -> Map<u64, Seq<u8>> {
    disk.insert(seq, file_header_bytes())
}

/// The disk once the record of `w` has been written: the file is cut off where
/// the record goes, and the record is written behind what remains.
pub open spec fn disk_written(
    disk: Map<u64, Seq<u8>>,
    w: WriteModel,
    body: Seq<u8>,
) -> Map<u64, Seq<u8>> {
    disk.insert(w.seq, disk[w.seq].take(w.header_offset as int) + w.header + body)
}

/// The disk once `body` has been written to a store in state `m`, with all that
/// belongs to it.
pub open spec fn disk_after(m: StoreModel, disk: Map<u64, Seq<u8>>, body: Seq<u8>) -> Map<
    u64,
    Seq<u8>,
> {
    let w = m.write_of(body.len(), crc32(body));
    disk_written(
        if w.create {
            disk_started(disk, w.seq)
        } else {
            disk
        },
        w,
        body,
    )
}

/// The store once `body` has been written to it, with all that belongs to it.
pub open spec fn store_after(m: StoreModel, body: Seq<u8>) -> StoreModel {
    let w = m.write_of(body.len(), crc32(body));
    let begun = m.begun(body.len());
    if w.create {
        begun.started(w.seq).written(w)
    } else {
        begun.written(w)
    }
}

/// The disk when writing `body` stops with `done` bytes of its record written.
pub open spec fn disk_stopped(
    m: StoreModel,
    disk: Map<u64, Seq<u8>>,
    body: Seq<u8>,
    done: int,
) -> Map<u64, Seq<u8>> {
    let w = m.write_of(body.len(), crc32(body));
    disk.insert(w.seq, disk_after(m, disk, body)[w.seq].take(w.header_offset + done))
}

/// The store when writing `body` stops before its record is complete.
pub open spec fn store_stopped(m: StoreModel, body: Seq<u8>) -> StoreModel {
    let w = m.write_of(body.len(), crc32(body));
    let begun = m.begun(body.len());
    if w.create {
        begun.started(w.seq)
    } else {
        begun
    }
}

/// What reading the body `id` comes to.
pub open spec fn disk_read(m: StoreModel, disk: Map<u64, Seq<u8>>, id: BodyId) -> Result<
    Seq<u8>,
    ErrorModel,
> {
    let loc = m.index[id.0];
    read_outcome(m.index, id, header_bytes_of(disk, loc), body_bytes_of(disk, loc))
}

/// The header bytes in front of a location.
pub open spec fn header_bytes_of(disk: Map<u64, Seq<u8>>, loc: BodyLocation) -> Seq<u8> {
    disk[loc.seq].subrange(loc.offset - BODY_HEADER_SIZE, loc.offset as int)
}

/// The body bytes at a location.
pub open spec fn body_bytes_of(disk: Map<u64, Seq<u8>>, loc: BodyLocation) -> Seq<u8> {
    disk[loc.seq].subrange(loc.offset as int, loc.offset + loc.len)
}

/// Whether the disk has every byte that the store counts as used.
pub open spec fn backs(disk: Map<u64, Seq<u8>>, m: StoreModel) -> bool {
    forall|seq: u64| #[trigger]
        m.segments.contains_key(seq) ==> disk.contains_key(seq) && disk[seq].len()
            >= m.segments[seq].total_bytes
}

/// Whether the two disks hold the same in the bytes that the store counts as
/// used.
pub open spec fn same_used_bytes(
    m: StoreModel,
    a: Map<u64, Seq<u8>>,
    b: Map<u64, Seq<u8>>,
) -> bool {
    &&& backs(a, m)
    &&& backs(b, m)
    &&& forall|seq: u64, i: int|
        m.segments.contains_key(seq) && 0 <= i < m.segments[seq].total_bytes
            ==> #[trigger] a[seq][i] == #[trigger] b[seq][i]
}

/// Whether the record at `loc` is that of the body `id`, with a checksum that
/// matches its bytes.
pub open spec fn intact(disk: Map<u64, Seq<u8>>, id: u64, loc: BodyLocation) -> bool {
    &&& disk.contains_key(loc.seq)
    &&& loc.offset >= BODY_HEADER_SIZE
    &&& loc.offset + loc.len <= disk[loc.seq].len()
    &&& header_at(disk[loc.seq], loc.offset - BODY_HEADER_SIZE) == (BodyHeader {
        body_id: BodyId(id),
        len: loc.len,
        crc: crc32(body_bytes_of(disk, loc)),
    })
}

/// The complete records of a segment file.
pub open spec fn segment_entries(image: Seq<u8>) -> Seq<ScanEntry> {
    match scan_spec(image) {
        Ok((entries, _)) => entries,
        Err(_) => Seq::empty(),
    }
}

/// Whether a segment file is in order and has nothing behind its last complete
/// record.
pub open spec fn tidy(image: Seq<u8>) -> bool {
    scan_spec(image) matches Ok((_, end)) && end == image.len()
}

/// Whether `loc` is the last record on disk that has the id `id`: the last in
/// its segment, with none in a later segment.
pub open spec fn latest(disk: Map<u64, Seq<u8>>, id: u64, loc: BodyLocation) -> bool {
    &&& disk.contains_key(loc.seq)
    &&& exists|i: int|
        0 <= i < segment_entries(disk[loc.seq]).len() && is_last_record(
            segment_entries(disk[loc.seq]),
            i,
            id,
        ) && location_of(loc.seq, #[trigger] segment_entries(disk[loc.seq])[i]) == loc
    &&& forall|seq: u64|
        loc.seq < seq && #[trigger] disk.contains_key(seq) ==> lacks(
            segment_entries(disk[seq]),
            id,
        )
}

/// Whether the record number `i` is the last one with the id `id`.
pub open spec fn is_last_record(entries: Seq<ScanEntry>, i: int, id: u64) -> bool {
    &&& entries[i].body_id.0 == id
    &&& forall|j: int| i < j < entries.len() ==> (#[trigger] entries[j]).body_id.0 != id
}

/// Whether no record has the id `id`.
pub open spec fn lacks(entries: Seq<ScanEntry>, id: u64) -> bool {
    forall|j: int| 0 <= j < entries.len() ==> (#[trigger] entries[j]).body_id.0 != id
}

/// Whether `n` is the number of records that are complete in the first `cut`
/// bytes of a segment file.
pub open spec fn complete_before(image: Seq<u8>, n: nat, cut: int) -> bool {
    let start = FILE_HEADER_SIZE as int;
    let count = segment_entries(image).len();
    &&& start <= cut <= image.len()
    &&& n <= count
    &&& records_end(image, start, n) <= cut
    &&& n < count ==> cut < records_end(image, start, n + 1)
}

/// Whether a record in one of the first `n` of the segments `seqs` has the id
/// `id`.
pub open spec fn id_on_disk(disk: Map<u64, Seq<u8>>, seqs: Seq<u64>, n: int, id: u64) -> bool {
    exists|i: int, a: int|
        0 <= i < n && 0 <= a < segment_entries(disk[seqs[i]]).len() && (
        #[trigger] segment_entries(disk[seqs[i]])[a]).body_id.0 == id
}

/// Whether every id on disk is below `next`.
pub open spec fn disk_ids_below(disk: Map<u64, Seq<u8>>, next: u64) -> bool {
    forall|seq: u64, a: int|
        disk.contains_key(seq) && 0 <= a < segment_entries(disk[seq]).len() ==> (
        #[trigger] segment_entries(disk[seq])[a]).body_id.0 < next
}

/// Whether no id is on disk twice: neither in one segment nor in two.
pub open spec fn ids_are_distinct(disk: Map<u64, Seq<u8>>) -> bool {
    forall|s: u64, a: int, t: u64, b: int|
        disk.contains_key(s) && disk.contains_key(t) && 0 <= a < segment_entries(disk[s]).len()
            && 0 <= b < segment_entries(disk[t]).len() && (s != t || a != b) ==> (
        #[trigger] segment_entries(disk[s])[a]).body_id != (
        #[trigger] segment_entries(disk[t])[b]).body_id
}

/// Whether `seqs` are the segments of the disk in ascending order.
pub open spec fn lists_segments(disk: Map<u64, Seq<u8>>, seqs: Seq<u64>) -> bool {
    &&& ascending(seqs)
    &&& forall|seq: u64| #[trigger] disk.contains_key(seq) <==> seqs.contains(seq)
}

/// Whether the disk is as the store knows it: the complete records of each
/// segment file end where the store's next record goes, and each live body is in
/// the last record with its id.
pub open spec fn mirrors(disk: Map<u64, Seq<u8>>, m: StoreModel) -> bool {
    &&& disk.dom() == m.segments.dom()
    &&& forall|seq: u64| #[trigger]
        m.segments.contains_key(seq) ==> scan_spec(disk[seq]) is Ok && scan_spec(disk[seq])->Ok_0.1
            == m.segments[seq].total_bytes
    &&& forall|id: u64| #[trigger] m.index.contains_key(id) ==> latest(disk, id, m.index[id])
}

/// The store that is found when the segments `seqs` of the disk are read one
/// after the other.
pub open spec fn recovered(segment_size: u64, disk: Map<u64, Seq<u8>>, seqs: Seq<u64>) -> StoreModel
    decreases seqs.len(),
{
    if seqs.len() == 0 {
        StoreModel::empty(segment_size)
    } else {
        let before = recovered(segment_size, disk, seqs.drop_last());
        let seq = seqs.last();
        match scan_spec(disk[seq]) {
            Ok((entries, end)) => before.with_segment(seq, entries, end as u64),
            Err(_) => before,
        }
    }
}

/// Whether `seqs` are the segments of the disk in ascending order, all of them
/// readable, and none of the numbers on disk is the last of its kind.
pub open spec fn readable(disk: Map<u64, Seq<u8>>, seqs: Seq<u64>) -> bool {
    &&& lists_segments(disk, seqs)
    &&& forall|i: int|
        0 <= i < seqs.len() ==> {
            let seq = #[trigger] seqs[i];
            &&& seq < u64::MAX
            &&& disk[seq].len() <= u64::MAX
            &&& scan_spec(disk[seq]) is Ok
            &&& ids_have_successors(segment_entries(disk[seq]))
        }
}

} // verus!
