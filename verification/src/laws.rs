//! What holds of the store and the disk together while bodies are written, read
//! and deleted.

use crate::checksum::crc32;
use crate::disk::{
    backs, body_bytes_of, disk_after, disk_ids_below, disk_read, disk_started, disk_stopped,
    header_bytes_of, ids_are_distinct, intact, is_last_record, lacks, latest, mirrors,
    same_used_bytes, segment_entries, store_after, store_stopped, tidy,
};
use crate::error::ErrorModel;
use crate::format::{
    law_body_header_round_trip, law_file_header_is_accepted, BodyHeader, BODY_HEADER_SIZE,
    FILE_HEADER_SIZE,
};
use crate::job::BodyId;
use crate::model::{ids_below_next, location_of, recorded_len, StoreModel, WriteModel};
use crate::scan::{
    entries_from, header_at, law_appended_record_is_found, law_cut_off_record_is_absent,
    lemma_last_end, lemma_record_ends, record_fits, scan_spec, ScanEntry,
};
use vstd::prelude::*;

verus! {

/// What can be read depends on the used bytes alone. A write that fails half way,
/// or a process that stops in one, touches only bytes behind them, so it harms
/// no body.
pub proof fn law_only_used_bytes_matter(
    m: StoreModel,
    a: Map<u64, Seq<u8>>,
    b: Map<u64, Seq<u8>>,
    id: BodyId,
)
    requires
        m.wf(),
        same_used_bytes(m, a, b),
    ensures
        disk_read(m, a, id) == disk_read(m, b, id),
{
    if m.index.contains_key(id.0) {
        let loc = m.index[id.0];
        assert(m.segments.contains_key(loc.seq));
        assert(header_bytes_of(a, loc) =~= header_bytes_of(b, loc));
        assert(body_bytes_of(a, loc) =~= body_bytes_of(b, loc));
    }
}

/// A write keeps the store in order, and the record is where it belongs.
pub proof fn lemma_write(m: StoreModel, disk: Map<u64, Seq<u8>>, body: Seq<u8>)
    requires
        m.wf(),
        backs(disk, m),
        m.has_numbers_for(body.len()),
    ensures
        store_after(m, body).wf(),
        backs(disk_after(m, disk, body), store_after(m, body)),
        ({
            let w = m.write_of(body.len(), crc32(body));
            let image = disk_after(m, disk, body)[w.seq];
            &&& image.subrange(w.header_offset as int, w.body_offset as int) == w.header
            &&& image.subrange(w.body_offset as int, w.body_offset + w.len) == body
        }),
{
    let w = m.write_of(body.len(), crc32(body));
    let d = if w.create {
        disk_started(disk, w.seq)
    } else {
        disk
    };
    let after = disk_after(m, disk, body);
    let image = after[w.seq];
    law_body_header_round_trip(
        BodyHeader { body_id: w.body_id, len: recorded_len(body.len()), crc: crc32(body) },
    );
    law_file_header_is_accepted();
    assert(d[w.seq].len() >= w.header_offset);
    assert(image.subrange(w.header_offset as int, w.body_offset as int) =~= w.header);
    assert(image.subrange(w.body_offset as int, w.body_offset + w.len) =~= body);
    let begun = m.begun(body.len());
    assert(begun.wf());
    if w.create {
        assert(begun.started(w.seq).wf());
    }
    assert(store_after(m, body).wf());
}

/// A write starts behind the used bytes of its segment.
pub proof fn lemma_write_keeps_used_bytes(m: StoreModel, disk: Map<u64, Seq<u8>>, body: Seq<u8>)
    requires
        m.wf(),
        backs(disk, m),
        m.has_numbers_for(body.len()),
    ensures
        same_used_bytes(m, disk, disk_after(m, disk, body)),
{
    law_file_header_is_accepted();
}

/// On a disk that has the record of `body` where it belongs, the body is read back
/// unchanged.
proof fn lemma_new_record(m: StoreModel, body: Seq<u8>, after: Map<u64, Seq<u8>>)
    requires
        m.wf(),
        m.has_numbers_for(body.len()),
        body.len() < 0x1_0000_0000,
        ({
            let w = m.write_of(body.len(), crc32(body));
            let image = after[w.seq];
            &&& image.subrange(w.header_offset as int, w.body_offset as int) == w.header
            &&& image.subrange(w.body_offset as int, w.body_offset + w.len) == body
        }),
    ensures
        disk_read(store_after(m, body), after, BodyId(m.next_body_id)) == Ok::<
            Seq<u8>,
            ErrorModel,
        >(body),
        ({
            let w = m.write_of(body.len(), crc32(body));
            let loc = store_after(m, body).index[m.next_body_id];
            &&& loc.seq == w.seq
            &&& loc.offset == w.body_offset
            &&& loc.len == body.len()
            &&& body_bytes_of(after, loc) == body
            &&& header_at(after[loc.seq], loc.offset - BODY_HEADER_SIZE) == (BodyHeader {
                body_id: BodyId(m.next_body_id),
                len: loc.len,
                crc: crc32(body),
            })
        }),
{
    let w = m.write_of(body.len(), crc32(body));
    let loc = store_after(m, body).index[m.next_body_id];
    law_body_header_round_trip(
        BodyHeader { body_id: w.body_id, len: recorded_len(body.len()), crc: crc32(body) },
    );
    assert(header_bytes_of(after, loc) == w.header);
}

/// A body that has been written is read back unchanged.
pub proof fn law_write_then_read(m: StoreModel, disk: Map<u64, Seq<u8>>, body: Seq<u8>)
    requires
        m.wf(),
        backs(disk, m),
        m.has_numbers_for(body.len()),
        body.len() < 0x1_0000_0000,
    ensures
        store_after(m, body).wf(),
        backs(disk_after(m, disk, body), store_after(m, body)),
        disk_read(store_after(m, body), disk_after(m, disk, body), BodyId(m.next_body_id))
            == Ok::<Seq<u8>, ErrorModel>(body),
{
    lemma_write(m, disk, body);
    lemma_new_record(m, body, disk_after(m, disk, body));
}

/// Writing a body changes nothing for the others.
pub proof fn law_write_keeps_the_other_bodies(
    m: StoreModel,
    disk: Map<u64, Seq<u8>>,
    body: Seq<u8>,
    id: BodyId,
)
    requires
        m.wf(),
        backs(disk, m),
        m.has_numbers_for(body.len()),
        id.0 != m.next_body_id,
    ensures
        disk_read(store_after(m, body), disk_after(m, disk, body), id) == disk_read(m, disk, id),
{
    lemma_write_keeps_used_bytes(m, disk, body);
    law_only_used_bytes_matter(m, disk, disk_after(m, disk, body), id);
}

/// A deleted body is gone, and the others are as before.
pub proof fn law_deleted_is_not_found(
    m: StoreModel,
    disk: Map<u64, Seq<u8>>,
    id: BodyId,
    other: BodyId,
)
    requires
        m.wf(),
        other != id,
    ensures
        m.deleted(id.0).wf(),
        disk_read(m.deleted(id.0), disk, id) == Err::<Seq<u8>, ErrorModel>(
            ErrorModel::NotFound(id),
        ),
        disk_read(m.deleted(id.0), disk, other) == disk_read(m, disk, other),
{
}

/// A body with one changed byte on disk is not handed out.
pub proof fn law_changed_byte_is_detected(
    m: StoreModel,
    disk: Map<u64, Seq<u8>>,
    id: BodyId,
    at: int,
    byte: u8,
)
    requires
        m.wf(),
        m.index.contains_key(id.0),
        intact(disk, id.0, m.index[id.0]),
        m.index[id.0].offset <= at < m.index[id.0].offset + m.index[id.0].len,
        byte != disk[m.index[id.0].seq][at],
    ensures
        ({
            let loc = m.index[id.0];
            let changed = disk.insert(loc.seq, disk[loc.seq].update(at, byte));
            &&& disk_read(m, disk, id) == Ok::<Seq<u8>, ErrorModel>(body_bytes_of(disk, loc))
            &&& disk_read(m, changed, id) == Err::<Seq<u8>, ErrorModel>(
                ErrorModel::BadCrc {
                    expected: crc32(body_bytes_of(disk, loc)),
                    found: crc32(body_bytes_of(changed, loc)),
                    body_id: id,
                },
            )
        }),
{
    let loc = m.index[id.0];
    let changed = disk.insert(loc.seq, disk[loc.seq].update(at, byte));
    assert(header_bytes_of(disk, loc) =~= header_bytes_of(changed, loc));
    crate::checksum::law_one_changed_byte_changes_the_checksum(
        body_bytes_of(disk, loc),
        body_bytes_of(changed, loc),
        at - loc.offset,
    );
}

/// The records on disk once a body has been written: the old ones, and the new
/// one at the end of its segment.
pub proof fn lemma_entries_after_write(m: StoreModel, disk: Map<u64, Seq<u8>>, body: Seq<u8>)
    requires
        m.wf(),
        mirrors(disk, m),
        m.has_numbers_for(body.len()),
        body.len() < 0x1_0000_0000,
    ensures
        ({
            let w = m.write_of(body.len(), crc32(body));
            let after = disk_after(m, disk, body);
            let e = ScanEntry {
                body_id: w.body_id,
                body_offset: w.body_offset,
                len: body.len() as u32,
            };
            &&& scan_spec(after[w.seq]) is Ok
            &&& scan_spec(after[w.seq])->Ok_0.1 == w.body_offset + w.len
            &&& after[w.seq].len() == w.body_offset + w.len
            &&& segment_entries(after[w.seq]) == (if w.create {
                Seq::empty()
            } else {
                segment_entries(disk[w.seq])
            }).push(e)
            &&& forall|seq: u64|
                seq != w.seq ==> after.contains_key(seq) == disk.contains_key(seq)
                    && #[trigger] after[seq] == disk[seq]
        }),
{
    let w = m.write_of(body.len(), crc32(body));
    let h = BodyHeader { body_id: w.body_id, len: recorded_len(body.len()), crc: crc32(body) };
    let start = FILE_HEADER_SIZE as int;
    let d = if w.create {
        disk_started(disk, w.seq)
    } else {
        disk
    };
    let before = d[w.seq];
    let after = disk_after(m, disk, body);
    law_body_header_round_trip(h);
    law_file_header_is_accepted();
    if w.create {
        assert(before.subrange(0, start) =~= before);
        assert(!record_fits(before, start));
        assert(entries_from(before, start) =~= Seq::empty());
    } else {
        assert(m.segments.contains_key(w.seq));
    }
    lemma_last_end(before, start);
    law_appended_record_is_found(before, w.header_offset as int, h, body);
}

/// Writing a body leaves the disk as the store knows it, with the new record as
/// the last of its segment and nothing behind it, whatever was in the file behind
/// the used bytes.
pub proof fn law_write_keeps_the_disk_in_step(
    m: StoreModel,
    disk: Map<u64, Seq<u8>>,
    body: Seq<u8>,
)
    requires
        m.wf(),
        mirrors(disk, m),
        m.has_numbers_for(body.len()),
        body.len() < 0x1_0000_0000,
    ensures
        mirrors(disk_after(m, disk, body), store_after(m, body)),
        tidy(disk_after(m, disk, body)[m.write_of(body.len(), crc32(body)).seq]),
{
    let w = m.write_of(body.len(), crc32(body));
    let before = if w.create {
        Seq::empty()
    } else {
        segment_entries(disk[w.seq])
    };
    let after = disk_after(m, disk, body);
    let next = store_after(m, body);
    lemma_entries_after_write(m, disk, body);
    assert(after.dom() =~= next.segments.dom());
    assert forall|seq: u64| #[trigger] next.segments.contains_key(seq) implies scan_spec(
        after[seq],
    ) is Ok && scan_spec(after[seq])->Ok_0.1 == next.segments[seq].total_bytes by {
        if seq != w.seq {
            assert(m.segments.contains_key(seq));
        }
    }
    assert forall|id: u64| #[trigger] next.index.contains_key(id) implies latest(
        after,
        id,
        next.index[id],
    ) by {
        let loc = next.index[id];
        if id == w.body_id.0 {
            let entries = segment_entries(after[w.seq]);
            let i = entries.len() - 1;
            assert(is_last_record(entries, i, id) && location_of(w.seq, entries[i]) == loc);
            assert forall|seq: u64|
                loc.seq < seq && #[trigger] after.contains_key(seq) implies lacks(
                segment_entries(after[seq]),
                id,
            ) by {
                assert(next.segments.contains_key(seq));
                assert(m.segments.contains_key(seq));
            }
        } else {
            assert(m.index.contains_key(id));
            assert(m.segments.contains_key(loc.seq));
            assert(latest(disk, id, loc));
            let old_entries = segment_entries(disk[loc.seq]);
            let i = choose|i: int|
                0 <= i < old_entries.len() && is_last_record(old_entries, i, id) && location_of(
                    loc.seq,
                    #[trigger] old_entries[i],
                ) == loc;
            let entries = segment_entries(after[loc.seq]);
            assert(entries[i] == old_entries[i]);
            assert forall|j: int| i < j < entries.len() implies (#[trigger] entries[j]).body_id.0
                != id by {
                if j < old_entries.len() {
                    assert(entries[j] == old_entries[j]);
                }
            }
            assert(is_last_record(entries, i, id));
            assert forall|seq: u64|
                loc.seq < seq && #[trigger] after.contains_key(seq) implies lacks(
                segment_entries(after[seq]),
                id,
            ) by {
                let there = segment_entries(after[seq]);
                if seq == w.seq {
                    assert forall|j: int| 0 <= j < there.len() implies (
                    #[trigger] there[j]).body_id.0 != id by {
                        if j < before.len() {
                            assert(there[j] == before[j]);
                            if !w.create {
                                assert(disk.contains_key(seq));
                                assert(lacks(segment_entries(disk[seq]), id));
                            }
                        }
                    }
                } else {
                    assert(disk.contains_key(seq));
                }
            }
        }
    }
}

/// A write that stops before its record is complete leaves the disk as the store
/// knows it, adds no record to it, and changes nothing for any body.
pub proof fn law_stopped_write_keeps_the_disk_in_step(
    m: StoreModel,
    disk: Map<u64, Seq<u8>>,
    body: Seq<u8>,
    done: int,
    id: BodyId,
)
    requires
        m.wf(),
        mirrors(disk, m),
        m.has_numbers_for(body.len()),
        body.len() < 0x1_0000_0000,
        0 <= done < BODY_HEADER_SIZE + body.len(),
    ensures
        ({
            let stopped = disk_stopped(m, disk, body, done);
            let next = store_stopped(m, body);
            &&& next.wf()
            &&& mirrors(stopped, next)
            &&& forall|seq: u64| #[trigger]
                disk.contains_key(seq) ==> stopped.contains_key(seq) && segment_entries(
                    stopped[seq],
                ) == segment_entries(disk[seq])
            &&& forall|seq: u64| #[trigger]
                stopped.contains_key(seq) && !disk.contains_key(seq) ==> segment_entries(
                    stopped[seq],
                ).len() == 0
            &&& disk_read(next, stopped, id) == disk_read(m, disk, id)
        }),
{
    let w = m.write_of(body.len(), crc32(body));
    let stopped = disk_stopped(m, disk, body, done);
    let next = store_stopped(m, body);
    lemma_stopped_segment(m, disk, body, done);
    assert(m.begun(body.len()).wf());
    assert(stopped.dom() =~= next.segments.dom());
    assert forall|seq: u64| #[trigger] disk.contains_key(seq) implies stopped.contains_key(seq)
        && segment_entries(stopped[seq]) == segment_entries(disk[seq]) by {
        assert(m.segments.contains_key(seq));
    }
    assert forall|seq: u64| #[trigger] next.segments.contains_key(seq) implies scan_spec(
        stopped[seq],
    ) is Ok && scan_spec(stopped[seq])->Ok_0.1 == next.segments[seq].total_bytes by {
        if seq != w.seq {
            assert(m.segments.contains_key(seq));
        }
    }
    assert forall|i: u64| #[trigger] next.index.contains_key(i) implies latest(
        stopped,
        i,
        next.index[i],
    ) by {
        let loc = next.index[i];
        assert(m.index.contains_key(i));
        assert(latest(disk, i, loc));
        assert(disk.contains_key(loc.seq));
        assert forall|seq: u64| loc.seq < seq && #[trigger] stopped.contains_key(seq) implies lacks(
            segment_entries(stopped[seq]),
            i,
        ) by {
            if disk.contains_key(seq) {
                assert(segment_entries(stopped[seq]) == segment_entries(disk[seq]));
            }
        }
    }
    if m.index.contains_key(id.0) {
        let loc = m.index[id.0];
        assert(m.segments.contains_key(loc.seq));
        lemma_last_end(disk[loc.seq], FILE_HEADER_SIZE as int);
        assert(header_bytes_of(stopped, loc) =~= header_bytes_of(disk, loc));
        assert(body_bytes_of(stopped, loc) =~= body_bytes_of(disk, loc));
    }
}

/// What the segment of a stopped write holds.
proof fn lemma_stopped_segment(m: StoreModel, disk: Map<u64, Seq<u8>>, body: Seq<u8>, done: int)
    requires
        m.wf(),
        mirrors(disk, m),
        m.has_numbers_for(body.len()),
        body.len() < 0x1_0000_0000,
        0 <= done < BODY_HEADER_SIZE + body.len(),
    ensures
        ({
            let w = m.write_of(body.len(), crc32(body));
            let image = disk_stopped(m, disk, body, done)[w.seq];
            &&& scan_spec(image) is Ok
            &&& scan_spec(image)->Ok_0.1 == w.header_offset
            &&& w.create ==> segment_entries(image).len() == 0
            &&& disk.contains_key(w.seq) ==> segment_entries(image) == segment_entries(disk[w.seq])
            &&& !w.create ==> disk.contains_key(w.seq) && disk[w.seq].len() >= w.header_offset
                && image.len() >= w.header_offset && forall|i: int|
                0 <= i < w.header_offset ==> image[i] == disk[w.seq][i]
        }),
{
    let w = m.write_of(body.len(), crc32(body));
    let h = BodyHeader { body_id: w.body_id, len: recorded_len(body.len()), crc: crc32(body) };
    let start = FILE_HEADER_SIZE as int;
    let whole = disk_after(m, disk, body)[w.seq];
    let all = segment_entries(whole);
    let n = (all.len() - 1) as nat;
    lemma_entries_after_write(m, disk, body);
    law_body_header_round_trip(h);
    law_file_header_is_accepted();
    if !w.create {
        assert(m.segments.contains_key(w.seq));
        lemma_last_end(disk[w.seq], start);
    } else if disk.contains_key(w.seq) {
        assert(m.segments.contains_key(w.seq));
        lemma_last_end(disk[w.seq], start);
        assert(segment_entries(disk[w.seq]) =~= Seq::empty());
    }
    lemma_last_end(whole, start);
    lemma_record_ends(whole, start, n, n);
    law_cut_off_record_is_absent(whole, n, w.header_offset + done);
    assert(all.take(n as int) =~= all.drop_last());
}

/// Deleting a body leaves the disk as the store knows it.
pub proof fn law_delete_keeps_the_disk_in_step(m: StoreModel, disk: Map<u64, Seq<u8>>, id: u64)
    requires
        m.wf(),
        mirrors(disk, m),
    ensures
        mirrors(disk, m.deleted(id)),
{
    assert(m.deleted(id).segments.dom() =~= m.segments.dom());
}

/// As long as the ids do not run out, a new body gets an id above those of all
/// live bodies, and deleting changes nothing about that.
pub proof fn law_new_ids_are_greater(m: StoreModel, body: Seq<u8>, deleted: u64)
    requires
        m.wf(),
        ids_below_next(m),
        m.next_body_id < u64::MAX,
    ensures
        m.write_of(body.len(), crc32(body)).body_id.0 == m.next_body_id,
        !m.index.contains_key(m.next_body_id),
        store_after(m, body).next_body_id == m.next_body_id + 1,
        ids_below_next(store_after(m, body)),
        ids_below_next(m.deleted(deleted)),
{
}

/// A segment grows beyond the segment size only for a body that is alone in it.
pub proof fn law_segment_size_is_kept(m: StoreModel, body: Seq<u8>)
    requires
        m.wf(),
        m.has_numbers_for(body.len()),
    ensures
        ({
            let w = m.write_of(body.len(), crc32(body));
            let next = store_after(m, body);
            &&& next.segments[w.seq].total_bytes <= m.segment_size || w.header_offset
                == FILE_HEADER_SIZE
            &&& forall|seq: u64|
                seq != w.seq ==> next.segments.contains_key(seq) == m.segments.contains_key(seq)
                    && #[trigger] next.segments[seq] == m.segments[seq]
        }),
{
}

/// The segments with bytes that are not synced, once a body has been written.
pub open spec fn unsynced_after(unsynced: Set<u64>, w: WriteModel) -> Set<u64> {
    match w.seal {
        Some(seq) => unsynced.remove(seq).insert(w.seq),
        None => unsynced.insert(w.seq),
    }
}

/// Only the current segment ever has bytes that are not synced, so that syncing
/// it makes every body durable.
pub proof fn law_only_the_current_segment_is_unsynced(
    m: StoreModel,
    unsynced: Set<u64>,
    body: Seq<u8>,
)
    requires
        m.wf(),
        forall|seq: u64| #[trigger] unsynced.contains(seq) ==> m.current_seq == Some(seq),
    ensures
        forall|seq: u64| #[trigger]
            unsynced_after(unsynced, m.write_of(body.len(), crc32(body))).contains(seq)
                ==> store_after(m, body).current_seq == Some(seq),
{
}

/// The same holds when a write stops: before anything is synced or started, once
/// the old segment is sealed, or at any point once the segment that the record
/// goes into is there.
pub proof fn law_stopped_write_leaves_only_the_current_unsynced(
    m: StoreModel,
    unsynced: Set<u64>,
    body: Seq<u8>,
)
    requires
        m.wf(),
        forall|seq: u64| #[trigger] unsynced.contains(seq) ==> m.current_seq == Some(seq),
    ensures
        ({
            let w = m.write_of(body.len(), crc32(body));
            &&& forall|seq: u64| #[trigger]
                unsynced.contains(seq) ==> m.begun(body.len()).current_seq == Some(seq)
            &&& w.seal matches Some(sealed) ==> forall|seq: u64| !(
            #[trigger] unsynced.remove(sealed).contains(seq))
            &&& forall|seq: u64| #[trigger]
                unsynced_after(unsynced, w).contains(seq) ==> store_stopped(m, body).current_seq
                    == Some(seq)
        }),
{
}

/// A write that stops before its record is complete keeps every id on disk, and
/// every live id, below the next one, as long as the ids do not run out, and puts
/// no id on disk twice.
pub proof fn law_stopped_write_keeps_the_ids(
    m: StoreModel,
    disk: Map<u64, Seq<u8>>,
    body: Seq<u8>,
    done: int,
)
    requires
        m.wf(),
        mirrors(disk, m),
        m.has_numbers_for(body.len()),
        body.len() < 0x1_0000_0000,
        0 <= done < BODY_HEADER_SIZE + body.len(),
        m.next_body_id < u64::MAX,
    ensures
        ({
            let stopped = disk_stopped(m, disk, body, done);
            let next = store_stopped(m, body);
            &&& next.next_body_id == m.next_body_id + 1
            &&& disk_ids_below(disk, m.next_body_id) ==> disk_ids_below(stopped, next.next_body_id)
            &&& ids_below_next(m) ==> ids_below_next(next)
            &&& ids_are_distinct(disk) ==> ids_are_distinct(stopped)
        }),
{
    let stopped = disk_stopped(m, disk, body, done);
    law_stopped_write_keeps_the_disk_in_step(m, disk, body, done, BodyId(0));
    if disk_ids_below(disk, m.next_body_id) {
        assert forall|seq: u64, a: int|
            stopped.contains_key(seq) && 0 <= a < segment_entries(stopped[seq]).len() implies (
        #[trigger] segment_entries(stopped[seq])[a]).body_id.0 < m.next_body_id + 1 by {
            assert(disk.contains_key(seq));
            assert(segment_entries(disk[seq])[a].body_id.0 < m.next_body_id);
        }
    }
    if ids_are_distinct(disk) {
        assert forall|s: u64, a: int, t: u64, b: int|
            stopped.contains_key(s) && stopped.contains_key(t) && 0 <= a < segment_entries(
                stopped[s],
            ).len() && 0 <= b < segment_entries(stopped[t]).len() && (s != t || a != b) implies (
        #[trigger] segment_entries(stopped[s])[a]).body_id != (
        #[trigger] segment_entries(stopped[t])[b]).body_id by {
            assert(disk.contains_key(s) && disk.contains_key(t));
            assert(segment_entries(disk[s])[a].body_id != segment_entries(disk[t])[b].body_id);
        }
    }
}

/// A record in the used bytes is the same on two disks that agree on those.
proof fn lemma_same_record(m: StoreModel, a: Map<u64, Seq<u8>>, b: Map<u64, Seq<u8>>, id: u64)
    requires
        m.wf(),
        same_used_bytes(m, a, b),
        m.index.contains_key(id),
        intact(a, id, m.index[id]),
    ensures
        intact(b, id, m.index[id]),
{
    let loc = m.index[id];
    assert(m.segments.contains_key(loc.seq));
    assert(header_bytes_of(a, loc) =~= header_bytes_of(b, loc));
    assert(body_bytes_of(a, loc) =~= body_bytes_of(b, loc));
}

/// A record is intact once it is written, and stays so while others are.
pub proof fn law_written_records_are_intact(
    m: StoreModel,
    disk: Map<u64, Seq<u8>>,
    body: Seq<u8>,
    id: u64,
)
    requires
        m.wf(),
        backs(disk, m),
        m.has_numbers_for(body.len()),
        body.len() < 0x1_0000_0000,
    ensures
        ({
            let next = store_after(m, body);
            let after = disk_after(m, disk, body);
            &&& intact(after, m.next_body_id, next.index[m.next_body_id])
            &&& m.index.contains_key(id) && intact(disk, id, m.index[id]) ==> intact(
                after,
                id,
                next.index[id],
            )
        }),
{
    let after = disk_after(m, disk, body);
    let next = store_after(m, body);
    lemma_write(m, disk, body);
    lemma_new_record(m, body, after);
    assert(next.index.contains_key(m.next_body_id));
    assert(next.segments.contains_key(next.index[m.next_body_id].seq));
    lemma_write_keeps_used_bytes(m, disk, body);
    if m.index.contains_key(id) && intact(disk, id, m.index[id]) && id != m.next_body_id {
        lemma_same_record(m, disk, after, id);
    }
}

/// As long as the ids do not run out, every id on disk is below the next one, and
/// none is on disk twice.
pub proof fn law_disk_ids_stay_below_the_next(
    m: StoreModel,
    disk: Map<u64, Seq<u8>>,
    body: Seq<u8>,
)
    requires
        m.wf(),
        mirrors(disk, m),
        disk_ids_below(disk, m.next_body_id),
        m.has_numbers_for(body.len()),
        body.len() < 0x1_0000_0000,
        m.next_body_id < u64::MAX,
    ensures
        disk_ids_below(disk_after(m, disk, body), store_after(m, body).next_body_id),
        ids_are_distinct(disk) ==> ids_are_distinct(disk_after(m, disk, body)),
{
    let after = disk_after(m, disk, body);
    let next = store_after(m, body).next_body_id;
    assert forall|seq: u64, a: int|
        after.contains_key(seq) && 0 <= a < segment_entries(after[seq]).len() implies (
    #[trigger] segment_entries(after[seq])[a]).body_id.0 < next by {
        lemma_old_or_new(m, disk, body, seq, a);
    }
    if ids_are_distinct(disk) {
        assert forall|s: u64, a: int, t: u64, b: int|
            after.contains_key(s) && after.contains_key(t) && 0 <= a < segment_entries(
                after[s],
            ).len() && 0 <= b < segment_entries(after[t]).len() && (s != t || a != b) implies (
        #[trigger] segment_entries(after[s])[a]).body_id != (
        #[trigger] segment_entries(after[t])[b]).body_id by {
            lemma_old_or_new(m, disk, body, s, a);
            lemma_old_or_new(m, disk, body, t, b);
        }
    }
}

/// A record on disk once a body has been written is the new one, or it was there
/// before.
pub proof fn lemma_old_or_new(
    m: StoreModel,
    disk: Map<u64, Seq<u8>>,
    body: Seq<u8>,
    seq: u64,
    a: int,
)
    requires
        m.wf(),
        mirrors(disk, m),
        m.has_numbers_for(body.len()),
        body.len() < 0x1_0000_0000,
        disk_ids_below(disk, m.next_body_id),
        disk_after(m, disk, body).contains_key(seq),
        0 <= a < segment_entries(disk_after(m, disk, body)[seq]).len(),
    ensures
        ({
            let there = segment_entries(disk_after(m, disk, body)[seq]);
            ||| {
                &&& seq == m.write_of(body.len(), crc32(body)).seq
                &&& a == there.len() - 1
                &&& there[a].body_id.0 == m.next_body_id
            }
            ||| {
                &&& disk.contains_key(seq)
                &&& a < segment_entries(disk[seq]).len()
                &&& there[a] == segment_entries(disk[seq])[a]
                &&& there[a].body_id.0 < m.next_body_id
            }
        }),
{
    let w = m.write_of(body.len(), crc32(body));
    let there = segment_entries(disk_after(m, disk, body)[seq]);
    lemma_entries_after_write(m, disk, body);
    if seq != w.seq {
        assert(segment_entries(disk[seq])[a].body_id.0 < m.next_body_id);
    } else if a < there.len() - 1 {
        assert(!w.create);
        assert(m.segments.contains_key(seq));
        assert(disk.contains_key(seq));
        assert(there[a] == segment_entries(disk[seq])[a]);
        assert(segment_entries(disk[seq])[a].body_id.0 < m.next_body_id);
    }
}

} // verus!
