//! What each operation of a store does, told by the numbers and bytes that go in
//! and come out.

use crate::checksum::crc32;
use crate::disk::{is_last_record, lacks};
use crate::error::ErrorModel;
use crate::format::{law_body_header_fields, law_body_header_layout};
use crate::job::BodyId;
use crate::model::{
    ids_have_successors, lemma_next_id_after, BodyLocation, Segment, StoreModel, WriteModel,
};
use crate::recovery::RecoveryModel;
use crate::restart::{lemma_highest, lemma_index_without, lemma_last_of_index};
use crate::scan::{sum_len, u32_at, ScanEntry};
use crate::store::{checked_body, read_outcome, BodyWrite};
use crate::sums::lemma_map_sum_insert;
use vstd::arithmetic::power::pow;
use vstd::prelude::*;

verus! {

/// A store without segments knows nothing and begins to count at zero.
pub proof fn law_new_store_is_empty(segment_size: u64)
    ensures
        ({
            let m = StoreModel::empty(segment_size);
            &&& m.segment_size == segment_size
            &&& m.next_body_id == 0
            &&& m.next_seq == 0
            &&& m.current_seq is None
            &&& forall|seq: u64| !(#[trigger] m.segments.contains_key(seq))
            &&& forall|id: u64| !(#[trigger] m.index.contains_key(id))
        }),
{
}

/// A body goes into the current segment if the segment, with the record appended,
/// is at most as long as the segment size, and only then. Otherwise it goes into
/// a new segment with the next number, and the current one is sealed. The record
/// goes right behind what is used, or behind the 16 bytes of the file header
/// where there is nothing yet.
pub proof fn law_where_a_write_goes(m: StoreModel, len: nat, crc: u32)
    requires
        len + 36 <= u64::MAX,
    ensures
        ({
            let w = m.write_of(len, crc);
            &&& match m.current_seq {
                Some(current) => {
                    let used = m.segments[current].total_bytes as int;
                    let start = if used == 0 {
                        16
                    } else {
                        used
                    };
                    if start + 20 + len <= m.segment_size {
                        &&& w.seq == current
                        &&& w.seal is None
                        &&& w.create == (used == 0)
                        &&& w.header_offset == start
                    } else {
                        &&& w.seq == m.next_seq
                        &&& w.seal == Some(current)
                        &&& w.create
                        &&& w.header_offset == 16
                    }
                },
                None => {
                    &&& w.seq == m.next_seq
                    &&& w.seal is None
                    &&& w.create
                    &&& w.header_offset == 16
                },
            }
            &&& w.body_offset == w.header_offset + 20
            &&& w.len == len
            &&& w.body_id.0 == m.next_body_id
        }),
{
}

/// The header of a record tells, byte by byte, the id of the body, the lowest 32
/// bits of its length, and its checksum, and ends with four zeros.
pub proof fn law_header_of_a_write(m: StoreModel, len: nat, crc: u32)
    ensures
        ({
            let h = m.write_of(len, crc).header;
            &&& h.len() == 20
            &&& forall|i: int|
                0 <= i < 8 ==> (#[trigger] h[i]) == m.next_body_id as int / pow(256, i as nat) % 256
            &&& forall|i: int|
                8 <= i < 12 ==> (#[trigger] h[i]) == len as int % 0x1_0000_0000 / pow(
                    256,
                    (i - 8) as nat,
                ) % 256
            &&& forall|i: int|
                12 <= i < 16 ==> (#[trigger] h[i]) == crc as int / pow(256, (i - 12) as nat) % 256
            &&& forall|i: int| 16 <= i < 20 ==> (#[trigger] h[i]) == 0
        }),
{
    law_body_header_layout(
        crate::format::BodyHeader {
            body_id: BodyId(m.next_body_id),
            len: crate::model::recorded_len(len),
            crc,
        },
    );
}

/// A write can be begun unless the end of its record cannot be told in 64 bits, or
/// it needs a new segment and no number is left for one.
pub proof fn law_when_a_write_can_begin(m: StoreModel, len: nat)
    ensures
        m.has_numbers_for(len) <==> len + 36 <= u64::MAX && (m.next_seq < u64::MAX
            || (m.current_seq matches Some(current) && ({
            let used = m.segments[current].total_bytes as int;
            (if used == 0 {
                16
            } else {
                used
            }) + 20 + len <= m.segment_size
        }))),
{
}

/// A write that has been begun has its id, and the number of the segment if it is
/// new, to itself, and has changed nothing else.
pub proof fn law_begun_write_takes_its_numbers(m: StoreModel, len: nat, crc: u32)
    requires
        m.wf(),
        m.has_numbers_for(len),
    ensures
        ({
            let w = m.write_of(len, crc);
            let b = m.begun(len);
            &&& b.next_body_id == if m.next_body_id == u64::MAX {
                0
            } else {
                m.next_body_id + 1
            }
            &&& b.next_seq == if w.seq == m.next_seq {
                m.next_seq + 1
            } else {
                m.next_seq as int
            }
            &&& b.segment_size == m.segment_size
            &&& b.current_seq == m.current_seq
            &&& b.segments == m.segments
            &&& b.index == m.index
        }),
{
}

/// A segment that has been started is the current one, with the 16 bytes of its
/// file header and no body. No other segment and no body is touched.
pub proof fn law_started_segment_is_current(m: StoreModel, seq: u64, other: u64)
    ensures
        ({
            let s = m.started(seq);
            &&& s.current_seq == Some(seq)
            &&& s.segments.contains_key(seq)
            &&& s.segments[seq].total_bytes == 16
            &&& s.segments[seq].live_bytes == 0
            &&& other != seq ==> s.segments.contains_key(other) == m.segments.contains_key(other)
                && s.segments[other] == m.segments[other]
            &&& s.index == m.index
            &&& s.segment_size == m.segment_size
            &&& s.next_body_id == m.next_body_id
            &&& s.next_seq == m.next_seq
        }),
{
}

/// A body that has been written is found under its id, right where its record is,
/// and counts as live in its segment, which ends where the body does. No other
/// body and no other segment is touched, and a segment is added only if the body
/// went into a new one.
pub proof fn law_written_body_is_found(
    m: StoreModel,
    len: nat,
    crc: u32,
    other_id: u64,
    other_seq: u64,
)
    requires
        m.wf(),
        m.has_numbers_for(len),
    ensures
        ({
            let w = m.write_of(len, crc);
            let begun = m.begun(len);
            let n = (if w.create {
                begun.started(w.seq)
            } else {
                begun
            }).written(w);
            &&& n.index.contains_key(m.next_body_id)
            &&& n.index[m.next_body_id].seq == w.seq
            &&& n.index[m.next_body_id].offset == w.header_offset + 20
            &&& n.index[m.next_body_id].len == len % 0x1_0000_0000
            &&& other_id != m.next_body_id ==> n.index.contains_key(other_id)
                == m.index.contains_key(other_id) && n.index[other_id] == m.index[other_id]
            &&& n.segments.contains_key(w.seq)
            &&& n.segments[w.seq].total_bytes == w.header_offset + 20 + len
            &&& n.segments[w.seq].live_bytes == len + if m.segments.contains_key(w.seq) {
                m.segments[w.seq].live_bytes as int
            } else {
                0
            }
            &&& other_seq != w.seq ==> n.segments.contains_key(other_seq)
                == m.segments.contains_key(other_seq) && n.segments[other_seq]
                == m.segments[other_seq]
            &&& n.segments.len() == m.segments.len() + if m.segments.contains_key(w.seq) {
                0int
            } else {
                1
            }
            &&& n.current_seq == Some(w.seq)
            &&& n.segment_size == m.segment_size
            &&& n.next_body_id == begun.next_body_id
            &&& n.next_seq == begun.next_seq
        }),
{
    let w = m.write_of(len, crc);
    let begun = m.begun(len);
    let n = (if w.create {
        begun.started(w.seq)
    } else {
        begun
    }).written(w);
    if m.current_seq is Some {
        assert(m.segments.contains_key(m.current_seq->0));
    }
    assert(n.segments.dom() =~= m.segments.dom().insert(w.seq));
}

/// A record that is reported as written, right behind the used bytes of its
/// segment, is known under its id, and its segment ends where it does. No other
/// body and no other segment is touched.
pub proof fn law_reported_record_is_known(
    m: StoreModel,
    w: WriteModel,
    other_id: u64,
    other_seq: u64,
)
    requires
        m.wf(),
        m.segments.contains_key(w.seq),
        w.header_offset >= 16,
        m.segments[w.seq].total_bytes == w.header_offset,
        w.body_offset == w.header_offset + 20,
        w.body_offset + w.len <= u64::MAX,
    ensures
        m.has_place_for(w),
        ({
            let n = m.written(w);
            &&& n.index.contains_key(w.body_id.0)
            &&& n.index[w.body_id.0] == (BodyLocation {
                seq: w.seq,
                offset: w.body_offset,
                len: (w.len % 0x1_0000_0000) as u32,
            })
            &&& other_id != w.body_id.0 ==> n.index.contains_key(other_id)
                == m.index.contains_key(other_id) && n.index[other_id] == m.index[other_id]
            &&& n.segments.contains_key(w.seq)
            &&& n.segments[w.seq].total_bytes == w.body_offset + w.len
            &&& n.segments[w.seq].live_bytes == m.segments[w.seq].live_bytes + w.len
            &&& other_seq != w.seq ==> n.segments.contains_key(other_seq)
                == m.segments.contains_key(other_seq) && n.segments[other_seq]
                == m.segments[other_seq]
            &&& n.current_seq == m.current_seq
            &&& n.segment_size == m.segment_size
            &&& n.next_body_id == m.next_body_id
            &&& n.next_seq == m.next_seq
        }),
{
}

/// Two bodies in a row that fit go into one segment, the second right behind the
/// first.
pub proof fn law_bodies_that_fit_share_a_segment(
    m: StoreModel,
    len: nat,
    crc: u32,
    next_len: nat,
    next_crc: u32,
)
    requires
        m.wf(),
        m.has_numbers_for(len),
        m.write_of(len, crc).header_offset + 20 + len + 20 + next_len <= m.segment_size,
    ensures
        ({
            let w = m.write_of(len, crc);
            let begun = m.begun(len);
            let n = (if w.create {
                begun.started(w.seq)
            } else {
                begun
            }).written(w);
            let v = n.write_of(next_len, next_crc);
            &&& v.seq == w.seq
            &&& !v.create
            &&& v.header_offset == w.header_offset + 20 + len
        }),
{
    let w = m.write_of(len, crc);
    let begun = m.begun(len);
    let n = (if w.create {
        begun.started(w.seq)
    } else {
        begun
    }).written(w);
    law_written_body_is_found(m, len, crc, 0, 0);
    law_where_a_write_goes(m, len, crc);
    law_where_a_write_goes(n, next_len, next_crc);
}

/// A deleted id is gone, and the length of its body is taken off the live bytes of
/// its segment, but not below zero. Nothing else is touched, and an id that is not
/// there changes nothing.
pub proof fn law_delete_takes_out_one_body(m: StoreModel, id: u64, other_id: u64, seq: u64)
    requires
        m.wf(),
    ensures
        ({
            let d = m.deleted(id);
            &&& !d.index.contains_key(id)
            &&& other_id != id ==> d.index.contains_key(other_id) == m.index.contains_key(other_id)
                && d.index[other_id] == m.index[other_id]
            &&& d.segments.contains_key(seq) == m.segments.contains_key(seq)
            &&& m.segments.contains_key(seq) ==> d.segments[seq].total_bytes
                == m.segments[seq].total_bytes && d.segments[seq].live_bytes == ({
                let live = m.segments[seq].live_bytes as int;
                if m.index.contains_key(id) && m.index[id].seq == seq {
                    if live < m.index[id].len {
                        0
                    } else {
                        live - m.index[id].len
                    }
                } else {
                    live
                }
            })
            &&& d.current_seq == m.current_seq
            &&& d.segment_size == m.segment_size
            &&& d.next_body_id == m.next_body_id
            &&& d.next_seq == m.next_seq
        }),
{
    if m.index.contains_key(id) {
        assert(m.segments.contains_key(m.index[id].seq));
    }
}

/// What is handed out of a record is the bytes that were read, if the body is
/// known and the bytes have the checksum that the header records. A body that is
/// not known is not found, and any other checksum is an error that tells both.
pub proof fn law_read_checks_the_checksum(
    index: Map<u64, BodyLocation>,
    id: BodyId,
    header: Seq<u8>,
    body: Seq<u8>,
)
    requires
        header.len() == 20,
    ensures
        ({
            let result = read_outcome(index, id, header, body);
            let recorded = u32_at(header, 12);
            &&& !index.contains_key(id.0) ==> result == Err::<Seq<u8>, ErrorModel>(
                ErrorModel::NotFound(id),
            )
            &&& index.contains_key(id.0) && crc32(body) == recorded ==> result == Ok::<
                Seq<u8>,
                ErrorModel,
            >(body)
            &&& index.contains_key(id.0) && crc32(body) != recorded ==> result == Err::<
                Seq<u8>,
                ErrorModel,
            >(
                ErrorModel::BadCrc {
                    expected: recorded as u32,
                    found: crc32(body),
                    body_id: id,
                },
            )
        }),
{
    law_body_header_fields(header);
}

/// A body is handed out unchanged if the two checksums are equal. Otherwise the
/// error tells them both, and the id.
pub proof fn law_checked_body_has_its_checksum(
    id: BodyId,
    expected: u32,
    found: u32,
    body: Seq<u8>,
)
    ensures
        match checked_body(id, expected, found, body) {
            Ok(bytes) => expected == found && bytes == body,
            Err(e) => expected != found && e == (ErrorModel::BadCrc {
                expected,
                found,
                body_id: id,
            }),
        },
{
}

/// The parts of a write are the parts of its model, each in its place.
pub proof fn law_write_and_model_agree(w: BodyWrite)
    ensures
        w@.body_id == w.body_id,
        w@.seal == w.seal,
        w@.create == w.create,
        w@.seq == w.seq,
        w@.header_offset == w.header_offset,
        w@.header == w.header@,
        w@.body_offset == w.body_offset,
        w@.len == w.len,
{
}

/// Whether `entries` fill a file from its 16 bytes of file header to `consumed`.
pub open spec fn fill(entries: Seq<ScanEntry>, consumed: u64) -> bool {
    &&& entries.len() == 0 ==> consumed == 0 || consumed == 16
    &&& entries.len() > 0 ==> entries[0].body_offset == 36
        && entries[entries.len() - 1].body_offset + entries[entries.len() - 1].len == consumed
    &&& forall|k: int, j: int|
        0 <= k < entries.len() && 0 <= j < entries.len() && j == k + 1 ==> (
        #[trigger] entries[j]).body_offset == (#[trigger] entries[k]).body_offset + entries[k].len
            + 20
}

proof fn lemma_filled(entries: Seq<ScanEntry>)
    requires
        entries.len() > 0,
        entries[0].body_offset == 36,
        forall|k: int, j: int|
            0 <= k < entries.len() && 0 <= j < entries.len() && j == k + 1 ==> (
            #[trigger] entries[j]).body_offset == (#[trigger] entries[k]).body_offset
                + entries[k].len + 20,
    ensures
        sum_len(entries) == entries[entries.len() - 1].body_offset + entries[entries.len() - 1].len
            - 16 - 20 * entries.len(),
    decreases entries.len(),
{
    let rest = entries.drop_last();
    let last = entries.len() - 1;
    if rest.len() > 0 {
        assert forall|k: int, j: int|
            0 <= k < rest.len() && 0 <= j < rest.len() && j == k + 1 implies (
        #[trigger] rest[j]).body_offset == (#[trigger] rest[k]).body_offset + rest[k].len + 20 by {
            assert(entries[j] == rest[j] && entries[k] == rest[k]);
        }
        lemma_filled(rest);
        assert(entries[last].body_offset == entries[last - 1].body_offset + entries[last - 1].len
            + 20);
        assert(rest[last - 1] == entries[last - 1]);
    } else {
        assert(sum_len(rest) == 0);
    }
}

/// A segment that is taken in becomes the current one, with the bytes that its
/// records take, of which all but 16 for the file and 20 for each record are live.
/// An id is where its last record is, or where it was if there is none. The next
/// id is the least that is no less than before and above all of the records. No
/// other segment is touched.
pub proof fn law_taken_in_segment_is_known(
    m: StoreModel,
    seq: u64,
    entries: Seq<ScanEntry>,
    consumed: u64,
    id: u64,
    i: int,
    other: u64,
)
    requires
        fill(entries, consumed),
        forall|k: int| 0 <= k < entries.len() ==> (#[trigger] entries[k]).body_id.0 < u64::MAX,
        seq < u64::MAX,
    ensures
        ({
            let t = m.with_segment(seq, entries, consumed);
            let next = t.next_body_id;
            &&& 0 <= i < entries.len() && entries[i].body_id.0 == id && (forall|j: int|
                i < j < entries.len() ==> (#[trigger] entries[j]).body_id.0 != id)
                ==> t.index.contains_key(id) && t.index[id] == (BodyLocation {
                seq,
                offset: entries[i].body_offset,
                len: entries[i].len,
            })
            &&& (forall|k: int| 0 <= k < entries.len() ==> (#[trigger] entries[k]).body_id.0 != id)
                ==> t.index.contains_key(id) == m.index.contains_key(id) && (m.index.contains_key(
                id,
            ) ==> t.index[id] == m.index[id])
            &&& next >= m.next_body_id
            &&& forall|k: int|
                0 <= k < entries.len() ==> (#[trigger] entries[k]).body_id.0 < next
            &&& next == m.next_body_id || exists|k: int|
                0 <= k < entries.len() && (#[trigger] entries[k]).body_id.0 == next - 1
            &&& t.segments.contains_key(seq)
            &&& t.segments[seq].total_bytes == consumed
            &&& t.segments[seq].live_bytes == if entries.len() == 0 {
                0
            } else {
                consumed - 16 - 20 * entries.len()
            }
            &&& other != seq ==> t.segments.contains_key(other) == m.segments.contains_key(other)
                && t.segments[other] == m.segments[other]
            &&& t.current_seq == Some(seq)
            &&& t.next_seq == seq + 1
            &&& t.segment_size == m.segment_size
        }),
{
    let t = m.with_segment(seq, entries, consumed);
    if 0 <= i < entries.len() && entries[i].body_id.0 == id && (forall|j: int|
        i < j < entries.len() ==> (#[trigger] entries[j]).body_id.0 != id) {
        assert(is_last_record(entries, i, id));
        lemma_last_of_index(m.index, seq, entries, i, id);
    }
    if forall|k: int| 0 <= k < entries.len() ==> (#[trigger] entries[k]).body_id.0 != id {
        assert(lacks(entries, id));
        lemma_index_without(m.index, seq, entries, id);
    }
    assert(ids_have_successors(entries));
    lemma_next_id_after(m.next_body_id, entries);
    if t.next_body_id != m.next_body_id {
        let a = lemma_highest(m.next_body_id, entries);
        assert(entries[a].body_id.0 == t.next_body_id - 1);
    }
    if entries.len() > 0 {
        lemma_filled(entries);
    }
}

/// The records of a store that is being opened may have any ids but the greatest.
pub proof fn law_ids_have_successors(entries: Seq<ScanEntry>)
    ensures
        ids_have_successors(entries) <==> forall|k: int|
            0 <= k < entries.len() ==> (#[trigger] entries[k]).body_id.0 != u64::MAX,
{
}

/// A store that is being opened asks for its segments one after the other, until
/// all have been read.
pub proof fn law_segments_are_read_in_order(r: RecoveryModel)
    ensures
        match r.next_segment() {
            Some(seq) => r.done < r.seqs.len() && seq == r.seqs[r.done as int],
            None => r.done >= r.seqs.len(),
        },
{
}

/// The counts of a store are sums over its segments: they are zero where there is
/// none, and setting one segment replaces what that one adds.
pub proof fn law_counts_are_sums(m: StoreModel, seq: u64, s: Segment)
    requires
        m.segments.dom().finite(),
    ensures
        ({
            let n = StoreModel { segments: m.segments.insert(seq, s), ..m };
            let old = if m.segments.contains_key(seq) {
                m.segments[seq]
            } else {
                Segment { total_bytes: 0, live_bytes: 0 }
            };
            &&& n.total_bytes() + old.total_bytes == m.total_bytes() + s.total_bytes
            &&& n.live_bytes() + old.live_bytes == m.live_bytes() + s.live_bytes
            &&& m.segments.dom() == Set::<u64>::empty() ==> m.total_bytes() == 0 && m.live_bytes()
                == 0
        }),
{
    let n = StoreModel { segments: m.segments.insert(seq, s), ..m };
    assert(m.totals().dom() =~= m.segments.dom());
    assert(m.lives().dom() =~= m.segments.dom());
    lemma_map_sum_insert(m.totals(), seq, s.total_bytes as nat);
    lemma_map_sum_insert(m.lives(), seq, s.live_bytes as nat);
    assert(n.totals() =~= m.totals().insert(seq, s.total_bytes as nat));
    assert(n.lives() =~= m.lives().insert(seq, s.live_bytes as nat));
}

} // verus!
