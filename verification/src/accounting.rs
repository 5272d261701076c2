//! What the byte counts of a store count.

use crate::checksum::crc32;
use crate::disk::{
    id_on_disk, ids_are_distinct, mirrors, readable, recovered, segment_entries, store_after,
    store_stopped, tidy,
};
use crate::format::{BODY_HEADER_SIZE, FILE_HEADER_SIZE};
use crate::model::{index_with, BodyLocation, StoreModel};
use crate::scan::{sum_len, ScanEntry};
use crate::sums::{lemma_map_sum_insert, lemma_map_sum_remove, map_sum};
use vstd::prelude::*;

verus! {

/// The body bytes that each id refers to in segment `seq`.
pub open spec fn lens_in(index: Map<u64, BodyLocation>, seq: u64) -> Map<u64, nat> {
    index.map_values(
        |loc: BodyLocation|
            if loc.seq == seq {
                loc.len as nat
            } else {
                0
            },
    )
}

/// The body bytes that each id refers to.
pub open spec fn lens(index: Map<u64, BodyLocation>) -> Map<u64, nat> {
    index.map_values(|loc: BodyLocation| loc.len as nat)
}

/// Whether each segment's count of live bytes is the sum of the bodies in it that
/// ids refer to.
pub open spec fn accounted(m: StoreModel) -> bool {
    forall|seq: u64| #[trigger]
        m.segments.contains_key(seq) ==> m.segments[seq].live_bytes == map_sum(
            lens_in(m.index, seq),
        )
}

proof fn lemma_lens_insert(index: Map<u64, BodyLocation>, id: u64, loc: BodyLocation, seq: u64)
    requires
        index.dom().finite(),
        !index.contains_key(id),
    ensures
        map_sum(lens_in(index.insert(id, loc), seq)) == map_sum(lens_in(index, seq)) + if loc.seq
            == seq {
            loc.len as nat
        } else {
            0
        },
{
    let v = if loc.seq == seq {
        loc.len as nat
    } else {
        0
    };
    assert(lens_in(index, seq).dom() =~= index.dom());
    lemma_map_sum_insert(lens_in(index, seq), id, v);
    assert(lens_in(index.insert(id, loc), seq) =~= lens_in(index, seq).insert(id, v));
}

proof fn lemma_lens_remove(index: Map<u64, BodyLocation>, id: u64, seq: u64)
    requires
        index.dom().finite(),
        index.contains_key(id),
    ensures
        map_sum(lens_in(index, seq)) == map_sum(lens_in(index.remove(id), seq)) + if index[id].seq
            == seq {
            index[id].len as nat
        } else {
            0
        },
{
    assert(lens_in(index, seq).dom() =~= index.dom());
    lemma_map_sum_remove(lens_in(index, seq), id);
    assert(lens_in(index.remove(id), seq) =~= lens_in(index, seq).remove(id));
}

proof fn lemma_no_lens(index: Map<u64, BodyLocation>, seq: u64)
    requires
        index.dom().finite(),
        forall|id: u64| #[trigger] index.contains_key(id) ==> index[id].seq != seq,
    ensures
        map_sum(lens_in(index, seq)) == 0,
    decreases index.dom().len(),
{
    let values = lens_in(index, seq);
    assert(values.dom() =~= index.dom());
    if index.dom().len() > 0 {
        let id = index.dom().choose();
        assert(index.dom().contains(id));
        assert(index.contains_key(id));
        lemma_lens_remove(index, id, seq);
        assert(index.remove(id).dom() =~= index.dom().remove(id));
        assert forall|k: u64| #[trigger] index.remove(id).contains_key(k) implies index.remove(
            id,
        )[k].seq != seq by {
            assert(index.contains_key(k));
        }
        lemma_no_lens(index.remove(id), seq);
    }
}

/// Writing a body under an id that is free adds its length to the live bytes of
/// its segment, and the counts stay exact.
pub proof fn law_write_counts_the_body(m: StoreModel, body: Seq<u8>)
    requires
        m.wf(),
        accounted(m),
        m.has_numbers_for(body.len()),
        body.len() < 0x1_0000_0000,
        !m.index.contains_key(m.next_body_id),
    ensures
        accounted(store_after(m, body)),
        store_after(m, body).live_bytes() == m.live_bytes() + body.len(),
{
    let w = m.write_of(body.len(), crc32(body));
    let next = store_after(m, body);
    let loc = next.index[m.next_body_id];
    assert forall|seq: u64| #[trigger] next.segments.contains_key(seq) implies (
    next.segments[seq].live_bytes == map_sum(lens_in(next.index, seq))) by {
        lemma_lens_insert(m.index, m.next_body_id, loc, seq);
        if seq == w.seq && !m.segments.contains_key(seq) {
            assert forall|id: u64| #[trigger] m.index.contains_key(id) implies m.index[id].seq
                != seq by {
                assert(m.segments.contains_key(m.index[id].seq));
            }
            lemma_no_lens(m.index, seq);
        }
    }
    let added = next.segments[w.seq].live_bytes as nat;
    assert(m.lives().dom() =~= m.segments.dom());
    lemma_map_sum_insert(m.lives(), w.seq, added);
    assert(next.lives() =~= m.lives().insert(w.seq, added));
}

/// Writing a body adds its header and its length to the bytes used, and the file
/// header where the segment has to be given one.
pub proof fn law_write_adds_to_the_total(m: StoreModel, body: Seq<u8>)
    requires
        m.wf(),
        m.has_numbers_for(body.len()),
    ensures
        store_after(m, body).total_bytes() == m.total_bytes() + BODY_HEADER_SIZE + body.len() + (
        if m.write_of(body.len(), crc32(body)).create {
            FILE_HEADER_SIZE as int
        } else {
            0
        }),
{
    let w = m.write_of(body.len(), crc32(body));
    let next = store_after(m, body);
    let used = next.segments[w.seq].total_bytes as nat;
    assert(m.totals().dom() =~= m.segments.dom());
    lemma_map_sum_insert(m.totals(), w.seq, used);
    assert(next.totals() =~= m.totals().insert(w.seq, used));
}

/// A write that stops before its record is complete keeps the counts exact and
/// leaves the live bytes as they are. It adds to the bytes used only the file
/// header of a segment that it has started.
pub proof fn law_stopped_write_keeps_the_counts(m: StoreModel, body: Seq<u8>)
    requires
        m.wf(),
        m.has_numbers_for(body.len()),
    ensures
        accounted(m) ==> accounted(store_stopped(m, body)),
        store_stopped(m, body).live_bytes() == m.live_bytes(),
        store_stopped(m, body).total_bytes() == m.total_bytes() + (if m.write_of(
            body.len(),
            crc32(body),
        ).create {
            FILE_HEADER_SIZE as int
        } else {
            0
        }),
{
    let w = m.write_of(body.len(), crc32(body));
    let next = store_stopped(m, body);
    assert(m.totals().dom() =~= m.segments.dom());
    assert(m.lives().dom() =~= m.segments.dom());
    if w.create {
        assert forall|id: u64| #[trigger] m.index.contains_key(id) implies m.index[id].seq
            != w.seq by {
            assert(m.segments.contains_key(m.index[id].seq));
        }
        lemma_no_lens(m.index, w.seq);
        lemma_map_sum_insert(m.totals(), w.seq, FILE_HEADER_SIZE as nat);
        lemma_map_sum_insert(m.lives(), w.seq, 0);
        assert(next.totals() =~= m.totals().insert(w.seq, FILE_HEADER_SIZE as nat));
        assert(next.lives() =~= m.lives().insert(w.seq, 0));
    } else {
        assert(next.totals() =~= m.totals());
        assert(next.lives() =~= m.lives());
    }
    if accounted(m) {
        assert forall|seq: u64| #[trigger] next.segments.contains_key(seq) implies (
        next.segments[seq].live_bytes == map_sum(lens_in(next.index, seq))) by {
            if !w.create || seq != w.seq {
                assert(m.segments.contains_key(seq));
            }
        }
    }
}

/// Deleting a body takes its length off the live bytes, and the counts stay
/// exact. Deleting an id that is not there changes nothing.
pub proof fn law_delete_uncounts_the_body(m: StoreModel, id: u64)
    requires
        m.wf(),
        accounted(m),
    ensures
        accounted(m.deleted(id)),
        m.index.contains_key(id) ==> m.deleted(id).live_bytes() + m.index[id].len
            == m.live_bytes(),
        m.deleted(id).total_bytes() == m.total_bytes(),
        !m.index.contains_key(id) ==> m.deleted(id) == m,
{
    if m.index.contains_key(id) {
        let next = m.deleted(id);
        let loc = m.index[id];
        assert(m.segments.contains_key(loc.seq));
        lemma_lens_remove(m.index, id, loc.seq);
        assert forall|seq: u64| #[trigger]
            next.segments.contains_key(seq) implies next.segments[seq].live_bytes == map_sum(
            lens_in(next.index, seq),
        ) by {
            lemma_lens_remove(m.index, id, seq);
            assert(m.segments.contains_key(seq));
        }
        let left = next.segments[loc.seq].live_bytes as nat;
        assert(m.lives().dom() =~= m.segments.dom());
        lemma_map_sum_insert(m.lives(), loc.seq, left);
        assert(next.lives() =~= m.lives().insert(loc.seq, left));
        assert(next.totals() =~= m.totals());
    }
}

/// Where the counts of the segments are exact, the live bytes of the store are
/// the bytes of all bodies that ids refer to.
pub proof fn law_live_bytes_are_those_of_the_live_bodies(m: StoreModel)
    requires
        m.wf(),
        accounted(m),
    ensures
        m.live_bytes() == map_sum(lens(m.index)),
    decreases m.index.dom().len(),
{
    assert(lens(m.index).dom() =~= m.index.dom());
    if m.index.dom().len() > 0 {
        let id = m.index.dom().choose();
        assert(m.index.dom().contains(id));
        assert(m.index.contains_key(id));
        let next = m.deleted(id);
        crate::laws::law_deleted_is_not_found(
            m,
            Map::empty(),
            crate::job::BodyId(id),
            crate::job::BodyId(if id == 0 {
                1
            } else {
                0
            }),
        );
        law_delete_uncounts_the_body(m, id);
        assert(next.index.dom() =~= m.index.dom().remove(id));
        law_live_bytes_are_those_of_the_live_bodies(next);
        lemma_map_sum_remove(lens(m.index), id);
        assert(lens(next.index) =~= lens(m.index).remove(id));
    } else {
        assert forall|seq: u64| #[trigger] m.segments.contains_key(seq) implies m.lives()[seq]
            == 0 by {
            lemma_no_lens(m.index, seq);
        }
        assert(m.lives().dom() =~= m.segments.dom());
        lemma_zero_sum(m.lives());
    }
}

proof fn lemma_zero_sum(values: Map<u64, nat>)
    requires
        values.dom().finite(),
        forall|k: u64| #[trigger] values.contains_key(k) ==> values[k] == 0,
    ensures
        map_sum(values) == 0,
    decreases values.dom().len(),
{
    if values.dom().len() > 0 {
        let k = values.dom().choose();
        assert(values.contains_key(k));
        assert(values.remove(k).dom() =~= values.dom().remove(k));
        assert forall|j: u64| #[trigger] values.remove(k).contains_key(j) implies (
        values.remove(k)[j] == 0) by {
            assert(values.contains_key(j));
        }
        lemma_zero_sum(values.remove(k));
    }
}

/// The counts of a store that is read back from a disk without repeated ids are
/// exact.
pub proof fn law_recovered_counts_are_exact(
    segment_size: u64,
    disk: Map<u64, Seq<u8>>,
    seqs: Seq<u64>,
)
    requires
        readable(disk, seqs),
        ids_are_distinct(disk),
    ensures
        accounted(recovered(segment_size, disk, seqs)),
{
    lemma_recovered_accounted(segment_size, disk, seqs, seqs.len() as int);
    assert(seqs.take(seqs.len() as int) =~= seqs);
}

proof fn lemma_recovered_accounted(
    segment_size: u64,
    disk: Map<u64, Seq<u8>>,
    seqs: Seq<u64>,
    n: int,
)
    requires
        readable(disk, seqs),
        ids_are_distinct(disk),
        0 <= n <= seqs.len(),
    ensures
        accounted(recovered(segment_size, disk, seqs.take(n))),
        forall|id: u64| #[trigger]
            recovered(segment_size, disk, seqs.take(n)).index.contains_key(id) ==> id_on_disk(
                disk,
                seqs,
                n,
                id,
            ),
    decreases n,
{
    if n > 0 {
        let before = recovered(segment_size, disk, seqs.take(n - 1));
        let r = recovered(segment_size, disk, seqs.take(n));
        let seq = seqs[n - 1];
        let entries = segment_entries(disk[seq]);
        lemma_recovered_accounted(segment_size, disk, seqs, n - 1);
        crate::restart::lemma_recovered(segment_size, disk, seqs, n - 1);
        crate::restart::lemma_recovered(segment_size, disk, seqs, n);
        assert(seqs.take(n).drop_last() =~= seqs.take(n - 1));
        assert(seqs.take(n).last() == seq);
        assert(!before.segments.contains_key(seq)) by {
            if before.segments.contains_key(seq) {
                assert(n > 1);
                assert(seqs[n - 2] < seqs[n - 1]);
            }
        }
        assert forall|a: int| 0 <= a < entries.len() implies !before.index.contains_key(
            (#[trigger] entries[a]).body_id.0,
        ) by {
            let id = entries[a].body_id.0;
            if before.index.contains_key(id) {
                let (i, b) = choose|i: int, b: int|
                    0 <= i < n - 1 && 0 <= b < segment_entries(disk[seqs[i]]).len() && (
                    #[trigger] segment_entries(disk[seqs[i]])[b]).body_id.0 == id;
                assert(seqs[i] < seqs[n - 1]);
                assert(seqs.contains(seqs[i]) && seqs.contains(seqs[n - 1]));
                assert(disk.contains_key(seqs[i]) && disk.contains_key(seqs[n - 1]));
                assert(segment_entries(disk[seqs[i]])[b].body_id != segment_entries(
                    disk[seqs[n - 1]],
                )[a].body_id);
            }
        }
        assert forall|a: int, b: int| 0 <= a < b < entries.len() implies (
        #[trigger] entries[a]).body_id != (#[trigger] entries[b]).body_id by {
            assert(seqs.contains(seqs[n - 1]));
            assert(disk.contains_key(seqs[n - 1]));
            assert(segment_entries(disk[seqs[n - 1]])[a].body_id != segment_entries(
                disk[seqs[n - 1]],
            )[b].body_id);
        }
        crate::scan::lemma_scan_in_order(disk[seq]);
        let end = crate::scan::scan_spec(disk[seq])->Ok_0.1;
        if end > 0 {
            crate::scan::lemma_chained(entries, FILE_HEADER_SIZE as int, end);
        }
        assert forall|s: u64| #[trigger] r.segments.contains_key(s) implies r.segments[s].live_bytes
            == map_sum(lens_in(r.index, s)) by {
            lemma_taken_in(before.index, seq, entries, s);
            if s == seq {
                assert forall|id: u64| #[trigger]
                    before.index.contains_key(id) implies before.index[id].seq != seq by {
                    assert(before.segments.contains_key(before.index[id].seq));
                }
                lemma_no_lens(before.index, seq);
            } else {
                assert(before.segments.contains_key(s));
            }
        }
        crate::restart::lemma_index_ids(before.index, seq, entries);
        assert forall|id: u64| #[trigger] r.index.contains_key(id) implies id_on_disk(
            disk,
            seqs,
            n,
            id,
        ) by {
            if before.index.contains_key(id) {
                assert(id_on_disk(disk, seqs, n - 1, id));
            } else {
                let a = choose|a: int|
                    0 <= a < entries.len() && (#[trigger] entries[a]).body_id.0 == id;
                assert(segment_entries(disk[seqs[n - 1]])[a].body_id.0 == id);
            }
        }
    }
}

proof fn lemma_taken_in(
    index: Map<u64, BodyLocation>,
    seq: u64,
    entries: Seq<ScanEntry>,
    s: u64,
)
    requires
        index.dom().finite(),
        forall|a: int|
            0 <= a < entries.len() ==> !index.contains_key((#[trigger] entries[a]).body_id.0),
        forall|a: int, b: int|
            0 <= a < b < entries.len() ==> (#[trigger] entries[a]).body_id != (
            #[trigger] entries[b]).body_id,
    ensures
        map_sum(lens_in(index_with(index, seq, entries), s)) == map_sum(lens_in(index, s)) + if s
            == seq {
            sum_len(entries)
        } else {
            0
        },
    decreases entries.len(),
{
    if entries.len() > 0 {
        let rest = entries.drop_last();
        let e = entries.last();
        let with = index_with(index, seq, rest);
        assert forall|a: int| 0 <= a < rest.len() implies !index.contains_key(
            (#[trigger] rest[a]).body_id.0,
        ) by {
            assert(rest[a] == entries[a]);
        }
        assert forall|a: int, b: int| 0 <= a < b < rest.len() implies (#[trigger] rest[a]).body_id
            != (#[trigger] rest[b]).body_id by {
            assert(rest[a] == entries[a] && rest[b] == entries[b]);
        }
        lemma_taken_in(index, seq, rest, s);
        crate::model::lemma_index_with(index, seq, rest);
        crate::restart::lemma_index_ids(index, seq, rest);
        assert(!with.contains_key(e.body_id.0)) by {
            if with.contains_key(e.body_id.0) {
                assert(entries[entries.len() - 1] == e);
                let a = choose|a: int|
                    0 <= a < rest.len() && (#[trigger] rest[a]).body_id.0 == e.body_id.0;
                assert(rest[a] == entries[a]);
                assert(entries[a].body_id != entries[entries.len() - 1].body_id);
            }
        }
        lemma_lens_insert(with, e.body_id.0, crate::model::location_of(seq, e), s);
    }
}

/// Where no segment has an incomplete record at its end, the bytes used in all
/// segments are the lengths of the files on disk.
pub proof fn law_total_bytes_are_the_file_lengths(m: StoreModel, disk: Map<u64, Seq<u8>>)
    requires
        m.wf(),
        mirrors(disk, m),
        forall|seq: u64| #[trigger] disk.contains_key(seq) ==> tidy(disk[seq]),
    ensures
        m.total_bytes() == map_sum(disk.map_values(|image: Seq<u8>| image.len())),
{
    let sizes = disk.map_values(|image: Seq<u8>| image.len());
    assert forall|seq: u64| #[trigger] m.segments.contains_key(seq) implies sizes[seq]
        == m.totals()[seq] by {
        assert(disk.contains_key(seq));
    }
    assert(sizes =~= m.totals());
}

} // verus!
