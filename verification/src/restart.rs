//! What a store finds again when it is opened on what an earlier one wrote.

use crate::checksum::crc32;
use crate::disk::{
    backs, body_bytes_of, complete_before, disk_after, disk_ids_below, disk_read, header_bytes_of,
    id_on_disk, is_last_record, lacks, latest, lists_segments, mirrors, readable, recovered,
    segment_entries, store_after,
};
use crate::error::ErrorModel;
use crate::format::FILE_HEADER_SIZE;
use crate::job::BodyId;
use crate::laws::{
    law_disk_ids_stay_below_the_next, law_write_keeps_the_disk_in_step,
    law_write_keeps_the_other_bodies, law_write_then_read, lemma_old_or_new,
};
use crate::model::{
    ids_below_next, ids_have_successors, index_with, lemma_index_with, lemma_next_id_after,
    lemma_with_segment_wf, location_of, next_id_after, BodyLocation, StoreModel,
};
use crate::scan::{
    law_cut_off_record_is_absent, lemma_record_ends, lemma_scan_in_order, records_end, scan_spec,
    ScanEntry,
};
use vstd::prelude::*;

verus! {

/// Of the records with one id, the index tells where the last one is.
pub proof fn lemma_last_of_index(
    index: Map<u64, BodyLocation>,
    seq: u64,
    entries: Seq<ScanEntry>,
    i: int,
    id: u64,
)
    requires
        0 <= i < entries.len(),
        is_last_record(entries, i, id),
    ensures
        index_with(index, seq, entries).contains_key(id),
        index_with(index, seq, entries)[id] == location_of(seq, entries[i]),
    decreases entries.len(),
{
    let rest = entries.drop_last();
    if i < entries.len() - 1 {
        assert(rest[i] == entries[i]);
        assert(entries[entries.len() - 1].body_id.0 != id);
        assert forall|j: int| i < j < rest.len() implies (#[trigger] rest[j]).body_id.0 != id by {
            assert(rest[j] == entries[j]);
        }
        lemma_last_of_index(index, seq, rest, i, id);
    }
}

/// Records with other ids change nothing for an id.
pub proof fn lemma_index_without(
    index: Map<u64, BodyLocation>,
    seq: u64,
    entries: Seq<ScanEntry>,
    id: u64,
)
    requires
        lacks(entries, id),
    ensures
        index_with(index, seq, entries).contains_key(id) == index.contains_key(id),
        index.contains_key(id) ==> index_with(index, seq, entries)[id] == index[id],
    decreases entries.len(),
{
    if entries.len() > 0 {
        let rest = entries.drop_last();
        assert(entries[entries.len() - 1].body_id.0 != id);
        assert forall|j: int| 0 <= j < rest.len() implies (#[trigger] rest[j]).body_id.0 != id by {
            assert(rest[j] == entries[j]);
        }
        lemma_index_without(index, seq, rest, id);
    }
}

/// What is found on a readable disk is in order: one segment for each file, with
/// the space that its records take, and ids that are below the next one.
pub proof fn law_recovered_store_is_in_order(
    segment_size: u64,
    disk: Map<u64, Seq<u8>>,
    seqs: Seq<u64>,
)
    requires
        readable(disk, seqs),
    ensures
        recovered(segment_size, disk, seqs).wf(),
        recovered(segment_size, disk, seqs).segment_size == segment_size,
        recovered(segment_size, disk, seqs).segments.dom() == disk.dom(),
        backs(disk, recovered(segment_size, disk, seqs)),
        ids_below_next(recovered(segment_size, disk, seqs)),
{
    lemma_recovered(segment_size, disk, seqs, seqs.len() as int);
    assert(seqs.take(seqs.len() as int) =~= seqs);
    let r = recovered(segment_size, disk, seqs);
    assert forall|seq: u64| disk.contains_key(seq) <==> r.segments.contains_key(seq) by {
        if disk.contains_key(seq) {
            let i = choose|i: int| 0 <= i < seqs.len() && seqs[i] == seq;
            assert(r.segments.contains_key(seqs[i]));
        }
    }
    assert(r.segments.dom() =~= disk.dom());
}

/// What reading the first `n` segments comes to.
pub proof fn lemma_recovered(segment_size: u64, disk: Map<u64, Seq<u8>>, seqs: Seq<u64>, n: int)
    requires
        readable(disk, seqs),
        0 <= n <= seqs.len(),
    ensures
        ({
            let r = recovered(segment_size, disk, seqs.take(n));
            &&& r.wf()
            &&& r.segment_size == segment_size
            &&& r.current_seq == if n == 0 {
                None
            } else {
                Some(seqs[n - 1])
            }
            &&& forall|i: int|
                0 <= i < n ==> r.segments.contains_key(#[trigger] seqs[i])
                    && r.segments[seqs[i]].total_bytes == scan_spec(disk[seqs[i]])->Ok_0.1
            &&& forall|seq: u64| #[trigger]
                r.segments.contains_key(seq) ==> seqs.contains(seq) && disk[seq].len()
                    >= r.segments[seq].total_bytes
            &&& ids_below_next(r)
        }),
    decreases n,
{
    let r = recovered(segment_size, disk, seqs.take(n));
    if n > 0 {
        let before = recovered(segment_size, disk, seqs.take(n - 1));
        let seq = seqs[n - 1];
        let entries = segment_entries(disk[seq]);
        let end = scan_spec(disk[seq])->Ok_0.1;
        lemma_recovered(segment_size, disk, seqs, n - 1);
        assert(seqs.take(n).drop_last() =~= seqs.take(n - 1));
        assert(seqs.take(n).last() == seq);
        lemma_scan_in_order(disk[seq]);
        assert forall|s: u64| #[trigger] before.segments.contains_key(s) implies s < seq by {
            if n > 1 {
                assert(s <= seqs[n - 2]);
                assert(seqs[n - 2] < seqs[n - 1]);
            }
        }
        lemma_with_segment_wf(before, seq, entries, end as u64);
        assert(r == before.with_segment(seq, entries, end as u64));
        lemma_next_id_after(before.next_body_id, entries);
        lemma_index_with(before.index, seq, entries);
        lemma_index_ids(before.index, seq, entries);
        assert forall|i: int| 0 <= i < n implies r.segments.contains_key(#[trigger] seqs[i])
            && r.segments[seqs[i]].total_bytes == scan_spec(disk[seqs[i]])->Ok_0.1 by {
            if i < n - 1 {
                assert(seqs[i] < seqs[n - 1]);
            }
        }
        assert forall|s: u64| #[trigger] r.segments.contains_key(s) implies seqs.contains(s)
            && disk[s].len() >= r.segments[s].total_bytes by {
            if s == seq {
                assert(seqs.contains(seqs[n - 1]));
            } else {
                assert(before.segments.contains_key(s));
            }
        }
        assert forall|id: u64| #[trigger] r.index.contains_key(id) implies id < r.next_body_id by {
            if !before.index.contains_key(id) {
                let i = choose|i: int|
                    0 <= i < entries.len() && (#[trigger] entries[i]).body_id.0 == id;
                assert(entries[i].body_id.0 < r.next_body_id);
            } else {
                assert(id < before.next_body_id);
            }
        }
    }
}

/// The ids of an index once records are taken in were there before or are those
/// of the records.
pub proof fn lemma_index_ids(index: Map<u64, BodyLocation>, seq: u64, entries: Seq<ScanEntry>)
    ensures
        forall|id: u64| #[trigger]
            index_with(index, seq, entries).contains_key(id) ==> index.contains_key(id) || exists|
                i: int,
            |
                0 <= i < entries.len() && (#[trigger] entries[i]).body_id.0 == id,
    decreases entries.len(),
{
    if entries.len() > 0 {
        let rest = entries.drop_last();
        lemma_index_ids(index, seq, rest);
        assert forall|id: u64| #[trigger]
            index_with(index, seq, entries).contains_key(id) implies index.contains_key(id)
            || exists|i: int|
            0 <= i < entries.len() && (#[trigger] entries[i]).body_id.0 == id by {
            if id == entries.last().body_id.0 {
                assert(entries[entries.len() - 1].body_id.0 == id);
            } else if !index.contains_key(id) {
                assert(index_with(index, seq, rest).contains_key(id));
                let i = choose|i: int|
                    0 <= i < rest.len() && (#[trigger] rest[i]).body_id.0 == id;
                assert(entries[i] == rest[i]);
            }
        }
    }
}

/// The index that is read back tells for each id where the last record with
/// that id is.
pub proof fn law_last_record_is_recovered(
    segment_size: u64,
    disk: Map<u64, Seq<u8>>,
    seqs: Seq<u64>,
    id: u64,
    loc: BodyLocation,
)
    requires
        readable(disk, seqs),
        latest(disk, id, loc),
    ensures
        recovered(segment_size, disk, seqs).index.contains_key(id),
        recovered(segment_size, disk, seqs).index[id] == loc,
{
    assert(seqs.contains(loc.seq));
    let k = choose|k: int| 0 <= k < seqs.len() && seqs[k] == loc.seq;
    lemma_last_record_is_recovered(segment_size, disk, seqs, id, loc, k, seqs.len() as int);
    assert(seqs.take(seqs.len() as int) =~= seqs);
}

proof fn lemma_last_record_is_recovered(
    segment_size: u64,
    disk: Map<u64, Seq<u8>>,
    seqs: Seq<u64>,
    id: u64,
    loc: BodyLocation,
    k: int,
    n: int,
)
    requires
        readable(disk, seqs),
        latest(disk, id, loc),
        0 <= k < n <= seqs.len(),
        seqs[k] == loc.seq,
    ensures
        recovered(segment_size, disk, seqs.take(n)).index.contains_key(id),
        recovered(segment_size, disk, seqs.take(n)).index[id] == loc,
    decreases n,
{
    let before = recovered(segment_size, disk, seqs.take(n - 1));
    let seq = seqs[n - 1];
    let entries = segment_entries(disk[seq]);
    assert(seqs.take(n).drop_last() =~= seqs.take(n - 1));
    assert(seqs.take(n).last() == seq);
    if k == n - 1 {
        let i = choose|i: int|
            0 <= i < entries.len() && is_last_record(entries, i, id) && location_of(
                seq,
                #[trigger] entries[i],
            ) == loc;
        lemma_last_of_index(before.index, seq, entries, i, id);
    } else {
        lemma_last_record_is_recovered(segment_size, disk, seqs, id, loc, k, n - 1);
        assert(seqs[k] < seqs[n - 1]);
        assert(seqs.contains(seqs[n - 1]));
        assert(disk.contains_key(seq));
        lemma_index_without(before.index, seq, entries, id);
    }
}

/// Opening the store again, with any segment size, finds every live body where it
/// was, reads the same from it, knows the same segments with the same bytes used,
/// and gives only greater ids to new bodies.
pub proof fn law_restart_finds_every_live_body(
    m: StoreModel,
    segment_size: u64,
    disk: Map<u64, Seq<u8>>,
    seqs: Seq<u64>,
    id: BodyId,
)
    requires
        m.wf(),
        mirrors(disk, m),
        readable(disk, seqs),
    ensures
        ({
            let r = recovered(segment_size, disk, seqs);
            &&& r.segment_size == segment_size
            &&& r.segments.dom() == m.segments.dom()
            &&& r.totals() == m.totals()
            &&& r.current_seq == m.current_seq
            &&& m.index.contains_key(id.0) ==> {
                &&& r.index.contains_key(id.0)
                &&& r.index[id.0] == m.index[id.0]
                &&& disk_read(r, disk, id) == disk_read(m, disk, id)
                &&& r.next_body_id > id.0
            }
        }),
{
    let r = recovered(segment_size, disk, seqs);
    law_recovered_store_is_in_order(segment_size, disk, seqs);
    lemma_recovered(segment_size, disk, seqs, seqs.len() as int);
    assert(seqs.take(seqs.len() as int) =~= seqs);
    assert forall|seq: u64| #[trigger] m.segments.contains_key(seq) implies (
    r.segments[seq].total_bytes == m.segments[seq].total_bytes) by {
        assert(disk.contains_key(seq));
        let i = choose|i: int| 0 <= i < seqs.len() && seqs[i] == seq;
        assert(r.segments.contains_key(seqs[i]));
    }
    assert(r.segments.dom() =~= m.segments.dom());
    assert(r.totals() =~= m.totals());
    if seqs.len() > 0 {
        let last = seqs[seqs.len() - 1];
        assert(seqs.contains(last));
        assert(disk.contains_key(last));
        assert(m.segments.contains_key(last));
        let current = m.current_seq->0;
        assert(disk.contains_key(current));
        assert(r.segments.contains_key(current));
    } else if m.current_seq is Some {
        assert(disk.contains_key(m.current_seq->0));
    }
    if m.index.contains_key(id.0) {
        law_last_record_is_recovered(segment_size, disk, seqs, id.0, m.index[id.0]);
    }
}

/// What is read back from a disk is in step with it, whatever incomplete record
/// a segment has at its end.
pub proof fn law_recovered_store_is_in_step(
    segment_size: u64,
    disk: Map<u64, Seq<u8>>,
    seqs: Seq<u64>,
)
    requires
        readable(disk, seqs),
    ensures
        mirrors(disk, recovered(segment_size, disk, seqs)),
{
    let r = recovered(segment_size, disk, seqs);
    law_recovered_store_is_in_order(segment_size, disk, seqs);
    lemma_recovered(segment_size, disk, seqs, seqs.len() as int);
    assert(seqs.take(seqs.len() as int) =~= seqs);
    assert forall|seq: u64| #[trigger] r.segments.contains_key(seq) implies scan_spec(
        disk[seq],
    ) is Ok && scan_spec(disk[seq])->Ok_0.1 == r.segments[seq].total_bytes by {
        assert(disk.contains_key(seq));
        let i = choose|i: int| 0 <= i < seqs.len() && seqs[i] == seq;
        assert(r.segments.contains_key(seqs[i]));
    }
    assert forall|id: u64| #[trigger] r.index.contains_key(id) implies latest(
        disk,
        id,
        r.index[id],
    ) by {
        lemma_recovered_is_last(segment_size, disk, seqs, seqs.len() as int, id);
        let loc = r.index[id];
        let k = choose|k: int|
            0 <= k < seqs.len() && is_last_place(disk, seqs, seqs.len() as int, id, loc, k);
        assert(seqs.contains(seqs[k]));
        assert(disk.contains_key(loc.seq));
        assert forall|seq: u64| loc.seq < seq && #[trigger] disk.contains_key(seq) implies lacks(
            segment_entries(disk[seq]),
            id,
        ) by {
            let j = choose|j: int| 0 <= j < seqs.len() && seqs[j] == seq;
            assert(k < j) by {
                if j < k {
                    assert(seqs[j] < seqs[k]);
                }
            }
            assert(lacks(segment_entries(disk[seqs[j]]), id));
        }
    }
}

/// Whether, of the first `n` segments, number `k` has the last record with the
/// id `id`, at `loc`.
spec fn is_last_place(
    disk: Map<u64, Seq<u8>>,
    seqs: Seq<u64>,
    n: int,
    id: u64,
    loc: BodyLocation,
    k: int,
) -> bool {
    &&& seqs[k] == loc.seq
    &&& exists|i: int|
        0 <= i < segment_entries(disk[loc.seq]).len() && is_last_record(
            segment_entries(disk[loc.seq]),
            i,
            id,
        ) && location_of(loc.seq, #[trigger] segment_entries(disk[loc.seq])[i]) == loc
    &&& forall|j: int| k < j < n ==> lacks(segment_entries(disk[#[trigger] seqs[j]]), id)
}

proof fn lemma_recovered_is_last(
    segment_size: u64,
    disk: Map<u64, Seq<u8>>,
    seqs: Seq<u64>,
    n: int,
    id: u64,
)
    requires
        readable(disk, seqs),
        0 <= n <= seqs.len(),
        recovered(segment_size, disk, seqs.take(n)).index.contains_key(id),
    ensures
        exists|k: int|
            0 <= k < n && is_last_place(
                disk,
                seqs,
                n,
                id,
                recovered(segment_size, disk, seqs.take(n)).index[id],
                k,
            ),
    decreases n,
{
    if n > 0 {
        let r = recovered(segment_size, disk, seqs.take(n));
        let before = recovered(segment_size, disk, seqs.take(n - 1));
        let seq = seqs[n - 1];
        let entries = segment_entries(disk[seq]);
        assert(seqs.take(n).drop_last() =~= seqs.take(n - 1));
        assert(seqs.take(n).last() == seq);
        if lacks(entries, id) {
            lemma_index_without(before.index, seq, entries, id);
            lemma_recovered_is_last(segment_size, disk, seqs, n - 1, id);
            let loc = before.index[id];
            let p = n - 1;
            let k = choose|k: int| 0 <= k < p && is_last_place(disk, seqs, p, id, loc, k);
            assert(is_last_place(disk, seqs, n, id, r.index[id], k));
        } else {
            let i = lemma_find_last(entries, id);
            lemma_last_of_index(before.index, seq, entries, i, id);
            let loc = r.index[id];
            assert(location_of(loc.seq, segment_entries(disk[loc.seq])[i]) == loc);
            assert(is_last_place(disk, seqs, n, id, loc, n - 1));
        }
    }
}

proof fn lemma_find_last(entries: Seq<ScanEntry>, id: u64) -> (i: int)
    requires
        !lacks(entries, id),
    ensures
        0 <= i < entries.len(),
        is_last_record(entries, i, id),
    decreases entries.len(),
{
    let rest = entries.drop_last();
    if entries.last().body_id.0 == id {
        entries.len() - 1
    } else {
        assert(!lacks(rest, id)) by {
            let j = choose|j: int|
                0 <= j < entries.len() && (#[trigger] entries[j]).body_id.0 == id;
            assert(rest[j] == entries[j]);
        }
        let i = lemma_find_last(rest, id);
        assert(rest[i] == entries[i]);
        assert forall|j: int| i < j < entries.len() implies (#[trigger] entries[j]).body_id.0
            != id by {
            if j < rest.len() {
                assert(rest[j] == entries[j]);
            }
        }
        i
    }
}

/// The next id is one above the highest id on disk, or zero where there is none.
pub proof fn law_next_id_is_above_the_highest(
    segment_size: u64,
    disk: Map<u64, Seq<u8>>,
    seqs: Seq<u64>,
)
    requires
        readable(disk, seqs),
    ensures
        ({
            let next = recovered(segment_size, disk, seqs).next_body_id;
            &&& forall|id: u64| #[trigger]
                id_on_disk(disk, seqs, seqs.len() as int, id) ==> id < next
            &&& next == 0 || id_on_disk(disk, seqs, seqs.len() as int, (next - 1) as u64)
        }),
{
    lemma_next_id(segment_size, disk, seqs, seqs.len() as int);
    assert(seqs.take(seqs.len() as int) =~= seqs);
}

proof fn lemma_next_id(segment_size: u64, disk: Map<u64, Seq<u8>>, seqs: Seq<u64>, n: int)
    requires
        readable(disk, seqs),
        0 <= n <= seqs.len(),
    ensures
        ({
            let next = recovered(segment_size, disk, seqs.take(n)).next_body_id;
            &&& forall|id: u64| #[trigger] id_on_disk(disk, seqs, n, id) ==> id < next
            &&& next == 0 || id_on_disk(disk, seqs, n, (next - 1) as u64)
        }),
    decreases n,
{
    if n > 0 {
        let before = recovered(segment_size, disk, seqs.take(n - 1)).next_body_id;
        let next = recovered(segment_size, disk, seqs.take(n)).next_body_id;
        let entries = segment_entries(disk[seqs[n - 1]]);
        lemma_next_id(segment_size, disk, seqs, n - 1);
        assert(seqs.take(n).drop_last() =~= seqs.take(n - 1));
        assert(seqs.take(n).last() == seqs[n - 1]);
        assert(next == next_id_after(before, entries));
        lemma_next_id_after(before, entries);
        assert forall|id: u64| #[trigger] id_on_disk(disk, seqs, n, id) implies id < next by {
            let (i, a) = choose|i: int, a: int|
                0 <= i < n && 0 <= a < segment_entries(disk[seqs[i]]).len() && (
                #[trigger] segment_entries(disk[seqs[i]])[a]).body_id.0 == id;
            if i < n - 1 {
                assert(id_on_disk(disk, seqs, n - 1, id));
            } else {
                assert(entries[a].body_id.0 < next);
            }
        }
        if next == before {
            if next > 0 {
                let id = (next - 1) as u64;
                let (i, a) = choose|i: int, a: int|
                    0 <= i < n - 1 && 0 <= a < segment_entries(disk[seqs[i]]).len() && (
                    #[trigger] segment_entries(disk[seqs[i]])[a]).body_id.0 == id;
                assert(segment_entries(disk[seqs[i]])[a].body_id.0 == id);
            }
        } else {
            let a = lemma_highest(before, entries);
            assert(segment_entries(disk[seqs[n - 1]])[a].body_id.0 == next - 1);
        }
    }
}

/// A next id that records have raised is one above that of a record.
pub proof fn lemma_highest(n: u64, entries: Seq<ScanEntry>) -> (a: int)
    requires
        ids_have_successors(entries),
        next_id_after(n, entries) != n,
    ensures
        0 <= a < entries.len(),
        entries[a].body_id.0 == next_id_after(n, entries) - 1,
    decreases entries.len(),
{
    let rest = entries.drop_last();
    assert(entries[entries.len() - 1].body_id.0 < u64::MAX);
    if entries.last().body_id.0 >= next_id_after(n, rest) {
        entries.len() - 1
    } else {
        assert forall|i: int| 0 <= i < rest.len() implies (#[trigger] rest[i]).body_id.0
            < u64::MAX by {
            assert(rest[i] == entries[i]);
        }
        let a = lemma_highest(n, rest);
        assert(rest[a] == entries[a]);
        a
    }
}

/// A disk that is in step with a store can be read back, as long as the ids have
/// not run out.
pub proof fn law_disk_in_step_is_readable(m: StoreModel, disk: Map<u64, Seq<u8>>, seqs: Seq<u64>)
    requires
        m.wf(),
        mirrors(disk, m),
        disk_ids_below(disk, m.next_body_id),
        lists_segments(disk, seqs),
        forall|seq: u64| #[trigger] disk.contains_key(seq) ==> disk[seq].len() <= u64::MAX,
    ensures
        readable(disk, seqs),
{
    assert forall|i: int| 0 <= i < seqs.len() implies ({
        let seq = #[trigger] seqs[i];
        &&& seq < u64::MAX
        &&& disk[seq].len() <= u64::MAX
        &&& scan_spec(disk[seq]) is Ok
        &&& ids_have_successors(segment_entries(disk[seq]))
    }) by {
        let seq = seqs[i];
        assert(seqs.contains(seq));
        assert(disk.contains_key(seq));
        assert(m.segments.contains_key(seq));
        let entries = segment_entries(disk[seq]);
        assert forall|a: int| 0 <= a < entries.len() implies (#[trigger] entries[a]).body_id.0
            < u64::MAX by {
            assert(segment_entries(disk[seq])[a].body_id.0 < m.next_body_id);
        }
    }
}

/// A segment file that is cut off behind its file header can still be read: its
/// complete records are found, and the next record goes right behind them.
pub proof fn law_cut_off_segment_is_readable(
    segment_size: u64,
    disk: Map<u64, Seq<u8>>,
    seqs: Seq<u64>,
    seq: u64,
    n: nat,
    cut: int,
)
    requires
        readable(disk, seqs),
        disk.contains_key(seq),
        complete_before(disk[seq], n, cut),
    ensures
        ({
            let short = disk.insert(seq, disk[seq].take(cut));
            let r = recovered(segment_size, short, seqs);
            &&& readable(short, seqs)
            &&& segment_entries(short[seq]) == segment_entries(disk[seq]).take(n as int)
            &&& r.segments.contains_key(seq)
            &&& r.segments[seq].total_bytes == records_end(disk[seq], FILE_HEADER_SIZE as int, n)
        }),
{
    let image = disk[seq];
    let short = disk.insert(seq, image.take(cut));
    let all = segment_entries(image);
    let kept = segment_entries(short[seq]);
    assert(seqs.contains(seq));
    let at = choose|at: int| 0 <= at < seqs.len() && seqs[at] == seq;
    assert(seqs[at] == seq);
    assert(ids_have_successors(all));
    law_cut_off_record_is_absent(image, n, cut);
    assert(kept == all.take(n as int));
    assert(ids_have_successors(kept)) by {
        assert forall|a: int| 0 <= a < kept.len() implies (#[trigger] kept[a]).body_id.0
            < u64::MAX by {
            assert(kept[a] == all[a]);
        }
    }
    assert forall|i: int| 0 <= i < seqs.len() implies ({
        let s = #[trigger] seqs[i];
        &&& s < u64::MAX
        &&& short[s].len() <= u64::MAX
        &&& scan_spec(short[s]) is Ok
        &&& ids_have_successors(segment_entries(short[s]))
    }) by {
        if seqs[i] != seq {
            assert(short[seqs[i]] == disk[seqs[i]]);
        }
    }
    assert forall|s: u64| #[trigger] short.contains_key(s) <==> seqs.contains(s) by {
        assert(disk.contains_key(s) <==> seqs.contains(s));
    }
    lemma_recovered(segment_size, short, seqs, seqs.len() as int);
    assert(seqs.take(seqs.len() as int) =~= seqs);
}

/// When a segment file is cut off, every body whose last record is elsewhere or
/// ends before the cut is found and read as before.
pub proof fn law_cut_off_segment_keeps_earlier_bodies(
    segment_size: u64,
    disk: Map<u64, Seq<u8>>,
    seqs: Seq<u64>,
    seq: u64,
    n: nat,
    cut: int,
    id: BodyId,
    loc: BodyLocation,
)
    requires
        readable(disk, seqs),
        disk.contains_key(seq),
        complete_before(disk[seq], n, cut),
        latest(disk, id.0, loc),
        loc.seq != seq || loc.offset + loc.len <= cut,
    ensures
        ({
            let short = disk.insert(seq, disk[seq].take(cut));
            let r = recovered(segment_size, short, seqs);
            &&& r.index.contains_key(id.0)
            &&& r.index[id.0] == loc
            &&& disk_read(r, short, id) == disk_read(
                recovered(segment_size, disk, seqs),
                disk,
                id,
            )
        }),
{
    let short = disk.insert(seq, disk[seq].take(cut));
    let r = recovered(segment_size, short, seqs);
    law_cut_off_segment_is_readable(segment_size, disk, seqs, seq, n, cut);
    lemma_cut_keeps_latest(disk, seq, n, cut, id.0, loc);
    law_last_record_is_recovered(segment_size, short, seqs, id.0, loc);
    law_last_record_is_recovered(segment_size, disk, seqs, id.0, loc);
    law_recovered_store_is_in_order(segment_size, short, seqs);
    assert(r.index.contains_key(id.0));
    assert(r.segments.contains_key(loc.seq));
    assert(short[loc.seq].len() >= loc.offset + loc.len);
    assert(header_bytes_of(short, loc) =~= header_bytes_of(disk, loc));
    assert(body_bytes_of(short, loc) =~= body_bytes_of(disk, loc));
}

proof fn lemma_cut_keeps_latest(
    disk: Map<u64, Seq<u8>>,
    seq: u64,
    n: nat,
    cut: int,
    id: u64,
    loc: BodyLocation,
)
    requires
        disk.contains_key(seq),
        disk[seq].len() <= u64::MAX,
        scan_spec(disk[seq]) is Ok,
        complete_before(disk[seq], n, cut),
        segment_entries(disk[seq].take(cut)) == segment_entries(disk[seq]).take(n as int),
        latest(disk, id, loc),
        loc.seq != seq || loc.offset + loc.len <= cut,
    ensures
        latest(disk.insert(seq, disk[seq].take(cut)), id, loc),
{
    let image = disk[seq];
    let short = disk.insert(seq, image.take(cut));
    let before = segment_entries(disk[loc.seq]);
    let after = segment_entries(short[loc.seq]);
    let i = choose|i: int|
        0 <= i < before.len() && is_last_record(before, i, id) && location_of(
            loc.seq,
            #[trigger] before[i],
        ) == loc;
    if loc.seq == seq {
        let fewer: nat = if n <= i {
            n + 1
        } else {
            0
        };
        lemma_record_ends(image, FILE_HEADER_SIZE as int, i as nat, fewer);
        assert(i < n);
    }
    assert(after[i] == before[i]);
    assert forall|j: int| i < j < after.len() implies (#[trigger] after[j]).body_id.0 != id by {
        assert(after[j] == before[j]);
    }
    assert(is_last_record(after, i, id));
    assert forall|s: u64| loc.seq < s && #[trigger] short.contains_key(s) implies lacks(
        segment_entries(short[s]),
        id,
    ) by {
        assert(disk.contains_key(s));
        let there = segment_entries(short[s]);
        assert forall|j: int| 0 <= j < there.len() implies (#[trigger] there[j]).body_id.0
            != id by {
            assert(there[j] == segment_entries(disk[s])[j]);
        }
    }
}

/// When a segment file is cut off, a body that was only in the records that are
/// no longer complete is not found.
pub proof fn law_cut_off_bodies_are_not_found(
    segment_size: u64,
    disk: Map<u64, Seq<u8>>,
    seqs: Seq<u64>,
    seq: u64,
    n: nat,
    cut: int,
    id: BodyId,
)
    requires
        readable(disk, seqs),
        disk.contains_key(seq),
        complete_before(disk[seq], n, cut),
        lacks(segment_entries(disk[seq]).take(n as int), id.0),
        forall|s: u64|
            s != seq && #[trigger] disk.contains_key(s) ==> lacks(segment_entries(disk[s]), id.0),
    ensures
        ({
            let short = disk.insert(seq, disk[seq].take(cut));
            let r = recovered(segment_size, short, seqs);
            disk_read(r, short, id) == Err::<Seq<u8>, ErrorModel>(ErrorModel::NotFound(id))
        }),
{
    let short = disk.insert(seq, disk[seq].take(cut));
    let r = recovered(segment_size, short, seqs);
    law_cut_off_segment_is_readable(segment_size, disk, seqs, seq, n, cut);
    assert(seqs.take(seqs.len() as int) =~= seqs);
    if r.index.contains_key(id.0) {
        lemma_recovered_is_last(segment_size, short, seqs, seqs.len() as int, id.0);
        let found = r.index[id.0];
        let k = choose|k: int|
            0 <= k < seqs.len() && is_last_place(short, seqs, seqs.len() as int, id.0, found, k);
        assert(seqs.contains(seqs[k]));
        assert(disk.contains_key(found.seq));
        let there = segment_entries(short[found.seq]);
        let i = choose|i: int|
            0 <= i < there.len() && is_last_record(there, i, id.0) && location_of(
                found.seq,
                #[trigger] there[i],
            ) == found;
        assert(there[i].body_id.0 == id.0);
    }
}

/// The ids that are found are those of the complete records on disk.
pub proof fn law_found_ids_are_those_on_disk(
    segment_size: u64,
    disk: Map<u64, Seq<u8>>,
    seqs: Seq<u64>,
    id: u64,
)
    requires
        readable(disk, seqs),
    ensures
        recovered(segment_size, disk, seqs).index.contains_key(id) <==> id_on_disk(
            disk,
            seqs,
            seqs.len() as int,
            id,
        ),
{
    lemma_found_ids(segment_size, disk, seqs, seqs.len() as int, id);
    assert(seqs.take(seqs.len() as int) =~= seqs);
}

proof fn lemma_found_ids(
    segment_size: u64,
    disk: Map<u64, Seq<u8>>,
    seqs: Seq<u64>,
    n: int,
    id: u64,
)
    requires
        readable(disk, seqs),
        0 <= n <= seqs.len(),
    ensures
        recovered(segment_size, disk, seqs.take(n)).index.contains_key(id) <==> id_on_disk(
            disk,
            seqs,
            n,
            id,
        ),
    decreases n,
{
    if n > 0 {
        let before = recovered(segment_size, disk, seqs.take(n - 1)).index;
        let found = recovered(segment_size, disk, seqs.take(n)).index;
        let seq = seqs[n - 1];
        let entries = segment_entries(disk[seq]);
        lemma_found_ids(segment_size, disk, seqs, n - 1, id);
        assert(seqs.take(n).drop_last() =~= seqs.take(n - 1));
        assert(seqs.take(n).last() == seq);
        assert(found == index_with(before, seq, entries));
        lemma_index_ids(before, seq, entries);
        lemma_index_keeps(before, seq, entries, id);
        if found.contains_key(id) {
            if before.contains_key(id) {
                let (i, a) = choose|i: int, a: int|
                    0 <= i < n - 1 && 0 <= a < segment_entries(disk[seqs[i]]).len() && (
                    #[trigger] segment_entries(disk[seqs[i]])[a]).body_id.0 == id;
                assert(segment_entries(disk[seqs[i]])[a].body_id.0 == id);
            } else {
                let a = choose|a: int|
                    0 <= a < entries.len() && (#[trigger] entries[a]).body_id.0 == id;
                assert(segment_entries(disk[seqs[n - 1]])[a].body_id.0 == id);
            }
        }
        if id_on_disk(disk, seqs, n, id) {
            let (i, a) = choose|i: int, a: int|
                0 <= i < n && 0 <= a < segment_entries(disk[seqs[i]]).len() && (
                #[trigger] segment_entries(disk[seqs[i]])[a]).body_id.0 == id;
            if i < n - 1 {
                assert(id_on_disk(disk, seqs, n - 1, id));
            } else {
                assert(entries[a].body_id.0 == id);
            }
        }
    }
}

/// Taking in records keeps the ids that were there and adds those of the records.
proof fn lemma_index_keeps(
    index: Map<u64, BodyLocation>,
    seq: u64,
    entries: Seq<ScanEntry>,
    id: u64,
)
    ensures
        index.contains_key(id) || !lacks(entries, id) ==> index_with(
            index,
            seq,
            entries,
        ).contains_key(id),
    decreases entries.len(),
{
    if entries.len() > 0 {
        let rest = entries.drop_last();
        lemma_index_keeps(index, seq, rest, id);
        if !lacks(entries, id) && entries.last().body_id.0 != id {
            let j = choose|j: int|
                0 <= j < entries.len() && (#[trigger] entries[j]).body_id.0 == id;
            assert(rest[j].body_id.0 == id);
        }
    }
}

/// A store that is opened on any readable disk, whatever incomplete record a
/// segment has at its end, written to, and opened again with any segment size
/// reads every body, the new one too, as it did before it was opened again, and
/// finds no others.
pub proof fn law_restart_after_a_write(
    segment_size: u64,
    disk: Map<u64, Seq<u8>>,
    seqs: Seq<u64>,
    body: Seq<u8>,
    size_after: u64,
    seqs_after: Seq<u64>,
    id: BodyId,
)
    requires
        readable(disk, seqs),
        recovered(segment_size, disk, seqs).has_numbers_for(body.len()),
        recovered(segment_size, disk, seqs).next_body_id < u64::MAX,
        body.len() < 0x1_0000_0000,
        lists_segments(
            disk_after(recovered(segment_size, disk, seqs), disk, body),
            seqs_after,
        ),
    ensures
        ({
            let r = recovered(segment_size, disk, seqs);
            let after = disk_after(r, disk, body);
            let again = recovered(size_after, after, seqs_after);
            &&& readable(after, seqs_after)
            &&& disk_read(again, after, id) == disk_read(store_after(r, body), after, id)
            &&& disk_read(again, after, id) == if id.0 == r.next_body_id {
                Ok::<Seq<u8>, ErrorModel>(body)
            } else {
                disk_read(r, disk, id)
            }
        }),
{
    let r = recovered(segment_size, disk, seqs);
    let after = disk_after(r, disk, body);
    let next = store_after(r, body);
    let again = recovered(size_after, after, seqs_after);
    law_recovered_store_is_in_order(segment_size, disk, seqs);
    law_recovered_store_is_in_step(segment_size, disk, seqs);
    law_write_then_read(r, disk, body);
    if id.0 != r.next_body_id {
        law_write_keeps_the_other_bodies(r, disk, body, id);
    }
    law_write_keeps_the_disk_in_step(r, disk, body);
    lemma_disk_ids_are_below(segment_size, disk, seqs);
    law_disk_ids_stay_below_the_next(r, disk, body);
    lemma_lengths_after_write(segment_size, disk, seqs, body);
    law_disk_in_step_is_readable(next, after, seqs_after);
    if next.index.contains_key(id.0) {
        law_restart_finds_every_live_body(next, size_after, after, seqs_after, id);
    } else {
        law_found_ids_are_those_on_disk(segment_size, disk, seqs, id.0);
        law_found_ids_are_those_on_disk(size_after, after, seqs_after, id.0);
        if again.index.contains_key(id.0) {
            let (i, a) = choose|i: int, a: int|
                0 <= i < seqs_after.len() && 0 <= a < segment_entries(
                    after[seqs_after[i]],
                ).len() && (#[trigger] segment_entries(after[seqs_after[i]])[a]).body_id.0 == id.0;
            let seq = seqs_after[i];
            assert(seqs_after.contains(seq));
            assert(after.contains_key(seq));
            lemma_old_or_new(r, disk, body, seq, a);
            assert(disk.contains_key(seq));
            let k = choose|k: int| 0 <= k < seqs.len() && seqs[k] == seq;
            assert(segment_entries(disk[seqs[k]])[a].body_id.0 == id.0);
        }
    }
}

/// The ids on a disk are below the next id of the store that is found on it.
proof fn lemma_disk_ids_are_below(segment_size: u64, disk: Map<u64, Seq<u8>>, seqs: Seq<u64>)
    requires
        readable(disk, seqs),
    ensures
        disk_ids_below(disk, recovered(segment_size, disk, seqs).next_body_id),
{
    let next = recovered(segment_size, disk, seqs).next_body_id;
    law_next_id_is_above_the_highest(segment_size, disk, seqs);
    assert forall|seq: u64, a: int|
        disk.contains_key(seq) && 0 <= a < segment_entries(disk[seq]).len() implies (
    #[trigger] segment_entries(disk[seq])[a]).body_id.0 < next by {
        let id = segment_entries(disk[seq])[a].body_id.0;
        assert(seqs.contains(seq));
        let i = choose|i: int| 0 <= i < seqs.len() && seqs[i] == seq;
        assert(segment_entries(disk[seqs[i]])[a].body_id.0 == id);
        assert(id_on_disk(disk, seqs, seqs.len() as int, id));
    }
}

/// Files that can be told by 64-bit lengths stay so when a body is written.
proof fn lemma_lengths_after_write(
    segment_size: u64,
    disk: Map<u64, Seq<u8>>,
    seqs: Seq<u64>,
    body: Seq<u8>,
)
    requires
        readable(disk, seqs),
        recovered(segment_size, disk, seqs).has_numbers_for(body.len()),
        body.len() < 0x1_0000_0000,
    ensures
        ({
            let after = disk_after(recovered(segment_size, disk, seqs), disk, body);
            forall|seq: u64| #[trigger] after.contains_key(seq) ==> after[seq].len() <= u64::MAX
        }),
{
    let r = recovered(segment_size, disk, seqs);
    let w = r.write_of(body.len(), crc32(body));
    let after = disk_after(r, disk, body);
    law_recovered_store_is_in_order(segment_size, disk, seqs);
    law_recovered_store_is_in_step(segment_size, disk, seqs);
    law_write_keeps_the_disk_in_step(r, disk, body);
    assert forall|seq: u64| #[trigger] after.contains_key(seq) implies after[seq].len()
        <= u64::MAX by {
        assert(store_after(r, body).segments.contains_key(seq));
        if seq != w.seq {
            assert(disk.contains_key(seq));
            let i = choose|i: int| 0 <= i < seqs.len() && seqs[i] == seq;
            assert(seqs[i] == seq);
        }
    }
}

} // verus!
