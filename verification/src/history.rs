//! What holds after any history of writes, deletions and reopenings of a store
//! that began in an empty directory.

use crate::accounting::{
    accounted, law_delete_uncounts_the_body, law_live_bytes_are_those_of_the_live_bodies,
    law_recovered_counts_are_exact, law_write_adds_to_the_total, law_write_counts_the_body, lens,
};
use crate::checksum::crc32;
use crate::disk::{
    backs, body_bytes_of, disk_after, disk_ids_below, disk_read, header_bytes_of, id_on_disk,
    ids_are_distinct, latest, lists_segments, mirrors, readable, recovered, segment_entries,
    store_after,
};
use crate::error::ErrorModel;
use crate::format::{
    body_header_bytes, law_body_header_round_trip, law_file_header_is_accepted, BodyHeader,
    BODY_HEADER_SIZE, FILE_HEADER_SIZE,
};
use crate::job::BodyId;
use crate::laws::{
    law_disk_ids_stay_below_the_next, law_write_keeps_the_disk_in_step, lemma_entries_after_write,
    lemma_write, lemma_write_keeps_used_bytes,
};
use crate::model::{recorded_len, BodyLocation, StoreModel};
use crate::restart::{
    law_disk_in_step_is_readable, law_found_ids_are_those_on_disk, law_next_id_is_above_the_highest,
    law_recovered_store_is_in_order, law_recovered_store_is_in_step,
    law_restart_finds_every_live_body,
};
use crate::scan::scan_spec;
use crate::sums::map_sum;
use vstd::prelude::*;

verus! {

/// Something that is done with a store.
pub enum Step {
    /// A body is written, with all that belongs to it.
    Write(Seq<u8>),
    /// An id is deleted.
    Delete(u64),
    /// The store is opened again on the segments `seqs`.
    Reopen { segment_size: u64, seqs: Seq<u64> },
}

/// A body that has been written, and the segment it went into.
pub struct Written {
    pub seq: u64,
    pub body: Seq<u8>,
}

/// A store, its disk, and what has been done with them.
#[verifier::ext_equal]
pub struct World {
    pub store: StoreModel,
    pub disk: Map<u64, Seq<u8>>,
    /// Every body ever written. The place of a body here is its id.
    pub log: Seq<Written>,
    /// Where every body ever written is, by id.
    pub places: Map<u64, BodyLocation>,
    /// The ids deleted since the store was last opened.
    pub deleted: Set<u64>,
}

/// How many of the bodies went into segment `seq`.
pub open spec fn records_in(log: Seq<Written>, seq: u64) -> nat
    decreases log.len(),
{
    if log.len() == 0 {
        0
    } else {
        records_in(log.drop_last(), seq) + if log.last().seq == seq {
            1nat
        } else {
            0nat
        }
    }
}

/// The bytes that the records of all the bodies take.
pub open spec fn record_bytes(log: Seq<Written>) -> nat
    decreases log.len(),
{
    if log.len() == 0 {
        0
    } else {
        record_bytes(log.drop_last()) + BODY_HEADER_SIZE as nat + log.last().body.len()
    }
}

/// Whether a header can hold the length of each of the bodies.
pub open spec fn all_short(log: Seq<Written>) -> bool {
    forall|k: int| 0 <= k < log.len() ==> (#[trigger] log[k]).body.len() < 0x1_0000_0000
}

/// Whether the record at `loc` is that of the body `e` with the id `id`: its
/// header and then the body's bytes, all in one file.
pub open spec fn record_at(
    disk: Map<u64, Seq<u8>>,
    loc: BodyLocation,
    id: u64,
    e: Written,
) -> bool {
    &&& disk.contains_key(e.seq)
    &&& loc.seq == e.seq
    &&& loc.len == recorded_len(e.body.len())
    &&& loc.offset >= FILE_HEADER_SIZE + BODY_HEADER_SIZE
    &&& loc.offset + e.body.len() <= disk[e.seq].len()
    &&& header_bytes_of(disk, loc) == body_header_bytes(
        BodyHeader { body_id: BodyId(id), len: recorded_len(e.body.len()), crc: crc32(e.body) },
    )
    &&& disk[e.seq].subrange(loc.offset as int, loc.offset + e.body.len()) == e.body
}

impl World {
    /// A store that has just been opened in an empty directory.
    pub open spec fn start(segment_size: u64) -> Self {
        World {
            store: StoreModel::empty(segment_size),
            disk: Map::empty(),
            log: Seq::empty(),
            places: Map::empty(),
            deleted: Set::empty(),
        }
    }

    /// Whether a step can be taken: for a write there is an id left and the
    /// record's end can be told; a reopening finds the segments that are there,
    /// and each header holds the length of its body.
    pub open spec fn allows(self, step: Step) -> bool {
        match step {
            Step::Write(body) => self.log.len() < u64::MAX && FILE_HEADER_SIZE + BODY_HEADER_SIZE
                + body.len() <= u64::MAX,
            Step::Delete(_) => true,
            Step::Reopen { segment_size, seqs } => lists_segments(self.disk, seqs) && all_short(
                self.log,
            ),
        }
    }

    /// What a step makes of it all.
    pub open spec fn after(self, step: Step) -> Self {
        match step {
            Step::Write(body) => {
                let w = self.store.write_of(body.len(), crc32(body));
                let next = store_after(self.store, body);
                World {
                    store: next,
                    disk: disk_after(self.store, self.disk, body),
                    log: self.log.push(Written { seq: w.seq, body }),
                    places: self.places.insert(w.body_id.0, next.index[w.body_id.0]),
                    deleted: self.deleted,
                }
            },
            Step::Delete(id) => World {
                store: self.store.deleted(id),
                deleted: if self.store.index.contains_key(id) {
                    self.deleted.insert(id)
                } else {
                    self.deleted
                },
                ..self
            },
            Step::Reopen { segment_size, seqs } => World {
                store: recovered(segment_size, self.disk, seqs),
                deleted: Set::empty(),
                ..self
            },
        }
    }

    /// The store as it would be if nothing had been deleted from its index.
    pub open spec fn undeleted(self) -> StoreModel {
        StoreModel { index: self.places, ..self.store }
    }

    /// Whether store, disk and log belong together.
    pub open spec fn in_order(self) -> bool {
        &&& self.store.wf()
        &&& self.store.next_body_id == self.log.len()
        &&& self.store.next_seq <= self.log.len()
        &&& self.disk.dom() == self.store.segments.dom()
        &&& forall|seq: u64| #[trigger]
            self.store.segments.contains_key(seq) ==> self.disk[seq].len()
                == self.store.segments[seq].total_bytes && self.store.segments[seq].total_bytes > 0
                && records_in(self.log, seq) > 0
        &&& self.places.dom().finite()
        &&& forall|id: u64| #[trigger] self.places.contains_key(id) <==> id < self.log.len()
        &&& forall|id: u64|
            id < self.log.len() ==> record_at(
                self.disk,
                #[trigger] self.places[id],
                id,
                self.log[id as int],
            )
        &&& forall|id: u64| #[trigger]
            self.store.index.contains_key(id) <==> id < self.log.len() && !self.deleted.contains(id)
        &&& forall|id: u64| #[trigger]
            self.store.index.contains_key(id) ==> self.store.index[id] == self.places[id]
        &&& forall|id: u64| #[trigger] self.deleted.contains(id) ==> id < self.log.len()
        &&& self.store.total_bytes() == FILE_HEADER_SIZE * self.store.segments.dom().len()
            + record_bytes(self.log)
    }

    /// Whether what is on disk can be read back as it was written.
    pub open spec fn in_step(self) -> bool {
        &&& mirrors(self.disk, self.undeleted())
        &&& disk_ids_below(self.disk, self.store.next_body_id)
        &&& ids_are_distinct(self.disk)
        &&& accounted(self.store)
        &&& forall|seq: u64| #[trigger]
            self.disk.contains_key(seq) ==> segment_entries(self.disk[seq]).len() == records_in(
                self.log,
                seq,
            )
    }

    /// Whether only a segment with a single record is longer than the segment
    /// size.
    pub open spec fn keeps_size(self, segment_size: u64) -> bool {
        &&& self.store.segment_size == segment_size
        &&& forall|seq: u64| #[trigger]
            self.store.segments.contains_key(seq) && records_in(self.log, seq) >= 2
                ==> self.store.segments[seq].total_bytes <= segment_size
    }
}

/// Where a store stands after `steps`.
pub open spec fn run(segment_size: u64, steps: Seq<Step>) -> World
    decreases steps.len(),
{
    if steps.len() == 0 {
        World::start(segment_size)
    } else {
        run(segment_size, steps.drop_last()).after(steps.last())
    }
}

/// Whether `steps` can be taken one after the other.
pub open spec fn possible(segment_size: u64, steps: Seq<Step>) -> bool
    decreases steps.len(),
{
    steps.len() > 0 ==> {
        &&& possible(segment_size, steps.drop_last())
        &&& run(segment_size, steps.drop_last()).allows(steps.last())
    }
}

/// Whether the store is only ever opened with the segment size `segment_size`.
pub open spec fn always_sized(segment_size: u64, steps: Seq<Step>) -> bool {
    forall|i: int|
        0 <= i < steps.len() ==> ((#[trigger] steps[i]) matches Step::Reopen {
            segment_size: other,
            ..
        } ==> other == segment_size)
}

/// A segment that no body went into has no records.
proof fn lemma_no_records(log: Seq<Written>, seq: u64)
    requires
        forall|k: int| 0 <= k < log.len() ==> (#[trigger] log[k]).seq != seq,
    ensures
        records_in(log, seq) == 0,
    decreases log.len(),
{
    if log.len() > 0 {
        let rest = log.drop_last();
        assert(log[log.len() - 1].seq != seq);
        assert forall|k: int| 0 <= k < rest.len() implies (#[trigger] rest[k]).seq != seq by {
            assert(rest[k] == log[k]);
        }
        lemma_no_records(rest, seq);
    }
}

/// What a write has to find and what it leaves on disk.
proof fn lemma_written_file(w: World, body: Seq<u8>)
    requires
        w.in_order(),
        w.allows(Step::Write(body)),
    ensures
        ({
            let write = w.store.write_of(body.len(), crc32(body));
            let after = disk_after(w.store, w.disk, body);
            &&& w.store.has_numbers_for(body.len())
            &&& backs(w.disk, w.store)
            &&& write.create == !w.store.segments.contains_key(write.seq)
            &&& after[write.seq].len() == write.body_offset + body.len()
            &&& after.dom() == store_after(w.store, body).segments.dom()
            &&& forall|seq: u64| seq != write.seq ==> #[trigger] after[seq] == w.disk[seq]
        }),
{
    let write = w.store.write_of(body.len(), crc32(body));
    law_file_header_is_accepted();
    law_body_header_round_trip(
        BodyHeader { body_id: write.body_id, len: recorded_len(body.len()), crc: crc32(body) },
    );
    if w.store.current_seq is Some {
        assert(w.store.segments.contains_key(w.store.current_seq->0));
    }
    assert(disk_after(w.store, w.disk, body).dom() =~= store_after(
        w.store,
        body,
    ).segments.dom());
}

/// A record stays where it is when a body is written.
proof fn lemma_record_stays(w: World, body: Seq<u8>, id: u64)
    requires
        w.in_order(),
        w.allows(Step::Write(body)),
        id < w.log.len(),
    ensures
        record_at(
            disk_after(w.store, w.disk, body),
            w.places[id],
            id,
            w.log[id as int],
        ),
{
    let after = disk_after(w.store, w.disk, body);
    let loc = w.places[id];
    let e = w.log[id as int];
    lemma_written_file(w, body);
    lemma_write(w.store, w.disk, body);
    lemma_write_keeps_used_bytes(w.store, w.disk, body);
    assert(record_at(w.disk, loc, id, e));
    assert(w.store.segments.contains_key(e.seq));
    assert(after.contains_key(e.seq));
    assert(after[e.seq].len() >= w.disk[e.seq].len());
    assert(header_bytes_of(after, loc) =~= header_bytes_of(w.disk, loc));
    assert(after[e.seq].subrange(loc.offset as int, loc.offset + e.body.len())
        =~= w.disk[e.seq].subrange(loc.offset as int, loc.offset + e.body.len()));
}

/// A write keeps store, disk and log together.
proof fn lemma_write_in_order(w: World, body: Seq<u8>)
    requires
        w.in_order(),
        w.allows(Step::Write(body)),
    ensures
        w.after(Step::Write(body)).in_order(),
        forall|z: u64| #[trigger]
            w.keeps_size(z) ==> w.after(Step::Write(body)).keeps_size(z),
{
    let write = w.store.write_of(body.len(), crc32(body));
    let next = w.after(Step::Write(body));
    let new = Written { seq: write.seq, body };
    lemma_written_file(w, body);
    lemma_write(w.store, w.disk, body);
    assert(next.log.drop_last() =~= w.log);
    assert(next.log.last() == new);
    if write.create {
        assert forall|k: int| 0 <= k < w.log.len() implies (#[trigger] w.log[k]).seq
            != write.seq by {
            assert(record_at(w.disk, w.places[k as u64], k as u64, w.log[k]));
            assert(w.store.segments.contains_key(w.log[k].seq));
        }
        lemma_no_records(w.log, write.seq);
    }
    assert forall|seq: u64| #[trigger] next.store.segments.contains_key(seq) implies (
    next.disk[seq].len() == next.store.segments[seq].total_bytes
        && next.store.segments[seq].total_bytes > 0 && records_in(next.log, seq) > 0) by {
        if seq != write.seq {
            assert(w.store.segments.contains_key(seq));
        }
    }
    assert forall|id: u64| id < next.log.len() implies record_at(
        next.disk,
        #[trigger] next.places[id],
        id,
        next.log[id as int],
    ) by {
        if id < w.log.len() {
            lemma_record_stays(w, body, id);
            assert(next.log[id as int] == w.log[id as int]);
        } else {
            assert(next.log[id as int] == new);
        }
    }
    law_write_adds_to_the_total(w.store, body);
    assert(next.store.segments.dom() =~= w.store.segments.dom().insert(write.seq));
    assert(FILE_HEADER_SIZE * next.store.segments.dom().len() == FILE_HEADER_SIZE
        * w.store.segments.dom().len() + if write.create {
        FILE_HEADER_SIZE as int
    } else {
        0
    }) by (nonlinear_arith)
        requires
            next.store.segments.dom().len() == w.store.segments.dom().len() + if write.create {
                1int
            } else {
                0
            },
    ;
}

/// A write keeps the disk such that it can be read back as it was written.
proof fn lemma_write_in_step(w: World, body: Seq<u8>)
    requires
        w.in_order(),
        w.in_step(),
        w.allows(Step::Write(body)),
        body.len() < 0x1_0000_0000,
    ensures
        w.after(Step::Write(body)).in_step(),
{
    let write = w.store.write_of(body.len(), crc32(body));
    let next = w.after(Step::Write(body));
    let all = w.undeleted();
    lemma_written_file(w, body);
    lemma_undeleted(w);
    assert(next.undeleted() =~= store_after(all, body));
    law_write_keeps_the_disk_in_step(all, w.disk, body);
    law_disk_ids_stay_below_the_next(all, w.disk, body);
    law_write_counts_the_body(w.store, body);
    lemma_entries_after_write(all, w.disk, body);
    assert(next.log.drop_last() =~= w.log);
    assert forall|seq: u64| #[trigger] next.disk.contains_key(seq) implies segment_entries(
        next.disk[seq],
    ).len() == records_in(next.log, seq) by {
        if seq != write.seq {
            assert(w.disk.contains_key(seq));
        } else if write.create {
            assert forall|k: int| 0 <= k < w.log.len() implies (#[trigger] w.log[k]).seq
                != seq by {
                assert(record_at(w.disk, w.places[k as u64], k as u64, w.log[k]));
                assert(w.store.segments.contains_key(w.log[k].seq));
            }
            lemma_no_records(w.log, seq);
        } else {
            assert(w.disk.contains_key(seq));
        }
    }
}

/// The store as it would be if nothing had been deleted is in order too.
proof fn lemma_undeleted(w: World)
    requires
        w.in_order(),
    ensures
        w.undeleted().wf(),
{
    let all = w.undeleted();
    assert forall|id: u64| #[trigger] all.index.contains_key(id) implies ({
        let loc = all.index[id];
        &&& all.segments.contains_key(loc.seq)
        &&& loc.offset >= FILE_HEADER_SIZE + BODY_HEADER_SIZE
        &&& loc.offset + loc.len <= all.segments[loc.seq].total_bytes
    }) by {
        let e = w.log[id as int];
        assert(record_at(w.disk, w.places[id], id, e));
        assert(w.store.segments.contains_key(e.seq));
        assert(recorded_len(e.body.len()) <= e.body.len());
    }
}

/// A deletion keeps everything together.
proof fn lemma_delete(w: World, id: u64)
    requires
        w.in_order(),
    ensures
        w.after(Step::Delete(id)).in_order(),
        w.in_step() ==> w.after(Step::Delete(id)).in_step(),
        forall|z: u64| #[trigger] w.keeps_size(z) ==> w.after(Step::Delete(id)).keeps_size(z),
{
    let next = w.after(Step::Delete(id));
    if w.store.index.contains_key(id) {
        assert(w.store.segments.contains_key(w.store.index[id].seq));
    }
    assert(next.store.wf());
    assert(next.store.segments.dom() =~= w.store.segments.dom());
    assert forall|seq: u64| #[trigger] next.store.segments.contains_key(seq) implies (
    next.store.segments[seq].total_bytes == w.store.segments[seq].total_bytes
        && w.store.segments.contains_key(seq)) by {
    }
    assert(next.store.totals() =~= w.store.totals());
    if w.in_step() {
        law_delete_uncounts_the_body(w.store, id);
        assert(next.undeleted().segments.dom() =~= w.undeleted().segments.dom());
        assert forall|seq: u64| #[trigger] next.undeleted().segments.contains_key(seq) implies (
        scan_spec(w.disk[seq]) is Ok && scan_spec(w.disk[seq])->Ok_0.1
            == next.undeleted().segments[seq].total_bytes) by {
            assert(w.undeleted().segments.contains_key(seq));
        }
        assert forall|i: u64| #[trigger] next.undeleted().index.contains_key(i) implies latest(
            w.disk,
            i,
            next.undeleted().index[i],
        ) by {
            assert(w.undeleted().index.contains_key(i));
        }
    }
}

/// What opening the store again finds.
proof fn lemma_reopened(w: World, segment_size: u64, seqs: Seq<u64>)
    requires
        w.in_order(),
        w.in_step(),
        lists_segments(w.disk, seqs),
        w.log.len() <= u64::MAX,
    ensures
        ({
            let r = recovered(segment_size, w.disk, seqs);
            &&& readable(w.disk, seqs)
            &&& r.wf()
            &&& r.segment_size == segment_size
            &&& r.segments.dom() == w.store.segments.dom()
            &&& r.totals() == w.store.totals()
            &&& r.index == w.places
            &&& r.next_body_id == w.log.len()
            &&& r.next_seq <= w.store.next_seq
        }),
{
    let all = w.undeleted();
    let r = recovered(segment_size, w.disk, seqs);
    lemma_undeleted(w);
    assert forall|seq: u64| #[trigger] w.disk.contains_key(seq) implies w.disk[seq].len()
        <= u64::MAX by {
        assert(w.store.segments.contains_key(seq));
    }
    law_disk_in_step_is_readable(all, w.disk, seqs);
    law_recovered_store_is_in_order(segment_size, w.disk, seqs);
    law_restart_finds_every_live_body(all, segment_size, w.disk, seqs, BodyId(0));
    assert(all.totals() == w.store.totals());
    assert forall|id: u64| #[trigger]
        r.index.contains_key(id) == w.places.contains_key(id) && (w.places.contains_key(id)
            ==> r.index[id] == w.places[id]) by {
        law_restart_finds_every_live_body(all, segment_size, w.disk, seqs, BodyId(id));
        if r.index.contains_key(id) {
            law_found_ids_are_those_on_disk(segment_size, w.disk, seqs, id);
            lemma_disk_id(w, seqs, id);
        }
    }
    assert(r.index =~= w.places);
    law_next_id_is_above_the_highest(segment_size, w.disk, seqs);
    if r.next_body_id > 0 {
        lemma_disk_id(w, seqs, (r.next_body_id - 1) as u64);
    }
    if w.log.len() > 0 {
        let last = (w.log.len() - 1) as u64;
        law_restart_finds_every_live_body(all, segment_size, w.disk, seqs, BodyId(last));
        assert(w.places.contains_key(last));
    }
    if seqs.len() > 0 {
        let last = seqs[seqs.len() - 1];
        assert(seqs.contains(last));
        assert(w.disk.contains_key(last));
        assert(w.store.segments.contains_key(last));
        assert(scan_spec(w.disk[seqs[seqs.len() - 1]]) is Ok);
        assert(r.next_seq == last + 1);
    }
}

/// The ids on disk are those of the bodies that have been written.
proof fn lemma_disk_id(w: World, seqs: Seq<u64>, id: u64)
    requires
        w.in_order(),
        w.in_step(),
        lists_segments(w.disk, seqs),
        id_on_disk(w.disk, seqs, seqs.len() as int, id),
    ensures
        id < w.log.len(),
{
    let (i, a) = choose|i: int, a: int|
        0 <= i < seqs.len() && 0 <= a < segment_entries(w.disk[seqs[i]]).len() && (
        #[trigger] segment_entries(w.disk[seqs[i]])[a]).body_id.0 == id;
    assert(seqs.contains(seqs[i]));
    assert(w.disk.contains_key(seqs[i]));
    assert(segment_entries(w.disk[seqs[i]])[a].body_id.0 < w.store.next_body_id);
}

/// Opening the store again keeps everything together.
proof fn lemma_reopen(w: World, segment_size: u64, seqs: Seq<u64>)
    requires
        w.in_order(),
        w.in_step(),
        lists_segments(w.disk, seqs),
        w.log.len() <= u64::MAX,
    ensures
        w.after(Step::Reopen { segment_size, seqs }).in_order(),
        w.after(Step::Reopen { segment_size, seqs }).in_step(),
        w.keeps_size(segment_size) ==> w.after(
            Step::Reopen { segment_size, seqs },
        ).keeps_size(segment_size),
{
    let next = w.after(Step::Reopen { segment_size, seqs });
    lemma_reopened(w, segment_size, seqs);
    assert forall|seq: u64| #[trigger] next.store.segments.contains_key(seq) implies (
    w.store.segments.contains_key(seq) && next.store.segments[seq].total_bytes
        == w.store.segments[seq].total_bytes) by {
        assert(next.store.totals()[seq] == w.store.totals()[seq]);
        assert(next.store.totals()[seq] == next.store.segments[seq].total_bytes as nat);
    }
    law_recovered_store_is_in_step(segment_size, w.disk, seqs);
    law_recovered_counts_are_exact(segment_size, w.disk, seqs);
    assert(next.undeleted() =~= next.store);
}

/// After any history, store, disk and log belong together, and as long as all
/// bodies are short, what is on disk can be read back as it was written.
proof fn lemma_history(segment_size: u64, steps: Seq<Step>)
    requires
        possible(segment_size, steps),
    ensures
        run(segment_size, steps).in_order(),
        all_short(run(segment_size, steps).log) ==> run(segment_size, steps).in_step(),
        always_sized(segment_size, steps) ==> run(segment_size, steps).keeps_size(segment_size),
    decreases steps.len(),
{
    let now = run(segment_size, steps);
    if steps.len() == 0 {
        lemma_start(segment_size);
    } else {
        let before = run(segment_size, steps.drop_last());
        let step = steps.last();
        lemma_history(segment_size, steps.drop_last());
        assert(step == steps[steps.len() - 1]);
        if always_sized(segment_size, steps) {
            assert forall|i: int| 0 <= i < steps.drop_last().len() implies (
            (#[trigger] steps.drop_last()[i]) matches Step::Reopen { segment_size: other, .. }
                ==> other == segment_size) by {
                assert(steps.drop_last()[i] == steps[i]);
            }
        }
        if all_short(now.log) {
            assert forall|k: int| 0 <= k < before.log.len() implies (
            #[trigger] before.log[k]).body.len() < 0x1_0000_0000 by {
                assert(now.log[k] == before.log[k]);
            }
        }
        match step {
            Step::Write(body) => {
                lemma_write_in_order(before, body);
                if all_short(now.log) {
                    assert(now.log[now.log.len() - 1].body == body);
                    lemma_write_in_step(before, body);
                }
            },
            Step::Delete(id) => {
                lemma_delete(before, id);
            },
            Step::Reopen { segment_size: size, seqs } => {
                lemma_reopen(before, size, seqs);
            },
        }
    }
}

proof fn lemma_start(segment_size: u64)
    ensures
        World::start(segment_size).in_order(),
        World::start(segment_size).in_step(),
        World::start(segment_size).keeps_size(segment_size),
{
    let w = World::start(segment_size);
    assert(w.disk.dom() =~= w.store.segments.dom());
    assert(w.store.totals().dom() =~= Set::empty());
    assert(w.store.segments.dom().len() == 0);
}

/// After any history with one segment size, no segment is without a record, and a
/// segment with two or more records is at most that long: only a segment with a
/// single record can be longer. Each body is whole in the file of one segment.
pub proof fn law_history_keeps_the_segment_size(segment_size: u64, steps: Seq<Step>)
    requires
        possible(segment_size, steps),
        always_sized(segment_size, steps),
    ensures
        ({
            let w = run(segment_size, steps);
            &&& w.disk.dom() == w.store.segments.dom()
            &&& forall|seq: u64| #[trigger]
                w.disk.contains_key(seq) ==> records_in(w.log, seq) >= 1 && (records_in(w.log, seq)
                    >= 2 ==> w.disk[seq].len() <= segment_size)
            &&& all_short(w.log) ==> forall|seq: u64| #[trigger]
                w.disk.contains_key(seq) ==> segment_entries(w.disk[seq]).len() == records_in(
                    w.log,
                    seq,
                )
            &&& forall|id: u64|
                id < w.log.len() ==> record_at(
                    w.disk,
                    #[trigger] w.places[id],
                    id,
                    w.log[id as int],
                )
        }),
{
    let w = run(segment_size, steps);
    lemma_history(segment_size, steps);
    assert forall|seq: u64| #[trigger] w.disk.contains_key(seq) implies records_in(w.log, seq) >= 1
        && (records_in(w.log, seq) >= 2 ==> w.disk[seq].len() <= segment_size) by {
        assert(w.store.segments.contains_key(seq));
    }
}

/// After any history, the bytes used are the lengths of the files, and they are a
/// file header for each segment, and for each body ever written, deleted or not,
/// its header and its length.
pub proof fn law_history_total_bytes(segment_size: u64, steps: Seq<Step>)
    requires
        possible(segment_size, steps),
    ensures
        ({
            let w = run(segment_size, steps);
            &&& w.store.total_bytes() == FILE_HEADER_SIZE * w.store.segments.len() + record_bytes(
                w.log,
            )
            &&& w.store.total_bytes() == map_sum(w.disk.map_values(|image: Seq<u8>| image.len()))
        }),
{
    let w = run(segment_size, steps);
    let sizes = w.disk.map_values(|image: Seq<u8>| image.len());
    lemma_history(segment_size, steps);
    assert forall|seq: u64| #[trigger] w.store.segments.contains_key(seq) implies sizes[seq]
        == w.store.totals()[seq] by {
        assert(w.disk.contains_key(seq));
    }
    assert(sizes =~= w.store.totals());
}

/// After any history, a body is read back as it was written, unless it has been
/// deleted since the store was last opened. An id that was deleted, or that no
/// body has, is not found.
pub proof fn law_history_reads(segment_size: u64, steps: Seq<Step>, id: BodyId)
    requires
        possible(segment_size, steps),
    ensures
        ({
            let w = run(segment_size, steps);
            let read = disk_read(w.store, w.disk, id);
            &&& id.0 >= w.log.len() || w.deleted.contains(id.0) ==> read == Err::<
                Seq<u8>,
                ErrorModel,
            >(ErrorModel::NotFound(id))
            &&& id.0 < w.log.len() && !w.deleted.contains(id.0) && w.log[id.0 as int].body.len()
                < 0x1_0000_0000 ==> read == Ok::<Seq<u8>, ErrorModel>(w.log[id.0 as int].body)
        }),
{
    let w = run(segment_size, steps);
    lemma_history(segment_size, steps);
    if id.0 < w.log.len() && !w.deleted.contains(id.0) {
        let e = w.log[id.0 as int];
        let loc = w.places[id.0];
        assert(record_at(w.disk, loc, id.0, e));
        assert(w.store.index.contains_key(id.0));
        law_body_header_round_trip(
            BodyHeader { body_id: id, len: recorded_len(e.body.len()), crc: crc32(e.body) },
        );
        if e.body.len() < 0x1_0000_0000 {
            assert(loc.len == e.body.len());
            assert(body_bytes_of(w.disk, loc) == e.body);
        }
    }
}

/// After any history of bodies whose lengths their headers can hold, the live bytes
/// are those of the bodies that ids refer to.
pub proof fn law_history_live_bytes(segment_size: u64, steps: Seq<Step>)
    requires
        possible(segment_size, steps),
        all_short(run(segment_size, steps).log),
    ensures
        ({
            let w = run(segment_size, steps);
            w.store.live_bytes() == map_sum(lens(w.store.index))
        }),
{
    lemma_history(segment_size, steps);
    law_live_bytes_are_those_of_the_live_bodies(run(segment_size, steps).store);
}

/// After any history, the store is in order and ready for the next body, which
/// gets the next number as its id, greater than all before it.
pub proof fn law_history_can_go_on(segment_size: u64, steps: Seq<Step>, body: Seq<u8>)
    requires
        possible(segment_size, steps),
        run(segment_size, steps).allows(Step::Write(body)),
    ensures
        ({
            let w = run(segment_size, steps);
            &&& w.store.wf()
            &&& w.store.has_numbers_for(body.len())
            &&& w.store.write_of(body.len(), crc32(body)).body_id.0 == w.log.len()
            &&& possible(segment_size, steps.push(Step::Write(body)))
        }),
{
    lemma_history(segment_size, steps);
    lemma_written_file(run(segment_size, steps), body);
    assert(steps.push(Step::Write(body)).drop_last() =~= steps);
}

} // verus!
