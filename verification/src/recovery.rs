//! Opening a store: reading back the segments that are on disk.

use crate::disk::recovered;
use crate::error::ErrorModel;
use crate::model::{ids_have_successors, StoreModel};
use crate::names::{ascending, listed, segment_seqs};
use crate::scan::{scan_spec, ScanEntry, SegmentScan};
use crate::store::BodyStore;
use vstd::prelude::*;

verus! {

/// The state of a store that is being opened.
#[verifier::ext_equal]
pub struct RecoveryModel {
    /// The segments on disk.
    pub seqs: Seq<u64>,
    /// How many of them have been read.
    pub done: nat,
    /// What they hold.
    pub store: StoreModel,
}

impl RecoveryModel {
    pub open spec fn wf(self) -> bool {
        &&& ascending(self.seqs)
        &&& self.done <= self.seqs.len()
        &&& self.store.wf()
        &&& self.store.current_seq == if self.done == 0 {
            None
        } else {
            Some(self.seqs[self.done - 1])
        }
    }

    /// The segment to read next.
    pub open spec fn next_segment(self) -> Option<u64> {
        if self.done < self.seqs.len() {
            Some(self.seqs[self.done as int])
        } else {
            None
        }
    }
}

/// A store that is given the scans of the files of one disk, in the order in
/// which it asks for them, comes to hold what the disk does.
pub proof fn law_recovery_follows_the_disk(
    r: RecoveryModel,
    segment_size: u64,
    disk: Map<u64, Seq<u8>>,
    entries: Seq<ScanEntry>,
    consumed: u64,
)
    requires
        r.done < r.seqs.len(),
        r.store == recovered(segment_size, disk, r.seqs.take(r.done as int)),
        scan_spec(disk[r.seqs[r.done as int]]) == Ok::<(Seq<ScanEntry>, int), ErrorModel>(
            (entries, consumed as int),
        ),
    ensures
        r.store.with_segment(r.seqs[r.done as int], entries, consumed) == recovered(
            segment_size,
            disk,
            r.seqs.take((r.done + 1) as int),
        ),
        r.done + 1 == r.seqs.len() ==> r.seqs.take((r.done + 1) as int) == r.seqs,
{
    let n = r.done as int;
    assert(r.seqs.take(n + 1).drop_last() =~= r.seqs.take(n));
    assert(r.seqs.take(n + 1).last() == r.seqs[n]);
}

/// A store that is being opened. The caller scans the segments that
/// [`StoreRecovery::next_segment`] names, one after the other, and hands over
/// what each one holds.
#[derive(Debug)]
pub struct StoreRecovery {
    seqs: Vec<u64>,
    done: usize,
    store: BodyStore,
}

impl View for StoreRecovery {
    type V = RecoveryModel;

    closed spec fn view(&self) -> RecoveryModel {
        RecoveryModel { seqs: self.seqs@, done: self.done as nat, store: self.store@ }
    }
}

impl BodyStore {
    /// Begins to open the store in a directory that holds files with these
    /// names. Names that are not those of segments are passed over.
    pub fn open(names: &Vec<String>, segment_size: u64) -> (recovery: StoreRecovery)
        ensures
            recovery@.wf(),
            forall|i: int, j: int|
                0 <= i < j < recovery@.seqs.len() ==> recovery@.seqs[i] < recovery@.seqs[j],
            forall|seq: u64| recovery@.seqs.contains(seq) <==> listed(names@, seq),
            recovery@.done == 0,
            recovery@.store == StoreModel::empty(segment_size),
    {
        StoreRecovery {
            seqs: segment_seqs(names),
            done: 0,
            store: BodyStore::without_segments(segment_size),
        }
    }
}

impl StoreRecovery {
    /// The segment to scan next, or `None` when all have been.
    pub fn next_segment(&self) -> (seq: Option<u64>)
        ensures
            seq == self@.next_segment(),
    {
        if self.done < self.seqs.len() {
            Some(self.seqs[self.done])
        } else {
            None
        }
    }

    /// Takes in what that segment holds.
    pub fn add_segment(&mut self, scan: &SegmentScan)
        requires
            old(self)@.wf(),
            old(self)@.next_segment() matches Some(seq) && seq < u64::MAX,
            scan.wf(),
            ids_have_successors(scan.entries@),
        ensures
            final(self)@ == (RecoveryModel {
                seqs: old(self)@.seqs,
                done: old(self)@.done + 1,
                store: old(self)@.store.with_segment(
                    old(self)@.next_segment()->0,
                    scan.entries@,
                    scan.consumed,
                ),
            }),
            final(self)@.wf(),
    {
        let count: usize = self.seqs.len();
        let seq = self.seqs[self.done];
        self.store.add_segment(seq, scan);
        proof {
            assert(self.done < count);
        }
        self.done = self.done + 1;
    }

    /// The store, once all segments have been taken in.
    pub fn finish(self) -> (store: BodyStore)
        requires
            self@.wf(),
            self@.next_segment() is None,
        ensures
            store@ == self@.store,
            store@.wf(),
    {
        self.store
    }
}

} // verus!
