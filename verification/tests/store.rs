//! The store at work on a directory of files in memory.

use body_store::error::BodyStoreError;
use body_store::format::{
    encode_body_header, file_header, BodyHeader, BODY_HEADER_SIZE, FILE_HEADER_SIZE,
};
use body_store::job::BodyId;
use body_store::names::segment_file_name;
use body_store::scan::SegmentScanner;
use body_store::store::{BodyStore, BodyWrite};
use std::collections::BTreeMap;

/// A directory: the bytes of each file, and how often each has been synced.
#[derive(Default)]
struct Dir {
    files: BTreeMap<String, Vec<u8>>,
    syncs: BTreeMap<String, usize>,
}

impl Dir {
    fn new() -> Self {
        Dir::default()
    }

    fn file(&self, seq: u64) -> &Vec<u8> {
        &self.files[&segment_file_name(seq)]
    }

    fn file_mut(&mut self, seq: u64) -> &mut Vec<u8> {
        self.files.get_mut(&segment_file_name(seq)).unwrap()
    }

    fn sync(&mut self, seq: u64) {
        *self.syncs.entry(segment_file_name(seq)).or_insert(0) += 1;
    }

    fn syncs(&self, seq: u64) -> usize {
        self.syncs.get(&segment_file_name(seq)).copied().unwrap_or(0)
    }

    fn write_at(&mut self, seq: u64, offset: u64, bytes: &[u8]) {
        let file = self.file_mut(seq);
        let start = offset as usize;
        let end = start + bytes.len();
        if file.len() < end {
            file.resize(end, 0);
        }
        file[start..end].copy_from_slice(bytes);
    }

    fn read_at(&self, seq: u64, offset: u64, len: usize) -> Vec<u8> {
        let start = offset as usize;
        self.file(seq)[start..start + len].to_vec()
    }
}

fn try_open(dir: &Dir, segment_size: u64) -> Result<BodyStore, BodyStoreError> {
    let names: Vec<String> = dir.files.keys().cloned().collect();
    let mut recovery = BodyStore::open(&names, segment_size);
    while let Some(seq) = recovery.next_segment() {
        let mut scanner = SegmentScanner::begin(dir.file(seq).len() as u64)?;
        while let Some(at) = scanner.next_read() {
            scanner.supply(&dir.read_at(seq, at.offset, at.len))?;
        }
        recovery.add_segment(&scanner.finish());
    }
    Ok(recovery.finish())
}

fn open_sized(dir: &Dir, segment_size: u64) -> BodyStore {
    try_open(dir, segment_size).expect("open body store")
}

fn open(dir: &Dir) -> BodyStore {
    open_sized(dir, 1024 * 1024)
}

fn start_segment(dir: &mut Dir, bs: &mut BodyStore, write: &BodyWrite) {
    if let Some(sealed) = write.seal {
        dir.sync(sealed);
    }
    if write.create {
        dir.files.insert(segment_file_name(write.seq), file_header());
        dir.sync(write.seq);
        bs.segment_started(write.seq);
    }
}

/// Cuts the file off and writes the first `done` bytes of the record.
fn write_record(dir: &mut Dir, write: &BodyWrite, bytes: &[u8], done: usize) {
    dir.file_mut(write.seq).truncate(write.header_offset as usize);
    let header_done = done.min(BODY_HEADER_SIZE);
    dir.write_at(write.seq, write.header_offset, &write.header[..header_done]);
    if done > BODY_HEADER_SIZE {
        dir.write_at(write.seq, write.body_offset, &bytes[..done - BODY_HEADER_SIZE]);
    }
}

fn write_body(dir: &mut Dir, bs: &mut BodyStore, bytes: &[u8]) -> BodyId {
    assert!(bs.has_numbers_for(bytes.len()));
    let write = bs.write_body(bytes);
    start_segment(dir, bs, &write);
    write_record(dir, &write, bytes, BODY_HEADER_SIZE + bytes.len());
    bs.body_written(&write)
}

fn read_body(dir: &Dir, bs: &BodyStore, id: BodyId) -> Result<Vec<u8>, BodyStoreError> {
    let location = bs.locate(id)?;
    let header = dir.read_at(location.seq, location.header_offset(), BODY_HEADER_SIZE);
    let body = dir.read_at(location.seq, location.offset, location.len as usize);
    bs.read_body(id, &header, body)
}

fn fsync(dir: &mut Dir, bs: &BodyStore) {
    if let Some(seq) = bs.fsync() {
        dir.sync(seq);
    }
}

/// Deterministic xorshift generator.
struct Lcg(u64);

impl Lcg {
    fn new(seed: u64) -> Self {
        Self(seed.max(1))
    }

    fn next_u64(&mut self) -> u64 {
        let mut x = self.0;
        x ^= x << 13;
        x ^= x >> 7;
        x ^= x << 17;
        self.0 = x;
        x
    }

    fn gen_range(&mut self, lo: usize, hi_inclusive: usize) -> usize {
        lo + (self.next_u64() as usize % (hi_inclusive - lo + 1))
    }

    fn fill(&mut self, buf: &mut [u8]) {
        for b in buf.iter_mut() {
            *b = (self.next_u64() & 0xFF) as u8;
        }
    }
}

#[test]
fn write_then_read_round_trip() {
    let mut dir = Dir::new();
    let mut bs = open(&dir);
    let id = write_body(&mut dir, &mut bs, b"hello world");
    assert_eq!(read_body(&dir, &bs, id).unwrap(), b"hello world");
}

#[test]
fn many_random_bodies_round_trip() {
    let mut dir = Dir::new();
    // Small segment size to force several rotations.
    let mut bs = open_sized(&dir, 32 * 1024);
    let mut rng = Lcg::new(42);

    let mut written: Vec<(BodyId, Vec<u8>)> = Vec::new();
    for _ in 0..1000 {
        let len = rng.gen_range(1, 512);
        let mut body = vec![0u8; len];
        rng.fill(&mut body);
        let id = write_body(&mut dir, &mut bs, &body);
        written.push((id, body));
    }

    // Multiple segments must have been created.
    assert!(bs.segment_count() > 1);

    for (id, expected) in &written {
        assert_eq!(&read_body(&dir, &bs, *id).unwrap(), expected);
    }
}

#[test]
fn restart_rebuilds_index_from_headers() {
    let mut dir = Dir::new();
    let mut written: Vec<(BodyId, Vec<u8>)> = Vec::new();
    {
        let mut bs = open_sized(&dir, 8 * 1024);
        let mut rng = Lcg::new(1);
        for _ in 0..50 {
            let len = rng.gen_range(64, 256);
            let mut body = vec![0u8; len];
            rng.fill(&mut body);
            let id = write_body(&mut dir, &mut bs, &body);
            written.push((id, body));
        }
        fsync(&mut dir, &bs);
    }

    // The index is rebuilt from the segment headers.
    let mut bs2 = open_sized(&dir, 8 * 1024);
    for (id, expected) in &written {
        assert_eq!(&read_body(&dir, &bs2, *id).unwrap(), expected);
    }

    // New writes get fresh, greater ids.
    let next_id = write_body(&mut dir, &mut bs2, b"after-restart");
    assert!(next_id.0 > written.last().unwrap().0 .0);
}

#[test]
fn delete_decrements_live_bytes() {
    let mut dir = Dir::new();
    let mut bs = open(&dir);
    let id1 = write_body(&mut dir, &mut bs, &[0u8; 100]);
    let id2 = write_body(&mut dir, &mut bs, &[0u8; 200]);
    assert_eq!(bs.live_bytes(), 300);

    bs.delete(id1);
    assert_eq!(bs.live_bytes(), 200);

    // The bytes are still on disk, but the id is gone.
    match read_body(&dir, &bs, id1) {
        Err(BodyStoreError::NotFound(_)) => {}
        other => panic!("expected NotFound after delete, got {:?}", other),
    }

    // The other body is still readable.
    assert_eq!(read_body(&dir, &bs, id2).unwrap(), &[0u8; 200]);
}

#[test]
fn truncated_tail_is_recoverable() {
    let mut dir = Dir::new();
    let id1;
    let id2;
    {
        let mut bs = open(&dir);
        id1 = write_body(&mut dir, &mut bs, b"first");
        id2 = write_body(&mut dir, &mut bs, b"second");
        fsync(&mut dir, &bs);
    }

    // Lop off the last few bytes of the most recent segment, as a crash in the
    // middle of a write would.
    let last = dir.files.keys().last().unwrap().clone();
    let len = dir.files[&last].len();
    dir.files.get_mut(&last).unwrap().truncate(len - 3);

    let mut bs2 = open(&dir);
    // First body still present.
    assert_eq!(read_body(&dir, &bs2, id1).unwrap(), b"first");
    // Second body got truncated and should not be present.
    assert!(matches!(read_body(&dir, &bs2, id2), Err(BodyStoreError::NotFound(_))));

    // Subsequent writes succeed and land at the truncation point, not past the
    // corrupted record.
    let id3 = write_body(&mut dir, &mut bs2, b"third");
    assert_eq!(read_body(&dir, &bs2, id3).unwrap(), b"third");
    assert_eq!(bs2.locate(id3).unwrap().offset, 16 + 20 + 5 + 20);
}

#[test]
fn corrupted_body_bytes_detected_via_crc() {
    let mut dir = Dir::new();
    let id;
    let seq;
    let body_offset;
    {
        let mut bs = open(&dir);
        id = write_body(&mut dir, &mut bs, b"verify-me");
        fsync(&mut dir, &bs);
        let loc = bs.locate(id).unwrap();
        body_offset = loc.offset;
        seq = loc.seq;
    }

    // Flip a byte in the body region.
    dir.file_mut(seq)[body_offset as usize] ^= 0xFF;

    let bs2 = open(&dir);
    match read_body(&dir, &bs2, id) {
        Err(BodyStoreError::BadCrc { body_id, expected, found }) => {
            assert_eq!(body_id.0, id.0);
            assert_ne!(expected, found);
        }
        other => panic!("expected BadCrc, got {:?}", other),
    }
}

#[test]
fn segment_rotation_at_size_threshold() {
    let mut dir = Dir::new();
    // Tiny segment: file header and one record of about 512 bytes fill it.
    let mut bs = open_sized(&dir, 600);
    let body = vec![0xAB; 500];
    let id1 = write_body(&mut dir, &mut bs, &body);
    let id2 = write_body(&mut dir, &mut bs, &body);
    assert!(bs.segment_count() >= 2);
    assert_eq!(read_body(&dir, &bs, id1).unwrap(), body);
    assert_eq!(read_body(&dir, &bs, id2).unwrap(), body);
}

#[test]
fn first_record_has_the_documented_bytes() {
    let mut dir = Dir::new();
    let mut bs = open(&dir);
    let id = write_body(&mut dir, &mut bs, b"hello world");
    assert_eq!(id.0, 0);
    let mut expected: Vec<u8> = Vec::new();
    expected.extend_from_slice(b"TBOD");
    expected.extend_from_slice(&[1, 0, 0, 0]);
    expected.extend_from_slice(&[0; 8]);
    expected.extend_from_slice(&[0; 8]);
    expected.extend_from_slice(&[11, 0, 0, 0]);
    expected.extend_from_slice(&[0x85, 0x11, 0x4A, 0x0D]);
    expected.extend_from_slice(&[0; 4]);
    expected.extend_from_slice(b"hello world");
    assert_eq!(dir.file(0), &expected);
    let names: Vec<&String> = dir.files.keys().collect();
    assert_eq!(names, ["body.000000"]);
}

#[test]
fn new_store_is_empty() {
    let bs = open(&Dir::new());
    assert_eq!(bs.segment_count(), 0);
    assert_eq!(bs.total_bytes(), 0);
    assert_eq!(bs.live_bytes(), 0);
    assert_eq!(bs.fsync(), None);
    assert!(matches!(bs.locate(BodyId(0)), Err(BodyStoreError::NotFound(BodyId(0)))));
}

#[test]
fn ids_count_up_from_zero() {
    let mut dir = Dir::new();
    let mut bs = open(&dir);
    for n in 0..5 {
        assert_eq!(write_body(&mut dir, &mut bs, b"x").0, n);
    }
}

#[test]
fn next_id_after_restart_is_one_above_the_highest() {
    let mut dir = Dir::new();
    {
        let mut bs = open_sized(&dir, 60);
        for _ in 0..4 {
            write_body(&mut dir, &mut bs, b"0123456789");
        }
        assert_eq!(bs.segment_count(), 4);
    }
    let mut bs = open_sized(&dir, 60);
    assert_eq!(write_body(&mut dir, &mut bs, b"x").0, 4);
}

#[test]
fn next_id_follows_the_highest_and_not_the_last_record() {
    let mut dir = Dir::new();
    {
        let mut bs = open(&dir);
        write_body(&mut dir, &mut bs, b"a");
        write_body(&mut dir, &mut bs, b"b");
    }
    // Give the first record the id 700.
    dir.file_mut(0)[16..24].copy_from_slice(&700u64.to_le_bytes());
    let mut bs = open(&dir);
    assert_eq!(read_body(&dir, &bs, BodyId(700)).unwrap(), b"a");
    assert_eq!(write_body(&mut dir, &mut bs, b"c").0, 701);
}

#[test]
fn last_record_with_an_id_wins() {
    let mut dir = Dir::new();
    {
        let mut bs = open(&dir);
        write_body(&mut dir, &mut bs, b"old");
        write_body(&mut dir, &mut bs, b"newer");
    }
    // Give the second record the id of the first.
    let second = 16 + 20 + 3;
    dir.file_mut(0)[second..second + 8].copy_from_slice(&0u64.to_le_bytes());
    let bs = open(&dir);
    assert_eq!(read_body(&dir, &bs, BodyId(0)).unwrap(), b"newer");
    assert!(bs.locate(BodyId(1)).is_err());
    // Both bodies count as live.
    assert_eq!(bs.live_bytes(), 8);
}

#[test]
fn write_leaves_other_bodies_alone() {
    let mut dir = Dir::new();
    let mut bs = open_sized(&dir, 100);
    let id1 = write_body(&mut dir, &mut bs, b"one");
    let before = bs.locate(id1).unwrap();
    for _ in 0..10 {
        write_body(&mut dir, &mut bs, b"filler filler");
    }
    assert_eq!(bs.locate(id1).unwrap(), before);
    assert_eq!(read_body(&dir, &bs, id1).unwrap(), b"one");
}

#[test]
fn empty_body_is_stored() {
    let mut dir = Dir::new();
    let mut bs = open(&dir);
    let id = write_body(&mut dir, &mut bs, b"");
    assert_eq!(read_body(&dir, &bs, id).unwrap(), b"");
    assert_eq!(bs.live_bytes(), 0);
    assert_eq!(bs.total_bytes(), 36);
    let bs = open(&dir);
    assert_eq!(read_body(&dir, &bs, id).unwrap(), b"");
}

#[test]
fn counts_cover_headers_and_bodies() {
    let mut dir = Dir::new();
    let mut bs = open_sized(&dir, 100);
    write_body(&mut dir, &mut bs, &[1; 40]);
    assert_eq!(bs.total_bytes(), 16 + 20 + 40);
    write_body(&mut dir, &mut bs, &[2; 40]);
    assert_eq!(bs.segment_count(), 2);
    assert_eq!(bs.total_bytes(), 2 * (16 + 20 + 40));
    assert_eq!(bs.live_bytes(), 80);
    assert_eq!(bs.checked_total_bytes(), Some(152));
    assert_eq!(bs.checked_live_bytes(), Some(80));
    let lengths: usize = dir.files.values().map(|f| f.len()).sum();
    assert_eq!(lengths, 152);
    let reopened = open_sized(&dir, 100);
    assert_eq!(reopened.total_bytes(), 152);
    assert_eq!(reopened.live_bytes(), 80);
}

#[test]
fn rotation_happens_only_beyond_the_segment_size() {
    // Two records of 20 + 32 bytes and the file header fill 120 bytes exactly.
    let mut dir = Dir::new();
    let mut bs = open_sized(&dir, 120);
    write_body(&mut dir, &mut bs, &[0; 32]);
    write_body(&mut dir, &mut bs, &[0; 32]);
    assert_eq!(bs.segment_count(), 1);

    let mut dir = Dir::new();
    let mut bs = open_sized(&dir, 119);
    write_body(&mut dir, &mut bs, &[0; 32]);
    write_body(&mut dir, &mut bs, &[0; 32]);
    assert_eq!(bs.segment_count(), 2);
}

#[test]
fn oversized_body_gets_a_segment_of_its_own() {
    let mut dir = Dir::new();
    let mut bs = open_sized(&dir, 50);
    let big = vec![7; 1000];
    let id = write_body(&mut dir, &mut bs, &big);
    assert_eq!(bs.segment_count(), 1);
    assert_eq!(read_body(&dir, &bs, id).unwrap(), big);
    write_body(&mut dir, &mut bs, b"x");
    assert_eq!(bs.segment_count(), 2);
}

#[test]
fn rotation_seals_the_old_segment() {
    let mut dir = Dir::new();
    let mut bs = open_sized(&dir, 60);
    let first = bs.write_body(b"0123456789");
    assert_eq!((first.seal, first.create, first.seq), (None, true, 0));
    start_segment(&mut dir, &mut bs, &first);
    bs.body_written(&first);
    let second = bs.write_body(b"0123456789");
    assert_eq!((second.seal, second.create, second.seq), (Some(0), true, 1));
    start_segment(&mut dir, &mut bs, &second);
    bs.body_written(&second);
    // Once when it was created, once when it was sealed.
    assert_eq!(dir.syncs(0), 2);
    assert_eq!(bs.fsync(), Some(1));
}

#[test]
fn append_seals_and_creates_nothing() {
    let mut dir = Dir::new();
    let mut bs = open(&dir);
    write_body(&mut dir, &mut bs, b"abc");
    let write = bs.write_body(b"defg");
    assert_eq!((write.seal, write.create, write.seq), (None, false, 0));
    assert_eq!(write.header_offset, 39);
    assert_eq!(write.body_offset, 59);
    assert_eq!(write.len, 4);
    assert_eq!(write.header.len(), 20);
}

#[test]
fn failed_write_uses_up_its_id_and_leaves_no_body() {
    let mut dir = Dir::new();
    let mut bs = open(&dir);
    let id0 = write_body(&mut dir, &mut bs, b"kept");
    // The header reaches the disk, the body does not.
    let write = bs.write_body(b"lost");
    write_record(&mut dir, &write, b"lost", BODY_HEADER_SIZE);
    assert_eq!(write.body_id.0, 1);
    assert!(bs.locate(BodyId(1)).is_err());
    assert_eq!(bs.total_bytes(), 40);
    let id2 = write_body(&mut dir, &mut bs, b"next");
    assert_eq!(id2.0, 2);
    assert_eq!(read_body(&dir, &bs, id0).unwrap(), b"kept");
    assert_eq!(read_body(&dir, &bs, id2).unwrap(), b"next");
    assert_eq!(bs.locate(id2).unwrap().offset, 60);
}

#[test]
fn failed_rotation_uses_up_its_segment_number() {
    let mut dir = Dir::new();
    let mut bs = open_sized(&dir, 60);
    write_body(&mut dir, &mut bs, b"0123456789");
    // Segment 1 could not be created.
    let failed = bs.write_body(b"0123456789");
    assert_eq!(failed.seq, 1);
    assert_eq!(bs.segment_count(), 1);
    let id = write_body(&mut dir, &mut bs, b"0123456789");
    assert_eq!(bs.locate(id).unwrap().seq, 2);
    assert_eq!(bs.segment_count(), 2);
    let reopened = open_sized(&dir, 60);
    assert_eq!(read_body(&dir, &reopened, id).unwrap(), b"0123456789");
}

#[test]
fn deleting_an_unknown_id_changes_nothing() {
    let mut dir = Dir::new();
    let mut bs = open(&dir);
    let id = write_body(&mut dir, &mut bs, b"abc");
    bs.delete(BodyId(99));
    assert_eq!(bs.live_bytes(), 3);
    assert_eq!(bs.total_bytes(), 39);
    assert_eq!(read_body(&dir, &bs, id).unwrap(), b"abc");
    bs.delete(id);
    bs.delete(id);
    assert_eq!(bs.live_bytes(), 0);
    assert_eq!(bs.total_bytes(), 39);
}

#[test]
fn deletion_is_forgotten_by_a_restart() {
    let mut dir = Dir::new();
    let id;
    {
        let mut bs = open(&dir);
        id = write_body(&mut dir, &mut bs, b"abc");
        bs.delete(id);
    }
    let bs = open(&dir);
    assert_eq!(read_body(&dir, &bs, id).unwrap(), b"abc");
    assert_eq!(bs.live_bytes(), 3);
}

#[test]
fn segment_cut_anywhere_keeps_the_complete_records() {
    let mut dir = Dir::new();
    {
        let mut bs = open(&dir);
        write_body(&mut dir, &mut bs, b"first");
        write_body(&mut dir, &mut bs, b"second");
    }
    let whole = dir.file(0).clone();
    assert_eq!(whole.len(), 16 + 25 + 26);
    for cut in FILE_HEADER_SIZE..whole.len() + 1 {
        dir.file_mut(0).clone_from(&whole);
        dir.file_mut(0).truncate(cut);
        let mut bs = open(&dir);
        assert_eq!(bs.locate(BodyId(0)).is_ok(), cut >= 41);
        assert_eq!(bs.locate(BodyId(1)).is_ok(), cut >= 67);
        let end = if cut >= 67 {
            67
        } else if cut >= 41 {
            41
        } else {
            16
        };
        assert_eq!(bs.total_bytes(), end);
        // A body of any length is found again, and nothing that was not written.
        for len in [0, 1, 5, 64] {
            dir.file_mut(0).clone_from(&whole);
            dir.file_mut(0).truncate(cut);
            let mut bs = open(&dir);
            let id = write_body(&mut dir, &mut bs, &vec![9; len]);
            let reopened = open(&dir);
            assert_eq!(read_body(&dir, &reopened, id).unwrap(), vec![9; len]);
            assert_eq!(reopened.total_bytes(), end + 20 + len as u64);
            assert_eq!(reopened.total_bytes() as usize, dir.file(0).len());
            assert_eq!(reopened.live_bytes(), bs.live_bytes());
        }
    }
}

#[test]
fn torn_record_under_a_shorter_one_stays_absent() {
    let mut dir = Dir::new();
    {
        let mut bs = open(&dir);
        assert_eq!(write_body(&mut dir, &mut bs, b"first").0, 0);
        assert_eq!(write_body(&mut dir, &mut bs, &[0u8; 100]).0, 1);
    }
    let len = dir.file(0).len();
    dir.file_mut(0).truncate(len - 3);
    {
        let mut bs = open(&dir);
        // Opening changes nothing on disk.
        assert_eq!(dir.file(0).len(), len - 3);
        assert_eq!(write_body(&mut dir, &mut bs, b"x").0, 1);
        assert_eq!(bs.locate(BodyId(1)).unwrap().offset, 61);
    }
    assert_eq!(dir.file(0).len(), 62);
    let bs = open(&dir);
    assert_eq!(read_body(&dir, &bs, BodyId(0)).unwrap(), b"first");
    assert_eq!(read_body(&dir, &bs, BodyId(1)).unwrap(), b"x");
    assert_eq!(bs.total_bytes(), 62);
    assert_eq!(bs.live_bytes(), 6);
}

#[test]
fn record_inside_a_torn_body_stays_absent() {
    // A body that holds what looks like a record of body 0, placed so that the
    // next, empty body ends right in front of it.
    let mut payload: Vec<u8> = encode_body_header(BodyHeader {
        body_id: BodyId(0),
        len: 6,
        crc: 0xAAF6_2269,
    });
    payload.extend_from_slice(b"forged");
    payload.extend_from_slice(&[0; 10]);
    let mut dir = Dir::new();
    {
        let mut bs = open(&dir);
        write_body(&mut dir, &mut bs, b"first");
        write_body(&mut dir, &mut bs, &payload);
    }
    let len = dir.file(0).len();
    dir.file_mut(0).truncate(len - 3);
    {
        let mut bs = open(&dir);
        write_body(&mut dir, &mut bs, b"");
    }
    let bs = open(&dir);
    assert_eq!(read_body(&dir, &bs, BodyId(0)).unwrap(), b"first");
    assert_eq!(bs.live_bytes(), 5);
}

#[test]
fn write_that_stops_anywhere_harms_no_body() {
    let lost = vec![0u8; 50];
    for done in 0..BODY_HEADER_SIZE + lost.len() {
        let mut dir = Dir::new();
        let mut bs = open(&dir);
        let id0 = write_body(&mut dir, &mut bs, b"kept");
        let write = bs.write_body(&lost);
        write_record(&mut dir, &write, &lost, done);
        assert_eq!(read_body(&dir, &bs, id0).unwrap(), b"kept");

        // A restart right away finds what was there before.
        let reopened = open(&dir);
        assert_eq!(read_body(&dir, &reopened, id0).unwrap(), b"kept");
        assert_eq!(reopened.total_bytes(), 40);
        assert_eq!(reopened.live_bytes(), 4);

        // So does one after another write.
        let id2 = write_body(&mut dir, &mut bs, b"z");
        let reopened = open(&dir);
        assert_eq!(read_body(&dir, &reopened, id0).unwrap(), b"kept");
        assert_eq!(read_body(&dir, &reopened, id2).unwrap(), b"z");
        assert!(reopened.locate(write.body_id).is_err());
        assert_eq!(reopened.total_bytes(), 61);
    }
}

#[test]
fn every_changed_body_byte_is_detected() {
    let mut dir = Dir::new();
    let mut bs = open(&dir);
    let body: Vec<u8> = (0..100).collect();
    let id = write_body(&mut dir, &mut bs, &body);
    let offset = bs.locate(id).unwrap().offset as usize;
    for i in 0..body.len() {
        for bit in 0..8 {
            dir.file_mut(0)[offset + i] ^= 1 << bit;
            assert!(matches!(read_body(&dir, &bs, id), Err(BodyStoreError::BadCrc { .. })));
            dir.file_mut(0)[offset + i] ^= 1 << bit;
        }
    }
    assert_eq!(read_body(&dir, &bs, id).unwrap(), body);
}

#[test]
fn crc_error_tells_both_checksums() {
    let mut dir = Dir::new();
    let mut bs = open(&dir);
    let id = write_body(&mut dir, &mut bs, b"verify-me");
    let offset = bs.locate(id).unwrap().offset as usize;
    dir.file_mut(0)[offset] ^= 0xFF;
    match read_body(&dir, &bs, id) {
        Err(BodyStoreError::BadCrc { expected, found, body_id }) => {
            assert_eq!(expected, CRC_VERIFY_ME);
            assert_eq!(found, CRC_VERIFY_ME_CHANGED);
            assert_eq!(body_id, id);
        }
        other => panic!("expected BadCrc, got {:?}", other),
    }
}

const CRC_VERIFY_ME: u32 = 0x74EC_A7CB;
const CRC_VERIFY_ME_CHANGED: u32 = 0x3DA3_AB80;

#[test]
fn empty_segment_file_is_given_its_header() {
    let mut dir = Dir::new();
    dir.files.insert("body.000003".to_string(), Vec::new());
    let mut bs = open(&dir);
    assert_eq!(bs.segment_count(), 1);
    assert_eq!(bs.total_bytes(), 0);
    let write = bs.write_body(b"abc");
    assert_eq!((write.seal, write.create, write.seq), (None, true, 3));
    assert_eq!(write.header_offset, 16);
    start_segment(&mut dir, &mut bs, &write);
    write_record(&mut dir, &write, b"abc", BODY_HEADER_SIZE + 3);
    let id = bs.body_written(&write);
    assert_eq!(bs.segment_count(), 1);
    assert_eq!(read_body(&dir, &bs, id).unwrap(), b"abc");
    let reopened = open(&dir);
    assert_eq!(read_body(&dir, &reopened, id).unwrap(), b"abc");
    assert_eq!(reopened.total_bytes(), 39);
}

#[test]
fn other_files_are_passed_over() {
    let mut dir = Dir::new();
    dir.files.insert("body.tmp".to_string(), vec![1, 2, 3]);
    dir.files.insert("wal.000001".to_string(), vec![1, 2, 3]);
    let mut bs = open(&dir);
    assert_eq!(bs.segment_count(), 0);
    write_body(&mut dir, &mut bs, b"abc");
    assert_eq!(bs.segment_count(), 1);
    assert_eq!(open(&dir).segment_count(), 1);
}

#[test]
fn new_segments_follow_the_highest_number() {
    let mut dir = Dir::new();
    dir.files.insert("body.000041".to_string(), file_header());
    dir.files.insert("body.000007".to_string(), file_header());
    let mut bs = open_sized(&dir, 10);
    assert_eq!(bs.segment_count(), 2);
    assert_eq!(bs.fsync(), Some(41));
    let id = write_body(&mut dir, &mut bs, b"abc");
    assert_eq!(bs.locate(id).unwrap().seq, 42);
}

#[test]
fn damaged_files_are_not_opened() {
    let mut dir = Dir::new();
    dir.files.insert("body.000000".to_string(), vec![0; 15]);
    assert!(matches!(try_open(&dir, 100), Err(BodyStoreError::Io(_))));
    dir.files.insert("body.000000".to_string(), vec![0; 16]);
    assert!(matches!(try_open(&dir, 100), Err(BodyStoreError::BadMagic)));
    let mut header = file_header();
    header[4] = 2;
    dir.files.insert("body.000000".to_string(), header);
    assert!(matches!(try_open(&dir, 100), Err(BodyStoreError::BadVersion(2))));
}

#[test]
fn numbers_run_out_at_the_last_segment() {
    let mut dir = Dir::new();
    dir.files.insert(format!("body.{}", u64::MAX - 1), file_header());
    let bs = open_sized(&dir, 10);
    assert!(!bs.has_numbers_for(1));
    let bs = open_sized(&dir, 1000);
    assert!(bs.has_numbers_for(1));
    assert!(!bs.has_numbers_for(1000));
}

#[test]
fn counts_that_do_not_fit_are_reported() {
    let mut bs = open_sized(&Dir::new(), 100);
    let len = usize::MAX - 36;
    for seq in 0..2 {
        assert!(bs.has_numbers_for(len));
        let write = bs.begin_write(len, 0);
        assert_eq!(write.seq, seq);
        bs.segment_started(write.seq);
        bs.body_written(&write);
        if seq == 0 {
            assert_eq!(bs.checked_total_bytes(), Some(u64::MAX));
            assert_eq!(bs.checked_live_bytes(), Some(u64::MAX - 36));
        }
    }
    assert_eq!(bs.checked_total_bytes(), None);
    assert_eq!(bs.checked_live_bytes(), None);
    assert!(!bs.has_numbers_for(usize::MAX - 35));
}

#[test]
fn length_is_recorded_in_32_bits() {
    let mut bs = open_sized(&Dir::new(), 100);
    let write = bs.begin_write((1 << 32) + 5, 0x0102_0304);
    assert_eq!(write.len, (1 << 32) + 5);
    assert_eq!(write.header[8..12], [5, 0, 0, 0]);
    assert_eq!(write.header[12..16], [4, 3, 2, 1]);
    bs.segment_started(write.seq);
    let id = bs.body_written(&write);
    assert_eq!(bs.locate(id).unwrap().len, 5);
    assert_eq!(bs.total_bytes(), 36 + (1 << 32) + 5);
}

#[test]
fn ids_start_over_after_the_last_one() {
    let mut dir = Dir::new();
    {
        let mut bs = open(&dir);
        write_body(&mut dir, &mut bs, b"a");
    }
    dir.file_mut(0)[16..24].copy_from_slice(&(u64::MAX - 1).to_le_bytes());
    let mut bs = open(&dir);
    assert_eq!(write_body(&mut dir, &mut bs, b"b").0, u64::MAX);
    assert_eq!(write_body(&mut dir, &mut bs, b"c").0, 0);
}

#[test]
fn reopening_with_another_segment_size_finds_everything() {
    let mut dir = Dir::new();
    let mut written: Vec<(BodyId, Vec<u8>)> = Vec::new();
    let total;
    {
        let mut bs = open_sized(&dir, 100);
        for n in 0..10u8 {
            let body = vec![n; 10 * n as usize];
            written.push((write_body(&mut dir, &mut bs, &body), body));
        }
        total = bs.total_bytes();
    }
    let count = dir.files.len();
    for size in [0, 1, 50, 1024 * 1024, u64::MAX] {
        let mut bs = open_sized(&dir, size);
        assert_eq!(bs.segment_count(), count);
        assert_eq!(bs.total_bytes(), total);
        for (id, body) in &written {
            assert_eq!(&read_body(&dir, &bs, *id).unwrap(), body);
        }
        assert_eq!(bs.write_body(b"x").body_id.0, 10);
    }
}

#[test]
fn sizes_and_totals_over_a_history() {
    let size = 300;
    let mut dir = Dir::new();
    let mut bs = open_sized(&dir, size);
    let mut rng = Lcg::new(7);
    let mut records: BTreeMap<u64, u64> = BTreeMap::new();
    let mut record_bytes = 0;
    for n in 0..200u64 {
        let len = rng.gen_range(0, 400);
        let id = write_body(&mut dir, &mut bs, &vec![n as u8; len]);
        assert_eq!(id.0, n);
        *records.entry(bs.locate(id).unwrap().seq).or_insert(0) += 1;
        record_bytes += 20 + len as u64;
        if n % 3 == 0 {
            bs.delete(BodyId(n / 2));
        }
        if n % 17 == 0 {
            bs = open_sized(&dir, size);
        }
        assert_eq!(bs.total_bytes(), 16 * bs.segment_count() as u64 + record_bytes);
        let lengths: usize = dir.files.values().map(|f| f.len()).sum();
        assert_eq!(bs.total_bytes(), lengths as u64);
        assert_eq!(bs.segment_count(), dir.files.len());
        assert_eq!(bs.segment_count(), records.len());
        for (seq, count) in &records {
            assert!(*count >= 1);
            assert!(*count == 1 || dir.file(*seq).len() as u64 <= size);
        }
    }
}

#[test]
fn write_adds_its_header_and_length_to_the_total() {
    let mut dir = Dir::new();
    let mut bs = open_sized(&dir, 100);
    write_body(&mut dir, &mut bs, &[0; 10]);
    assert_eq!(bs.total_bytes(), 16 + 20 + 10);
    write_body(&mut dir, &mut bs, &[0; 20]);
    assert_eq!(bs.total_bytes(), 46 + 20 + 20);
    write_body(&mut dir, &mut bs, &[0; 30]);
    assert_eq!(bs.total_bytes(), 86 + 16 + 20 + 30);
}

#[test]
fn stopped_write_keeps_the_counts() {
    let mut dir = Dir::new();
    let mut bs = open_sized(&dir, 60);
    write_body(&mut dir, &mut bs, b"0123456789");
    // The new segment is there, its record is not.
    let write = bs.write_body(b"0123456789");
    start_segment(&mut dir, &mut bs, &write);
    write_record(&mut dir, &write, b"0123456789", 25);
    assert_eq!(bs.live_bytes(), 10);
    assert_eq!(bs.total_bytes(), 46 + 16);
    assert_eq!(bs.fsync(), Some(1));
    let mut reopened = open_sized(&dir, 60);
    assert_eq!(reopened.live_bytes(), 10);
    assert_eq!(reopened.total_bytes(), 46 + 16);
    let id = write_body(&mut dir, &mut reopened, b"abc");
    assert_eq!(id.0, 1);
    assert_eq!(reopened.locate(id).unwrap().seq, 1);
}
