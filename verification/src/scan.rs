//! Reading back what a segment file holds.
//!
//! Only headers are read: the file header once, then the header of each record,
//! which tells where the next one is. The bodies are skipped.

use crate::error::{BodyStoreError, ErrorModel, IoError, IoErrorKind};
use crate::format::{
    body_header_bytes, check_file_header, decode_body_header, file_header_error,
    law_body_header_fields, law_body_header_round_trip, law_file_header_is_checked,
    parse_body_header, BodyHeader, BODY_HEADER_SIZE, FILE_HEADER_SIZE,
};
use crate::job::BodyId;
use vstd::prelude::*;
use vstd::slice::slice_subrange;
use vstd::string::*;

verus! {

/// A complete body record that a scan has found.
#[derive(Debug, Clone, Copy, PartialEq, Eq, Structural)]
pub struct ScanEntry {
    pub body_id: BodyId,
    /// Where the body's bytes begin, past the record's header.
    pub body_offset: u64,
    pub len: u32,
}

/// What a segment file holds.
#[derive(Debug)]
pub struct SegmentScan {
    pub entries: Vec<ScanEntry>,
    /// Bytes that the file header and all complete records take. An incomplete
    /// record behind them counts as absent: the next record takes its place.
    pub consumed: u64,
}

/// The header of the record at `off`.
pub open spec fn header_at(image: Seq<u8>, off: int) -> BodyHeader {
    parse_body_header(image.subrange(off, off + BODY_HEADER_SIZE))
}

/// Where the record at `off` ends.
pub open spec fn record_end(image: Seq<u8>, off: int) -> int {
    off + BODY_HEADER_SIZE + header_at(image, off).len
}

/// Whether the record at `off` is complete.
pub open spec fn record_fits(image: Seq<u8>, off: int) -> bool {
    &&& 0 <= off
    &&& off + BODY_HEADER_SIZE <= image.len()
    &&& record_end(image, off) <= image.len()
}

/// The record at `off`, as a scan reports it.
pub open spec fn entry_at(image: Seq<u8>, off: int) -> ScanEntry {
    ScanEntry {
        body_id: header_at(image, off).body_id,
        body_offset: (off + BODY_HEADER_SIZE) as u64,
        len: header_at(image, off).len,
    }
}

/// The complete records that follow one another from `off` on.
pub open spec fn entries_from(image: Seq<u8>, off: int) -> Seq<ScanEntry>
    decreases image.len() - off,
{
    if record_fits(image, off) {
        seq![entry_at(image, off)] + entries_from(image, record_end(image, off))
    } else {
        Seq::empty()
    }
}

/// Where those records end.
pub open spec fn end_from(image: Seq<u8>, off: int) -> int
    decreases image.len() - off,
{
    if record_fits(image, off) {
        end_from(image, record_end(image, off))
    } else {
        off
    }
}

/// Where the first `n` of those records end.
pub open spec fn records_end(image: Seq<u8>, off: int, n: nat) -> int
    decreases n,
{
    if n > 0 && record_fits(image, off) {
        records_end(image, record_end(image, off), (n - 1) as nat)
    } else {
        off
    }
}

/// The error of a file that is too short for its header.
pub open spec fn short_file_error() -> ErrorModel {
    ErrorModel::Io {
        kind: IoErrorKind::InvalidData,
        message: "TOAST segment file shorter than file header"@,
    }
}

/// What a segment file with the bytes `image` holds: its complete records and
/// where they end, or what is wrong with it. A file without any bytes is a
/// segment that was created and never begun.
pub open spec fn scan_spec(image: Seq<u8>) -> Result<(Seq<ScanEntry>, int), ErrorModel> {
    if image.len() == 0 {
        Ok((Seq::empty(), 0))
    } else if image.len() < FILE_HEADER_SIZE {
        Err(short_file_error())
    } else {
        match file_header_error(image.subrange(0, FILE_HEADER_SIZE as int)) {
            Some(e) => Err(e),
            None => Ok(
                (
                    entries_from(image, FILE_HEADER_SIZE as int),
                    end_from(image, FILE_HEADER_SIZE as int),
                ),
            ),
        }
    }
}

/// Whether `entries` follow one another without gaps from `start` to `end`.
pub open spec fn chained(entries: Seq<ScanEntry>, start: int, end: int) -> bool
    decreases entries.len(),
{
    if entries.len() == 0 {
        start == end
    } else {
        let last = entries.last();
        &&& last.body_offset + last.len == end
        &&& chained(entries.drop_last(), start, last.body_offset - BODY_HEADER_SIZE)
    }
}

/// The body bytes of `entries`.
pub open spec fn sum_len(entries: Seq<ScanEntry>) -> nat
    decreases entries.len(),
{
    if entries.len() == 0 {
        0
    } else {
        sum_len(entries.drop_last()) + entries.last().len as nat
    }
}

/// Records that follow one another lie between the two ends, and their headers
/// and bodies fill the space between.
pub proof fn lemma_chained(entries: Seq<ScanEntry>, start: int, end: int)
    requires
        chained(entries, start, end),
    ensures
        sum_len(entries) + BODY_HEADER_SIZE * entries.len() == end - start,
        forall|i: int|
            0 <= i < entries.len() ==> (#[trigger] entries[i]).body_offset >= start
                + BODY_HEADER_SIZE && entries[i].body_offset + entries[i].len <= end,
    decreases entries.len(),
{
    if entries.len() > 0 {
        let last = entries.last();
        let rest = entries.drop_last();
        lemma_chained(rest, start, last.body_offset - BODY_HEADER_SIZE);
        assert forall|i: int| 0 <= i < entries.len() implies (#[trigger] entries[i]).body_offset
            >= start + BODY_HEADER_SIZE && entries[i].body_offset + entries[i].len <= end by {
            if i < rest.len() {
                assert(rest[i] == entries[i]);
            }
        }
    }
}

/// Whether some file could hold `entries` up to `consumed`: the records fill
/// the space behind the file header, or there is nothing at all.
pub open spec fn scan_in_order(entries: Seq<ScanEntry>, consumed: u64) -> bool {
    ||| entries.len() == 0 && consumed == 0
    ||| consumed >= FILE_HEADER_SIZE && chained(
        entries,
        FILE_HEADER_SIZE as int,
        consumed as int,
    )
}

/// What a file holds is in order.
pub proof fn lemma_scan_in_order(image: Seq<u8>)
    requires
        image.len() <= u64::MAX,
    ensures
        scan_spec(image) matches Ok((entries, end)) ==> 0 <= end <= image.len() && scan_in_order(
            entries,
            end as u64,
        ),
{
    let start = FILE_HEADER_SIZE as int;
    if image.len() >= FILE_HEADER_SIZE {
        lemma_last_end(image, start);
        assert(chained(Seq::empty(), start, start));
        assert(Seq::<ScanEntry>::empty() + entries_from(image, start) =~= entries_from(
            image,
            start,
        ));
        lemma_entries_chained(image, start, Seq::empty(), start);
    }
}

proof fn lemma_entries_chained(image: Seq<u8>, start: int, before: Seq<ScanEntry>, off: int)
    requires
        image.len() <= u64::MAX,
        0 <= off <= image.len(),
        chained(before, start, off),
    ensures
        chained(before + entries_from(image, off), start, end_from(image, off)),
    decreases image.len() - off,
{
    if record_fits(image, off) {
        let e = entry_at(image, off);
        let end = record_end(image, off);
        assert(before.push(e).drop_last() =~= before);
        lemma_entries_chained(image, start, before.push(e), end);
        assert(before + entries_from(image, off) =~= before.push(e) + entries_from(image, end));
    } else {
        assert(before + entries_from(image, off) =~= before);
    }
}

impl SegmentScan {
    /// Whether some file could hold this.
    pub open spec fn wf(self) -> bool {
        scan_in_order(self.entries@, self.consumed)
    }
}

/// All records end where the last one does, and no record follows.
pub proof fn lemma_last_end(image: Seq<u8>, off: int)
    ensures
        records_end(image, off, entries_from(image, off).len()) == end_from(image, off),
        !record_fits(image, end_from(image, off)),
        end_from(image, off) >= off,
        0 <= off <= image.len() ==> end_from(image, off) <= image.len(),
    decreases image.len() - off,
{
    if record_fits(image, off) {
        lemma_last_end(image, record_end(image, off));
    }
}

/// Two files that begin with the same `n` records hold the same `n` records, and
/// then whatever follows.
pub proof fn lemma_shared_records(a: Seq<u8>, b: Seq<u8>, off: int, n: nat)
    requires
        0 <= off <= b.len(),
        n <= entries_from(a, off).len(),
        records_end(a, off, n) <= b.len(),
        forall|i: int| 0 <= i < records_end(a, off, n) ==> a[i] == b[i],
    ensures
        off <= records_end(a, off, n),
        off <= a.len() ==> records_end(a, off, n) <= a.len(),
        entries_from(b, off) == entries_from(a, off).take(n as int) + entries_from(
            b,
            records_end(a, off, n),
        ),
        end_from(b, off) == end_from(b, records_end(a, off, n)),
    decreases n,
{
    let all = entries_from(a, off);
    let end = records_end(a, off, n);
    if n > 0 {
        let next = record_end(a, off);
        let rest = entries_from(a, next);
        lemma_records_end_grows(a, next, (n - 1) as nat);
        assert(a.subrange(off, off + BODY_HEADER_SIZE) =~= b.subrange(off, off + BODY_HEADER_SIZE));
        assert(all.len() == rest.len() + 1);
        lemma_shared_records(a, b, next, (n - 1) as nat);
        assert(all.take(n as int) + entries_from(b, end) =~= seq![entry_at(a, off)] + (rest.take(
            n - 1,
        ) + entries_from(b, end)));
    } else {
        assert(all.take(0) + entries_from(b, end) =~= entries_from(b, end));
    }
}

proof fn lemma_records_end_grows(image: Seq<u8>, off: int, n: nat)
    ensures
        records_end(image, off, n) >= off,
        off <= image.len() ==> records_end(image, off, n) <= image.len(),
    decreases n,
{
    if n > 0 && record_fits(image, off) {
        lemma_records_end_grows(image, record_end(image, off), (n - 1) as nat);
    }
}

/// The end of `n + 1` records is the end of the record behind the first `n`.
proof fn lemma_records_end_step(image: Seq<u8>, off: int, n: nat)
    requires
        n < entries_from(image, off).len(),
    ensures
        record_fits(image, records_end(image, off, n)),
        records_end(image, off, n + 1) == record_end(image, records_end(image, off, n)),
    decreases n,
{
    if n > 0 {
        lemma_records_end_step(image, record_end(image, off), (n - 1) as nat);
    } else {
        assert(records_end(image, record_end(image, off), 0) == record_end(image, off));
    }
}

/// Record number `n` is between the ends of the first `n` and of the first
/// `n + 1` records, and the latter is no earlier than the end of fewer records.
pub proof fn lemma_record_ends(image: Seq<u8>, off: int, n: nat, fewer: nat)
    requires
        image.len() <= u64::MAX,
        0 <= off,
        n < entries_from(image, off).len(),
        fewer <= n + 1,
    ensures
        ({
            let e = entries_from(image, off)[n as int];
            &&& records_end(image, off, n) == e.body_offset - BODY_HEADER_SIZE
            &&& records_end(image, off, n + 1) == e.body_offset + e.len
        }),
        records_end(image, off, fewer) <= records_end(image, off, n + 1),
    decreases n,
{
    let next = record_end(image, off);
    let all = entries_from(image, off);
    if n > 0 {
        assert(all[n as int] == entries_from(image, next)[n - 1]);
        lemma_record_ends(
            image,
            next,
            (n - 1) as nat,
            if fewer > 0 {
                (fewer - 1) as nat
            } else {
                0
            },
        );
    } else {
        assert(records_end(image, next, 0) == next);
        assert(all[0] == entry_at(image, off));
    }
    lemma_records_end_grows(image, off, n + 1);
}

/// A file that is cut off anywhere behind its first `n` records, but not behind
/// the one after them, holds those `n` records, and the next record goes right
/// behind them.
pub proof fn law_cut_off_record_is_absent(image: Seq<u8>, n: nat, cut: int)
    requires
        image.len() >= FILE_HEADER_SIZE,
        file_header_error(image.subrange(0, FILE_HEADER_SIZE as int)) is None,
        n <= entries_from(image, FILE_HEADER_SIZE as int).len(),
        records_end(image, FILE_HEADER_SIZE as int, n) <= cut <= image.len(),
        n < entries_from(image, FILE_HEADER_SIZE as int).len() ==> cut < records_end(
            image,
            FILE_HEADER_SIZE as int,
            n + 1,
        ),
    ensures
        scan_spec(image.take(cut)) == Ok::<(Seq<ScanEntry>, int), ErrorModel>(
            (
                entries_from(image, FILE_HEADER_SIZE as int).take(n as int),
                records_end(image, FILE_HEADER_SIZE as int, n),
            ),
        ),
{
    let start = FILE_HEADER_SIZE as int;
    let all = entries_from(image, start);
    let end = records_end(image, start, n);
    let short = image.take(cut);
    lemma_records_end_grows(image, start, n);
    lemma_shared_records(image, short, start, n);
    assert(short.subrange(0, start) =~= image.subrange(0, start));
    if n < all.len() {
        lemma_records_end_step(image, start, n);
    } else {
        lemma_last_end(image, start);
    }
    if end + BODY_HEADER_SIZE <= cut {
        assert(short.subrange(end, end + BODY_HEADER_SIZE) =~= image.subrange(
            end,
            end + BODY_HEADER_SIZE,
        ));
    }
    assert(!record_fits(short, end));
    assert(all.take(n as int) + entries_from(short, end) =~= all.take(n as int));
}

/// A record that is written in place of whatever is behind the last complete one
/// is found as the last one, and nothing is behind it.
pub proof fn law_appended_record_is_found(
    image: Seq<u8>,
    end: int,
    h: BodyHeader,
    body: Seq<u8>,
)
    requires
        image.len() >= FILE_HEADER_SIZE,
        scan_spec(image) matches Ok((entries, at)) && at == end,
        body.len() == h.len,
    ensures
        ({
            let longer = image.take(end) + body_header_bytes(h) + body;
            let e = ScanEntry {
                body_id: h.body_id,
                body_offset: (end + BODY_HEADER_SIZE) as u64,
                len: h.len,
            };
            &&& longer.len() == end + BODY_HEADER_SIZE + h.len
            &&& scan_spec(longer) == Ok::<(Seq<ScanEntry>, int), ErrorModel>(
                (entries_from(image, FILE_HEADER_SIZE as int).push(e), longer.len() as int),
            )
        }),
{
    let start = FILE_HEADER_SIZE as int;
    let all = entries_from(image, start);
    let longer = image.take(end) + body_header_bytes(h) + body;
    let next = longer.len() as int;
    law_body_header_round_trip(h);
    lemma_last_end(image, start);
    lemma_shared_records(image, longer, start, all.len());
    assert(longer.subrange(0, start) =~= image.subrange(0, start));
    assert(longer.subrange(end, end + BODY_HEADER_SIZE) =~= body_header_bytes(h));
    assert(record_end(longer, end) == next);
    assert(entries_from(longer, next).len() == 0);
    assert(end_from(longer, next) == next);
    assert(all.take(all.len() as int) + entries_from(longer, end) =~= all.push(
        entry_at(longer, end),
    ));
}

/// The number that four bytes of a file write down, least significant byte first.
pub open spec fn u32_at(image: Seq<u8>, at: int) -> int {
    image[at] + 0x100 * image[at + 1] + 0x1_0000 * image[at + 2] + 0x100_0000 * image[at + 3]
}

/// The number that eight bytes of a file write down, least significant byte first.
pub open spec fn u64_at(image: Seq<u8>, at: int) -> int {
    u32_at(image, at) + 0x1_0000_0000 * u32_at(image, at + 4)
}

/// Whether `entries` are the records of a file from `off` to `end`: each has in
/// front of it a header that tells its id and its length, each begins where the
/// one before it ends, and behind the last one there is no complete record.
pub open spec fn walks(image: Seq<u8>, off: int, entries: Seq<ScanEntry>, end: int) -> bool {
    &&& forall|k: int|
        0 <= k < entries.len() ==> {
            let e = #[trigger] entries[k];
            &&& e.body_offset >= off + 20
            &&& e.body_id.0 == u64_at(image, e.body_offset - 20)
            &&& e.len == u32_at(image, e.body_offset - 12)
            &&& e.body_offset + e.len <= image.len()
        }
    &&& entries.len() > 0 ==> entries[0].body_offset == off + 20
    &&& forall|k: int, j: int|
        0 <= k < entries.len() && 0 <= j < entries.len() && j == k + 1 ==> (
        #[trigger] entries[j]).body_offset == (#[trigger] entries[k]).body_offset + entries[k].len
            + 20
    &&& end == if entries.len() == 0 {
        off
    } else {
        entries[entries.len() - 1].body_offset + entries[entries.len() - 1].len
    }
    &&& end <= image.len()
    &&& end + 20 > image.len() || end + 20 + u32_at(image, end + 8) > image.len()
}

proof fn lemma_header_at(image: Seq<u8>, off: int)
    requires
        0 <= off,
        off + 20 <= image.len(),
    ensures
        header_at(image, off).body_id.0 == u64_at(image, off),
        header_at(image, off).len == u32_at(image, off + 8),
        header_at(image, off).crc == u32_at(image, off + 12),
{
    let s = image.subrange(off, off + 20);
    law_body_header_fields(s);
    assert(s[0] == image[off] && s[1] == image[off + 1] && s[2] == image[off + 2] && s[3]
        == image[off + 3] && s[4] == image[off + 4] && s[5] == image[off + 5] && s[6] == image[off
        + 6] && s[7] == image[off + 7]);
    assert(s[8] == image[off + 8] && s[9] == image[off + 9] && s[10] == image[off + 10] && s[11]
        == image[off + 11]);
    assert(s[12] == image[off + 12] && s[13] == image[off + 13] && s[14] == image[off + 14] && s[15]
        == image[off + 15]);
}

proof fn lemma_walks(image: Seq<u8>, off: int)
    requires
        image.len() <= u64::MAX,
        0 <= off <= image.len(),
    ensures
        walks(image, off, entries_from(image, off), end_from(image, off)),
    decreases image.len() - off,
{
    let entries = entries_from(image, off);
    if off + 20 <= image.len() {
        lemma_header_at(image, off);
    }
    if record_fits(image, off) {
        let next = record_end(image, off);
        let rest = entries_from(image, next);
        lemma_walks(image, next);
        assert(entries[0] == entry_at(image, off));
        assert forall|k: int| 0 < k < entries.len() implies (#[trigger] entries[k])
            == rest[k - 1] by {}
        assert forall|k: int, j: int|
            0 <= k < entries.len() && 0 <= j < entries.len() && j == k + 1 implies (
        #[trigger] entries[j]).body_offset == (#[trigger] entries[k]).body_offset + entries[k].len
            + 20 by {
            if k > 0 {
                assert(rest[j - 1].body_offset == rest[k - 1].body_offset + rest[k - 1].len + 20);
            }
        }
    }
}

/// A scan reports an empty file as empty, refuses one that is shorter than a file
/// header, that does not begin with the letters `TBOD`, or that has a version
/// other than one, and otherwise reports the records behind the file header.
pub proof fn law_scan_walks_the_headers(image: Seq<u8>)
    requires
        image.len() <= u64::MAX,
    ensures
        ({
            let result = scan_spec(image);
            let magic = image[0] == 0x54 && image[1] == 0x42 && image[2] == 0x4F && image[3]
                == 0x44;
            let version = u32_at(image, 4);
            &&& image.len() == 0 ==> result == Ok::<(Seq<ScanEntry>, int), ErrorModel>(
                (Seq::empty(), 0),
            )
            &&& 0 < image.len() < 16 ==> result == Err::<(Seq<ScanEntry>, int), ErrorModel>(
                ErrorModel::Io {
                    kind: IoErrorKind::InvalidData,
                    message: "TOAST segment file shorter than file header"@,
                },
            )
            &&& image.len() >= 16 && !magic ==> result == Err::<(Seq<ScanEntry>, int), ErrorModel>(
                ErrorModel::BadMagic,
            )
            &&& image.len() >= 16 && magic && version != 1 ==> result == Err::<
                (Seq<ScanEntry>, int),
                ErrorModel,
            >(ErrorModel::BadVersion(version as u32))
            &&& image.len() >= 16 && magic && version == 1 ==> (result matches Ok((entries, end))
                && walks(image, 16, entries, end))
        }),
{
    if image.len() >= 16 {
        let s = image.subrange(0, 16);
        law_file_header_is_checked(s);
        assert(s[0] == image[0] && s[1] == image[1] && s[2] == image[2] && s[3] == image[3] && s[4]
            == image[4] && s[5] == image[5] && s[6] == image[6] && s[7] == image[7]);
        lemma_walks(image, 16);
    }
}

/// How far a scan has come.
#[derive(Debug, Clone, Copy, PartialEq, Eq, Structural)]
pub enum ScanStage {
    /// The file header is read next.
    FileHeader,
    /// The header of a record is read next.
    Records,
    /// Nothing is read any more.
    Done,
}

/// A read that a scan needs: `len` bytes from `offset` on.
#[derive(Debug, Clone, Copy, PartialEq, Eq, Structural)]
pub struct ReadAt {
    pub offset: u64,
    pub len: usize,
}

/// The state of a scan.
#[verifier::ext_equal]
pub struct ScannerModel {
    pub file_len: u64,
    pub stage: ScanStage,
    pub offset: u64,
    pub entries: Seq<ScanEntry>,
}

impl ScannerModel {
    /// A scan that has taken the records up to `offset`.
    pub open spec fn at(file_len: u64, offset: u64, entries: Seq<ScanEntry>) -> Self {
        ScannerModel {
            file_len,
            stage: if offset + BODY_HEADER_SIZE <= file_len {
                ScanStage::Records
            } else {
                ScanStage::Done
            },
            offset,
            entries,
        }
    }

    /// A scan of a file of `file_len` bytes that has read nothing yet.
    pub open spec fn start(file_len: u64) -> Self {
        ScannerModel {
            file_len,
            stage: if file_len == 0 {
                ScanStage::Done
            } else {
                ScanStage::FileHeader
            },
            offset: 0,
            entries: Seq::empty(),
        }
    }

    pub open spec fn wf(self) -> bool {
        match self.stage {
            ScanStage::FileHeader => self.file_len >= FILE_HEADER_SIZE && self.offset == 0
                && self.entries.len() == 0,
            ScanStage::Records => self.offset + BODY_HEADER_SIZE <= self.file_len && self.offset
                >= FILE_HEADER_SIZE && chained(
                self.entries,
                FILE_HEADER_SIZE as int,
                self.offset as int,
            ),
            ScanStage::Done => self.offset <= self.file_len && (self.offset == 0
                && self.entries.len() == 0 || self.offset >= FILE_HEADER_SIZE && chained(
                self.entries,
                FILE_HEADER_SIZE as int,
                self.offset as int,
            )),
        }
    }

    /// The read that the scan needs next.
    pub open spec fn next_read(self) -> Option<ReadAt> {
        match self.stage {
            ScanStage::FileHeader => Some(ReadAt { offset: 0, len: FILE_HEADER_SIZE }),
            ScanStage::Records => Some(ReadAt { offset: self.offset, len: BODY_HEADER_SIZE }),
            ScanStage::Done => None,
        }
    }

    /// What the scan becomes when that read has given `bytes`.
    pub open spec fn supplied(self, bytes: Seq<u8>) -> Result<Self, ErrorModel> {
        match self.stage {
            ScanStage::FileHeader => match file_header_error(bytes) {
                Some(e) => Err(e),
                None => Ok(Self::at(self.file_len, FILE_HEADER_SIZE as u64, Seq::empty())),
            },
            _ => {
                let h = parse_body_header(bytes);
                let end = self.offset + BODY_HEADER_SIZE + h.len;
                if end <= self.file_len {
                    Ok(
                        Self::at(
                            self.file_len,
                            end as u64,
                            self.entries.push(
                                ScanEntry {
                                    body_id: h.body_id,
                                    body_offset: (self.offset + BODY_HEADER_SIZE) as u64,
                                    len: h.len,
                                },
                            ),
                        ),
                    )
                } else {
                    Ok(ScannerModel { stage: ScanStage::Done, ..self })
                }
            },
        }
    }

    /// Bytes that the scan may still look at.
    pub open spec fn remaining(self) -> int {
        match self.stage {
            ScanStage::Done => 0,
            _ => self.file_len - self.offset,
        }
    }

    /// Whether everything the scan has been given came from a file with the
    /// bytes `image`.
    pub open spec fn follows(self, image: Seq<u8>) -> bool {
        &&& image.len() == self.file_len
        &&& match self.stage {
            ScanStage::FileHeader => true,
            ScanStage::Records => self.agrees(image),
            ScanStage::Done => if self.offset == 0 {
                image.len() == 0
            } else {
                self.agrees(image) && !record_fits(image, self.offset as int)
            },
        }
    }

    /// Whether the records taken so far and those from `offset` on are together
    /// those of `image`.
    pub open spec fn agrees(self, image: Seq<u8>) -> bool {
        &&& file_header_error(image.subrange(0, FILE_HEADER_SIZE as int)) is None
        &&& self.entries + entries_from(image, self.offset as int) == entries_from(
            image,
            FILE_HEADER_SIZE as int,
        )
        &&& end_from(image, self.offset as int) == end_from(image, FILE_HEADER_SIZE as int)
    }
}

/// A scan that is given the bytes of one file follows that file from the first
/// read to the last; an error is the error of that file.
pub proof fn law_scan_follows_the_file(m: ScannerModel, image: Seq<u8>)
    requires
        m.wf(),
        m.follows(image),
        m.next_read() is Some,
    ensures
        ({
            let at = m.next_read()->0;
            let bytes = image.subrange(at.offset as int, at.offset + at.len);
            &&& at.offset + at.len <= image.len()
            &&& match m.supplied(bytes) {
                Ok(next) => next.wf() && next.follows(image) && next.remaining() < m.remaining(),
                Err(e) => scan_spec(image) == Err::<(Seq<ScanEntry>, int), ErrorModel>(e),
            }
        }),
{
    let at = m.next_read()->0;
    let bytes = image.subrange(at.offset as int, at.offset + at.len);
    lemma_supplied_wf(m, bytes);
    if m.stage == ScanStage::FileHeader {
        assert(Seq::<ScanEntry>::empty() + entries_from(image, FILE_HEADER_SIZE as int)
            =~= entries_from(image, FILE_HEADER_SIZE as int));
    } else {
        let off = m.offset as int;
        let e = entry_at(image, off);
        let end = record_end(image, off);
        if end <= image.len() {
            assert(m.entries + entries_from(image, off) =~= m.entries.push(e) + entries_from(
                image,
                end,
            ));
        }
    }
}

/// A scan of a file that is empty or long enough for a file header begins with
/// nothing taken. A shorter file is not scanned.
pub proof fn law_scan_begins_with_the_file(image: Seq<u8>)
    requires
        image.len() <= u64::MAX,
        image.len() == 0 || image.len() >= 16,
    ensures
        ScannerModel::start(image.len() as u64).wf(),
        ScannerModel::start(image.len() as u64).follows(image),
        short_file_error() == (ErrorModel::Io {
            kind: IoErrorKind::InvalidData,
            message: "TOAST segment file shorter than file header"@,
        }),
{
}

/// A scan reads the 16 bytes of the file header and then 20 bytes at a time, never
/// a body.
pub proof fn law_scan_reads_headers_only(m: ScannerModel)
    requires
        m.wf(),
    ensures
        match m.next_read() {
            Some(at) => at.offset == 0 && at.len == 16 || at.offset >= 16 && at.len == 20
                && at.offset + 20 <= m.file_len && (m.entries.len() > 0 ==> at.offset
                == m.entries.last().body_offset + m.entries.last().len),
            None => true,
        },
{
}

/// A scan that is given the header of a record takes the record, with the id and
/// the length that the header tells, if it ends within the file, and goes on
/// behind it. Otherwise the scan is finished.
pub proof fn law_scan_takes_complete_records(m: ScannerModel, bytes: Seq<u8>)
    requires
        m.wf(),
        m.next_read() matches Some(at) && at.offset > 0,
        bytes.len() == 20,
    ensures
        ({
            let id = u64_at(bytes, 0);
            let len = u32_at(bytes, 8);
            let end = m.offset + 20 + len;
            &&& m.supplied(bytes) matches Ok(next)
            &&& next.file_len == m.file_len
            &&& if end <= m.file_len {
                &&& next.offset == end
                &&& next.entries == m.entries.push(
                    ScanEntry {
                        body_id: BodyId(id as u64),
                        body_offset: (m.offset + 20) as u64,
                        len: len as u32,
                    },
                )
                &&& next.next_read() == if end + 20 <= m.file_len {
                    Some(ReadAt { offset: end as u64, len: 20 })
                } else {
                    None
                }
            } else {
                &&& next.offset == m.offset
                &&& next.entries == m.entries
                &&& next.next_read() is None
            }
        }),
{
    lemma_header_at(bytes, 0);
    assert(bytes.subrange(0, 20) =~= bytes);
}

/// A scan that is given a file header goes on behind it if it begins with the
/// letters `TBOD` and has version one. Otherwise it fails for the one or the
/// other.
pub proof fn law_scan_checks_the_file_header(m: ScannerModel, bytes: Seq<u8>)
    requires
        m.wf(),
        m.next_read() matches Some(at) && at.offset == 0,
        bytes.len() == 16,
    ensures
        ({
            let magic = bytes[0] == 0x54 && bytes[1] == 0x42 && bytes[2] == 0x4F && bytes[3]
                == 0x44;
            let version = u32_at(bytes, 4);
            &&& !magic ==> m.supplied(bytes) == Err::<ScannerModel, ErrorModel>(
                ErrorModel::BadMagic,
            )
            &&& magic && version != 1 ==> m.supplied(bytes) == Err::<ScannerModel, ErrorModel>(
                ErrorModel::BadVersion(version as u32),
            )
            &&& magic && version == 1 ==> {
                &&& m.supplied(bytes) matches Ok(next)
                &&& next.file_len == m.file_len
                &&& next.offset == 16
                &&& next.entries.len() == 0
                &&& next.next_read() == if 36 <= m.file_len {
                    Some(ReadAt { offset: 16, len: 20 })
                } else {
                    None
                }
            }
        }),
{
    law_file_header_is_checked(bytes);
}

/// A finished scan of a file reports what the file holds.
pub proof fn law_finished_scan_is_exact(m: ScannerModel, image: Seq<u8>)
    requires
        m.wf(),
        m.follows(image),
        m.next_read() is None,
    ensures
        scan_spec(image) == Ok::<(Seq<ScanEntry>, int), ErrorModel>((m.entries, m.offset as int)),
{
    if m.offset == 0 {
        assert(m.entries =~= Seq::empty());
    } else {
        assert(m.entries + entries_from(image, m.offset as int) =~= m.entries);
    }
}

/// One step keeps a scan's state in order and leaves less to look at.
proof fn lemma_supplied_wf(m: ScannerModel, bytes: Seq<u8>)
    requires
        m.wf(),
        m.next_read() is Some,
    ensures
        m.supplied(bytes) matches Ok(next) ==> next.wf() && next.remaining() < m.remaining(),
{
    if m.stage == ScanStage::FileHeader {
        assert(chained(Seq::empty(), FILE_HEADER_SIZE as int, FILE_HEADER_SIZE as int));
    } else {
        let h = parse_body_header(bytes);
        let e = ScanEntry {
            body_id: h.body_id,
            body_offset: (m.offset + BODY_HEADER_SIZE) as u64,
            len: h.len,
        };
        assert(m.entries.push(e).drop_last() =~= m.entries);
    }
}

/// Walks a segment file from header to header. The caller reads what
/// [`SegmentScanner::next_read`] asks for and hands it to
/// [`SegmentScanner::supply`], until nothing is asked for any more.
#[derive(Debug)]
pub struct SegmentScanner {
    file_len: u64,
    stage: ScanStage,
    offset: u64,
    entries: Vec<ScanEntry>,
}

impl View for SegmentScanner {
    type V = ScannerModel;

    closed spec fn view(&self) -> ScannerModel {
        ScannerModel {
            file_len: self.file_len,
            stage: self.stage,
            offset: self.offset,
            entries: self.entries@,
        }
    }
}

impl SegmentScanner {
    /// Begins the scan of a file of `file_len` bytes.
    pub fn begin(file_len: u64) -> (result: Result<SegmentScanner, BodyStoreError>)
        ensures
            match result {
                Ok(scanner) => {
                    &&& file_len == 0 || file_len >= FILE_HEADER_SIZE
                    &&& scanner@ == ScannerModel::start(file_len)
                    &&& scanner@.wf()
                },
                Err(error) => 0 < file_len < FILE_HEADER_SIZE && error@ == short_file_error(),
            },
    {
        if file_len < FILE_HEADER_SIZE as u64 && file_len != 0 {
            return Err(
                BodyStoreError::Io(
                    IoError {
                        kind: IoErrorKind::InvalidData,
                        message: "TOAST segment file shorter than file header".to_owned(),
                    },
                ),
            );
        }
        let stage = if file_len == 0 {
            ScanStage::Done
        } else {
            ScanStage::FileHeader
        };
        let scanner = SegmentScanner { file_len, stage, offset: 0, entries: Vec::new() };
        proof {
            assert(scanner@ =~= ScannerModel::start(file_len));
        }
        Ok(scanner)
    }

    /// The read that the scan needs next, or `None` when it is finished.
    pub fn next_read(&self) -> (read: Option<ReadAt>)
        ensures
            read == self@.next_read(),
    {
        match self.stage {
            ScanStage::FileHeader => Some(ReadAt { offset: 0, len: FILE_HEADER_SIZE }),
            ScanStage::Records => Some(ReadAt { offset: self.offset, len: BODY_HEADER_SIZE }),
            ScanStage::Done => None,
        }
    }

    /// Takes the bytes that the read has given.
    pub fn supply(&mut self, bytes: &[u8]) -> (result: Result<(), BodyStoreError>)
        requires
            old(self)@.wf(),
            old(self)@.next_read() matches Some(at) && bytes@.len() == at.len,
        ensures
            match old(self)@.supplied(bytes@) {
                Ok(next) => {
                    &&& result is Ok
                    &&& final(self)@ == next
                    &&& next.wf()
                    &&& next.remaining() < old(self)@.remaining()
                },
                Err(e) => {
                    &&& result matches Err(error)
                    &&& error@ == e
                    &&& final(self)@ == old(self)@
                },
            },
    {
        proof {
            lemma_supplied_wf(self@, bytes@);
        }
        let ghost before = self@;
        match self.stage {
            ScanStage::FileHeader => {
                match check_file_header(bytes) {
                    Err(error) => {
                        return Err(error);
                    },
                    Ok(()) => {},
                }
                self.offset = FILE_HEADER_SIZE as u64;
            },
            _ => {
                let h = decode_body_header(bytes);
                let body_offset: u64 = self.offset + BODY_HEADER_SIZE as u64;
                if h.len as u64 > self.file_len - body_offset {
                    self.stage = ScanStage::Done;
                    return Ok(());
                }
                self.entries.push(ScanEntry { body_id: h.body_id, body_offset, len: h.len });
                self.offset = body_offset + h.len as u64;
            },
        }
        self.stage =
        if self.file_len - self.offset >= BODY_HEADER_SIZE as u64 {
            ScanStage::Records
        } else {
            ScanStage::Done
        };
        proof {
            assert(before.supplied(bytes@) is Ok);
            assert(self@ =~= before.supplied(bytes@)->Ok_0);
        }
        Ok(())
    }

    /// What the finished scan has found.
    pub fn finish(self) -> (scan: SegmentScan)
        requires
            self@.wf(),
            self@.next_read() is None,
        ensures
            scan.entries@ == self@.entries,
            scan.consumed == self@.offset,
            scan.wf(),
    {
        SegmentScan { entries: self.entries, consumed: self.offset }
    }
}

/// What a segment file with the bytes `image` holds.
pub fn scan_segment(image: &[u8]) -> (result: Result<SegmentScan, BodyStoreError>)
    ensures
        match scan_spec(image@) {
            Ok((entries, end)) => {
                &&& result matches Ok(scan)
                &&& scan.entries@ == entries
                &&& scan.consumed == end
                &&& scan.wf()
            },
            Err(e) => result matches Err(error) && error@ == e,
        },
{
    let len: usize = image.len();
    let mut scanner = match SegmentScanner::begin(len as u64) {
        Ok(scanner) => scanner,
        Err(error) => {
            return Err(error);
        },
    };
    loop
        invariant_except_break
            len == image@.len(),
            scanner@.wf(),
            scanner@.follows(image@),
        ensures
            scanner@.wf(),
            scanner@.follows(image@),
            scanner@.next_read() is None,
        decreases scanner@.remaining(),
    {
        match scanner.next_read() {
            None => {
                break;
            },
            Some(at) => {
                proof {
                    law_scan_follows_the_file(scanner@, image@);
                }
                let from: usize = at.offset as usize;
                match scanner.supply(slice_subrange(image, from, from + at.len)) {
                    Ok(()) => {},
                    Err(error) => {
                        return Err(error);
                    },
                }
            },
        }
    }
    proof {
        law_finished_scan_is_exact(scanner@, image@);
    }
    Ok(scanner.finish())
}

} // verus!
