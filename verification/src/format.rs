//! The byte layout of a segment file.
//!
//! A segment file starts with a file header of 16 bytes: the magic `TBOD`, the
//! version, and eight reserved bytes. Body records follow. A record is a header
//! of 20 bytes (the body's id, its length, its checksum, and four reserved
//! bytes) and then the body itself. Integers are little-endian and reserved
//! bytes are zero.

use crate::bytes::{
    law_bytes_are_digits, law_value_of_eight_bytes, law_value_of_four_bytes, le_bytes, le_value,
    push_le, read_le,
};
use crate::error::{BodyStoreError, ErrorModel};
use crate::job::BodyId;
use vstd::arithmetic::power::pow;
use vstd::prelude::*;

verus! {

/// The layout's version.
pub const TOAST_VERSION: u32 = 1;

/// Bytes of the header at the start of a segment file.
pub const FILE_HEADER_SIZE: usize = 16;

/// Bytes of the header in front of each body.
pub const BODY_HEADER_SIZE: usize = 20;

/// Default segment size (64 MiB).
pub const DEFAULT_SEGMENT_SIZE: u64 = 64 * 1024 * 1024;

/// The first four bytes of every segment file: `TBOD`.
pub open spec fn toast_magic() -> Seq<u8> {
    seq![0x54u8, 0x42u8, 0x4Fu8, 0x44u8]
}

/// The first 16 bytes of every segment file.
pub open spec fn file_header_bytes() -> Seq<u8> {
    toast_magic() + le_bytes(TOAST_VERSION as nat, 4) + le_bytes(0, 8)
}

/// The header of a body record.
#[derive(Debug, Clone, Copy, PartialEq, Eq, Structural)]
pub struct BodyHeader {
    pub body_id: BodyId,
    pub len: u32,
    pub crc: u32,
}

/// The 20 bytes that write down `h`.
pub open spec fn body_header_bytes(h: BodyHeader) -> Seq<u8> {
    le_bytes(h.body_id.0 as nat, 8) + le_bytes(h.len as nat, 4) + le_bytes(h.crc as nat, 4)
        + le_bytes(0, 4)
}

/// The header that 20 bytes write down. The reserved bytes are ignored.
pub open spec fn parse_body_header(s: Seq<u8>) -> BodyHeader {
    BodyHeader {
        body_id: BodyId(le_value(s.subrange(0, 8)) as u64),
        len: le_value(s.subrange(8, 12)) as u32,
        crc: le_value(s.subrange(12, 16)) as u32,
    }
}

/// What is wrong with the 16 bytes at the start of a segment file, if anything.
pub open spec fn file_header_error(s: Seq<u8>) -> Option<ErrorModel> {
    if s.subrange(0, 4) != toast_magic() {
        Some(ErrorModel::BadMagic)
    } else if le_value(s.subrange(4, 8)) != TOAST_VERSION {
        Some(ErrorModel::BadVersion(le_value(s.subrange(4, 8)) as u32))
    } else {
        None
    }
}

/// A body header takes 20 bytes and is read back from them unchanged.
pub proof fn law_body_header_round_trip(h: BodyHeader)
    ensures
        body_header_bytes(h).len() == BODY_HEADER_SIZE,
        parse_body_header(body_header_bytes(h)) == h,
{
    let s = body_header_bytes(h);
    crate::bytes::lemma_pow256();
    crate::bytes::lemma_le_bytes_len(h.body_id.0 as nat, 8);
    crate::bytes::lemma_le_bytes_len(h.len as nat, 4);
    crate::bytes::lemma_le_bytes_len(h.crc as nat, 4);
    crate::bytes::lemma_le_bytes_len(0, 4);
    crate::bytes::lemma_le_round_trip(h.body_id.0 as nat, 8);
    crate::bytes::lemma_le_round_trip(h.len as nat, 4);
    crate::bytes::lemma_le_round_trip(h.crc as nat, 4);
    assert(s.subrange(0, 8) =~= le_bytes(h.body_id.0 as nat, 8));
    assert(s.subrange(8, 12) =~= le_bytes(h.len as nat, 4));
    assert(s.subrange(12, 16) =~= le_bytes(h.crc as nat, 4));
}

/// The file header takes 16 bytes and nothing is wrong with it.
pub proof fn law_file_header_is_accepted()
    ensures
        file_header_bytes().len() == FILE_HEADER_SIZE,
        file_header_error(file_header_bytes()) is None,
{
    let s = file_header_bytes();
    crate::bytes::lemma_pow256();
    crate::bytes::lemma_le_bytes_len(TOAST_VERSION as nat, 4);
    crate::bytes::lemma_le_bytes_len(0, 8);
    crate::bytes::lemma_le_round_trip(TOAST_VERSION as nat, 4);
    assert(s.subrange(0, 4) =~= toast_magic());
    assert(s.subrange(4, 8) =~= le_bytes(TOAST_VERSION as nat, 4));
}

/// The sizes of the two headers, the version, and the default segment size.
pub proof fn law_sizes()
    ensures
        FILE_HEADER_SIZE == 16,
        BODY_HEADER_SIZE == 20,
        TOAST_VERSION == 1,
        DEFAULT_SEGMENT_SIZE == 67_108_864,
{
}

/// In the 20 bytes of a body header, bytes 0 to 7 are those of the id, 8 to 11
/// those of the length, 12 to 15 those of the checksum, each least significant
/// byte first, and the last four are zero.
pub proof fn law_body_header_layout(h: BodyHeader)
    ensures
        ({
            let s = body_header_bytes(h);
            &&& s.len() == 20
            &&& forall|i: int|
                0 <= i < 8 ==> (#[trigger] s[i]) == h.body_id.0 as int / pow(256, i as nat) % 256
            &&& forall|i: int|
                8 <= i < 12 ==> (#[trigger] s[i]) == h.len as int / pow(256, (i - 8) as nat) % 256
            &&& forall|i: int|
                12 <= i < 16 ==> (#[trigger] s[i]) == h.crc as int / pow(256, (i - 12) as nat)
                    % 256
            &&& forall|i: int| 16 <= i < 20 ==> (#[trigger] s[i]) == 0
        }),
{
    let s = body_header_bytes(h);
    let id = le_bytes(h.body_id.0 as nat, 8);
    let len = le_bytes(h.len as nat, 4);
    let crc = le_bytes(h.crc as nat, 4);
    let reserved = le_bytes(0, 4);
    law_bytes_are_digits(h.body_id.0 as nat, 8);
    law_bytes_are_digits(h.len as nat, 4);
    law_bytes_are_digits(h.crc as nat, 4);
    lemma_zero_bytes(4);
    assert forall|i: int| 0 <= i < 8 implies (#[trigger] s[i]) == h.body_id.0 as int / pow(
        256,
        i as nat,
    ) % 256 by {
        assert(s[i] == id[i]);
    }
    assert forall|i: int| 8 <= i < 12 implies (#[trigger] s[i]) == h.len as int / pow(
        256,
        (i - 8) as nat,
    ) % 256 by {
        assert(s[i] == len[i - 8]);
    }
    assert forall|i: int| 12 <= i < 16 implies (#[trigger] s[i]) == h.crc as int / pow(
        256,
        (i - 12) as nat,
    ) % 256 by {
        assert(s[i] == crc[i - 12]);
    }
    assert forall|i: int| 16 <= i < 20 implies (#[trigger] s[i]) == 0 by {
        assert(s[i] == reserved[i - 16]);
    }
}

proof fn lemma_zero_bytes(n: nat)
    ensures
        le_bytes(0, n).len() == n,
        forall|i: int| 0 <= i < n ==> (#[trigger] le_bytes(0, n)[i]) == 0,
    decreases n,
{
    if n > 0 {
        lemma_zero_bytes((n - 1) as nat);
        assert forall|i: int| 0 <= i < n implies (#[trigger] le_bytes(0, n)[i]) == 0 by {
            if i > 0 {
                assert(le_bytes(0, n)[i] == le_bytes(0, (n - 1) as nat)[i - 1]);
            }
        }
    }
}

/// Whatever 20 bytes are read as a body header, the id, the length and the
/// checksum are the sums of their bytes, each at its weight.
pub proof fn law_body_header_fields(s: Seq<u8>)
    requires
        s.len() == 20,
    ensures
        ({
            let h = parse_body_header(s);
            &&& h.body_id.0 == s[0] + 0x100 * s[1] + 0x1_0000 * s[2] + 0x100_0000 * s[3]
                + 0x1_0000_0000 * s[4] + 0x100_0000_0000 * s[5] + 0x1_0000_0000_0000 * s[6]
                + 0x100_0000_0000_0000 * s[7]
            &&& h.len == s[8] + 0x100 * s[9] + 0x1_0000 * s[10] + 0x100_0000 * s[11]
            &&& h.crc == s[12] + 0x100 * s[13] + 0x1_0000 * s[14] + 0x100_0000 * s[15]
        }),
{
    law_value_of_eight_bytes(s.subrange(0, 8));
    law_value_of_four_bytes(s.subrange(8, 12));
    law_value_of_four_bytes(s.subrange(12, 16));
}

/// The file header is the four letters `TBOD`, a one in four bytes, and eight zeros.
pub proof fn law_file_header_layout()
    ensures
        file_header_bytes() == seq![
            0x54u8,
            0x42u8,
            0x4Fu8,
            0x44u8,
            1u8,
            0u8,
            0u8,
            0u8,
            0u8,
            0u8,
            0u8,
            0u8,
            0u8,
            0u8,
            0u8,
            0u8,
        ],
{
    lemma_zero_bytes(8);
    lemma_zero_bytes(3);
    assert(le_bytes(1, 4) =~= seq![1u8] + le_bytes(0, 3));
    assert(file_header_bytes() =~= toast_magic() + (seq![1u8] + le_bytes(0, 3)) + le_bytes(0, 8));
}

/// A file is refused for its magic unless it begins with the letters `TBOD`, then
/// for its version unless bytes 4 to 7 write down a one, and for nothing else.
pub proof fn law_file_header_is_checked(s: Seq<u8>)
    requires
        s.len() == 16,
    ensures
        ({
            let magic = s[0] == 0x54 && s[1] == 0x42 && s[2] == 0x4F && s[3] == 0x44;
            let version = s[4] + 0x100 * s[5] + 0x1_0000 * s[6] + 0x100_0000 * s[7];
            let error = file_header_error(s);
            &&& !magic ==> error == Some(ErrorModel::BadMagic)
            &&& magic && version != 1 ==> error == Some(ErrorModel::BadVersion(version as u32))
            &&& magic && version == 1 ==> error is None
        }),
{
    let start = s.subrange(0, 4);
    assert(start[0] == s[0] && start[1] == s[1] && start[2] == s[2] && start[3] == s[3]);
    if s[0] == 0x54 && s[1] == 0x42 && s[2] == 0x4F && s[3] == 0x44 {
        assert(start =~= toast_magic());
    }
    law_value_of_four_bytes(s.subrange(4, 8));
}

/// The bytes to write at the start of a new segment file.
pub fn file_header() -> (header: Vec<u8>)
    ensures
        header@ == file_header_bytes(),
{
    let mut header: Vec<u8> = Vec::new();
    header.push(0x54);
    header.push(0x42);
    header.push(0x4F);
    header.push(0x44);
    push_le(&mut header, TOAST_VERSION as u64, 4);
    push_le(&mut header, 0, 8);
    proof {
        assert(header@ =~= file_header_bytes());
    }
    header
}

/// Checks the first 16 bytes of a segment file.
pub fn check_file_header(header: &[u8]) -> (result: Result<(), BodyStoreError>)
    requires
        header@.len() == FILE_HEADER_SIZE,
    ensures
        match file_header_error(header@) {
            Some(e) => result matches Err(error) && error@ == e,
            None => result is Ok,
        },
{
    let ghost magic = header@.subrange(0, 4);
    if header[0] != 0x54 || header[1] != 0x42 || header[2] != 0x4F || header[3] != 0x44 {
        proof {
            assert(magic[0] == header@[0] && magic[1] == header@[1] && magic[2] == header@[2]
                && magic[3] == header@[3]);
        }
        return Err(BodyStoreError::BadMagic);
    }
    proof {
        assert(magic =~= toast_magic());
        crate::bytes::lemma_pow256();
        crate::bytes::lemma_le_value_bound(header@.subrange(4, 8));
    }
    let version: u64 = read_le(header, 4, 4);
    if version != TOAST_VERSION as u64 {
        return Err(BodyStoreError::BadVersion(version as u32));
    }
    Ok(())
}

/// The bytes to write in front of a body.
pub fn encode_body_header(h: BodyHeader) -> (header: Vec<u8>)
    ensures
        header@ == body_header_bytes(h),
{
    let mut header: Vec<u8> = Vec::new();
    push_le(&mut header, h.body_id.0, 8);
    push_le(&mut header, h.len as u64, 4);
    push_le(&mut header, h.crc as u64, 4);
    push_le(&mut header, 0, 4);
    proof {
        assert(header@ =~= body_header_bytes(h));
    }
    header
}

/// The header that 20 bytes write down.
pub fn decode_body_header(header: &[u8]) -> (h: BodyHeader)
    requires
        header@.len() == BODY_HEADER_SIZE,
    ensures
        h == parse_body_header(header@),
{
    proof {
        crate::bytes::lemma_pow256();
        crate::bytes::lemma_le_value_bound(header@.subrange(8, 12));
        crate::bytes::lemma_le_value_bound(header@.subrange(12, 16));
    }
    BodyHeader {
        body_id: BodyId(read_le(header, 0, 8)),
        len: read_le(header, 8, 4) as u32,
        crc: read_le(header, 12, 4) as u32,
    }
}

} // verus!
