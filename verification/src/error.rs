//! What can go wrong with a store, and how it is told.

use crate::job::BodyId;
use crate::text::{
    decimal, hex, is_decimal_of, law_decimal_writes_down, law_hex_has_the_digits, push_decimal,
    push_hex,
};
use vstd::arithmetic::power::pow;
use vstd::prelude::*;
use vstd::string::*;

verus! {

/// What kind of input or output failure an [`IoError`] is.
#[derive(Debug, Clone, Copy, PartialEq, Eq, Structural)]
pub enum IoErrorKind {
    /// The bytes that were read cannot be what the store wrote.
    InvalidData,
    /// Any failure of the file system.
    Other,
}

/// A failure to read or write a segment file.
#[derive(Debug)]
pub struct IoError {
    pub kind: IoErrorKind,
    pub message: String,
}

/// Why an operation on the store failed.
#[derive(Debug)]
pub enum BodyStoreError {
    Io(IoError),
    BadMagic,
    BadVersion(u32),
    BadCrc { expected: u32, found: u32, body_id: BodyId },
    NotFound(BodyId),
}

/// A [`BodyStoreError`] with its text as a sequence of characters.
pub enum ErrorModel {
    Io { kind: IoErrorKind, message: Seq<char> },
    BadMagic,
    BadVersion(u32),
    BadCrc { expected: u32, found: u32, body_id: BodyId },
    NotFound(BodyId),
}

impl View for BodyStoreError {
    type V = ErrorModel;

    open spec fn view(&self) -> ErrorModel {
        match *self {
            BodyStoreError::Io(e) => ErrorModel::Io { kind: e.kind, message: e.message@ },
            BodyStoreError::BadMagic => ErrorModel::BadMagic,
            BodyStoreError::BadVersion(v) => ErrorModel::BadVersion(v),
            BodyStoreError::BadCrc { expected, found, body_id } => ErrorModel::BadCrc {
                expected,
                found,
                body_id,
            },
            BodyStoreError::NotFound(id) => ErrorModel::NotFound(id),
        }
    }
}

impl From<IoError> for BodyStoreError {
    fn from(e: IoError) -> (error: Self) {
        BodyStoreError::Io(e)
    }
}

impl vstd::std_specs::convert::FromSpecImpl<IoError> for BodyStoreError {
    open spec fn obeys_from_spec() -> bool {
        true
    }

    open spec fn from_spec(e: IoError) -> Self {
        BodyStoreError::Io(e)
    }
}

impl ErrorModel {
    /// The message that tells of the error.
    pub open spec fn text(self) -> Seq<char> {
        match self {
            ErrorModel::Io { kind, message } => "TOAST I/O: "@ + message,
            ErrorModel::BadMagic => "TOAST bad magic"@,
            ErrorModel::BadVersion(v) => "TOAST bad version: "@ + decimal(v as nat),
            ErrorModel::BadCrc { expected, found, body_id } => "TOAST CRC mismatch for body "@
                + decimal(body_id.0 as nat) + ": expected "@ + hex(
                expected as nat,
                8,
            ) + ", got "@ + hex(found as nat, 8),
            ErrorModel::NotFound(id) => "TOAST body "@ + decimal(id.0 as nat)
                + " not found"@,
        }
    }
}

/// The parts of an error are the parts of its model, each in its place.
pub proof fn law_error_and_model_agree(e: BodyStoreError)
    ensures
        match e {
            BodyStoreError::Io(io) => e@ == (ErrorModel::Io {
                kind: io.kind,
                message: io.message@,
            }),
            BodyStoreError::BadMagic => e@ == ErrorModel::BadMagic,
            BodyStoreError::BadVersion(v) => e@ == ErrorModel::BadVersion(v),
            BodyStoreError::BadCrc { expected: a, found: b, body_id: id } => e@ == (
            ErrorModel::BadCrc { expected: a, found: b, body_id: id }),
            BodyStoreError::NotFound(id) => e@ == ErrorModel::NotFound(id),
        },
{
}

/// An I/O failure becomes an error that holds it unchanged.
pub proof fn law_io_failure_is_kept(e: IoError)
    ensures
        <BodyStoreError as vstd::std_specs::convert::FromSpec<IoError>>::obeys_from_spec(),
        <BodyStoreError as vstd::std_specs::convert::FromSpec<IoError>>::from_spec(e)
            == BodyStoreError::Io(e),
{
}

/// The message of an I/O failure ends with what the file system said.
pub proof fn law_io_message(kind: IoErrorKind, message: Seq<char>)
    ensures
        (ErrorModel::Io { kind, message }).text() == "TOAST I/O: "@ + message,
        ErrorModel::BadMagic.text() == "TOAST bad magic"@,
{
}

/// The message on a version holds its digits behind a fixed text.
pub proof fn law_version_message(v: u32)
    ensures
        exists|digits: Seq<char>| #[trigger]
            is_decimal_of(digits, v as int) && ErrorModel::BadVersion(v).text()
                == "TOAST bad version: "@ + digits,
{
    law_decimal_writes_down(v as nat);
    assert(is_decimal_of(decimal(v as nat), v as int));
}

/// The message on a missing body holds the digits of its id between fixed texts.
pub proof fn law_not_found_message(id: BodyId)
    ensures
        exists|digits: Seq<char>| #[trigger]
            is_decimal_of(digits, id.0 as int) && ErrorModel::NotFound(id).text() == "TOAST body "@
                + digits + " not found"@,
{
    law_decimal_writes_down(id.0 as nat);
    assert(is_decimal_of(decimal(id.0 as nat), id.0 as int));
}

/// Whether `s` is the eight hexadecimal digits of `n`.
pub open spec fn is_hex_of(s: Seq<char>, n: u32) -> bool {
    &&& s.len() == 8
    &&& forall|i: int|
        0 <= i < 8 ==> (#[trigger] s[i]) as int == ({
            let d = n as int / pow(16, (7 - i) as nat) % 16;
            if d < 10 {
                '0' as int + d
            } else {
                'a' as int + d - 10
            }
        })
}

/// The message on a checksum holds the digits of the id, then the eight
/// hexadecimal digits of the checksum that was recorded, then those of the one
/// that was found.
pub proof fn law_checksum_message(expected: u32, found: u32, body_id: BodyId)
    ensures
        exists|digits: Seq<char>, a: Seq<char>, b: Seq<char>| #[trigger]
            is_decimal_of(digits, body_id.0 as int) && #[trigger] is_hex_of(a, expected)
                && #[trigger] is_hex_of(b, found) && (ErrorModel::BadCrc {
                expected,
                found,
                body_id,
            }).text() == "TOAST CRC mismatch for body "@ + digits + ": expected "@ + a + ", got "@
                + b,
{
    law_decimal_writes_down(body_id.0 as nat);
    law_hex_has_the_digits(expected as nat, 8);
    law_hex_has_the_digits(found as nat, 8);
    assert(is_decimal_of(decimal(body_id.0 as nat), body_id.0 as int));
    assert(is_hex_of(hex(expected as nat, 8), expected));
    assert(is_hex_of(hex(found as nat, 8), found));
}

impl BodyStoreError {
    /// The message that tells of the error.
    pub fn message(&self) -> (text: String)
        ensures
            text@ == self@.text(),
    {
        let mut out = String::new();
        match self {
            BodyStoreError::Io(e) => {
                out.append("TOAST I/O: ");
                out.append(e.message.as_str());
            },
            BodyStoreError::BadMagic => {
                out.append("TOAST bad magic");
            },
            BodyStoreError::BadVersion(v) => {
                out.append("TOAST bad version: ");
                push_decimal(&mut out, *v as u64);
            },
            BodyStoreError::BadCrc { expected, found, body_id } => {
                out.append("TOAST CRC mismatch for body ");
                push_decimal(&mut out, body_id.0);
                out.append(": expected ");
                push_hex(&mut out, *expected, 8);
                out.append(", got ");
                push_hex(&mut out, *found, 8);
            },
            BodyStoreError::NotFound(id) => {
                out.append("TOAST body ");
                push_decimal(&mut out, id.0);
                out.append(" not found");
            },
        }
        proof {
            assert(out@ =~= self@.text());
        }
        out
    }
}

} // verus!
