//! Integrity checks of the stored data: SHA-256 checksums in lower-case hex,
//! their comparison, and the checks of log records and snapshots.

use sha2::{Digest, Sha256};
use vstd::prelude::*;
use vstd::utf8::{encode_utf8, encode_utf8_decode_utf8};

use crate::error::FlintError;
use crate::text::{decimal, push_char, push_decimal, push_str};

verus! {

/// The version of the log record format that this library writes.
pub const LOG_FORMAT_VERSION: u32 = 1;

/// The version of the snapshot format that this library writes.
pub const SNAPSHOT_FORMAT_VERSION: u32 = 1;

/// The SHA-256 digest of `data`.
pub uninterp spec fn sha256(data: Seq<u8>) -> Seq<u8>;

/// `sha2::Sha256::digest`: the digest of `data` is named `sha256(data)`, and it
/// is 32 bytes long, as SHA-256 output always is.
#[verifier::external_body]
fn sha256_digest(data: &[u8]) -> (res: Vec<u8>)
    ensures
        res@ == sha256(data@),
        res@.len() == 32,
{
    Sha256::digest(data).to_vec()
}

/// The lower-case hex digit of `n` (below sixteen).
pub open spec fn hex_digit(n: nat) -> char {
    if n < 10 {
        (('0' as u32) + n) as char
    } else {
        (('a' as u32) + n - 10) as char
    }
}

/// Each byte of `bytes` as two lower-case hex digits, as `{:02x}` writes it.
pub open spec fn hex_lower(bytes: Seq<u8>) -> Seq<char>
    decreases bytes.len(),
{
    if bytes.len() == 0 {
        Seq::empty()
    } else {
        hex_lower(bytes.drop_last()) + seq![
            hex_digit(bytes.last() as nat / 16),
            hex_digit(bytes.last() as nat % 16),
        ]
    }
}

/// The checksum that the store writes for `data`: its SHA-256 digest in hex.
pub open spec fn checksum_of(data: Seq<u8>) -> Seq<char> {
    hex_lower(sha256(data))
}

fn hex_char(n: u8) -> (c: char)
    requires
        n < 16,
    ensures
        c == hex_digit(n as nat),
{
    if n < 10 {
        ((48u8 + n) as char)
    } else {
        ((87u8 + n) as char)
    }
}

/// The SHA-256 digest of `bytes` in lower-case hex.
pub fn hex_sha256(bytes: &[u8]) -> (s: String)
    ensures
        s@ == checksum_of(bytes@),
{
    let digest = sha256_digest(bytes);
    let mut out = String::new();
    let mut i: usize = 0;
    while i < digest.len()
        invariant
            i <= digest@.len(),
            out@ == hex_lower(digest@.take(i as int)),
        decreases digest@.len() - i,
    {
        let b = digest[i];
        push_char(&mut out, hex_char(b / 16));
        push_char(&mut out, hex_char(b % 16));
        proof {
            assert(digest@.take(i + 1).drop_last() =~= digest@.take(i as int));
            assert(out@ =~= hex_lower(digest@.take(i as int)) + seq![
                hex_digit(b as nat / 16),
                hex_digit(b as nat % 16),
            ]);
        }
        i = i + 1;
    }
    proof {
        assert(digest@.take(digest@.len() as int) =~= digest@);
    }
    out
}

/// Compares two byte strings in time that depends only on their lengths.
pub fn constant_time_eq(left: &[u8], right: &[u8]) -> (res: bool)
    ensures
        res == (left@ == right@),
{
    if left.len() != right.len() {
        return false;
    }
    let mut acc: u8 = 0;
    let mut i: usize = 0;
    while i < left.len()
        invariant
            left@.len() == right@.len(),
            i <= left@.len(),
            (acc == 0) == (forall|j: int| 0 <= j < i ==> left@[j] == right@[j]),
        decreases left@.len() - i,
    {
        let l = left[i];
        let r = right[i];
        let next = acc | (l ^ r);
        assert((next == 0) == (acc == 0 && l == r)) by (bit_vector)
            requires
                next == acc | (l ^ r),
        ;
        proof {
            if next == 0 {
                assert forall|j: int| 0 <= j < i + 1 implies left@[j] == right@[j] by {
                    if j == i {
                        assert(left@[j] == l && right@[j] == r);
                    }
                }
            }
        }
        acc = next;
        i = i + 1;
    }
    proof {
        if acc == 0 {
            assert(left@ =~= right@);
        }
    }
    acc == 0
}

/// Compares two strings byte by byte, in time that depends only on their lengths.
pub fn constant_time_str_eq(left: &str, right: &str) -> (res: bool)
    ensures
        res == (left@ == right@),
{
    let res = constant_time_eq(left.as_bytes(), right.as_bytes());
    proof {
        encode_utf8_decode_utf8(left@);
        encode_utf8_decode_utf8(right@);
    }
    res
}

/// Why a log record at `line` fails its integrity check, if it does: a record
/// with a checksum must carry the current format version, and the checksum must
/// match the one of its payload (the record's version, time and event, as the
/// store encodes them). A record without a checksum, written by an older
/// version, passes.
pub open spec fn record_problem(checksum: Option<Seq<char>>, version: Option<u32>, payload: Seq<u8>, line: nat) -> Option<Seq<char>> {
    match checksum {
        None => None,
        Some(expected) => match version {
            None => Some(
                "AOF checksummed record at line "@ + decimal(line) + " is missing format version"@,
            ),
            Some(v) => if v != LOG_FORMAT_VERSION {
                Some(
                    "unsupported AOF format version "@ + decimal(v as nat) + " at line "@ + decimal(
                        line,
                    ),
                )
            } else if expected != checksum_of(payload) {
                Some("AOF checksum mismatch at line "@ + decimal(line))
            } else {
                None
            },
        },
    }
}

/// The view of an optional borrowed string.
pub open spec fn opt_str_view(s: Option<&String>) -> Option<Seq<char>> {
    match s {
        Some(s) => Some(s@),
        None => None,
    }
}

/// Checks a log record at `line` (counted from one): see [`record_problem`].
/// `payload` is the encoded payload of the record; it is only read when the
/// record carries a checksum and the current version.
pub fn verify_entry_checksum(checksum: Option<&String>, version: Option<u32>, payload: &[u8], line: usize) -> (res: Result<(), FlintError>)
    ensures
        match record_problem(opt_str_view(checksum), version, payload@, line as nat) {
            None => res is Ok,
            Some(msg) => res matches Err(FlintError::StorageIntegrity(m)) && m@ == msg,
        },
{
    let expected = match checksum {
        None => {
            return Ok(());
        },
        Some(c) => c,
    };
    let v = match version {
        None => {
            let mut msg = "AOF checksummed record at line ".to_owned();
            push_decimal(&mut msg, line as u64);
            push_str(&mut msg, " is missing format version");
            return Err(FlintError::StorageIntegrity(msg));
        },
        Some(v) => v,
    };
    if v != LOG_FORMAT_VERSION {
        let mut msg = "unsupported AOF format version ".to_owned();
        push_decimal(&mut msg, v as u64);
        push_str(&mut msg, " at line ");
        push_decimal(&mut msg, line as u64);
        return Err(FlintError::StorageIntegrity(msg));
    }
    let actual = hex_sha256(payload);
    if !constant_time_str_eq(expected.as_str(), actual.as_str()) {
        let mut msg = "AOF checksum mismatch at line ".to_owned();
        push_decimal(&mut msg, line as u64);
        return Err(FlintError::StorageIntegrity(msg));
    }
    Ok(())
}

/// The checksum of a snapshot's text: the digest of its UTF-8 bytes.
pub fn snapshot_string_checksum(value: &str) -> (s: String)
    ensures
        s@ == checksum_of(encode_utf8(value@)),
{
    hex_sha256(value.as_bytes())
}

/// Checks that `checksum` is the checksum of the snapshot text `snapshot`;
/// otherwise the error names both checksums.
pub fn verify_snapshot_checksum(checksum: &str, snapshot: &str) -> (res: Result<(), FlintError>)
    ensures
        checksum@ == checksum_of(encode_utf8(snapshot@)) ==> res is Ok,
        checksum@ != checksum_of(encode_utf8(snapshot@)) ==> (res matches Err(FlintError::StorageIntegrity(m))
            && m@ == "snapshot checksum mismatch: expected "@ + checksum@ + ", got "@
            + checksum_of(encode_utf8(snapshot@))),
{
    let actual = snapshot_string_checksum(snapshot);
    if !constant_time_str_eq(checksum, actual.as_str()) {
        let mut msg = "snapshot checksum mismatch: expected ".to_owned();
        push_str(&mut msg, checksum);
        push_str(&mut msg, ", got ");
        push_str(&mut msg, actual.as_str());
        return Err(FlintError::StorageIntegrity(msg));
    }
    Ok(())
}

/// Refuses a snapshot written by another format version.
pub fn check_snapshot_version(format_version: u32) -> (res: Result<(), FlintError>)
    ensures
        format_version == SNAPSHOT_FORMAT_VERSION ==> res is Ok,
        format_version != SNAPSHOT_FORMAT_VERSION ==> (res matches Err(FlintError::UnsupportedSnapshot(v))
            && v == format_version),
{
    if format_version != SNAPSHOT_FORMAT_VERSION {
        return Err(FlintError::UnsupportedSnapshot(format_version));
    }
    Ok(())
}

/// Checks the envelope of a snapshot: its format version, then the checksum
/// of the snapshot text that it wraps.
pub fn check_snapshot_envelope(format_version: u32, checksum: &str, snapshot: &str) -> (res: Result<(), FlintError>)
    ensures
        format_version != SNAPSHOT_FORMAT_VERSION ==> (res matches Err(FlintError::UnsupportedSnapshot(v))
            && v == format_version),
        format_version == SNAPSHOT_FORMAT_VERSION && checksum@ == checksum_of(encode_utf8(snapshot@))
            ==> res is Ok,
        format_version == SNAPSHOT_FORMAT_VERSION && checksum@ != checksum_of(encode_utf8(snapshot@))
            ==> (res matches Err(FlintError::StorageIntegrity(m)) && m@
            == "snapshot checksum mismatch: expected "@ + checksum@ + ", got "@ + checksum_of(
            encode_utf8(snapshot@),
        )),
{
    check_snapshot_version(format_version)?;
    verify_snapshot_checksum(checksum, snapshot)
}

} // verus!
