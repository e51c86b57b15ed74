//! The header of single-file `.rzst` containers.

use vstd::prelude::*;

use crate::bytes;
use crate::codec::HASH_LEN;
use crate::error;
use crate::error::{error, in_context, plain_error, short_read_error, Error, ErrorKind, Failure};
use crate::text;

verus! {

/// Container magic bytes, `RZC1` in every version.
pub const MAGIC: [u8; 4] = [0x52, 0x5a, 0x43, 0x31];

/// Single-file container version with a SHA-256 of the payload.
pub const VERSION: u8 = 2;

/// Single-file container version without a checksum.
pub const VERSION_V1: u8 = 1;

/// Multi-file pack archive version.
pub const VERSION_V3: u8 = 3;

/// The header of a single-file container.
#[derive(Debug, Clone, PartialEq, Eq)]
pub struct Header {
    /// Container version.
    pub version: u8,
    /// zstd compression level used at compress time.
    pub level: i32,
    /// Payload size in bytes before compression.
    pub original_len: u64,
    /// SHA-256 of the payload, where the version has one.
    pub checksum: Option<[u8; HASH_LEN]>,
}

/// The view of a [`Header`].
pub struct HeaderModel {
    pub version: u8,
    pub level: i32,
    pub original_len: u64,
    pub checksum: Option<Seq<u8>>,
}

impl View for Header {
    type V = HeaderModel;

    open spec fn view(&self) -> HeaderModel {
        HeaderModel {
            version: self.version,
            level: self.level,
            original_len: self.original_len,
            checksum: match self.checksum {
                Some(hash) => Some(hash@),
                None => None,
            },
        }
    }
}

/// The fields in front of the checksum.
pub open spec fn fixed_fields(h: HeaderModel) -> Seq<u8> {
    MAGIC@ + seq![h.version] + bytes::le_bytes(bytes::bits32(h.level), 4) + bytes::le_bytes(
        h.original_len as nat,
        8,
    )
}

/// The checksum field: empty where there is none.
pub open spec fn checksum_field(h: HeaderModel) -> Seq<u8> {
    match h.checksum {
        Some(hash) => hash,
        None => Seq::empty(),
    }
}

/// All bytes of a header.
pub open spec fn header_bytes(h: HeaderModel) -> Seq<u8> {
    fixed_fields(h) + checksum_field(h)
}

/// Why `h` cannot be written: a checksum needs version 2 or later, and from
/// version 2 on a header needs a checksum, except that of a pack.
pub open spec fn header_fault(h: HeaderModel) -> Option<Failure> {
    if h.checksum is Some && h.version < VERSION {
        Some(
            Failure {
                kind: ErrorKind::HeaderFields,
                text: "checksum present but version is "@ + text::decimal(h.version as nat),
            },
        )
    } else if h.checksum is None && h.version >= VERSION && h.version != VERSION_V3 {
        Some(
            Failure {
                kind: ErrorKind::HeaderFields,
                text: "version "@ + text::decimal(h.version as nat) + " requires a checksum"@,
            },
        )
    } else {
        None
    }
}

impl Header {
    /// Byte length of this header on disk.
    pub fn encoded_len(&self) -> (n: usize)
        ensures
            n == 17 + checksum_field(self@).len(),
    {
        let base: usize = 4 + 1 + 4 + 8;
        if self.checksum.is_some() {
            base + HASH_LEN
        } else {
            base
        }
    }

    /// Whether this header carries a SHA-256 checksum.
    pub fn has_checksum(&self) -> (yes: bool)
        ensures
            yes == (self@.checksum is Some),
    {
        self.checksum.is_some()
    }
}

/// Appends a header. Where version and checksum do not go together, the fixed
/// fields have been appended before the error comes.
pub fn write_header(out: &mut Vec<u8>, header: &Header) -> (r: Result<(), Error>)
    ensures
        match header_fault(header@) {
            None => r is Ok && final(out)@ == old(out)@ + header_bytes(header@),
            Some(fault) => (r matches Err(e) && e@ == fault) && final(out)@ == old(out)@
                + fixed_fields(header@),
        },
{
    bytes::push_all(out, MAGIC.as_slice());
    out.push(header.version);
    bytes::push_u32(out, bytes::to_bits32(header.level));
    bytes::push_u64(out, header.original_len);
    assert(out@ == old(out)@ + fixed_fields(header@));
    match &header.checksum {
        Some(hash) => {
            if header.version < VERSION {
                return Err(
                    error(
                        ErrorKind::HeaderFields,
                        "checksum present but version is ".to_owned().concat(
                            text::decimal_text(header.version as u64).as_str(),
                        ),
                    ),
                );
            }
            bytes::push_all(out, hash.as_slice());
            assert(out@ == old(out)@ + header_bytes(header@));
        },
        None => {
            if header.version >= VERSION && header.version != VERSION_V3 {
                return Err(
                    error(
                        ErrorKind::HeaderFields,
                        "version ".to_owned().concat(
                            text::decimal_text(header.version as u64).as_str(),
                        ).concat(" requires a checksum"),
                    ),
                );
            }
            assert(out@ == old(out)@ + header_bytes(header@));
        },
    }
    Ok(())
}

/// The header of a version 2 container.
pub open spec fn v2_header(level: i32, original_len: u64, checksum: Seq<u8>) -> HeaderModel {
    HeaderModel { version: VERSION, level, original_len, checksum: Some(checksum) }
}

/// Appends a version 2 header with the given fields.
pub fn write_header_v2(
    out: &mut Vec<u8>,
    level: i32,
    original_len: u64,
    checksum: [u8; HASH_LEN],
) -> (r: Result<(), Error>)
    ensures
        r is Ok,
        final(out)@ == old(out)@ + header_bytes(v2_header(level, original_len, checksum@)),
{
    let header: Header = Header { version: VERSION, level, original_len, checksum: Some(checksum) };
    write_header(out, &header)
}

/// The failure for data that is no container.
pub open spec fn bad_magic() -> Failure {
    Failure {
        kind: ErrorKind::InvalidMagic,
        text: "invalid file magic; this is not an rzc .rzst file"@,
    }
}

/// The error for data that is no container.
pub fn bad_magic_error() -> (e: Error)
    ensures
        e@ == bad_magic(),
{
    plain_error(
        ErrorKind::InvalidMagic,
        "invalid file magic; this is not an rzc .rzst file",
    )
}

/// The version byte of a container.
pub open spec fn version_of(data: Seq<u8>) -> Result<u8, Failure> {
    if data.len() < 4 {
        Err(error::with_context("reading compressor magic"@, error::short_read()))
    } else if data.take(4) != MAGIC@ {
        Err(bad_magic())
    } else if data.len() < 5 {
        Err(error::with_context("reading container version"@, error::short_read()))
    } else {
        Ok(data[4])
    }
}

/// Whether `data` starts with the container magic.
pub fn starts_with_magic(data: &[u8]) -> (yes: bool)
    requires
        data@.len() >= 4,
    ensures
        yes == (data@.take(4) == MAGIC@),
{
    let head: &[u8] = vstd::slice::slice_subrange(data, 0, 4);
    assert(head@ == data@.take(4));
    bytes::same_bytes(head, MAGIC.as_slice())
}

/// Peek the container version.
pub fn peek_version(data: &[u8]) -> (r: Result<u8, Error>)
    ensures
        match version_of(data@) {
            Ok(version) => r == Ok::<u8, Error>(version),
            Err(fault) => r matches Err(e) && e@ == fault,
        },
{
    if data.len() < 4 {
        return Err(in_context("reading compressor magic", short_read_error()));
    }
    if !starts_with_magic(data) {
        return Err(bad_magic_error());
    }
    if data.len() < 5 {
        return Err(in_context("reading container version", short_read_error()));
    }
    Ok(data[4])
}

/// The single-file header at the start of `data`.
pub open spec fn parsed_header(data: Seq<u8>) -> Result<HeaderModel, Failure> {
    match version_of(data) {
        Err(fault) => Err(fault),
        Ok(version) => if version == VERSION_V3 {
            Err(
                Failure {
                    kind: ErrorKind::UnexpectedPack,
                    text:
                        "this is a multi-file pack archive (v3); use list/unpack instead of single-file decompress"@,
                },
            )
        } else if version != VERSION_V1 && version != VERSION {
            Err(
                Failure {
                    kind: ErrorKind::UnsupportedVersion,
                    text: "unsupported container version "@ + text::decimal(version as nat)
                        + "; supported versions are 1, 2, and 3"@,
                },
            )
        } else if data.len() < 9 {
            Err(error::with_context("reading compression level"@, error::short_read()))
        } else if data.len() < 17 {
            Err(error::with_context("reading original file length"@, error::short_read()))
        } else if version >= VERSION && data.len() < 49 {
            Err(error::with_context("reading SHA-256 checksum"@, error::short_read()))
        } else {
            Ok(
                HeaderModel {
                    version,
                    level: bytes::signed32(bytes::le_value(data.subrange(5, 9))),
                    original_len: bytes::le_value(data.subrange(9, 17)) as u64,
                    checksum: if version >= VERSION {
                        Some(data.subrange(17, 49))
                    } else {
                        None
                    },
                },
            )
        },
    }
}

/// Copies the digest at `data[at..at + 32]`.
pub fn read_hash(data: &[u8], at: usize) -> (hash: [u8; HASH_LEN])
    requires
        at + 32 <= data@.len(),
    ensures
        hash@ == data@.subrange(at as int, at + 32),
{
    let mut hash: [u8; HASH_LEN] = [0u8; HASH_LEN];
    let mut i: usize = 0;
    while i < HASH_LEN
        invariant
            i <= HASH_LEN,
            hash@.len() == 32,
            at + 32 <= data@.len(),
            forall|k: int| 0 <= k < i ==> hash@[k] == data@[at + k],
        decreases HASH_LEN - i,
    {
        let total: usize = data.len();
        assert(at + i < total);
        hash[i] = data[at + i];
        i = i + 1;
    }
    assert(hash@ == data@.subrange(at as int, at + 32));
    hash
}

/// The views of a result that holds a header.
pub open spec fn header_result(r: Result<Header, Error>) -> Result<HeaderModel, Failure> {
    match r {
        Ok(h) => Ok(h@),
        Err(e) => Err(e@),
    }
}

/// Read and validate the header of a single-file container (version 1 or 2).
pub fn read_header(data: &[u8]) -> (r: Result<Header, Error>)
    ensures
        header_result(r) == parsed_header(data@),
{
    let version: u8 = match peek_version(data) {
        Ok(version) => version,
        Err(e) => return Err(e),
    };
    if version == VERSION_V3 {
        return Err(
            plain_error(
                ErrorKind::UnexpectedPack,
                "this is a multi-file pack archive (v3); use list/unpack instead of single-file decompress",
            ),
        );
    }
    if version != VERSION_V1 && version != VERSION {
        return Err(
            error(
                ErrorKind::UnsupportedVersion,
                "unsupported container version ".to_owned().concat(
                    text::decimal_text(version as u64).as_str(),
                ).concat("; supported versions are 1, 2, and 3"),
            ),
        );
    }
    if data.len() < 9 {
        return Err(in_context("reading compression level", short_read_error()));
    }
    let level: i32 = bytes::from_bits32(bytes::read_u32(data, 5));
    if data.len() < 17 {
        return Err(in_context("reading original file length", short_read_error()));
    }
    let original_len: u64 = bytes::read_u64(data, 9);
    let checksum: Option<[u8; HASH_LEN]> = if version >= VERSION {
        if data.len() < 49 {
            return Err(in_context("reading SHA-256 checksum", short_read_error()));
        }
        Some(read_hash(data, 17))
    } else {
        None
    };
    Ok(Header { version, level, original_len, checksum })
}

/// Reading back a header that was written gives the same header, whatever
/// follows it, for the two versions that single-file containers have.
pub proof fn header_round_trip(h: HeaderModel, rest: Seq<u8>)
    requires
        header_fault(h) is None,
        h.version == VERSION_V1 || h.version == VERSION,
        h.checksum matches Some(hash) ==> hash.len() == 32,
    ensures
        parsed_header(header_bytes(h) + rest) == Ok::<HeaderModel, Failure>(h),
        header_bytes(h).len() == 17 + checksum_field(h).len(),
{
    let data = header_bytes(h) + rest;
    bytes::pow256_values();
    bytes::le_round_trip(bytes::bits32(h.level), 4);
    bytes::le_round_trip(h.original_len as nat, 8);
    bytes::signed32_round_trip(h.level);
    assert(data.take(4) == MAGIC@);
    assert(data[4] == h.version);
    assert(data.subrange(5, 9) == bytes::le_bytes(bytes::bits32(h.level), 4));
    assert(data.subrange(9, 17) == bytes::le_bytes(h.original_len as nat, 8));
    if h.checksum is Some {
        assert(data.subrange(17, 49) == h.checksum->0);
    }
}

/// A header starts with the letters `RZC1`, the version in one byte, the level
/// in four and the original size in eight, the lowest byte first. The checksum
/// follows, if there is one.
pub proof fn header_layout(h: HeaderModel)
    ensures
        ({
            let b = header_bytes(h);
            &&& b.len() == 17 + checksum_field(h).len()
            &&& b[0] == 0x52 && b[1] == 0x5a && b[2] == 0x43 && b[3] == 0x31
            &&& b[4] == h.version
            &&& forall|i: int|
                0 <= i < 4 ==> #[trigger] b[5 + i] as nat == bytes::bits32(h.level) / bytes::pow256(i as nat)
                    % 256
            &&& forall|i: int|
                0 <= i < 8 ==> #[trigger] b[9 + i] as nat == h.original_len as nat / bytes::pow256(i as nat)
                    % 256
            &&& h.checksum matches Some(hash) ==> b.skip(17) == hash
            &&& h.checksum is None ==> b.len() == 17
        }),
{
    let b = header_bytes(h);
    let level = bytes::bits32(h.level);
    let len = h.original_len as nat;
    bytes::le_bytes_len(level, 4);
    bytes::le_bytes_len(len, 8);
    assert forall|i: int| 0 <= i < 4 implies #[trigger] b[5 + i] as nat == level / bytes::pow256(i as nat)
        % 256 by {
        bytes::bytes_are_digits(level, 4, i as nat);
        assert(b[5 + i] == bytes::le_bytes(level, 4)[i]);
    }
    assert forall|i: int| 0 <= i < 8 implies #[trigger] b[9 + i] as nat == len / bytes::pow256(i as nat)
        % 256 by {
        bytes::bytes_are_digits(len, 8, i as nat);
        assert(b[9 + i] == bytes::le_bytes(len, 8)[i]);
    }
    assert(b[0] == MAGIC@[0] && b[1] == MAGIC@[1] && b[2] == MAGIC@[2] && b[3] == MAGIC@[3]);
    if let Some(hash) = h.checksum {
        assert(b.skip(17) == hash);
    }
}

/// Which headers can be written: version 1 without a checksum, version 2 and
/// later with one; version 3 may have one or not.
pub proof fn checksum_goes_with_version(h: HeaderModel)
    ensures
        header_fault(h) is None <==> match h.checksum {
            Some(_) => h.version >= 2,
            None => h.version < 2 || h.version == 3,
        },
{
}

/// A header that is cut off does not read.
pub proof fn cut_header_fails(h: HeaderModel, n: int)
    requires
        header_fault(h) is None,
        h.version == VERSION_V1 || h.version == VERSION,
        h.checksum matches Some(hash) ==> hash.len() == 32,
        0 <= n < header_bytes(h).len(),
    ensures
        parsed_header(header_bytes(h).take(n)) is Err,
{
    let part = header_bytes(h).take(n);
    bytes::le_bytes_len(bytes::bits32(h.level), 4);
    bytes::le_bytes_len(h.original_len as nat, 8);
    if n >= 5 {
        assert(part[4] == header_bytes(h)[4]);
    }
}

/// Data that does not start with the letters `RZC1` is refused as such.
pub proof fn other_data_is_refused(data: Seq<u8>)
    requires
        data.len() >= 4,
        !(data[0] == 0x52 && data[1] == 0x5a && data[2] == 0x43 && data[3] == 0x31),
    ensures
        version_of(data) matches Err(fault) && fault.kind == ErrorKind::InvalidMagic,
        parsed_header(data) matches Err(fault) && fault.kind == ErrorKind::InvalidMagic,
{
    if data.take(4) == MAGIC@ {
        assert(data.take(4)[0] == MAGIC@[0] && data.take(4)[1] == MAGIC@[1] && data.take(4)[2]
            == MAGIC@[2] && data.take(4)[3] == MAGIC@[3]);
    }
}

/// Versions other than 1 and 2 are not single-file containers.
pub proof fn other_versions_are_refused(data: Seq<u8>)
    requires
        version_of(data) matches Ok(version) && version != 1 && version != 2,
    ensures
        parsed_header(data) matches Err(fault) && fault.kind == (if data[4] == 3 {
            ErrorKind::UnexpectedPack
        } else {
            ErrorKind::UnsupportedVersion
        }),
{
}

} // verus!
