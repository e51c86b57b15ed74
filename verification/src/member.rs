//! Members of pack archives: how one is laid out, read and opened.

use vstd::prelude::*;

use crate::bytes;
use crate::codec;
use crate::codec::{hex_text, sha256, utf8_text, zstd_decompress_raw, HASH_LEN};
use crate::error;
use crate::error::{error, in_context, short_read_error, Error, ErrorKind, Failure};
use crate::header;
use crate::header::read_hash;
use crate::text;

verus! {

/// Longest member path, in bytes, that a listing accepts.
pub const MAX_LISTED_PATH: u32 = 16384;

/// What a pack is read for, which decides how errors are worded and what is
/// checked.
#[derive(Debug, Clone, Copy, PartialEq, Eq, Structural)]
pub enum Purpose {
    /// List the members.
    List,
    /// Check every member.
    Verify,
    /// Restore members to files.
    Unpack,
    /// Restore one member.
    Extract,
    /// Search the members.
    Search,
    /// Copy members to another pack.
    Repack,
}

/// A pack member: where it goes, what it holds, and its compressed form.
#[derive(Debug)]
pub struct Member {
    pub path: String,
    pub original_len: u64,
    pub checksum: [u8; HASH_LEN],
    pub payload: Vec<u8>,
}

/// The view of a [`Member`].
#[verifier::ext_equal]
pub struct MemberModel {
    pub path: Seq<char>,
    pub original_len: u64,
    pub checksum: Seq<u8>,
    pub payload: Seq<u8>,
}

impl View for Member {
    type V = MemberModel;

    open spec fn view(&self) -> MemberModel {
        MemberModel {
            path: self.path@,
            original_len: self.original_len,
            checksum: self.checksum@,
            payload: self.payload@,
        }
    }
}

/// A member as found in an archive: its fields, and where its payload lies.
#[derive(Debug)]
pub struct Found {
    pub path: String,
    pub original_len: u64,
    pub checksum: [u8; HASH_LEN],
    /// Offset of the payload.
    pub start: usize,
    /// Offset behind the payload, where the next member starts.
    pub end: usize,
}

/// The view of a [`Found`].
#[verifier::ext_equal]
pub struct FoundModel {
    pub path: Seq<char>,
    pub original_len: u64,
    pub checksum: Seq<u8>,
    pub start: int,
    pub end: int,
}

impl View for Found {
    type V = FoundModel;

    open spec fn view(&self) -> FoundModel {
        FoundModel {
            path: self.path@,
            original_len: self.original_len,
            checksum: self.checksum@,
            start: self.start as int,
            end: self.end as int,
        }
    }
}

/// The views of a search for a member.
pub open spec fn found_result(r: Result<Found, Error>) -> Result<FoundModel, Failure> {
    match r {
        Ok(f) => Ok(f@),
        Err(e) => Err(e@),
    }
}

/// The compressed form of a member found in `archive`.
pub open spec fn payload_of(archive: Seq<u8>, f: FoundModel) -> Seq<u8> {
    archive.subrange(f.start, f.end)
}

/// The member that `f` finds in `archive`.
pub open spec fn member_of(archive: Seq<u8>, f: FoundModel) -> MemberModel {
    MemberModel {
        path: f.path,
        original_len: f.original_len,
        checksum: f.checksum,
        payload: payload_of(archive, f),
    }
}

/// The failure of a blob that is declared with `len` bytes where only `left`
/// are left.
pub open spec fn too_short(what: Seq<char>, len: nat, left: nat) -> Failure {
    Failure {
        kind: ErrorKind::DeclaredLength,
        text: what + ": header declares "@ + text::decimal(len) + " bytes but only "@
            + text::decimal(left) + " remain in the archive"@,
    }
}

/// Makes the error of a blob that is declared too long.
pub fn too_short_error(what: &str, len: u64, left: u64) -> (e: Error)
    ensures
        e@ == too_short(what@, len as nat, left as nat),
{
    error(
        ErrorKind::DeclaredLength,
        what.to_owned().concat(": header declares ").concat(
            text::decimal_text(len).as_str(),
        ).concat(" bytes but only ").concat(text::decimal_text(left).as_str()).concat(
            " remain in the archive",
        ),
    )
}

/// The failure of a member payload that is declared with `len` bytes where
/// only `left` are left.
pub open spec fn payload_failure(
    purpose: Purpose,
    index: u32,
    path: Seq<char>,
    len: nat,
    left: nat,
) -> Failure {
    match purpose {
        Purpose::List => Failure {
            kind: ErrorKind::DeclaredLength,
            text: "pack member '"@ + path + "' declares "@ + text::decimal(len)
                + " compressed bytes but only "@ + text::decimal(left)
                + " remain in the archive"@,
        },
        Purpose::Verify => too_short(
            "pack member "@ + text::decimal(index as nat) + " payload"@,
            len,
            left,
        ),
        Purpose::Unpack | Purpose::Extract => too_short("compressed data for "@ + path, len, left),
        Purpose::Search | Purpose::Repack => too_short("pack member payload"@, len, left),
    }
}

/// Makes the error of a member payload that is declared too long.
pub fn payload_error(purpose: Purpose, index: u32, path: &str, len: u64, left: u64) -> (e: Error)
    ensures
        e@ == payload_failure(purpose, index, path@, len as nat, left as nat),
{
    match purpose {
        Purpose::List => error(
            ErrorKind::DeclaredLength,
            "pack member '".to_owned().concat(path).concat("' declares ").concat(
                text::decimal_text(len).as_str(),
            ).concat(" compressed bytes but only ").concat(
                text::decimal_text(left).as_str(),
            ).concat(" remain in the archive"),
        ),
        Purpose::Verify => too_short_error(
            "pack member ".to_owned().concat(text::decimal_text(index as u64).as_str()).concat(
                " payload",
            ).as_str(),
            len,
            left,
        ),
        Purpose::Unpack | Purpose::Extract => too_short_error(
            "compressed data for ".to_owned().concat(path).as_str(),
            len,
            left,
        ),
        Purpose::Search | Purpose::Repack => too_short_error("pack member payload", len, left),
    }
}

/// The failure of a path that a listing finds too long.
pub open spec fn path_too_long(len: nat) -> Failure {
    Failure {
        kind: ErrorKind::PathTooLong,
        text: "pack member path too long ("@ + text::decimal(len) + " bytes)"@,
    }
}

/// The failure of a path that is not UTF-8.
pub open spec fn path_not_utf8(name: Seq<u8>) -> Failure {
    Failure {
        kind: ErrorKind::NotUtf8,
        text: "pack member path is not UTF-8: "@ + codec::utf8_fault(name),
    }
}

/// The number in the `n` bytes at `p`.
pub open spec fn number_at(archive: Seq<u8>, p: int, n: int) -> nat {
    bytes::le_value(archive.subrange(p, p + n))
}

/// The member at offset `p`, the `index`th of its archive. A check of the
/// whole archive passes over the paths without decoding them.
pub open spec fn member_at(archive: Seq<u8>, p: int, purpose: Purpose, index: u32) -> Result<
    FoundModel,
    Failure,
> {
    if archive.len() - p < 4 {
        Err(error::short_read())
    } else {
        let path_len = number_at(archive, p, 4);
        let name = archive.subrange(p + 4, p + 4 + path_len);
        if purpose == Purpose::List && path_len > MAX_LISTED_PATH {
            Err(path_too_long(path_len))
        } else if archive.len() - (p + 4) < path_len {
            Err(too_short("pack member path"@, path_len, (archive.len() - (p + 4)) as nat))
        } else if purpose != Purpose::Verify && !vstd::utf8::valid_utf8(name) {
            Err(path_not_utf8(name))
        } else {
            let path = if purpose == Purpose::Verify {
                Seq::empty()
            } else {
                vstd::utf8::decode_utf8(name)
            };
            let q = p + 4 + path_len;
            if archive.len() - q < 48 {
                Err(error::short_read())
            } else {
                let payload_len = number_at(archive, q + 40, 8);
                let left = (archive.len() - (q + 48)) as nat;
                if left < payload_len {
                    Err(payload_failure(purpose, index, path, payload_len, left))
                } else {
                    Ok(
                        FoundModel {
                            path,
                            original_len: number_at(archive, q, 8) as u64,
                            checksum: archive.subrange(q + 8, q + 40),
                            start: q + 48,
                            end: q + 48 + payload_len,
                        },
                    )
                }
            }
        }
    }
}

/// Reads the path of a member: `len` bytes at offset `at`.
fn read_path(archive: &[u8], at: usize, len: usize) -> (r: Result<String, String>)
    requires
        at + len <= archive@.len(),
    ensures
        ({
            let name = archive@.subrange(at as int, at + len);
            match r {
                Ok(path) => vstd::utf8::valid_utf8(name) && path@ == vstd::utf8::decode_utf8(name),
                Err(message) => !vstd::utf8::valid_utf8(name) && message@ == codec::utf8_fault(
                    name,
                ),
            }
        }),
{
    let total: usize = archive.len();
    assert(at + len <= total);
    let mut name: Vec<u8> = Vec::new();
    bytes::push_all(&mut name, vstd::slice::slice_subrange(archive, at, at + len));
    assert(name@ == archive@.subrange(at as int, at + len));
    utf8_text(name)
}

/// Reads the member at offset `at`, the `index`th of its archive.
#[verifier::spinoff_prover]
pub fn read_member(archive: &[u8], at: usize, purpose: Purpose, index: u32) -> (r: Result<
    Found,
    Error,
>)
    requires
        at <= archive@.len(),
    ensures
        found_result(r) == member_at(archive@, at as int, purpose, index),
        r matches Ok(f) ==> at < f.start <= f.end <= archive@.len() && vstd::utf8::encode_utf8(
            f.path@,
        ).len() <= u32::MAX,
{
    let total: usize = archive.len();
    if total - at < 4 {
        return Err(short_read_error());
    }
    let path_len: u32 = bytes::read_u32(archive, at);
    let path_at: usize = at + 4;
    if purpose == Purpose::List && path_len > MAX_LISTED_PATH {
        return Err(
            error(
                ErrorKind::PathTooLong,
                "pack member path too long (".to_owned().concat(
                    text::decimal_text(path_len as u64).as_str(),
                ).concat(" bytes)"),
            ),
        );
    }
    let left: u64 = (total - path_at) as u64;
    if left < path_len as u64 {
        return Err(too_short_error("pack member path", path_len as u64, left));
    }
    let path: String = if purpose == Purpose::Verify {
        let empty: String = String::new();
        assert(empty@ == Seq::<char>::empty());
        empty
    } else {
        match read_path(archive, path_at, path_len as usize) {
            Ok(path) => {
                proof {
                    vstd::utf8::decode_utf8_encode_utf8(
                        archive@.subrange(path_at as int, path_at + path_len),
                    );
                }
                path
            },
            Err(message) => {
                return Err(
                    error(
                        ErrorKind::NotUtf8,
                        "pack member path is not UTF-8: ".to_owned().concat(message.as_str()),
                    ),
                );
            },
        }
    };
    let fields_at: usize = path_at + path_len as usize;
    if total - fields_at < 48 {
        return Err(short_read_error());
    }
    let original_len: u64 = bytes::read_u64(archive, fields_at);
    let checksum: [u8; 32] = read_hash(archive, fields_at + 8);
    let payload_len: u64 = bytes::read_u64(archive, fields_at + 40);
    let start: usize = fields_at + 48;
    let left: u64 = (total - start) as u64;
    if left < payload_len {
        return Err(payload_error(purpose, index, path.as_str(), payload_len, left));
    }
    let end: usize = start + payload_len as usize;
    Ok(Found { path, original_len, checksum, start, end })
}

/// What the restored data of a member is checked against, and how a failure
/// reads. `index` numbers the member in its archive.
pub open spec fn plain_fault(purpose: Purpose, index: u32, m: MemberModel, plain: Seq<u8>) -> Option<
    Failure,
> {
    if plain.len() != m.original_len {
        Some(
            Failure {
                kind: ErrorKind::SizeMismatch,
                text: size_label(purpose, index, m.path) + ": expected "@ + text::decimal(
                    m.original_len as nat,
                ) + ", got "@ + text::decimal(plain.len()),
            },
        )
    } else if codec::sha256_digest(plain) != m.checksum {
        Some(
            Failure {
                kind: ErrorKind::ChecksumMismatch,
                text: if purpose == Purpose::Search {
                    "checksum mismatch for member "@ + m.path
                } else {
                    checksum_label(purpose, index, m.path) + ": expected "@ + codec::hex_of(
                        m.checksum,
                    ) + ", got "@ + codec::hex_of(codec::sha256_digest(plain))
                },
            },
        )
    } else {
        None
    }
}

/// How a size mismatch starts.
pub open spec fn size_label(purpose: Purpose, index: u32, path: Seq<char>) -> Seq<char> {
    match purpose {
        Purpose::Verify => "pack member size mismatch for entry "@ + text::decimal(index as nat),
        Purpose::Search => "size mismatch in member "@ + path,
        _ => "size mismatch for "@ + path,
    }
}

/// How a checksum mismatch starts.
pub open spec fn checksum_label(purpose: Purpose, index: u32, path: Seq<char>) -> Seq<char> {
    match purpose {
        Purpose::Verify => "pack member checksum mismatch for entry "@ + text::decimal(
            index as nat,
        ),
        _ => "checksum mismatch for "@ + path,
    }
}

/// Checks the restored data of a member against its recorded size and digest.
pub fn check_plain(
    purpose: Purpose,
    index: u32,
    path: &str,
    original_len: u64,
    checksum: &[u8; HASH_LEN],
    plain: &[u8],
) -> (r: Result<(), Error>)
    ensures
        match plain_fault(
            purpose,
            index,
            MemberModel {
                path: path@,
                original_len,
                checksum: checksum@,
                payload: Seq::empty(),
            },
            plain@,
        ) {
            None => r is Ok,
            Some(fault) => r matches Err(e) && e@ == fault,
        },
{
    let size: u64 = plain.len() as u64;
    if size != original_len {
        let label: String = match purpose {
            Purpose::Verify => "pack member size mismatch for entry ".to_owned().concat(
                text::decimal_text(index as u64).as_str(),
            ),
            Purpose::Search => "size mismatch in member ".to_owned().concat(path),
            _ => "size mismatch for ".to_owned().concat(path),
        };
        return Err(
            error(
                ErrorKind::SizeMismatch,
                label.concat(": expected ").concat(
                    text::decimal_text(original_len).as_str(),
                ).concat(", got ").concat(text::decimal_text(size).as_str()),
            ),
        );
    }
    let actual: [u8; 32] = sha256(plain);
    if !bytes::same_bytes(actual.as_slice(), checksum.as_slice()) {
        if purpose == Purpose::Search {
            return Err(
                error(
                    ErrorKind::ChecksumMismatch,
                    "checksum mismatch for member ".to_owned().concat(path),
                ),
            );
        }
        let label: String = match purpose {
            Purpose::Verify => "pack member checksum mismatch for entry ".to_owned().concat(
                text::decimal_text(index as u64).as_str(),
            ),
            _ => "checksum mismatch for ".to_owned().concat(path),
        };
        return Err(
            error(
                ErrorKind::ChecksumMismatch,
                label.concat(": expected ").concat(hex_text(checksum.as_slice()).as_str()).concat(
                    ", got ",
                ).concat(hex_text(actual.as_slice()).as_str()),
            ),
        );
    }
    Ok(())
}

/// The contents of a member. Where members are restored, a codec failure names
/// the member.
pub open spec fn opened(purpose: Purpose, index: u32, m: MemberModel) -> Result<Seq<u8>, Failure> {
    match codec::decoded(m.payload, Seq::empty(), "decompressing zstd frame"@) {
        Err(fault) => Err(
            if purpose == Purpose::Unpack || purpose == Purpose::Extract {
                error::with_context("decompressing "@ + m.path, fault)
            } else {
                fault
            },
        ),
        Ok(plain) => match plain_fault(purpose, index, m, plain) {
            Some(fault) => Err(fault),
            None => Ok(plain),
        },
    }
}

/// Decompresses a member and checks its size and digest.
pub fn open_member(archive: &[u8], f: &Found, purpose: Purpose, index: u32) -> (r: Result<
    Vec<u8>,
    Error,
>)
    requires
        f.start <= f.end <= archive@.len(),
    ensures
        codec::bytes_result(r) == opened(purpose, index, member_of(archive@, f@)),
{
    let payload: &[u8] = vstd::slice::slice_subrange(archive, f.start, f.end);
    let plain: Vec<u8> = match zstd_decompress_raw(payload) {
        Ok(plain) => plain,
        Err(e) => {
            if purpose == Purpose::Unpack || purpose == Purpose::Extract {
                return Err(
                    in_context("decompressing ".to_owned().concat(f.path.as_str()).as_str(), e),
                );
            }
            return Err(e);
        },
    };
    match check_plain(
        purpose,
        index,
        f.path.as_str(),
        f.original_len,
        &f.checksum,
        plain.as_slice(),
    ) {
        Ok(()) => Ok(plain),
        Err(e) => Err(e),
    }
}

/// The layout of a member in an archive.
pub open spec fn member_bytes(m: MemberModel) -> Seq<u8> {
    let name = vstd::utf8::encode_utf8(m.path);
    bytes::le_bytes(name.len(), 4) + name + bytes::le_bytes(m.original_len as nat, 8) + m.checksum
        + bytes::le_bytes(m.payload.len(), 8) + m.payload
}

/// Whether the lengths of a member fit their fields.
pub open spec fn storable(m: MemberModel) -> bool {
    &&& vstd::utf8::encode_utf8(m.path).len() <= u32::MAX
    &&& m.checksum.len() == HASH_LEN
    &&& m.payload.len() <= u64::MAX
}

/// Appends a member.
pub fn write_member(
    out: &mut Vec<u8>,
    path: &str,
    original_len: u64,
    checksum: &[u8; HASH_LEN],
    payload: &[u8],
)
    requires
        vstd::utf8::encode_utf8(path@).len() <= u32::MAX,
    ensures
        final(out)@ == old(out)@ + member_bytes(
            MemberModel { path: path@, original_len, checksum: checksum@, payload: payload@ },
        ),
{
    let name: &[u8] = path.as_bytes();
    bytes::push_u32(out, name.len() as u32);
    bytes::push_all(out, name);
    bytes::push_u64(out, original_len);
    bytes::push_all(out, checksum.as_slice());
    bytes::push_u64(out, payload.len() as u64);
    bytes::push_all(out, payload);
}

/// What reading a member for `purpose` sees of it: a check of the whole
/// archive does not look at the path.
pub open spec fn as_read(purpose: Purpose, m: MemberModel) -> MemberModel {
    if purpose == Purpose::Verify {
        MemberModel { path: Seq::empty(), ..m }
    } else {
        m
    }
}

/// Reading a member gives back what was written.
pub proof fn member_round_trip(
    before: Seq<u8>,
    m: MemberModel,
    after: Seq<u8>,
    purpose: Purpose,
    index: u32,
)
    requires
        storable(m),
        purpose == Purpose::List ==> vstd::utf8::encode_utf8(m.path).len() <= MAX_LISTED_PATH,
    ensures
        ({
            let archive = before + member_bytes(m) + after;
            let end = (before.len() + member_bytes(m).len()) as int;
            let f = FoundModel {
                path: as_read(purpose, m).path,
                original_len: m.original_len,
                checksum: m.checksum,
                start: end - m.payload.len(),
                end,
            };
            member_at(archive, before.len() as int, purpose, index) == Ok::<FoundModel, Failure>(f)
                && member_of(archive, f) == as_read(purpose, m)
        }),
{
    let archive = before + member_bytes(m) + after;
    let name = vstd::utf8::encode_utf8(m.path);
    let p = before.len() as int;
    let q = p + 4 + name.len();
    let end = p + member_bytes(m).len();
    bytes::pow256_values();
    bytes::le_bytes_len(name.len(), 4);
    bytes::le_bytes_len(m.original_len as nat, 8);
    bytes::le_bytes_len(m.payload.len(), 8);
    bytes::le_round_trip(name.len(), 4);
    bytes::le_round_trip(m.original_len as nat, 8);
    bytes::le_round_trip(m.payload.len(), 8);
    vstd::utf8::encode_utf8_valid_utf8(m.path);
    vstd::utf8::encode_utf8_decode_utf8(m.path);
    assert(archive.subrange(p, p + 4) == bytes::le_bytes(name.len(), 4));
    assert(archive.subrange(p + 4, p + 4 + name.len()) == name);
    assert(archive.subrange(q, q + 8) == bytes::le_bytes(m.original_len as nat, 8));
    assert(archive.subrange(q + 8, q + 40) == m.checksum);
    assert(archive.subrange(q + 40, q + 48) == bytes::le_bytes(m.payload.len(), 8));
    assert(archive.subrange(q + 48, end) == m.payload);
}

/// Whatever is restored from a member has the recorded size and digest.
pub proof fn opened_is_intact(purpose: Purpose, index: u32, m: MemberModel)
    requires
        opened(purpose, index, m) is Ok,
    ensures
        opened(purpose, index, m)->Ok_0.len() == m.original_len,
        codec::sha256_digest(opened(purpose, index, m)->Ok_0) == m.checksum,
{
}

/// A member that is found in the first `n` bytes of an archive ends there, and
/// is found just so in the whole archive.
pub proof fn found_in_prefix(archive: Seq<u8>, n: int, p: int, purpose: Purpose, index: u32)
    requires
        0 <= n <= archive.len(),
        0 <= p,
        member_at(archive.take(n), p, purpose, index) is Ok,
    ensures
        member_at(archive, p, purpose, index) == member_at(archive.take(n), p, purpose, index),
        p < member_at(archive, p, purpose, index)->Ok_0.end <= n,
{
    let part = archive.take(n);
    assert(part.subrange(p, p + 4) == archive.subrange(p, p + 4));
    let path_len = number_at(archive, p, 4);
    assert(part.subrange(p + 4, p + 4 + path_len) == archive.subrange(p + 4, p + 4 + path_len));
    let q = p + 4 + path_len;
    assert(part.subrange(q, q + 8) == archive.subrange(q, q + 8));
    assert(part.subrange(q + 8, q + 40) == archive.subrange(q + 8, q + 40));
    assert(part.subrange(q + 40, q + 48) == archive.subrange(q + 40, q + 48));
}

/// A member is laid out as the length of its path in four bytes, the path in
/// UTF-8, its original size in eight bytes, its checksum, the length of its
/// payload in eight bytes, and the payload. Numbers have the lowest byte first.
pub proof fn member_layout(m: MemberModel)
    requires
        storable(m),
    ensures
        ({
            let b = member_bytes(m);
            let name = vstd::utf8::encode_utf8(m.path);
            let q = (4 + name.len()) as int;
            &&& b.len() == 4 + name.len() + 8 + 32 + 8 + m.payload.len()
            &&& forall|i: int|
                0 <= i < 4 ==> #[trigger] b[0 + i] as nat == name.len() / bytes::pow256(i as nat) % 256
            &&& b.subrange(4, q) == name
            &&& forall|i: int|
                0 <= i < 8 ==> #[trigger] b[q + i] as nat == m.original_len as nat / bytes::pow256(i as nat)
                    % 256
            &&& b.subrange(q + 8, q + 40) == m.checksum
            &&& forall|i: int|
                0 <= i < 8 ==> #[trigger] b[q + 40 + i] as nat == m.payload.len() / bytes::pow256(i as nat)
                    % 256
            &&& b.skip(q + 48) == m.payload
        }),
{
    let b = member_bytes(m);
    let name = vstd::utf8::encode_utf8(m.path);
    let q = (4 + name.len()) as int;
    bytes::le_bytes_len(name.len(), 4);
    bytes::le_bytes_len(m.original_len as nat, 8);
    bytes::le_bytes_len(m.payload.len(), 8);
    assert forall|i: int| 0 <= i < 4 implies #[trigger] b[0 + i] as nat == name.len() / bytes::pow256(i as nat)
        % 256 by {
        bytes::bytes_are_digits(name.len(), 4, i as nat);
        assert(b[0 + i] == bytes::le_bytes(name.len(), 4)[i]);
    }
    assert forall|i: int| 0 <= i < 8 implies #[trigger] b[q + i] as nat == m.original_len as nat
        / bytes::pow256(i as nat) % 256 by {
        bytes::bytes_are_digits(m.original_len as nat, 8, i as nat);
        assert(b[q + i] == bytes::le_bytes(m.original_len as nat, 8)[i]);
    }
    assert forall|i: int| 0 <= i < 8 implies #[trigger] b[q + 40 + i] as nat == m.payload.len()
        / bytes::pow256(i as nat) % 256 by {
        bytes::bytes_are_digits(m.payload.len(), 8, i as nat);
        assert(b[q + 40 + i] == bytes::le_bytes(m.payload.len(), 8)[i]);
    }
    assert(b.subrange(4, q) == name);
    assert(b.subrange(q + 8, q + 40) == m.checksum);
    assert(b.skip(q + 48) == m.payload);
}

/// A member whose payload decodes to data of another size, or with another
/// digest, than it records does not open.
pub proof fn damaged_member_does_not_open(
    purpose: Purpose,
    index: u32,
    m: MemberModel,
    plain: Seq<u8>,
)
    requires
        codec::decodes_to(m.payload, Seq::empty(), plain),
    ensures
        plain.len() != m.original_len ==> (opened(purpose, index, m) matches Err(fault)
            && fault.kind == ErrorKind::SizeMismatch),
        plain.len() == m.original_len && codec::sha256_digest(plain) != m.checksum ==> (opened(
            purpose,
            index,
            m,
        ) matches Err(fault) && fault.kind == ErrorKind::ChecksumMismatch),
        plain.len() == m.original_len && codec::sha256_digest(plain) == m.checksum ==> opened(
            purpose,
            index,
            m,
        ) == Ok::<Seq<u8>, Failure>(plain),
{
}

/// A member whose payload does not decode does not open.
pub proof fn undecodable_member_does_not_open(purpose: Purpose, index: u32, m: MemberModel)
    requires
        codec::zstd_plain(m.payload, Seq::empty()) is Err,
    ensures
        opened(purpose, index, m) matches Err(fault) && fault.kind == ErrorKind::Codec,
{
}

/// A listing refuses paths of more than 16 KiB, and only a listing does.
pub proof fn only_listings_refuse_long_paths(
    archive: Seq<u8>,
    p: int,
    purpose: Purpose,
    index: u32,
)
    requires
        0 <= p <= archive.len() - 4,
    ensures
        ({
            let len = bytes::le_value(archive.subrange(p, p + 4));
            let r = member_at(archive, p, purpose, index);
            &&& purpose == Purpose::List && len > 16 * 1024 ==> (r matches Err(fault) && fault.kind
                == ErrorKind::PathTooLong)
            &&& purpose != Purpose::List || len <= 16 * 1024 ==> (r matches Err(fault)
                ==> fault.kind != ErrorKind::PathTooLong)
        }),
{
}

/// Only a check of the whole archive reads members whose paths are not UTF-8.
pub proof fn only_checks_pass_over_paths(
    archive: Seq<u8>,
    p: int,
    purpose: Purpose,
    index: u32,
)
    requires
        member_at(archive, p, purpose, index) is Ok,
    ensures
        ({
            let len = bytes::le_value(archive.subrange(p, p + 4));
            let name = archive.subrange(p + 4, p + 4 + len);
            let f = member_at(archive, p, purpose, index)->Ok_0;
            &&& purpose != Purpose::Verify ==> vstd::utf8::valid_utf8(name) && f.path
                == vstd::utf8::decode_utf8(name)
            &&& purpose == Purpose::Verify ==> f.path.len() == 0
        }),
{
}

} // verus!
