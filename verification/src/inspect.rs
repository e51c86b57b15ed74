//! Operations on archives of either kind: listing, verifying, printing.

use vstd::prelude::*;

use crate::bytes;
use crate::codec;
use crate::container;
use crate::container::decompress_reader;
use crate::error::{error, plain_error, Error, ErrorKind, Failure};
use crate::header;
use crate::header::{peek_version, read_header, Header, HeaderModel, VERSION_V3};
use crate::member;
use crate::member::{MemberModel, Purpose};
use crate::pack;
use crate::pack::{extract_pack_member, inspect_pack, verify_pack, PackInfo, PackInfoModel};
use crate::packing;

verus! {

/// Summary of a single-file archive.
#[derive(Debug)]
pub struct ArchiveInfo {
    pub header: Header,
    pub compressed_size: u64,
    pub path: String,
    /// Always `"single"`.
    pub kind: &'static str,
}

/// The view of an [`ArchiveInfo`].
#[verifier::ext_equal]
pub struct ArchiveInfoModel {
    pub header: HeaderModel,
    pub compressed_size: u64,
    pub path: Seq<char>,
    pub kind: Seq<char>,
}

impl View for ArchiveInfo {
    type V = ArchiveInfoModel;

    open spec fn view(&self) -> ArchiveInfoModel {
        ArchiveInfoModel {
            header: self.header@,
            compressed_size: self.compressed_size,
            path: self.path@,
            kind: self.kind@,
        }
    }
}

/// What inspecting a single-file archive gives.
pub open spec fn file_listing(data: Seq<u8>, compressed_size: u64, path: Seq<char>) -> Result<
    ArchiveInfoModel,
    Failure,
> {
    match header::version_of(data) {
        Err(fault) => Err(fault),
        Ok(version) => if version == VERSION_V3 {
            Err(
                Failure {
                    kind: ErrorKind::UnexpectedPack,
                    text: path
                        + " is a multi-file pack archive (v3); use `rzc list` or `rzc info`"@,
                },
            )
        } else {
            match header::parsed_header(data) {
                Err(fault) => Err(fault),
                Ok(header) => Ok(
                    ArchiveInfoModel { header, compressed_size, path, kind: "single"@ },
                ),
            }
        },
    }
}

/// The views of an inspection.
pub open spec fn info_result(r: Result<ArchiveInfo, Error>) -> Result<ArchiveInfoModel, Failure> {
    match r {
        Ok(info) => Ok(info@),
        Err(e) => Err(e@),
    }
}

/// Parse single-file archive metadata without decompressing. `data` is the
/// archive, or a part of it that holds the header.
pub fn inspect_file(data: &[u8], compressed_size: u64, path: &str) -> (r: Result<
    ArchiveInfo,
    Error,
>)
    ensures
        info_result(r) == file_listing(data@, compressed_size, path@),
{
    match peek_version(data) {
        Err(e) => return Err(e),
        Ok(version) => {
            if version == VERSION_V3 {
                return Err(
                    error(
                        ErrorKind::UnexpectedPack,
                        path.to_owned().concat(
                            " is a multi-file pack archive (v3); use `rzc list` or `rzc info`",
                        ),
                    ),
                );
            }
        },
    }
    match read_header(data) {
        Err(e) => Err(e),
        Ok(header) => Ok(
            ArchiveInfo { header, compressed_size, path: path.to_owned(), kind: "single" },
        ),
    }
}

/// A listing of an archive of either kind.
#[derive(Debug)]
pub enum ListResult {
    Single(ArchiveInfo),
    Pack(PackInfo),
}

/// The view of a [`ListResult`].
pub enum ListModel {
    Single(ArchiveInfoModel),
    Pack(PackInfoModel),
}

impl View for ListResult {
    type V = ListModel;

    open spec fn view(&self) -> ListModel {
        match self {
            ListResult::Single(info) => ListModel::Single(info@),
            ListResult::Pack(info) => ListModel::Pack(info@),
        }
    }
}

/// What listing an archive gives.
pub open spec fn listing(archive: Seq<u8>, path: Seq<char>) -> Result<ListModel, Failure> {
    match header::version_of(archive) {
        Err(fault) => Err(fault),
        Ok(version) => if version == VERSION_V3 {
            match pack::pack_listing(archive, path) {
                Err(fault) => Err(fault),
                Ok(info) => Ok(ListModel::Pack(info)),
            }
        } else {
            match file_listing(archive, archive.len() as u64, path) {
                Err(fault) => Err(fault),
                Ok(info) => Ok(ListModel::Single(info)),
            }
        },
    }
}

/// The views of a listing.
pub open spec fn list_result(r: Result<ListResult, Error>) -> Result<ListModel, Failure> {
    match r {
        Ok(list) => Ok(list@),
        Err(e) => Err(e@),
    }
}

/// List contents of a single-file or pack archive.
pub fn list_archive(archive: &[u8], path: &str) -> (r: Result<ListResult, Error>)
    ensures
        list_result(r) == listing(archive@, path@),
{
    let version: u8 = match peek_version(archive) {
        Ok(version) => version,
        Err(e) => return Err(e),
    };
    if version == VERSION_V3 {
        match inspect_pack(archive, path) {
            Ok(info) => Ok(ListResult::Pack(info)),
            Err(e) => Err(e),
        }
    } else {
        match inspect_file(archive, archive.len() as u64, path) {
            Ok(info) => Ok(ListResult::Single(info)),
            Err(e) => Err(e),
        }
    }
}

/// The total size of an intact archive of either kind.
pub open spec fn checked_size(archive: Seq<u8>) -> Result<nat, Failure> {
    match header::version_of(archive) {
        Err(fault) => Err(fault),
        Ok(version) => if version == VERSION_V3 {
            pack::verified(archive)
        } else {
            match container::restored(archive, Seq::empty()) {
                Err(fault) => Err(fault),
                Ok(plain) => Ok(plain.len()),
            }
        },
    }
}

/// Decompress everything in an archive, verifying sizes and checksums. Returns
/// the total size.
pub fn verify_file(archive: &[u8]) -> (r: Result<u64, Error>)
    ensures
        match checked_size(archive@) {
            Ok(total) => r matches Ok(n) && n == total,
            Err(fault) => r matches Err(e) && e@ == fault,
        },
{
    let version: u8 = match peek_version(archive) {
        Ok(version) => version,
        Err(e) => return Err(e),
    };
    if version == VERSION_V3 {
        verify_pack(archive)
    } else {
        let mut dropped: Vec<u8> = Vec::new();
        decompress_reader(archive, &mut dropped)
    }
}

/// What printing `member` of an archive gives. A single-file archive has no
/// members, and the name is not looked at.
pub open spec fn printed(archive: Seq<u8>, member: Option<Seq<char>>) -> Result<
    Seq<u8>,
    Failure,
> {
    match header::version_of(archive) {
        Err(fault) => Err(fault),
        Ok(version) => if version == VERSION_V3 {
            match member {
                None => Err(
                    Failure {
                        kind: ErrorKind::MemberRequired,
                        text: "member path is required for pack archives"@,
                    },
                ),
                Some(path) => pack::extracted(archive, path),
            }
        } else {
            container::restored(archive, Seq::empty())
        },
    }
}

/// What printing writes: the contents, and from a single-file archive also
/// contents that then turn out to be damaged.
pub open spec fn print_output(archive: Seq<u8>, member: Option<Seq<char>>) -> Seq<u8> {
    match header::version_of(archive) {
        Err(_) => Seq::empty(),
        Ok(version) => if version == VERSION_V3 {
            match printed(archive, member) {
                Err(_) => Seq::empty(),
                Ok(plain) => plain,
            }
        } else {
            container::written_by(archive, Seq::empty())
        },
    }
}

/// The view of an optional name.
pub open spec fn name_view(name: Option<&str>) -> Option<Seq<char>> {
    match name {
        Some(s) => Some(s@),
        None => None,
    }
}

/// Decompress a single pack member, or a whole single-file archive, to `out`.
/// Returns the number of bytes.
pub fn cat_member(archive: &[u8], member: Option<&str>, out: &mut Vec<u8>) -> (r: Result<
    u64,
    Error,
>)
    ensures
        match printed(archive@, name_view(member)) {
            Ok(plain) => r matches Ok(n) && n == plain.len(),
            Err(fault) => r matches Err(e) && e@ == fault,
        },
        final(out)@ == old(out)@ + print_output(archive@, name_view(member)),
{
    let version: u8 = match peek_version(archive) {
        Ok(version) => version,
        Err(e) => {
            assert(out@ == old(out)@ + Seq::<u8>::empty());
            return Err(e);
        },
    };
    if version == VERSION_V3 {
        let path: &str = match member {
            Some(path) => path,
            None => {
                assert(out@ == old(out)@ + Seq::<u8>::empty());
                return Err(
                    plain_error(
                        ErrorKind::MemberRequired,
                        "member path is required for pack archives",
                    ),
                );
            },
        };
        match extract_pack_member(archive, path) {
            Ok(data) => {
                bytes::push_all(out, data.as_slice());
                Ok(data.len() as u64)
            },
            Err(e) => {
                assert(out@ == old(out)@ + Seq::<u8>::empty());
                Err(e)
            },
        }
    } else {
        decompress_reader(archive, out)
    }
}

/// A compressed file verifies, prints what was compressed, and is listed with
/// its level, size and digest.
pub proof fn compressed_file_is_whole(
    data: Seq<u8>,
    level: i32,
    frame: Seq<u8>,
    member: Option<Seq<char>>,
    path: Seq<char>,
)
    requires
        data.len() <= u64::MAX,
        codec::decodes_to(frame, Seq::empty(), data),
        codec::sha256_digest(data).len() == codec::HASH_LEN,
    ensures
        ({
            let archive = container::container_bytes(data, level, frame);
            &&& checked_size(archive) == Ok::<nat, Failure>(data.len())
            &&& printed(archive, member) == Ok::<Seq<u8>, Failure>(data)
            &&& listing(archive, path) matches Ok(ListModel::Single(info))
            &&& info.header == header::v2_header(
                level,
                data.len() as u64,
                codec::sha256_digest(data),
            )
            &&& info.path == path
        }),
{
    container::container_round_trip(data, level, frame, Seq::empty());
    let h = header::v2_header(level, data.len() as u64, codec::sha256_digest(data));
    header::header_round_trip(h, frame);
}

/// A pack is listed with its level, its size and its members, verifies as the
/// sum of their sizes, and prints a member by its path.
pub proof fn packed_files_are_whole(
    level: i32,
    members: Seq<MemberModel>,
    data: Seq<Seq<u8>>,
    i: int,
    path: Seq<char>,
)
    requires
        packing::readable(members, Purpose::List),
        data.len() == members.len(),
        forall|k: int| 0 <= k < members.len() ==> packing::holds(#[trigger] members[k], data[k]),
        packing::size_total(members) <= u64::MAX,
        pack::pack_bytes(level, members).len() <= u64::MAX,
        0 <= i < members.len(),
        forall|k: int| 0 <= k < i ==> (#[trigger] members[k]).path != members[i].path,
    ensures
        ({
            let archive = pack::pack_bytes(level, members);
            &&& listing(archive, path) matches Ok(ListModel::Pack(info))
            &&& info.level == level
            &&& info.path == path
            &&& info.file_count == members.len()
            &&& info.archive_size == archive.len()
            &&& info.members.len() == members.len()
            &&& forall|k: int|
                0 <= k < members.len() ==> (#[trigger] info.members[k]).path == members[k].path
                    && info.members[k].original_len == data[k].len()
                    && info.members[k].compressed_len == members[k].payload.len()
                    && info.members[k].checksum == codec::sha256_digest(data[k])
            &&& checked_size(archive) == Ok::<nat, Failure>(packing::size_total(members))
            &&& printed(archive, Some(members[i].path)) == Ok::<Seq<u8>, Failure>(data[i])
            &&& print_output(archive, Some(members[i].path)) == data[i]
            &&& printed(archive, None) is Err
        }),
{
    let archive = pack::pack_bytes(level, members);
    assert(packing::readable(members, Purpose::Verify));
    assert(packing::readable(members, Purpose::Extract));
    packing::prologue_round_trip(
        level,
        members.len() as u32,
        pack::members_bytes(members),
        Purpose::List,
    );
    assert(archive.take(4) == header::MAGIC@);
    packing::listing_of_packed(level, members, path);
    packing::packed_verifies(level, members, data);
    assert(packing::holds(members[i], data[i]));
    packing::packed_file_extracts(level, members, i, data[i]);
    let info = pack::pack_listing(archive, path)->Ok_0;
    assert forall|k: int| 0 <= k < members.len() implies (#[trigger] info.members[k]).path
        == members[k].path && info.members[k].original_len == data[k].len()
        && info.members[k].compressed_len == members[k].payload.len() && info.members[k].checksum
        == codec::sha256_digest(data[k]) by {
        assert(packing::holds(members[k], data[k]));
        assert(member::storable(members[k]));
    }
}

/// A single-file archive is listed with its own size, and prints its contents
/// whatever member is named.
pub proof fn single_file_is_described(
    data: Seq<u8>,
    level: i32,
    frame: Seq<u8>,
    member: Option<Seq<char>>,
    path: Seq<char>,
)
    requires
        data.len() <= u64::MAX,
        codec::decodes_to(frame, Seq::empty(), data),
        codec::sha256_digest(data).len() == codec::HASH_LEN,
        container::container_bytes(data, level, frame).len() <= u64::MAX,
    ensures
        ({
            let archive = container::container_bytes(data, level, frame);
            &&& listing(archive, path) matches Ok(ListModel::Single(info))
            &&& info.compressed_size == archive.len()
            &&& info.header.level == level
            &&& info.header.original_len == data.len()
            &&& info.header.checksum == Some(codec::sha256_digest(data))
            &&& info.kind == "single"@
            &&& print_output(archive, member) == data
        }),
{
    compressed_file_is_whole(data, level, frame, member, path);
}

/// A single-file archive is listed by its header, without being opened.
pub proof fn header_is_listed(h: HeaderModel, frame: Seq<u8>, path: Seq<char>)
    requires
        header::header_fault(h) is None,
        h.version == header::VERSION_V1 || h.version == header::VERSION,
        h.checksum matches Some(hash) ==> hash.len() == 32,
        (header::header_bytes(h) + frame).len() <= u64::MAX,
    ensures
        listing(header::header_bytes(h) + frame, path) matches Ok(ListModel::Single(info))
            && info.header == h && info.compressed_size == (header::header_bytes(h) + frame).len()
            && info.path == path,
{
    header::header_round_trip(h, frame);
}

} // verus!
