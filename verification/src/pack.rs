//! Multi-file pack archives: their layout, and reading them.

use vstd::prelude::*;

use crate::bytes;
use crate::codec;
use crate::codec::HASH_LEN;
use crate::error;
use crate::error::{error, plain_error, short_read_error, Error, ErrorKind, Failure};
use crate::header;
use crate::header::{starts_with_magic, MAGIC, VERSION_V3};
use crate::member;
use crate::member::{open_member, read_member, Found, FoundModel, MemberModel, Purpose};
use crate::text;

verus! {

/// The fields in front of the members.
pub open spec fn prologue_bytes(level: i32, count: nat) -> Seq<u8> {
    MAGIC@ + seq![VERSION_V3] + bytes::le_bytes(bytes::bits32(level), 4) + bytes::le_bytes(
        count,
        4,
    )
}

/// The members of an archive one behind the other.
pub open spec fn members_bytes(members: Seq<MemberModel>) -> Seq<u8>
    decreases members.len(),
{
    if members.len() == 0 {
        Seq::empty()
    } else {
        members_bytes(members.drop_last()) + member::member_bytes(members.last())
    }
}

/// The archive that holds `members`.
pub open spec fn pack_bytes(level: i32, members: Seq<MemberModel>) -> Seq<u8> {
    prologue_bytes(level, members.len()) + members_bytes(members)
}

/// What the prologue of an archive says.
#[derive(Debug, Clone, Copy)]
pub struct Prologue {
    pub level: i32,
    pub count: u32,
}

/// The failure of data that is no archive at all.
pub open spec fn wrong_magic(purpose: Purpose) -> Failure {
    match purpose {
        Purpose::Verify | Purpose::Search => Failure {
            kind: ErrorKind::InvalidMagic,
            text: "invalid file magic"@,
        },
        _ => header::bad_magic(),
    }
}

/// The failure of an archive of another version.
pub open spec fn wrong_version(purpose: Purpose, version: u8) -> Failure {
    let expected = "expected pack archive version 3, got "@ + text::decimal(version as nat);
    Failure {
        kind: ErrorKind::UnsupportedVersion,
        text: match purpose {
            Purpose::Verify => "not a v3 pack archive"@,
            Purpose::Repack => "repack requires a v3 pack archive (got version "@ + text::decimal(
                version as nat,
            ) + ")"@,
            Purpose::Unpack => expected
                + "; use `rzc decompress` for single-file archives"@,
            _ => expected,
        },
    }
}

/// The prologue of an archive. A search has looked at the version before.
pub open spec fn prologue(archive: Seq<u8>, purpose: Purpose) -> Result<Prologue, Failure> {
    if archive.len() < 4 {
        Err(error::short_read())
    } else if archive.take(4) != MAGIC@ {
        Err(wrong_magic(purpose))
    } else if archive.len() < 5 {
        Err(error::short_read())
    } else if purpose != Purpose::Search && archive[4] != VERSION_V3 {
        Err(wrong_version(purpose, archive[4]))
    } else if archive.len() < 13 {
        Err(error::short_read())
    } else {
        Ok(
            Prologue {
                level: bytes::signed32(member::number_at(archive, 5, 4)),
                count: member::number_at(archive, 9, 4) as u32,
            },
        )
    }
}

/// Reads the prologue of an archive.
pub fn read_prologue(archive: &[u8], purpose: Purpose) -> (r: Result<Prologue, Error>)
    ensures
        match prologue(archive@, purpose) {
            Ok(p) => r == Ok::<Prologue, Error>(p) && archive@.len() >= 13,
            Err(fault) => r matches Err(e) && e@ == fault,
        },
{
    if archive.len() < 4 {
        return Err(short_read_error());
    }
    if !starts_with_magic(archive) {
        return Err(
            match purpose {
                Purpose::Verify | Purpose::Search => plain_error(
                    ErrorKind::InvalidMagic,
                    "invalid file magic",
                ),
                _ => header::bad_magic_error(),
            },
        );
    }
    if archive.len() < 5 {
        return Err(short_read_error());
    }
    let version: u8 = archive[4];
    if purpose != Purpose::Search && version != VERSION_V3 {
        let shown: String = text::decimal_text(version as u64);
        let message: String = match purpose {
            Purpose::Verify => "not a v3 pack archive".to_owned(),
            Purpose::Repack => "repack requires a v3 pack archive (got version ".to_owned().concat(
                shown.as_str(),
            ).concat(")"),
            Purpose::Unpack => "expected pack archive version 3, got ".to_owned().concat(
                shown.as_str(),
            ).concat("; use `rzc decompress` for single-file archives"),
            _ => "expected pack archive version 3, got ".to_owned().concat(shown.as_str()),
        };
        return Err(error(ErrorKind::UnsupportedVersion, message));
    }
    if archive.len() < 13 {
        return Err(short_read_error());
    }
    Ok(
        Prologue {
            level: bytes::from_bits32(bytes::read_u32(archive, 5)),
            count: bytes::read_u32(archive, 9),
        },
    )
}

/// Appends the prologue of an archive with `count` members.
pub fn write_prologue(out: &mut Vec<u8>, level: i32, count: u32)
    ensures
        final(out)@ == old(out)@ + prologue_bytes(level, count as nat),
{
    bytes::push_all(out, MAGIC.as_slice());
    out.push(VERSION_V3);
    bytes::push_u32(out, bytes::to_bits32(level));
    bytes::push_u32(out, count);
    assert(out@ == old(out)@ + prologue_bytes(level, count as nat));
}

/// One member of a pack archive, without its contents.
#[derive(Debug)]
pub struct PackMemberInfo {
    pub path: String,
    pub original_len: u64,
    pub compressed_len: u64,
    pub checksum: [u8; HASH_LEN],
}

/// The view of a [`PackMemberInfo`].
#[verifier::ext_equal]
pub struct EntryModel {
    pub path: Seq<char>,
    pub original_len: u64,
    pub compressed_len: u64,
    pub checksum: Seq<u8>,
}

impl View for PackMemberInfo {
    type V = EntryModel;

    open spec fn view(&self) -> EntryModel {
        EntryModel {
            path: self.path@,
            original_len: self.original_len,
            compressed_len: self.compressed_len,
            checksum: self.checksum@,
        }
    }
}

/// Summary of a pack archive.
#[derive(Debug)]
pub struct PackInfo {
    pub version: u8,
    pub level: i32,
    pub file_count: u32,
    pub members: Vec<PackMemberInfo>,
    pub archive_size: u64,
    pub path: String,
    /// Always `"pack"`.
    pub kind: &'static str,
}

/// The view of a [`PackInfo`].
#[verifier::ext_equal]
pub struct PackInfoModel {
    pub version: u8,
    pub level: i32,
    pub file_count: u32,
    pub members: Seq<EntryModel>,
    pub archive_size: u64,
    pub path: Seq<char>,
    pub kind: Seq<char>,
}

/// The views of a list of members.
pub open spec fn entries(members: Seq<PackMemberInfo>) -> Seq<EntryModel> {
    members.map_values(|m: PackMemberInfo| m@)
}

impl View for PackInfo {
    type V = PackInfoModel;

    open spec fn view(&self) -> PackInfoModel {
        PackInfoModel {
            version: self.version,
            level: self.level,
            file_count: self.file_count,
            members: entries(self.members@),
            archive_size: self.archive_size,
            path: self.path@,
            kind: self.kind@,
        }
    }
}

/// What a listing shows of a member.
pub open spec fn entry_of(f: FoundModel) -> EntryModel {
    EntryModel {
        path: f.path,
        original_len: f.original_len,
        compressed_len: (f.end - f.start) as u64,
        checksum: f.checksum,
    }
}

/// The members from offset `p` on, starting with number `index` of `count`.
pub open spec fn members_from(
    archive: Seq<u8>,
    p: int,
    index: u32,
    count: u32,
    purpose: Purpose,
) -> Result<Seq<FoundModel>, Failure>
    decreases count - index,
{
    if index >= count {
        Ok(Seq::empty())
    } else {
        match member::member_at(archive, p, purpose, index) {
            Err(fault) => Err(fault),
            Ok(f) => match members_from(archive, f.end, (index + 1) as u32, count, purpose) {
                Err(fault) => Err(fault),
                Ok(rest) => Ok(seq![f] + rest),
            },
        }
    }
}

/// The prologue of an archive, and its members as found.
pub open spec fn pack_contents(archive: Seq<u8>, purpose: Purpose) -> Result<
    (Prologue, Seq<FoundModel>),
    Failure,
> {
    match prologue(archive, purpose) {
        Err(fault) => Err(fault),
        Ok(head) => match members_from(archive, 13, 0, head.count, purpose) {
            Err(fault) => Err(fault),
            Ok(list) => Ok((head, list)),
        },
    }
}

/// The views of members as found.
pub open spec fn founds(list: Seq<Found>) -> Seq<FoundModel> {
    list.map_values(|f: Found| f@)
}

/// Whether a member lies within its archive, with a path that fits its length
/// field.
pub open spec fn within(archive: Seq<u8>, f: Found) -> bool {
    f.start <= f.end <= archive.len() && vstd::utf8::encode_utf8(f.path@).len() <= u32::MAX
}

/// Reads the prologue and then every member in turn.
#[verifier::spinoff_prover]
pub fn read_pack(archive: &[u8], purpose: Purpose) -> (r: Result<(Prologue, Vec<Found>), Error>)
    ensures
        match pack_contents(archive@, purpose) {
            Ok((head, list)) => r matches Ok(got) && got.0 == head && founds(got.1@) == list
                && got.1@.len() == head.count && forall|k: int|
                0 <= k < got.1@.len() ==> within(archive@, #[trigger] got.1@[k]),
            Err(fault) => r matches Err(e) && e@ == fault,
        },
{
    let head: Prologue = match read_prologue(archive, purpose) {
        Ok(head) => head,
        Err(e) => return Err(e),
    };
    let mut list: Vec<Found> = Vec::new();
    let mut at: usize = 13;
    let mut index: u32 = 0;
    assert(founds(list@) == Seq::<FoundModel>::empty());
    assert(error::after(
        founds(list@),
        members_from(archive@, at as int, index, head.count, purpose),
    ) == members_from(archive@, 13, 0, head.count, purpose)) by {
        let all = members_from(archive@, 13, 0, head.count, purpose);
        if all is Ok {
            assert(Seq::<FoundModel>::empty() + all->Ok_0 == all->Ok_0);
        }
    }
    while index < head.count
        invariant
            index <= head.count,
            at <= archive@.len(),
            list@.len() == index,
            forall|k: int| 0 <= k < list@.len() ==> within(archive@, #[trigger] list@[k]),
            error::after(founds(list@), members_from(archive@, at as int, index, head.count, purpose))
                == members_from(archive@, 13, 0, head.count, purpose),
            prologue(archive@, purpose) == Ok::<Prologue, Failure>(head),
        decreases head.count - index,
    {
        let f: Found = match read_member(archive, at, purpose, index) {
            Ok(f) => f,
            Err(e) => return Err(e),
        };
        let ghost before = founds(list@);
        let ghost rest = members_from(archive@, f.end as int, (index + 1) as u32, head.count, purpose);
        at = f.end;
        let ghost found = f@;
        list.push(f);
        index = index + 1;
        assert(founds(list@) == before.push(found));
        proof {
            if rest is Ok {
                assert(before + (seq![found] + rest->Ok_0) == before.push(found) + rest->Ok_0);
            }
        }
    }
    assert(founds(list@) + Seq::<FoundModel>::empty() == founds(list@));
    Ok((head, list))
}

/// What listing a pack gives.
pub open spec fn pack_listing(archive: Seq<u8>, path: Seq<char>) -> Result<
    PackInfoModel,
    Failure,
> {
    match pack_contents(archive, Purpose::List) {
        Err(fault) => Err(fault),
        Ok((head, list)) => Ok(
            PackInfoModel {
                version: VERSION_V3,
                level: head.level,
                file_count: head.count,
                members: list.map_values(|f: FoundModel| entry_of(f)),
                archive_size: archive.len() as u64,
                path,
                kind: "pack"@,
            },
        ),
    }
}

/// The views of a listing.
pub open spec fn pack_info_result(r: Result<PackInfo, Error>) -> Result<PackInfoModel, Failure> {
    match r {
        Ok(info) => Ok(info@),
        Err(e) => Err(e@),
    }
}

/// Inspect a pack archive: its members without their contents.
pub fn inspect_pack(archive: &[u8], path: &str) -> (r: Result<PackInfo, Error>)
    ensures
        pack_info_result(r) == pack_listing(archive@, path@),
{
    let (head, list): (Prologue, Vec<Found>) = match read_pack(archive, Purpose::List) {
        Ok(got) => got,
        Err(e) => return Err(e),
    };
    let mut members: Vec<PackMemberInfo> = Vec::new();
    let mut i: usize = 0;
    while i < list.len()
        invariant
            i <= list@.len(),
            forall|k: int| 0 <= k < list@.len() ==> within(archive@, #[trigger] list@[k]),
            entries(members@) == founds(list@).take(i as int).map_values(
                |f: FoundModel| entry_of(f),
            ),
        decreases list@.len() - i,
    {
        let f: &Found = &list[i];
        let ghost before = entries(members@);
        members.push(
            PackMemberInfo {
                path: f.path.as_str().to_owned(),
                original_len: f.original_len,
                compressed_len: (f.end - f.start) as u64,
                checksum: f.checksum,
            },
        );
        assert(members@.last()@ == entry_of(f@));
        assert(entries(members@) == before.push(entry_of(f@)));
        assert(founds(list@)[i as int] == f@);
        i = i + 1;
        assert(founds(list@).take(i as int) == founds(list@).take(i - 1).push(f@));
        assert(entries(members@) == founds(list@).take(i as int).map_values(
            |f: FoundModel| entry_of(f),
        ));
    }
    assert(founds(list@).take(i as int) == founds(list@));
    Ok(
        PackInfo {
            version: VERSION_V3,
            level: head.level,
            file_count: head.count,
            members,
            archive_size: archive.len() as u64,
            path: path.to_owned(),
            kind: "pack",
        },
    )
}

proof fn members_from_length(archive: Seq<u8>, p: int, index: u32, count: u32, purpose: Purpose)
    requires
        index <= count,
        members_from(archive, p, index, count, purpose) is Ok,
    ensures
        members_from(archive, p, index, count, purpose)->Ok_0.len() == count - index,
    decreases count - index,
{
    if index < count {
        let f = member::member_at(archive, p, purpose, index)->Ok_0;
        members_from_length(archive, f.end, (index + 1) as u32, count, purpose);
    }
}

/// A listing has as many members as the archive counts.
pub proof fn listing_length(archive: Seq<u8>, path: Seq<char>)
    ensures
        pack_listing(archive, path) matches Ok(info) ==> info.members.len() == info.file_count,
{
    if pack_listing(archive, path) is Ok {
        let head = prologue(archive, Purpose::List)->Ok_0;
        members_from_length(archive, 13, 0, head.count, Purpose::List);
    }
}

/// The sum of the sizes before compression.
pub open spec fn original_total(members: Seq<EntryModel>) -> nat
    decreases members.len(),
{
    if members.len() == 0 {
        0
    } else {
        original_total(members.drop_last()) + members.last().original_len as nat
    }
}

/// The sum of the payload sizes.
pub open spec fn compressed_total(members: Seq<EntryModel>) -> nat
    decreases members.len(),
{
    if members.len() == 0 {
        0
    } else {
        compressed_total(members.drop_last()) + members.last().compressed_len as nat
    }
}

impl PackInfo {
    /// The sum of the sizes before compression, as far as it can be shown.
    pub fn total_original_len(&self) -> (total: u64)
        ensures
            total == bytes::capped(original_total(self@.members)),
    {
        let mut total: u64 = 0;
        let mut i: usize = 0;
        let ghost all = entries(self.members@);
        while i < self.members.len()
            invariant
                i <= self.members@.len(),
                all == entries(self.members@),
                total == bytes::capped(original_total(all.take(i as int))),
            decreases self.members@.len() - i,
        {
            total = bytes::add_size(total, self.members[i].original_len);
            i = i + 1;
            assert(all.take(i as int).drop_last() == all.take(i - 1));
        }
        assert(all.take(i as int) == all);
        total
    }

    /// The sum of the payload sizes, as far as it can be shown.
    pub fn total_compressed_payload(&self) -> (total: u64)
        ensures
            total == bytes::capped(compressed_total(self@.members)),
    {
        let mut total: u64 = 0;
        let mut i: usize = 0;
        let ghost all = entries(self.members@);
        while i < self.members.len()
            invariant
                i <= self.members@.len(),
                all == entries(self.members@),
                total == bytes::capped(compressed_total(all.take(i as int))),
            decreases self.members@.len() - i,
        {
            total = bytes::add_size(total, self.members[i].compressed_len);
            i = i + 1;
            assert(all.take(i as int).drop_last() == all.take(i - 1));
        }
        assert(all.take(i as int) == all);
        total
    }
}

/// A sum of sizes, where it fits.
pub open spec fn exact_size(sum: nat) -> Option<u64> {
    if sum <= u64::MAX {
        Some(sum as u64)
    } else {
        None
    }
}

/// Adds to a sum of sizes, which once it has grown too large stays so.
pub fn add_exactly(total: Option<u64>, len: u64) -> (out: Option<u64>)
    ensures
        out == match total {
            Some(t) => exact_size((t + len) as nat),
            None => None,
        },
{
    match total {
        Some(total) => total.checked_add(len),
        None => None,
    }
}

/// The failure of members that add up to more than can be recorded.
pub open spec fn total_too_large() -> Failure {
    Failure {
        kind: ErrorKind::TotalTooLarge,
        text: "pack members add up to more than 18446744073709551615 bytes"@,
    }
}

/// The error of members that add up to more than can be recorded.
pub fn total_too_large_error() -> (e: Error)
    ensures
        e@ == total_too_large(),
{
    plain_error(
        ErrorKind::TotalTooLarge,
        "pack members add up to more than 18446744073709551615 bytes",
    )
}

/// How far the check of a pack has come: the next member, and the sum of the
/// sizes of those that were intact.
#[derive(Debug)]
pub struct Check {
    pub at: usize,
    pub index: u32,
    pub count: u32,
    pub total: u64,
}

/// The view of a [`Check`].
pub struct CheckModel {
    pub at: int,
    pub index: u32,
    pub count: u32,
    pub total: nat,
}

impl View for Check {
    type V = CheckModel;

    open spec fn view(&self) -> CheckModel {
        CheckModel {
            at: self.at as int,
            index: self.index,
            count: self.count,
            total: self.total as nat,
        }
    }
}

/// The check of a pack with prologue `head` at its start.
pub open spec fn check_start(head: Prologue) -> CheckModel {
    CheckModel { at: 13, index: 0, count: head.count, total: 0 }
}

/// The check behind the next member, if there is one and it is intact.
pub open spec fn checked_next(archive: Seq<u8>, c: CheckModel) -> Result<
    Option<CheckModel>,
    Failure,
> {
    if c.index >= c.count {
        Ok(None)
    } else {
        match member::member_at(archive, c.at, Purpose::Verify, c.index) {
            Err(fault) => Err(fault),
            Ok(f) => match member::opened(Purpose::Verify, c.index, member::member_of(archive, f)) {
                Err(fault) => Err(fault),
                Ok(_) => if c.total + f.original_len > u64::MAX {
                    Err(total_too_large())
                } else {
                    Ok(
                        Some(
                            CheckModel {
                                at: f.end,
                                index: (c.index + 1) as u32,
                                count: c.count,
                                total: c.total + f.original_len as nat,
                            },
                        ),
                    )
                },
            },
        }
    }
}

/// What the rest of a check finds: the sum of the sizes, or the first failure.
pub open spec fn verified_from(archive: Seq<u8>, c: CheckModel) -> Result<nat, Failure>
    decreases c.count - c.index,
{
    match checked_next(archive, c) {
        Err(fault) => Err(fault),
        Ok(None) => Ok(c.total),
        Ok(Some(next)) => verified_from(archive, next),
    }
}

/// The sums that the rest of a check comes by, one behind each intact member.
pub open spec fn sums_from(archive: Seq<u8>, c: CheckModel) -> Seq<nat>
    decreases c.count - c.index,
{
    match checked_next(archive, c) {
        Ok(Some(next)) => seq![next.total] + sums_from(archive, next),
        _ => Seq::empty(),
    }
}

/// The total size of a pack whose members are all intact.
pub open spec fn verified(archive: Seq<u8>) -> Result<nat, Failure> {
    match prologue(archive, Purpose::Verify) {
        Err(fault) => Err(fault),
        Ok(head) => verified_from(archive, check_start(head)),
    }
}

/// Starts the check of a pack archive.
pub fn start_verify(archive: &[u8]) -> (r: Result<Check, Error>)
    ensures
        match prologue(archive@, Purpose::Verify) {
            Ok(head) => r matches Ok(c) && c@ == check_start(head) && c.at <= archive@.len(),
            Err(fault) => r matches Err(e) && e@ == fault,
        },
{
    match read_prologue(archive, Purpose::Verify) {
        Ok(head) => Ok(Check { at: 13, index: 0, count: head.count, total: 0 }),
        Err(e) => Err(e),
    }
}

/// The views of a step of a check.
pub open spec fn check_result(r: Result<Option<Check>, Error>) -> Result<
    Option<CheckModel>,
    Failure,
> {
    match r {
        Ok(Some(c)) => Ok(Some(c@)),
        Ok(None) => Ok(None),
        Err(e) => Err(e@),
    }
}

/// Checks the next member. Behind the last there is none.
pub fn verify_next(archive: &[u8], c: &Check) -> (r: Result<Option<Check>, Error>)
    requires
        c.at <= archive@.len(),
    ensures
        check_result(r) == checked_next(archive@, c@),
        r matches Ok(Some(next)) ==> next.at <= archive@.len(),
{
    if c.index >= c.count {
        return Ok(None);
    }
    let f: Found = match read_member(archive, c.at, Purpose::Verify, c.index) {
        Ok(f) => f,
        Err(e) => return Err(e),
    };
    match open_member(archive, &f, Purpose::Verify, c.index) {
        Ok(_) => {},
        Err(e) => return Err(e),
    }
    match c.total.checked_add(f.original_len) {
        Some(total) => Ok(Some(Check { at: f.end, index: c.index + 1, count: c.count, total })),
        None => Err(total_too_large_error()),
    }
}

/// Verify all members of a pack archive. Returns the sum of their sizes.
pub fn verify_pack(archive: &[u8]) -> (r: Result<u64, Error>)
    ensures
        match verified(archive@) {
            Ok(total) => r matches Ok(n) && n == total,
            Err(fault) => r matches Err(e) && e@ == fault,
        },
{
    let mut c: Check = match start_verify(archive) {
        Ok(c) => c,
        Err(e) => return Err(e),
    };
    loop
        invariant
            c.at <= archive@.len(),
            verified(archive@) == verified_from(archive@, c@),
        decreases c.count - c.index,
    {
        match verify_next(archive, &c) {
            Ok(Some(next)) => {
                c = next;
            },
            Ok(None) => {
                return Ok(c.total);
            },
            Err(e) => {
                return Err(e);
            },
        }
    }
}

/// The failure of a request for a member that the archive lacks.
pub open spec fn not_in_archive(path: Seq<char>) -> Failure {
    Failure { kind: ErrorKind::MemberNotFound, text: "member not found in archive: "@ + path }
}

/// The error of a request for a member that the archive lacks.
pub fn not_in_archive_error(path: &str) -> (e: Error)
    ensures
        e@ == not_in_archive(path@),
{
    error(ErrorKind::MemberNotFound, "member not found in archive: ".to_owned().concat(path))
}

/// The contents of the first member called `path` from offset `p` on. Members
/// behind it are not looked at.
pub open spec fn extracted_from(
    archive: Seq<u8>,
    p: int,
    index: u32,
    count: u32,
    path: Seq<char>,
) -> Result<Seq<u8>, Failure>
    decreases count - index,
{
    if index >= count {
        Err(not_in_archive(path))
    } else {
        match member::member_at(archive, p, Purpose::Extract, index) {
            Err(fault) => Err(fault),
            Ok(f) => if f.path == path {
                member::opened(Purpose::Extract, index, member::member_of(archive, f))
            } else {
                extracted_from(archive, f.end, (index + 1) as u32, count, path)
            },
        }
    }
}

/// The contents of the first member called `path`.
pub open spec fn extracted(archive: Seq<u8>, path: Seq<char>) -> Result<Seq<u8>, Failure> {
    match prologue(archive, Purpose::Extract) {
        Err(fault) => Err(fault),
        Ok(head) => extracted_from(archive, 13, 0, head.count, path),
    }
}

/// Extract and verify one pack member into memory.
#[verifier::spinoff_prover]
pub fn extract_pack_member(archive: &[u8], member_path: &str) -> (r: Result<Vec<u8>, Error>)
    ensures
        codec::bytes_result(r) == extracted(archive@, member_path@),
{
    let head: Prologue = match read_prologue(archive, Purpose::Extract) {
        Ok(head) => head,
        Err(e) => return Err(e),
    };
    let mut at: usize = 13;
    let mut index: u32 = 0;
    while index < head.count
        invariant
            index <= head.count,
            at <= archive@.len(),
            extracted_from(archive@, at as int, index, head.count, member_path@) == extracted(
                archive@,
                member_path@,
            ),
        decreases head.count - index,
    {
        let f: Found = match read_member(archive, at, Purpose::Extract, index) {
            Ok(f) => f,
            Err(e) => return Err(e),
        };
        if text::same_text(f.path.as_str(), member_path) {
            return open_member(archive, &f, Purpose::Extract, index);
        }
        at = f.end;
        index = index + 1;
    }
    Err(not_in_archive_error(member_path))
}

proof fn extracted_from_is_intact(
    archive: Seq<u8>,
    p: int,
    index: u32,
    count: u32,
    path: Seq<char>,
) -> (place: (int, u32))
    requires
        extracted_from(archive, p, index, count, path) is Ok,
    ensures
        ({
            let plain = extracted_from(archive, p, index, count, path)->Ok_0;
            &&& member::member_at(archive, place.0, Purpose::Extract, place.1) matches Ok(f)
            &&& f.path == path
            &&& plain.len() == f.original_len
            &&& codec::sha256_digest(plain) == f.checksum
        }),
    decreases count - index,
{
    let f = member::member_at(archive, p, Purpose::Extract, index)->Ok_0;
    if f.path == path {
        member::opened_is_intact(Purpose::Extract, index, member::member_of(archive, f));
        (p, index)
    } else {
        extracted_from_is_intact(archive, f.end, (index + 1) as u32, count, path)
    }
}

/// Whatever is extracted, the archive has a member with that path, and the
/// contents have the size and the SHA-256 that it records.
pub proof fn extracted_is_intact(archive: Seq<u8>, path: Seq<char>)
    requires
        extracted(archive, path) is Ok,
    ensures
        exists|at: int, index: u32|
            {
                &&& #[trigger] member::member_at(
                    archive,
                    at,
                    Purpose::Extract,
                    index,
                ) matches Ok(f)
                &&& f.path == path
                &&& extracted(archive, path)->Ok_0.len() == f.original_len
                &&& codec::sha256_digest(extracted(archive, path)->Ok_0) == f.checksum
            },
{
    let head = prologue(archive, Purpose::Extract)->Ok_0;
    let place = extracted_from_is_intact(archive, 13, 0, head.count, path);
    assert(member::member_at(archive, place.0, Purpose::Extract, place.1) is Ok);
}

proof fn verified_from_opens(archive: Seq<u8>, c: CheckModel, purpose: Purpose)
    requires
        verified_from(archive, c) is Ok,
        members_from(archive, c.at, c.index, c.count, purpose) is Ok,
    ensures
        forall|k: int, i: u32|
            0 <= k < members_from(archive, c.at, c.index, c.count, purpose)->Ok_0.len()
                ==> #[trigger] member::opened(
                purpose,
                i,
                member::member_of(
                    archive,
                    members_from(archive, c.at, c.index, c.count, purpose)->Ok_0[k],
                ),
            ) is Ok,
    decreases c.count - c.index,
{
    if let Ok(Some(next)) = checked_next(archive, c) {
        let f = member::member_at(archive, c.at, purpose, c.index)->Ok_0;
        let g = member::member_at(archive, c.at, Purpose::Verify, c.index)->Ok_0;
        let rest = members_from(archive, f.end, next.index, c.count, purpose)->Ok_0;
        let list = members_from(archive, c.at, c.index, c.count, purpose)->Ok_0;
        verified_from_opens(archive, next, purpose);
        assert(list == seq![f] + rest);
        assert forall|k: int, i: u32| 0 <= k < list.len() implies #[trigger] member::opened(
            purpose,
            i,
            member::member_of(archive, list[k]),
        ) is Ok by {
            if k > 0 {
                assert(list[k] == rest[k - 1]);
                assert(member::opened(purpose, i, member::member_of(archive, rest[k - 1])) is Ok);
            } else {
                assert(member::member_of(archive, g).payload == member::member_of(
                    archive,
                    f,
                ).payload);
            }
        }
    }
}

/// An archive that verifies can be restored: every member that is read from it,
/// for whatever purpose, opens.
pub proof fn verified_members_open(archive: Seq<u8>, purpose: Purpose)
    requires
        verified(archive) is Ok,
        pack_contents(archive, purpose) is Ok,
    ensures
        forall|k: int, i: u32|
            0 <= k < pack_contents(archive, purpose)->Ok_0.1.len() ==> #[trigger] member::opened(
                purpose,
                i,
                member::member_of(archive, pack_contents(archive, purpose)->Ok_0.1[k]),
            ) is Ok,
{
    let head = prologue(archive, purpose)->Ok_0;
    verified_from_opens(archive, check_start(head), purpose);
}

/// The sum of the sizes that a pack records for `members`.
pub open spec fn length_total(members: Seq<FoundModel>) -> nat
    decreases members.len(),
{
    if members.len() == 0 {
        0
    } else {
        members[0].original_len as nat + length_total(members.skip(1))
    }
}

#[verifier::spinoff_prover]
proof fn sums_from_are_running(archive: Seq<u8>, c: CheckModel)
    requires
        verified_from(archive, c) is Ok,
        c.index <= c.count,
    ensures
        ({
            let sums = sums_from(archive, c);
            &&& members_from(archive, c.at, c.index, c.count, Purpose::Verify) matches Ok(members)
            &&& sums.len() == members.len() == c.count - c.index
            &&& forall|k: int|
                0 <= k < sums.len() ==> #[trigger] sums[k] == c.total + length_total(
                    members.take(k + 1),
                )
            &&& verified_from(archive, c) == Ok::<nat, Failure>(c.total + length_total(members))
        }),
    decreases c.count - c.index,
{
    if let Ok(Some(next)) = checked_next(archive, c) {
        sums_from_are_running(archive, next);
        let sums = sums_from(archive, c);
        let rest = members_from(archive, next.at, next.index, c.count, Purpose::Verify)->Ok_0;
        let members = members_from(archive, c.at, c.index, c.count, Purpose::Verify)->Ok_0;
        assert(members.skip(1) == rest);
        assert(next.total == c.total + members[0].original_len as nat);
        assert forall|k: int| 0 <= k < sums.len() implies #[trigger] sums[k] == c.total
            + length_total(members.take(k + 1)) by {
            let part = members.take(k + 1);
            assert(part.skip(1) == rest.take(k));
            assert(part[0] == members[0]);
            assert(length_total(part) == members[0].original_len as nat + length_total(
                rest.take(k),
            ));
            if k > 0 {
                assert(sums[k] == sums_from(archive, next)[k - 1]);
                assert(sums_from(archive, next)[k - 1] == next.total + length_total(
                    rest.take(k - 1 + 1),
                ));
            } else {
                assert(rest.take(0) == Seq::<FoundModel>::empty());
            }
        }
    }
}

/// The check of a pack that verifies passes every member once, in order: behind
/// each it has come by the sum of the sizes up to there, and the last sum is
/// the result.
pub proof fn verification_sums_up(archive: Seq<u8>)
    requires
        verified(archive) is Ok,
    ensures
        prologue(archive, Purpose::Verify) matches Ok(head) && members_from(
            archive,
            13,
            0,
            head.count,
            Purpose::Verify,
        ) matches Ok(members) && {
            let sums = sums_from(archive, check_start(head));
            &&& sums.len() == members.len() == head.count
            &&& forall|k: int|
                0 <= k < sums.len() ==> #[trigger] sums[k] == length_total(members.take(k + 1))
            &&& verified(archive) == Ok::<nat, Failure>(length_total(members))
            &&& sums.len() > 0 ==> verified(archive) == Ok::<nat, Failure>(sums.last())
        },
{
    let head = prologue(archive, Purpose::Verify)->Ok_0;
    sums_from_are_running(archive, check_start(head));
    let members = members_from(archive, 13, 0, head.count, Purpose::Verify)->Ok_0;
    assert(members.take(members.len() as int) == members);
}

/// A pack starts with the letters `RZC1`, the version 3 in one byte, the level
/// in four and the number of members in four, the lowest byte first. The members
/// follow in order.
pub proof fn pack_layout(level: i32, members: Seq<MemberModel>)
    ensures
        ({
            let b = pack_bytes(level, members);
            &&& b[0] == 0x52 && b[1] == 0x5a && b[2] == 0x43 && b[3] == 0x31
            &&& b[4] == 3
            &&& forall|i: int|
                0 <= i < 4 ==> #[trigger] b[5 + i] as nat == bytes::bits32(level) / bytes::pow256(i as nat)
                    % 256
            &&& forall|i: int|
                0 <= i < 4 ==> #[trigger] b[9 + i] as nat == members.len() / bytes::pow256(i as nat) % 256
            &&& b.len() >= 13
            &&& b.skip(13) == members.map_values(
                |m: MemberModel| member::member_bytes(m),
            ).flatten()
        }),
{
    let b = pack_bytes(level, members);
    let bits = bytes::bits32(level);
    bytes::le_bytes_len(bits, 4);
    bytes::le_bytes_len(members.len(), 4);
    assert forall|i: int| 0 <= i < 4 implies #[trigger] b[5 + i] as nat == bits / bytes::pow256(i as nat)
        % 256 by {
        bytes::bytes_are_digits(bits, 4, i as nat);
        assert(b[5 + i] == bytes::le_bytes(bits, 4)[i]);
    }
    assert forall|i: int| 0 <= i < 4 implies #[trigger] b[9 + i] as nat == members.len()
        / bytes::pow256(i as nat) % 256 by {
        bytes::bytes_are_digits(members.len(), 4, i as nat);
        assert(b[9 + i] == bytes::le_bytes(members.len(), 4)[i]);
    }
    assert(b[0] == MAGIC@[0] && b[1] == MAGIC@[1] && b[2] == MAGIC@[2] && b[3] == MAGIC@[3]);
    members_bytes_flatten(members);
    assert(b.skip(13) == members_bytes(members));
}

proof fn members_bytes_flatten(members: Seq<MemberModel>)
    ensures
        members_bytes(members) == members.map_values(
            |m: MemberModel| member::member_bytes(m),
        ).flatten(),
    decreases members.len(),
{
    let parts = members.map_values(|m: MemberModel| member::member_bytes(m));
    if members.len() > 0 {
        let init = members.drop_last();
        members_bytes_flatten(init);
        assert(parts.drop_last() == init.map_values(|m: MemberModel| member::member_bytes(m)));
        text::flatten_last(parts);
    } else {
        assert(parts == Seq::<Seq<u8>>::empty());
    }
}

/// The totals of two lists one behind the other are the sums of their totals.
pub proof fn totals_add(a: Seq<EntryModel>, b: Seq<EntryModel>)
    ensures
        original_total(a + b) == original_total(a) + original_total(b),
        compressed_total(a + b) == compressed_total(a) + compressed_total(b),
    decreases b.len(),
{
    if b.len() == 0 {
        assert(a + b == a);
    } else {
        totals_add(a, b.drop_last());
        assert((a + b).drop_last() == a + b.drop_last());
        assert((a + b).last() == b.last());
    }
}

/// The totals of one member are its sizes.
pub proof fn total_of_one(m: EntryModel)
    ensures
        original_total(seq![m]) == m.original_len,
        compressed_total(seq![m]) == m.compressed_len,
{
    assert(seq![m].drop_last() == Seq::<EntryModel>::empty());
    assert(original_total(seq![m].drop_last()) == 0);
    assert(compressed_total(seq![m].drop_last()) == 0);
}

/// A listing shows the size of the archive and the path that it was asked for
/// by, and as many members as the archive says that it has.
pub proof fn listing_describes_archive(archive: Seq<u8>, path: Seq<char>)
    requires
        pack_listing(archive, path) is Ok,
        archive.len() <= u64::MAX,
    ensures
        pack_listing(archive, path)->Ok_0.archive_size == archive.len(),
        pack_listing(archive, path)->Ok_0.path == path,
        pack_listing(archive, path)->Ok_0.kind == "pack"@,
        pack_listing(archive, path)->Ok_0.members.len() == pack_listing(
            archive,
            path,
        )->Ok_0.file_count,
{
    let head = prologue(archive, Purpose::List)->Ok_0;
    members_from_length(archive, 13, 0, head.count, Purpose::List);
}

} // verus!
