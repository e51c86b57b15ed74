//! Making pack archives, and what reading one back gives.

use vstd::prelude::*;

use crate::bytes;
use crate::codec;
use crate::codec::{sha256, zstd_compress_raw};
use crate::error;
use crate::error::{error, plain_error, Error, ErrorKind, Failure};
use crate::header;
use crate::member;
use crate::member::{write_member, FoundModel, Member, MemberModel, Purpose};
use crate::pack;
use crate::pack::{add_exactly, total_too_large_error, write_prologue, CheckModel, EntryModel};

verus! {

/// A file to pack: its archive path and its contents.
#[derive(Debug)]
pub struct PackInput {
    pub path: String,
    pub data: Vec<u8>,
}

/// Result of a pack operation.
#[derive(Debug)]
pub struct PackStats {
    pub file_count: u32,
    pub original_bytes: u64,
    pub archive_bytes: u64,
    pub output_path: String,
}

/// Whether `m` is what packing `data` as `path` may give: size and digest of
/// the data, and a frame that decodes to it.
pub open spec fn packs(
    m: MemberModel,
    path: Seq<char>,
    data: Seq<u8>,
    level: i32,
    threads: u32,
) -> bool {
    &&& m.path == path
    &&& m.original_len == data.len()
    &&& m.checksum == codec::sha256_digest(data)
    &&& m.checksum.len() == codec::HASH_LEN
    &&& m.payload.len() <= u64::MAX
    &&& codec::framed(data, level, threads, Seq::empty(), m.payload)
    &&& holds(m, data)
}

/// Whether `m` holds `data`.
pub open spec fn holds(m: MemberModel, data: Seq<u8>) -> bool {
    &&& m.original_len == data.len()
    &&& m.checksum == codec::sha256_digest(data)
    &&& codec::decodes_to(m.payload, Seq::empty(), data)
}

/// The member that a frame of `data` makes. Without a frame, its error is handed
/// on.
pub fn member_around(path: &str, data: &[u8], frame: Result<Vec<u8>, Error>) -> (r: Result<
    Member,
    Error,
>)
    ensures
        match frame {
            Ok(payload) => r matches Ok(m) && m@ == (MemberModel {
                path: path@,
                original_len: data@.len() as u64,
                checksum: codec::sha256_digest(data@),
                payload: payload@,
            }),
            Err(e) => r == Err::<Member, Error>(e),
        },
{
    match frame {
        Ok(payload) => Ok(
            Member {
                path: path.to_owned(),
                original_len: data.len() as u64,
                checksum: sha256(data),
                payload,
            },
        ),
        Err(e) => Err(e),
    }
}

/// Compresses one file into a member.
pub fn pack_member(path: &str, data: &[u8], level: i32, threads: u32) -> (r: Result<
    Member,
    Error,
>)
    ensures
        match r {
            Ok(m) => packs(m@, path@, data@, level, threads),
            Err(e) => codec::encoder_failed(level, threads, "writing to zstd encoder"@, e@),
        },
{
    let none: Vec<u8> = Vec::new();
    assert(none@ == Seq::<u8>::empty());
    let frame: Result<Vec<u8>, Error> = zstd_compress_raw(data, level, threads, none.as_slice());
    let r: Result<Member, Error> = member_around(path, data, frame);
    assert(data@.len() == data.len());
    assert(r matches Ok(m) ==> m.payload@.len() == m.payload.len() && m.checksum@.len()
        == codec::HASH_LEN);
    r
}

/// Why that many files cannot be packed.
pub open spec fn count_fault(count: nat, dir: Seq<char>) -> Option<Failure> {
    if count == 0 {
        Some(
            Failure { kind: ErrorKind::NothingToPack, text: "no files to pack under "@ + dir },
        )
    } else if count > u32::MAX {
        Some(Failure { kind: ErrorKind::TooManyFiles, text: "too many files to pack"@ })
    } else {
        None
    }
}

/// Checks the number of files found under `dir`.
pub fn check_file_count(count: usize, dir: &str) -> (r: Result<u32, Error>)
    ensures
        match count_fault(count as nat, dir@) {
            None => r == Ok::<u32, Error>(count as u32),
            Some(fault) => r matches Err(e) && e@ == fault,
        },
{
    if count == 0 {
        return Err(
            error(ErrorKind::NothingToPack, "no files to pack under ".to_owned().concat(dir)),
        );
    }
    if count as u64 > u32::MAX as u64 {
        return Err(plain_error(ErrorKind::TooManyFiles, "too many files to pack"));
    }
    Ok(count as u32)
}

/// Whether a path fits its length field.
pub open spec fn path_fits(path: Seq<char>) -> bool {
    vstd::utf8::encode_utf8(path).len() <= u32::MAX
}

/// A character takes at most four bytes.
pub proof fn encoded_length(chars: Seq<char>)
    ensures
        vstd::utf8::encode_utf8(chars).len() <= 4 * chars.len(),
    decreases chars.len(),
{
    if chars.len() > 0 {
        encoded_length(chars.drop_first());
    }
}

/// The number of members in front of the first whose path does not fit.
pub open spec fn fitting(members: Seq<MemberModel>) -> nat
    decreases members.len(),
{
    if members.len() == 0 {
        0
    } else if fitting(members.drop_last()) == members.len() - 1 && path_fits(
        members.last().path,
    ) {
        members.len()
    } else {
        fitting(members.drop_last())
    }
}

/// A member whose path does not fit stays the first one when more follow.
proof fn fitting_stays(members: Seq<MemberModel>, n: int)
    requires
        0 <= n < members.len(),
        fitting(members.take(n)) == n,
        !path_fits(members[n].path),
    ensures
        fitting(members) == n,
    decreases members.len(),
{
    if n == members.len() - 1 {
        assert(members.drop_last() == members.take(n));
    } else {
        assert(members.drop_last().take(n) == members.take(n));
        fitting_stays(members.drop_last(), n);
    }
}

/// Where all paths fit, all are counted.
pub proof fn fitting_all(members: Seq<MemberModel>)
    requires
        forall|i: int| 0 <= i < members.len() ==> path_fits((#[trigger] members[i]).path),
    ensures
        fitting(members) == members.len(),
    decreases members.len(),
{
    if members.len() > 0 {
        assert(path_fits(members[members.len() - 1].path));
        fitting_all(members.drop_last());
    }
}

/// The views of a list of members.
pub open spec fn models(members: Seq<Member>) -> Seq<MemberModel> {
    members.map_values(|m: Member| m@)
}

/// The sum of the sizes before compression.
pub open spec fn size_total(members: Seq<MemberModel>) -> nat
    decreases members.len(),
{
    if members.len() == 0 {
        0
    } else {
        size_total(members.drop_last()) + members.last().original_len as nat
    }
}

/// The failure of a path that does not fit its length field.
pub open spec fn unstorable(path: Seq<char>) -> Failure {
    Failure { kind: ErrorKind::PathTooLong, text: "path too long: "@ + path }
}

/// The sum of the sizes of `members`, where it can be recorded.
fn recorded_total(members: &Vec<Member>) -> (total: Option<u64>)
    ensures
        total == pack::exact_size(size_total(models(members@))),
{
    let ghost ms = models(members@);
    let mut total: Option<u64> = Some(0);
    let mut i: usize = 0;
    assert(ms.take(0) == Seq::<MemberModel>::empty());
    while i < members.len()
        invariant
            i <= members@.len(),
            ms == models(members@),
            total == pack::exact_size(size_total(ms.take(i as int))),
        decreases members@.len() - i,
    {
        assert(ms[i as int] == members@[i as int]@);
        assert(ms.take(i + 1).drop_last() == ms.take(i as int));
        total = add_exactly(total, members[i].original_len);
        i = i + 1;
    }
    assert(ms.take(i as int) == ms);
    total
}

/// Appends a pack archive of `members` to `out`. Where their sizes add up to
/// more than can be recorded, nothing is appended. Where a path does not fit,
/// the members in front of it have been appended before the error comes.
pub fn write_pack(level: i32, members: &Vec<Member>, output_path: &str, out: &mut Vec<u8>) -> (r:
    Result<PackStats, Error>)
    requires
        members@.len() <= u32::MAX,
    ensures
        ({
            let ms = models(members@);
            let n = fitting(ms);
            if size_total(ms) > u64::MAX {
                &&& r matches Err(e)
                &&& e@ == pack::total_too_large()
                &&& final(out)@ == old(out)@
            } else if n == ms.len() {
                &&& r matches Ok(stats)
                &&& stats.file_count == ms.len()
                &&& stats.original_bytes == size_total(ms)
                &&& stats.archive_bytes == pack::pack_bytes(level, ms).len()
                &&& stats.output_path@ == output_path@
                &&& final(out)@ == old(out)@ + pack::pack_bytes(level, ms)
            } else {
                &&& n < ms.len()
                &&& r matches Err(e)
                &&& e@ == unstorable(ms[n as int].path)
                &&& final(out)@ == old(out)@ + pack::prologue_bytes(level, ms.len())
                    + pack::members_bytes(ms.take(n as int))
            }
        }),
{
    let ghost ms = models(members@);
    let original_bytes: u64 = match recorded_total(members) {
        Some(total) => total,
        None => return Err(total_too_large_error()),
    };
    let start: usize = out.len();
    let count: u32 = members.len() as u32;
    write_prologue(out, level, count);
    let ghost head = out@;
    let mut i: usize = 0;
    assert(ms.take(0) == Seq::<MemberModel>::empty());
    assert(out@ == head + pack::members_bytes(ms.take(0)));
    while i < members.len()
        invariant
            i <= members@.len(),
            ms == models(members@),
            out@ == head + pack::members_bytes(ms.take(i as int)),
            size_total(ms) <= u64::MAX,
            fitting(ms.take(i as int)) == i,
            head == old(out)@ + pack::prologue_bytes(level, ms.len()),
        decreases members@.len() - i,
    {
        let m: &Member = &members[i];
        assert(ms[i as int] == m@);
        if m.path.as_str().as_bytes().len() as u64 > u32::MAX as u64 {
            proof {
                fitting_stays(ms, i as int);
            }
            return Err(
                error(
                    ErrorKind::PathTooLong,
                    "path too long: ".to_owned().concat(m.path.as_str()),
                ),
            );
        }
        write_member(
            out,
            m.path.as_str(),
            m.original_len,
            &m.checksum,
            m.payload.as_slice(),
        );
        i = i + 1;
        assert(ms.take(i as int).drop_last() == ms.take(i - 1));
        assert(out@ == head + pack::members_bytes(ms.take(i as int)));
    }
    assert(ms.take(i as int) == ms);
    assert(out@ == old(out)@ + pack::pack_bytes(level, ms));
    Ok(
        PackStats {
            file_count: count,
            original_bytes,
            archive_bytes: (out.len() - start) as u64,
            output_path: output_path.to_owned(),
        },
    )
}

/// Whether `ms` is what packing `files` may give.
pub open spec fn all_packed(
    ms: Seq<MemberModel>,
    files: Seq<PackInput>,
    level: i32,
    threads: u32,
) -> bool {
    &&& ms.len() == files.len()
    &&& forall|i: int|
        0 <= i < ms.len() ==> packs(
            #[trigger] ms[i],
            files[i].path@,
            files[i].data@,
            level,
            threads,
        )
}

/// The number of bytes in all files together.
pub open spec fn data_total(files: Seq<PackInput>) -> nat
    decreases files.len(),
{
    if files.len() == 0 {
        0
    } else {
        data_total(files.drop_last()) + files.last().data@.len()
    }
}

/// Packed files have the sizes of the files.
pub proof fn packed_total(
    ms: Seq<MemberModel>,
    files: Seq<PackInput>,
    level: i32,
    threads: u32,
)
    requires
        all_packed(ms, files, level, threads),
    ensures
        size_total(ms) == data_total(files),
    decreases files.len(),
{
    if files.len() > 0 {
        let n = files.len() - 1;
        assert(packs(ms[n], files[n].path@, files[n].data@, level, threads));
        assert(all_packed(ms.drop_last(), files.drop_last(), level, threads)) by {
            assert forall|i: int| 0 <= i < n implies packs(
                #[trigger] ms.drop_last()[i],
                files.drop_last()[i].path@,
                files.drop_last()[i].data@,
                level,
                threads,
            ) by {
                assert(packs(ms[i], files[i].path@, files[i].data@, level, threads));
            }
        }
        packed_total(ms.drop_last(), files.drop_last(), level, threads);
    }
}

/// Packs files in memory, in the order given. `dir` is where they were found.
/// Of a path that does not fit, the error names the first, and the files in
/// front of it have been appended.
pub fn pack_files(
    files: &Vec<PackInput>,
    level: i32,
    threads: u32,
    dir: &str,
    output_path: &str,
    out: &mut Vec<u8>,
) -> (r: Result<PackStats, Error>)
    ensures
        match count_fault(files@.len(), dir@) {
            Some(fault) => (r matches Err(e) && e@ == fault) && final(out)@ == old(out)@,
            None => match r {
                Ok(stats) => exists|ms: Seq<MemberModel>|
                    {
                        &&& #[trigger] all_packed(ms, files@, level, threads)
                        &&& final(out)@ == old(out)@ + pack::pack_bytes(level, ms)
                        &&& stats.file_count == ms.len()
                        &&& stats.original_bytes == data_total(files@)
                        &&& data_total(files@) <= u64::MAX
                        &&& stats.archive_bytes == pack::pack_bytes(level, ms).len()
                        &&& stats.output_path@ == output_path@
                        &&& forall|i: int|
                            0 <= i < files@.len() ==> path_fits((#[trigger] files@[i]).path@)
                    },
                Err(e) => {
                    ||| final(out)@ == old(out)@ && codec::encoder_failed(
                        level,
                        threads,
                        "writing to zstd encoder"@,
                        e@,
                    )
                    ||| final(out)@ == old(out)@ && data_total(files@) > u64::MAX && e@
                        == pack::total_too_large()
                    ||| data_total(files@) <= u64::MAX && exists|ms: Seq<MemberModel>|
                        {
                            &&& #[trigger] all_packed(ms, files@, level, threads)
                            &&& fitting(ms) < ms.len()
                            &&& e@ == unstorable(files@[fitting(ms) as int].path@)
                            &&& final(out)@ == old(out)@ + pack::prologue_bytes(level, ms.len())
                                + pack::members_bytes(ms.take(fitting(ms) as int))
                        }
                },
            },
        },
{
    match check_file_count(files.len(), dir) {
        Ok(_) => {},
        Err(e) => return Err(e),
    }
    let mut members: Vec<Member> = Vec::new();
    let mut i: usize = 0;
    while i < files.len()
        invariant
            i <= files@.len(),
            members@.len() == i,
            forall|k: int|
                0 <= k < i ==> packs(
                    #[trigger] models(members@)[k],
                    files@[k].path@,
                    files@[k].data@,
                    level,
                    threads,
                ),
            count_fault(files@.len(), dir@) is None,
            out@ == old(out)@,
        decreases files@.len() - i,
    {
        let ghost before = models(members@);
        match pack_member(files[i].path.as_str(), files[i].data.as_slice(), level, threads) {
            Ok(m) => {
                let ghost made = m@;
                members.push(m);
                assert(models(members@) == before.push(made));
                assert forall|k: int| 0 <= k < i + 1 implies packs(
                    #[trigger] models(members@)[k],
                    files@[k].path@,
                    files@[k].data@,
                    level,
                    threads,
                ) by {
                    if k < i {
                        assert(models(members@)[k] == before[k]);
                    }
                }
            },
            Err(e) => return Err(e),
        }
        i = i + 1;
    }
    let ghost ms = models(members@);
    assert(all_packed(ms, files@, level, threads));
    let r: Result<PackStats, Error> = write_pack(level, &members, output_path, out);
    proof {
        packed_total(ms, files@, level, threads);
        if fitting(ms) == ms.len() {
            all_fit(ms);
            assert forall|k: int| 0 <= k < files@.len() implies path_fits(
                (#[trigger] files@[k]).path@,
            ) by {
                assert(packs(ms[k], files@[k].path@, files@[k].data@, level, threads));
            }
        } else {
            let k = fitting(ms) as int;
            fitting_bound(ms);
            assert(packs(ms[k], files@[k].path@, files@[k].data@, level, threads));
        }
    }
    r
}

/// Where all are counted, all paths fit.
proof fn all_fit(members: Seq<MemberModel>)
    requires
        fitting(members) == members.len(),
    ensures
        forall|i: int| 0 <= i < members.len() ==> path_fits((#[trigger] members[i]).path),
    decreases members.len(),
{
    if members.len() > 0 {
        fitting_bound(members.drop_last());
        all_fit(members.drop_last());
        assert forall|i: int| 0 <= i < members.len() implies path_fits(
            (#[trigger] members[i]).path,
        ) by {
            if i < members.len() - 1 {
                assert(members.drop_last()[i] == members[i]);
            }
        }
    }
}

proof fn fitting_bound(members: Seq<MemberModel>)
    ensures
        fitting(members) <= members.len(),
    decreases members.len(),
{
    if members.len() > 0 {
        fitting_bound(members.drop_last());
    }
}

/// Offset of the `i`th member in the archive of `members`.
pub open spec fn offset(members: Seq<MemberModel>, i: int) -> int {
    (13 + pack::members_bytes(members.take(i)).len()) as int
}

/// The `i`th member as it is found in the archive of `members`.
pub open spec fn found_at(members: Seq<MemberModel>, i: int, purpose: Purpose) -> FoundModel {
    FoundModel {
        path: member::as_read(purpose, members[i]).path,
        original_len: members[i].original_len,
        checksum: members[i].checksum,
        start: offset(members, i + 1) - members[i].payload.len(),
        end: offset(members, i + 1),
    }
}

/// Whether an archive can hold `members` and be read for `purpose`.
pub open spec fn readable(members: Seq<MemberModel>, purpose: Purpose) -> bool {
    &&& members.len() <= u32::MAX
    &&& forall|i: int|
        0 <= i < members.len() ==> member::storable(#[trigger] members[i]) && (purpose
            == Purpose::List ==> vstd::utf8::encode_utf8(members[i].path).len()
            <= member::MAX_LISTED_PATH)
}

/// The members of two lists one behind the other.
proof fn members_bytes_of_parts(a: Seq<MemberModel>, b: Seq<MemberModel>)
    ensures
        pack::members_bytes(a + b) == pack::members_bytes(a) + pack::members_bytes(b),
    decreases b.len(),
{
    if b.len() == 0 {
        assert(a + b == a);
        assert(pack::members_bytes(a) + Seq::<u8>::empty() == pack::members_bytes(a));
    } else {
        members_bytes_of_parts(a, b.drop_last());
        assert((a + b).drop_last() == a + b.drop_last());
        assert((a + b).last() == b.last());
        assert(pack::members_bytes(a) + (pack::members_bytes(b.drop_last())
            + member::member_bytes(b.last())) == pack::members_bytes(a) + pack::members_bytes(
            b.drop_last(),
        ) + member::member_bytes(b.last()));
    }
}

/// The prologue of an archive reads back.
pub proof fn prologue_round_trip(level: i32, count: u32, rest: Seq<u8>, purpose: Purpose)
    ensures
        pack::prologue(pack::prologue_bytes(level, count as nat) + rest, purpose) == Ok::<
            pack::Prologue,
            Failure,
        >(pack::Prologue { level, count }),
        pack::prologue_bytes(level, count as nat).len() == 13,
{
    let archive = pack::prologue_bytes(level, count as nat) + rest;
    bytes::pow256_values();
    bytes::signed32_round_trip(level);
    bytes::le_bytes_len(bytes::bits32(level), 4);
    bytes::le_bytes_len(count as nat, 4);
    bytes::le_round_trip(bytes::bits32(level), 4);
    bytes::le_round_trip(count as nat, 4);
    assert(archive.take(4) == header::MAGIC@);
    assert(archive.subrange(5, 9) == bytes::le_bytes(bytes::bits32(level), 4));
    assert(archive.subrange(9, 13) == bytes::le_bytes(count as nat, 4));
}

/// Reading at the offset of a member finds that member.
#[verifier::spinoff_prover]
pub proof fn member_at_offset(
    level: i32,
    members: Seq<MemberModel>,
    i: int,
    purpose: Purpose,
    index: u32,
)
    requires
        readable(members, purpose),
        0 <= i < members.len(),
    ensures
        member::member_at(pack::pack_bytes(level, members), offset(members, i), purpose, index)
            == Ok::<FoundModel, Failure>(found_at(members, i, purpose)),
        member::member_of(pack::pack_bytes(level, members), found_at(members, i, purpose))
            == member::as_read(purpose, members[i]),
{
    let archive = pack::pack_bytes(level, members);
    let head = pack::prologue_bytes(level, members.len());
    let before = head + pack::members_bytes(members.take(i));
    let after = pack::members_bytes(members.skip(i + 1));
    assert(head.len() == 13) by {
        prologue_round_trip(level, members.len() as u32, Seq::empty(), purpose);
    }
    assert(pack::members_bytes(members.take(i + 1)) == pack::members_bytes(members.take(i))
        + member::member_bytes(members[i])) by {
        assert(members.take(i + 1).drop_last() == members.take(i));
    }
    assert(archive == before + member::member_bytes(members[i]) + after) by {
        members_bytes_of_parts(members.take(i + 1), members.skip(i + 1));
        assert(members.take(i + 1) + members.skip(i + 1) == members);
    }
    assert(member::storable(members[i]));
    assert(before.len() == offset(members, i));
    assert(before.len() + member::member_bytes(members[i]).len() == offset(members, i + 1));
    member::member_round_trip(before, members[i], after, purpose, index);
}

#[verifier::spinoff_prover]
proof fn members_from_offset(level: i32, members: Seq<MemberModel>, i: int, purpose: Purpose)
    requires
        readable(members, purpose),
        0 <= i <= members.len(),
    ensures
        pack::members_from(
            pack::pack_bytes(level, members),
            offset(members, i),
            i as u32,
            members.len() as u32,
            purpose,
        ) == Ok::<Seq<FoundModel>, Failure>(
            Seq::new((members.len() - i) as nat, |k: int| found_at(members, i + k, purpose)),
        ),
    decreases members.len() - i,
{
    if i < members.len() {
        assert(member::member_at(
            pack::pack_bytes(level, members),
            offset(members, i),
            purpose,
            i as u32,
        ) == Ok::<FoundModel, Failure>(found_at(members, i, purpose))) by {
            member_at_offset(level, members, i, purpose, i as u32);
        }
        members_from_offset(level, members, i + 1, purpose);
        let rest = Seq::new(
            (members.len() - (i + 1)) as nat,
            |k: int| found_at(members, i + 1 + k, purpose),
        );
        assert(seq![found_at(members, i, purpose)] + rest == Seq::new(
            (members.len() - i) as nat,
            |k: int| found_at(members, i + k, purpose),
        ));
    } else {
        assert(Seq::new((members.len() - i) as nat, |k: int| found_at(members, i + k, purpose))
            == Seq::<FoundModel>::empty());
    }
}

/// Reading an archive finds exactly the members that it was made of, in order.
pub proof fn pack_round_trip(level: i32, members: Seq<MemberModel>, purpose: Purpose)
    requires
        readable(members, purpose),
    ensures
        ({
            let archive = pack::pack_bytes(level, members);
            pack::pack_contents(archive, purpose) matches Ok((head, list)) && head.level == level
                && head.count == members.len() && list.len() == members.len() && forall|i: int|
                0 <= i < list.len() ==> member::member_of(archive, #[trigger] list[i])
                    == member::as_read(purpose, members[i])
        }),
{
    let archive = pack::pack_bytes(level, members);
    prologue_round_trip(
        level,
        members.len() as u32,
        pack::members_bytes(members),
        purpose,
    );
    assert(members.take(0) == Seq::<MemberModel>::empty());
    members_from_offset(level, members, 0, purpose);
    assert forall|i: int| 0 <= i < members.len() implies member::member_of(
        archive,
        found_at(members, i, purpose),
    ) == member::as_read(purpose, members[i]) by {
        member_at_offset(level, members, i, purpose, 0);
    }
}

/// What a listing shows of a member.
pub open spec fn entry_for(m: MemberModel) -> EntryModel {
    EntryModel {
        path: m.path,
        original_len: m.original_len,
        compressed_len: m.payload.len() as u64,
        checksum: m.checksum,
    }
}

/// Listing an archive shows exactly the members that it was made of.
pub proof fn listing_of_packed(level: i32, members: Seq<MemberModel>, path: Seq<char>)
    requires
        readable(members, Purpose::List),
    ensures
        pack::pack_listing(pack::pack_bytes(level, members), path) matches Ok(info)
            && info.version == header::VERSION_V3 && info.level == level && info.file_count
            == members.len() && info.members == members.map_values(|m: MemberModel| entry_for(m)),
{
    prologue_round_trip(
        level,
        members.len() as u32,
        pack::members_bytes(members),
        Purpose::List,
    );
    assert(members.take(0) == Seq::<MemberModel>::empty());
    members_from_offset(level, members, 0, Purpose::List);
    let list = Seq::new(
        members.len() as nat,
        |k: int| found_at(members, 0 + k, Purpose::List),
    );
    assert(list.map_values(|f: FoundModel| pack::entry_of(f)) == members.map_values(
        |m: MemberModel| entry_for(m),
    ));
}

/// A member that holds `data` opens to it.
proof fn held_data_opens(purpose: Purpose, index: u32, m: MemberModel, data: Seq<u8>)
    requires
        holds(m, data),
    ensures
        member::opened(purpose, index, member::as_read(purpose, m)) == Ok::<Seq<u8>, Failure>(data),
{
}

/// The check of a pack of `members` in front of the `i`th, the first ones intact.
spec fn check_at(members: Seq<MemberModel>, i: int, total: nat) -> CheckModel {
    CheckModel {
        at: offset(members, i),
        index: i as u32,
        count: members.len() as u32,
        total,
    }
}

proof fn verified_from_offset(
    level: i32,
    members: Seq<MemberModel>,
    data: Seq<Seq<u8>>,
    i: int,
    total: nat,
)
    requires
        readable(members, Purpose::Verify),
        data.len() == members.len(),
        forall|k: int| 0 <= k < members.len() ==> holds(#[trigger] members[k], data[k]),
        0 <= i <= members.len(),
        total + size_total(members.skip(i)) <= u64::MAX,
    ensures
        pack::verified_from(pack::pack_bytes(level, members), check_at(members, i, total)) == Ok::<
            nat,
            Failure,
        >(total + size_total(members.skip(i))),
    decreases members.len() - i,
{
    if i < members.len() {
        member_at_offset(level, members, i, Purpose::Verify, i as u32);
        assert(holds(members[i], data[i]));
        held_data_opens(Purpose::Verify, i as u32, members[i], data[i]);
        size_total_split(members.skip(i));
        assert(members.skip(i).skip(1) == members.skip(i + 1));
        let next = total + members[i].original_len as nat;
        verified_from_offset(level, members, data, i + 1, next);
        assert(pack::checked_next(pack::pack_bytes(level, members), check_at(members, i, total))
            == Ok::<Option<CheckModel>, Failure>(Some(check_at(members, i + 1, next))));
    }
}

/// The first size can be added first.
proof fn size_total_split(members: Seq<MemberModel>)
    requires
        members.len() > 0,
    ensures
        size_total(members) == members[0].original_len as nat + size_total(members.skip(1)),
    decreases members.len(),
{
    if members.len() > 1 {
        size_total_split(members.drop_last());
        assert(members.skip(1).drop_last() == members.drop_last().skip(1));
    } else {
        assert(members.skip(1) == Seq::<MemberModel>::empty());
        assert(members.drop_last() == Seq::<MemberModel>::empty());
    }
}

/// An archive of members that hold their data verifies, and its total is the
/// sum of the sizes.
pub proof fn packed_verifies(level: i32, members: Seq<MemberModel>, data: Seq<Seq<u8>>)
    requires
        readable(members, Purpose::Verify),
        data.len() == members.len(),
        forall|k: int| 0 <= k < members.len() ==> holds(#[trigger] members[k], data[k]),
        size_total(members) <= u64::MAX,
    ensures
        pack::verified(pack::pack_bytes(level, members)) == Ok::<nat, Failure>(
            size_total(members),
        ),
{
    prologue_round_trip(
        level,
        members.len() as u32,
        pack::members_bytes(members),
        Purpose::Verify,
    );
    assert(members.take(0) == Seq::<MemberModel>::empty());
    assert(members.skip(0) == members);
    verified_from_offset(level, members, data, 0, 0);
}

proof fn extracted_from_offset(
    level: i32,
    members: Seq<MemberModel>,
    i: int,
    at: int,
    data: Seq<u8>,
)
    requires
        readable(members, Purpose::Extract),
        0 <= at <= i < members.len(),
        holds(members[i], data),
        forall|k: int| at <= k < i ==> (#[trigger] members[k]).path != members[i].path,
    ensures
        pack::extracted_from(
            pack::pack_bytes(level, members),
            offset(members, at),
            at as u32,
            members.len() as u32,
            members[i].path,
        ) == Ok::<Seq<u8>, Failure>(data),
    decreases i - at,
{
    member_at_offset(level, members, at, Purpose::Extract, at as u32);
    if at < i {
        extracted_from_offset(level, members, i, at + 1, data);
    } else {
        held_data_opens(Purpose::Extract, at as u32, members[i], data);
    }
}

/// Extracting a packed file gives its contents back: those of the first member
/// with that path.
pub proof fn packed_file_extracts(level: i32, members: Seq<MemberModel>, i: int, data: Seq<u8>)
    requires
        readable(members, Purpose::Extract),
        0 <= i < members.len(),
        holds(members[i], data),
        forall|k: int| 0 <= k < i ==> (#[trigger] members[k]).path != members[i].path,
    ensures
        pack::extracted(pack::pack_bytes(level, members), members[i].path) == Ok::<
            Seq<u8>,
            Failure,
        >(data),
{
    prologue_round_trip(
        level,
        members.len() as u32,
        pack::members_bytes(members),
        Purpose::Extract,
    );
    assert(members.take(0) == Seq::<MemberModel>::empty());
    extracted_from_offset(level, members, i, 0, data);
}

proof fn absent_from_offset(level: i32, members: Seq<MemberModel>, path: Seq<char>, at: int)
    requires
        readable(members, Purpose::Extract),
        0 <= at <= members.len(),
        forall|k: int| 0 <= k < members.len() ==> (#[trigger] members[k]).path != path,
    ensures
        pack::extracted_from(
            pack::pack_bytes(level, members),
            offset(members, at),
            at as u32,
            members.len() as u32,
            path,
        ) == Err::<Seq<u8>, Failure>(pack::not_in_archive(path)),
    decreases members.len() - at,
{
    if at < members.len() {
        member_at_offset(level, members, at, Purpose::Extract, at as u32);
        absent_from_offset(level, members, path, at + 1);
    }
}

/// Extracting a path that no member has fails as not found.
pub proof fn absent_file_is_not_found(level: i32, members: Seq<MemberModel>, path: Seq<char>)
    requires
        readable(members, Purpose::Extract),
        forall|k: int| 0 <= k < members.len() ==> (#[trigger] members[k]).path != path,
    ensures
        pack::extracted(pack::pack_bytes(level, members), path) == Err::<Seq<u8>, Failure>(
            pack::not_in_archive(path),
        ),
{
    prologue_round_trip(
        level,
        members.len() as u32,
        pack::members_bytes(members),
        Purpose::Extract,
    );
    assert(members.take(0) == Seq::<MemberModel>::empty());
    absent_from_offset(level, members, path, 0);
}

/// The contents of `files`.
pub open spec fn contents(files: Seq<PackInput>) -> Seq<Seq<u8>> {
    files.map_values(|f: PackInput| f.data@)
}

/// Whatever is packed comes back: the archive of packed files can be read for
/// every purpose but a listing, it verifies, and extracting gives each file's
/// contents, those of the first where several have one path.
pub proof fn packed_files_come_back(
    level: i32,
    threads: u32,
    files: Seq<PackInput>,
    ms: Seq<MemberModel>,
)
    requires
        files.len() <= u32::MAX,
        all_packed(ms, files, level, threads),
        forall|i: int| 0 <= i < files.len() ==> path_fits((#[trigger] files[i]).path@),
        data_total(files) <= u64::MAX,
    ensures
        forall|purpose: Purpose| purpose != Purpose::List ==> readable(ms, purpose),
        pack::verified(pack::pack_bytes(level, ms)) == Ok::<nat, Failure>(
            data_total(files),
        ),
        forall|i: int|
            0 <= i < files.len() && (forall|k: int|
                0 <= k < i ==> (#[trigger] files[k]).path@ != files[i].path@)
                ==> pack::extracted(pack::pack_bytes(level, ms), (#[trigger] files[i]).path@)
                == Ok::<Seq<u8>, Failure>(files[i].data@),
{
    assert forall|i: int| 0 <= i < ms.len() implies member::storable(#[trigger] ms[i]) && holds(
        ms[i],
        contents(files)[i],
    ) && ms[i].path == files[i].path@ by {
        assert(packs(ms[i], files[i].path@, files[i].data@, level, threads));
        assert(path_fits(files[i].path@));
    }
    packed_total(ms, files, level, threads);
    packed_verifies(level, ms, contents(files));
    assert forall|i: int|
        0 <= i < files.len() && (forall|k: int|
            0 <= k < i ==> (#[trigger] files[k]).path@ != files[i].path@) implies pack::extracted(
        pack::pack_bytes(level, ms),
        (#[trigger] files[i]).path@,
    ) == Ok::<Seq<u8>, Failure>(files[i].data@) by {
        assert(ms[i].path == files[i].path@);
        assert forall|k: int| 0 <= k < i implies (#[trigger] ms[k]).path != ms[i].path by {
            assert(files[k].path@ != files[i].path@);
        }
        packed_file_extracts(level, ms, i, files[i].data@);
    }
}

/// The end of the last member is the end of the archive.
proof fn last_offset(level: i32, members: Seq<MemberModel>)
    requires
        members.len() <= u32::MAX,
    ensures
        offset(members, members.len() as int) == pack::pack_bytes(level, members).len(),
{
    prologue_round_trip(level, members.len() as u32, Seq::empty(), Purpose::List);
    assert(members.take(members.len() as int) == members);
}

/// The prologue of an archive that is cut off behind it.
pub proof fn prologue_of_prefix(level: i32, members: Seq<MemberModel>, n: int, purpose: Purpose)
    requires
        members.len() <= u32::MAX,
        13 <= n <= pack::pack_bytes(level, members).len(),
    ensures
        pack::prologue(pack::pack_bytes(level, members).take(n), purpose) == Ok::<
            pack::Prologue,
            Failure,
        >(pack::Prologue { level, count: members.len() as u32 }),
{
    let rest = pack::members_bytes(members).take(n - 13);
    prologue_round_trip(level, members.len() as u32, rest, purpose);
    assert(pack::pack_bytes(level, members).take(n) == pack::prologue_bytes(level, members.len())
        + rest);
}

/// A member that is found in an archive that is cut off is the one that was
/// packed, and the next one lies within what is left.
pub proof fn member_of_prefix(
    level: i32,
    members: Seq<MemberModel>,
    n: int,
    i: int,
    purpose: Purpose,
)
    requires
        readable(members, purpose),
        0 <= n < pack::pack_bytes(level, members).len(),
        0 <= i <= members.len(),
        offset(members, i) <= n,
    ensures
        i < members.len(),
        member::member_at(
            pack::pack_bytes(level, members).take(n),
            offset(members, i),
            purpose,
            i as u32,
        ) matches Ok(f) ==> f.end == offset(members, i + 1) && offset(members, i + 1) <= n,
{
    let archive = pack::pack_bytes(level, members);
    last_offset(level, members);
    if member::member_at(archive.take(n), offset(members, i), purpose, i as u32) is Ok {
        member::found_in_prefix(archive, n, offset(members, i), purpose, i as u32);
        member_at_offset(level, members, i, purpose, i as u32);
    }
}

proof fn cut_contents(level: i32, members: Seq<MemberModel>, n: int, i: int, purpose: Purpose)
    requires
        readable(members, purpose),
        0 <= n < pack::pack_bytes(level, members).len(),
        0 <= i <= members.len(),
        offset(members, i) <= n,
    ensures
        pack::members_from(
            pack::pack_bytes(level, members).take(n),
            offset(members, i),
            i as u32,
            members.len() as u32,
            purpose,
        ) is Err,
    decreases members.len() - i,
{
    member_of_prefix(level, members, n, i, purpose);
    let part = pack::pack_bytes(level, members).take(n);
    if member::member_at(part, offset(members, i), purpose, i as u32) is Ok {
        cut_contents(level, members, n, i + 1, purpose);
    }
}

proof fn cut_verification(level: i32, members: Seq<MemberModel>, n: int, i: int, total: nat)
    requires
        readable(members, Purpose::Verify),
        0 <= n < pack::pack_bytes(level, members).len(),
        0 <= i <= members.len(),
        offset(members, i) <= n,
    ensures
        pack::verified_from(
            pack::pack_bytes(level, members).take(n),
            check_at(members, i, total),
        ) is Err,
    decreases members.len() - i,
{
    member_of_prefix(level, members, n, i, Purpose::Verify);
    let part = pack::pack_bytes(level, members).take(n);
    let c = check_at(members, i, total);
    if let Ok(Some(next)) = pack::checked_next(part, c) {
        cut_verification(level, members, n, i + 1, next.total);
        assert(next == check_at(members, i + 1, next.total));
    }
}

/// An archive that is cut off anywhere is not taken for a whole one: neither
/// reading all its members nor verifying it succeeds.
pub proof fn cut_off_pack_fails(level: i32, members: Seq<MemberModel>, n: int, purpose: Purpose)
    requires
        readable(members, purpose),
        0 <= n < pack::pack_bytes(level, members).len(),
    ensures
        pack::pack_contents(pack::pack_bytes(level, members).take(n), purpose) is Err,
        pack::verified(pack::pack_bytes(level, members).take(n)) is Err,
{
    assert(members.take(0) == Seq::<MemberModel>::empty());
    if n >= 13 {
        prologue_of_prefix(level, members, n, purpose);
        prologue_of_prefix(level, members, n, Purpose::Verify);
        cut_contents(level, members, n, 0, purpose);
        cut_verification(level, members, n, 0, 0);
    }
}

/// The sizes of two lists of members one behind the other add up, and the size
/// of one member is its own.
pub proof fn size_totals_add(a: Seq<MemberModel>, b: Seq<MemberModel>, m: MemberModel)
    ensures
        size_total(a + b) == size_total(a) + size_total(b),
        size_total(seq![m]) == m.original_len,
    decreases b.len(),
{
    assert(seq![m].drop_last() == Seq::<MemberModel>::empty());
    assert(size_total(seq![m].drop_last()) == 0);
    if b.len() == 0 {
        assert(a + b == a);
    } else {
        size_totals_add(a, b.drop_last(), m);
        assert((a + b).drop_last() == a + b.drop_last());
        assert((a + b).last() == b.last());
    }
}

/// The sizes of two lists of files one behind the other add up, and the size of
/// one file is its own.
pub proof fn data_totals_add(a: Seq<PackInput>, b: Seq<PackInput>, f: PackInput)
    ensures
        data_total(a + b) == data_total(a) + data_total(b),
        data_total(seq![f]) == f.data@.len(),
    decreases b.len(),
{
    assert(seq![f].drop_last() == Seq::<PackInput>::empty());
    assert(data_total(seq![f].drop_last()) == 0);
    if b.len() == 0 {
        assert(a + b == a);
    } else {
        data_totals_add(a, b.drop_last(), f);
        assert((a + b).drop_last() == a + b.drop_last());
        assert((a + b).last() == b.last());
    }
}

proof fn verified_meets_damage(
    level: i32,
    members: Seq<MemberModel>,
    i: int,
    k: int,
    total: nat,
)
    requires
        readable(members, Purpose::Verify),
        0 <= i <= k < members.len(),
        member::opened(Purpose::Verify, k as u32, member::as_read(Purpose::Verify, members[k]))
            is Err,
    ensures
        pack::verified_from(pack::pack_bytes(level, members), check_at(members, i, total)) is Err,
    decreases k - i,
{
    let archive = pack::pack_bytes(level, members);
    member_at_offset(level, members, i, Purpose::Verify, i as u32);
    if let Ok(Some(next)) = pack::checked_next(archive, check_at(members, i, total)) {
        if i < k {
            verified_meets_damage(level, members, i + 1, k, next.total);
            assert(next == check_at(members, i + 1, next.total));
        }
    }
}

/// A pack does not verify if the payload of any member decodes to data with
/// another size or digest than the member records.
pub proof fn damaged_pack_does_not_verify(
    level: i32,
    members: Seq<MemberModel>,
    k: int,
    plain: Seq<u8>,
)
    requires
        readable(members, Purpose::Verify),
        0 <= k < members.len(),
        codec::decodes_to(members[k].payload, Seq::empty(), plain),
        plain.len() != members[k].original_len || codec::sha256_digest(plain)
            != members[k].checksum,
    ensures
        pack::verified(pack::pack_bytes(level, members)) is Err,
{
    prologue_round_trip(
        level,
        members.len() as u32,
        pack::members_bytes(members),
        Purpose::Verify,
    );
    assert(members.take(0) == Seq::<MemberModel>::empty());
    member::damaged_member_does_not_open(
        Purpose::Verify,
        k as u32,
        member::as_read(Purpose::Verify, members[k]),
        plain,
    );
    verified_meets_damage(level, members, 0, k, 0);
}

/// Packing refuses no files at all and more files than can be counted, and
/// nothing else on account of their number.
pub proof fn only_absurd_counts_are_refused(count: nat, dir: Seq<char>)
    ensures
        count_fault(count, dir) is None <==> 1 <= count <= u32::MAX,
{
}

/// The members in front of the first path that does not fit are counted.
pub proof fn fitting_is_first(members: Seq<MemberModel>)
    ensures
        fitting(members) <= members.len(),
        forall|i: int| 0 <= i < fitting(members) ==> path_fits((#[trigger] members[i]).path),
        fitting(members) < members.len() ==> !path_fits(members[fitting(members) as int].path),
    decreases members.len(),
{
    if members.len() > 0 {
        let init = members.drop_last();
        fitting_is_first(init);
        assert forall|i: int| 0 <= i < fitting(members) implies path_fits(
            (#[trigger] members[i]).path,
        ) by {
            if i < init.len() {
                assert(init[i] == members[i]);
            }
        }
        if fitting(init) < init.len() {
            assert(init[fitting(init) as int] == members[fitting(init) as int]);
        }
    }
}

/// A pack of files has one member for each file, in the order of the files, with
/// the path, the size and the SHA-256 of the file and a payload that decodes to
/// its contents.
pub proof fn files_are_packed_in_order(
    ms: Seq<MemberModel>,
    files: Seq<PackInput>,
    level: i32,
    threads: u32,
)
    requires
        all_packed(ms, files, level, threads),
    ensures
        ms.len() == files.len(),
        forall|i: int|
            0 <= i < files.len() ==> {
                &&& (#[trigger] ms[i]).path == files[i].path@
                &&& ms[i].original_len == files[i].data@.len()
                &&& ms[i].checksum == codec::sha256_digest(files[i].data@)
                &&& codec::decodes_to(ms[i].payload, Seq::empty(), files[i].data@)
            },
{
}

} // verus!
