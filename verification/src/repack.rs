//! Rewriting a pack archive without the members that are excluded.

use vstd::prelude::*;

use crate::bytes;
use crate::error::{error, plain_error, Error, ErrorKind, Failure};
use crate::exclude;
use crate::exclude::{build_exclude_set, is_excluded};
use crate::member;
use crate::member::{Found, FoundModel, Member, MemberModel, Purpose};
use crate::pack;
use crate::pack::{read_pack, Prologue};
use crate::packing;
use crate::packing::write_pack;
use crate::text;

verus! {

/// The failure of an output that exists and may not be overwritten.
pub open spec fn exists_fault(exists_already: bool, force: bool, shown: Seq<char>) -> Option<
    Failure,
> {
    if exists_already && !force {
        Some(
            Failure {
                kind: ErrorKind::AlreadyExists,
                text: "output already exists: "@ + shown + " (use --force to overwrite)"@,
            },
        )
    } else {
        None
    }
}

/// Refuses an output that exists, unless overwriting is forced. `shown` is the
/// output as errors show it.
pub fn refuse_existing(exists_already: bool, force: bool, shown: &str) -> (r: Result<(), Error>)
    ensures
        match exists_fault(exists_already, force, shown@) {
            None => r is Ok,
            Some(fault) => r matches Err(e) && e@ == fault,
        },
{
    if exists_already && !force {
        return Err(
            error(
                ErrorKind::AlreadyExists,
                "output already exists: ".to_owned().concat(shown).concat(
                    " (use --force to overwrite)",
                ),
            ),
        );
    }
    Ok(())
}

/// Refuses to repack an archive onto itself, or onto an existing file that may
/// not be overwritten.
pub fn check_repack_paths(exists_already: bool, force: bool, same: bool, shown: &str) -> (r: Result<
    (),
    Error,
>)
    ensures
        match exists_fault(exists_already, force, shown@) {
            Some(fault) => r matches Err(e) && e@ == fault,
            None => if same {
                r matches Err(e) && e@ == (Failure {
                    kind: ErrorKind::SamePath,
                    text: "repack input and output paths must differ"@,
                })
            } else {
                r is Ok
            },
        },
{
    match refuse_existing(exists_already, force, shown) {
        Ok(()) => {},
        Err(e) => return Err(e),
    }
    if same {
        return Err(
            plain_error(ErrorKind::SamePath, "repack input and output paths must differ"),
        );
    }
    Ok(())
}

/// Result of repacking an archive.
#[derive(Debug)]
pub struct RepackStats {
    pub kept: u32,
    pub excluded: u32,
    pub original_bytes: u64,
    pub archive_bytes: u64,
    pub output_path: String,
}

/// The members found in an archive.
pub open spec fn members_in(archive: Seq<u8>, list: Seq<FoundModel>) -> Seq<MemberModel> {
    list.map_values(|f: FoundModel| member::member_of(archive, f))
}

/// The members that the patterns do not exclude, in order.
pub open spec fn kept(members: Seq<MemberModel>, patterns: Seq<Seq<char>>) -> Seq<MemberModel>
    decreases members.len(),
{
    if members.len() == 0 {
        Seq::empty()
    } else if exclude::excluded_by(patterns, members.last().path) {
        kept(members.drop_last(), patterns)
    } else {
        kept(members.drop_last(), patterns).push(members.last())
    }
}

/// What repacking an archive works on: its level, its members, and those of
/// them that stay.
pub struct Selection {
    pub level: i32,
    pub all: Seq<MemberModel>,
    pub kept: Seq<MemberModel>,
}

/// The members of an archive and those that stay. An archive without members
/// cannot be made, nor one whose members declare more bytes together than can
/// be recorded.
pub open spec fn selection(archive: Seq<u8>, patterns: Seq<Seq<char>>) -> Result<
    Selection,
    Failure,
> {
    match pack::pack_contents(archive, Purpose::Repack) {
        Err(fault) => Err(fault),
        Ok((head, list)) => {
            let all = members_in(archive, list);
            if kept(all, patterns).len() == 0 {
                Err(
                    Failure {
                        kind: ErrorKind::NothingToPack,
                        text: "repack would produce an empty archive (all members excluded)"@,
                    },
                )
            } else if packing::size_total(kept(all, patterns)) > u64::MAX {
                Err(pack::total_too_large())
            } else {
                Ok(Selection { level: head.level, all, kept: kept(all, patterns) })
            }
        },
    }
}

/// Whether `stats` report on a selection.
pub open spec fn reports(stats: RepackStats, s: Selection, output_path: Seq<char>) -> bool {
    &&& stats.kept == s.kept.len()
    &&& stats.excluded == s.all.len() - s.kept.len()
    &&& stats.original_bytes == packing::size_total(s.kept)
    &&& stats.archive_bytes == pack::pack_bytes(s.level, s.kept).len()
    &&& stats.output_path@ == output_path
}

/// Copies the members that `set` does not exclude to a new archive behind
/// `out`. Payloads are copied as they are.
pub fn repack_members(
    archive: &[u8],
    set: &Option<globset::GlobSet>,
    output_path: &str,
    out: &mut Vec<u8>,
) -> (r: Result<RepackStats, Error>)
    ensures
        match selection(archive@, exclude::patterns_in(*set)) {
            Err(fault) => (r matches Err(e) && e@ == fault) && final(out)@ == old(out)@,
            Ok(s) => (r matches Ok(stats) && reports(stats, s, output_path@)) && final(out)@
                == old(out)@ + pack::pack_bytes(s.level, s.kept),
        },
{
    let ghost patterns = exclude::patterns_in(*set);
    let (head, list): (Prologue, Vec<Found>) = match read_pack(archive, Purpose::Repack) {
        Ok(got) => got,
        Err(e) => return Err(e),
    };
    let ghost all = members_in(archive@, pack::founds(list@));
    let mut members: Vec<Member> = Vec::new();
    let mut excluded: u32 = 0;
    let mut i: usize = 0;
    assert(all.take(0) == Seq::<MemberModel>::empty());
    assert(packing::models(members@) == Seq::<MemberModel>::empty());
    while i < list.len()
        invariant
            i <= list@.len(),
            list@.len() <= u32::MAX,
            all == members_in(archive@, pack::founds(list@)),
            patterns == exclude::patterns_in(*set),
            forall|k: int| 0 <= k < list@.len() ==> pack::within(archive@, #[trigger] list@[k]),
            packing::models(members@) == kept(all.take(i as int), patterns),
            members@.len() + excluded == i,
            forall|k: int|
                0 <= k < members@.len() ==> packing::path_fits(
                    (#[trigger] packing::models(members@)[k]).path,
                ),
        decreases list@.len() - i,
    {
        let f: &Found = &list[i];
        assert(pack::within(archive@, list@[i as int]));
        assert(pack::founds(list@)[i as int] == f@);
        assert(all[i as int] == member::member_of(archive@, f@));
        assert(all.take(i + 1).drop_last() == all.take(i as int));
        if is_excluded(f.path.as_str(), set) {
            excluded = excluded + 1;
        } else {
            let ghost before = packing::models(members@);
            let mut payload: Vec<u8> = Vec::new();
            bytes::push_all(
                &mut payload,
                vstd::slice::slice_subrange(archive, f.start, f.end),
            );
            assert(payload@ == member::payload_of(archive@, f@));
            members.push(
                Member {
                    path: f.path.as_str().to_owned(),
                    original_len: f.original_len,
                    checksum: f.checksum,
                    payload,
                },
            );
            assert(members@.last()@ == all[i as int]);
            assert(packing::models(members@) == before.push(all[i as int]));
            assert forall|k: int| 0 <= k < members@.len() implies packing::path_fits(
                (#[trigger] packing::models(members@)[k]).path,
            ) by {
                if k < before.len() {
                    assert(packing::models(members@)[k] == before[k]);
                }
            }
        }
        i = i + 1;
    }
    assert(all.take(i as int) == all);
    if members.len() == 0 {
        return Err(
            plain_error(
                ErrorKind::NothingToPack,
                "repack would produce an empty archive (all members excluded)",
            ),
        );
    }
    let ghost chosen = packing::models(members@);
    proof {
        packing::fitting_all(chosen);
    }
    match write_pack(head.level, &members, output_path, out) {
        Ok(stats) => Ok(
            RepackStats {
                kept: stats.file_count,
                excluded,
                original_bytes: stats.original_bytes,
                archive_bytes: stats.archive_bytes,
                output_path: stats.output_path,
            },
        ),
        Err(e) => Err(e),
    }
}

/// Rewrite a pack archive, dropping members that match any exclude glob.
pub fn repack_archive(
    archive: &[u8],
    excludes: &Vec<String>,
    output_path: &str,
    out: &mut Vec<u8>,
) -> (r: Result<RepackStats, Error>)
    ensures
        match exclude::globs_fault(text::texts(excludes@)) {
            Some(fault) => (r matches Err(e) && e@ == fault) && final(out)@ == old(out)@,
            None => {
                ||| excludes@.len() > 0 && final(out)@ == old(out)@ && exists|message: Seq<char>|
                    r matches Err(e) && e@ == #[trigger] exclude::unbuilt(message)
                ||| match selection(archive@, exclude::all_globs(text::texts(excludes@))) {
                    Err(fault) => (r matches Err(e) && e@ == fault) && final(out)@ == old(out)@,
                    Ok(s) => (r matches Ok(stats) && reports(stats, s, output_path@))
                        && final(out)@ == old(out)@ + pack::pack_bytes(s.level, s.kept),
                }
            },
        },
{
    match build_exclude_set(excludes) {
        Ok(set) => {
            assert(exclude::patterns_in(set) == exclude::all_globs(text::texts(excludes@)));
            repack_members(archive, &set, output_path, out)
        },
        Err(e) => Err(e),
    }
}

/// What stays is not excluded, and was there before.
pub proof fn kept_are_members(members: Seq<MemberModel>, patterns: Seq<Seq<char>>)
    ensures
        kept(members, patterns).len() <= members.len(),
        forall|i: int|
            0 <= i < kept(members, patterns).len() ==> members.contains(
                #[trigger] kept(members, patterns)[i],
            ) && !exclude::excluded_by(patterns, kept(members, patterns)[i].path),
    decreases members.len(),
{
    if members.len() > 0 {
        let init = members.drop_last();
        kept_are_members(init, patterns);
        assert forall|i: int| 0 <= i < kept(members, patterns).len() implies members.contains(
            #[trigger] kept(members, patterns)[i],
        ) && !exclude::excluded_by(patterns, kept(members, patterns)[i].path) by {
            if i < kept(init, patterns).len() {
                let m = kept(init, patterns)[i];
                assert(init.contains(m));
                let k = choose|k: int| 0 <= k < init.len() && init[k] == m;
                assert(members[k] == m);
            } else {
                assert(members[members.len() - 1] == members.last());
            }
        }
    }
}

/// What is not excluded stays.
pub proof fn unexcluded_are_kept(members: Seq<MemberModel>, patterns: Seq<Seq<char>>, k: int)
    requires
        0 <= k < members.len(),
        !exclude::excluded_by(patterns, members[k].path),
    ensures
        kept(members, patterns).contains(members[k]),
    decreases members.len(),
{
    let init = members.drop_last();
    if k == members.len() - 1 {
        let all = kept(members, patterns);
        assert(all[all.len() - 1] == members[k]);
    } else {
        assert(init[k] == members[k]);
        unexcluded_are_kept(init, patterns, k);
        let i = choose|i: int|
            0 <= i < kept(init, patterns).len() && kept(init, patterns)[i] == members[k];
        assert(kept(members, patterns)[i] == members[k]);
    }
}

/// Repacking an archive of `members` works on exactly those members, so that
/// the new archive holds those of them that are not excluded, unchanged.
pub proof fn repack_of_packed(level: i32, members: Seq<MemberModel>, patterns: Seq<Seq<char>>)
    requires
        packing::readable(members, Purpose::Repack),
        kept(members, patterns).len() > 0,
        packing::size_total(kept(members, patterns)) <= u64::MAX,
    ensures
        selection(pack::pack_bytes(level, members), patterns) matches Ok(s) && s.level == level
            && s.all == members && s.kept == kept(members, patterns),
{
    let archive = pack::pack_bytes(level, members);
    packing::pack_round_trip(level, members, Purpose::Repack);
    let list = pack::pack_contents(archive, Purpose::Repack)->Ok_0.1;
    assert(members_in(archive, list) == members);
}

/// Members that stay and declare more bytes together than can be recorded are
/// refused.
pub proof fn absurd_sizes_are_refused(
    level: i32,
    members: Seq<MemberModel>,
    patterns: Seq<Seq<char>>,
)
    requires
        packing::readable(members, Purpose::Repack),
        packing::size_total(kept(members, patterns)) > u64::MAX,
    ensures
        selection(pack::pack_bytes(level, members), patterns) == Err::<Selection, Failure>(
            pack::total_too_large(),
        ),
{
    let archive = pack::pack_bytes(level, members);
    packing::pack_round_trip(level, members, Purpose::Repack);
    let list = pack::pack_contents(archive, Purpose::Repack)->Ok_0.1;
    assert(members_in(archive, list) == members);
}

/// Without patterns, repacking copies the archive byte for byte.
pub proof fn repack_without_patterns_copies(level: i32, members: Seq<MemberModel>)
    requires
        packing::readable(members, Purpose::Repack),
        members.len() > 0,
        packing::size_total(members) <= u64::MAX,
    ensures
        kept(members, Seq::empty()) == members,
        selection(pack::pack_bytes(level, members), Seq::empty()) matches Ok(s)
            && pack::pack_bytes(s.level, s.kept) == pack::pack_bytes(level, members),
{
    all_kept(members);
    repack_of_packed(level, members, Seq::empty());
}

proof fn all_kept(members: Seq<MemberModel>)
    ensures
        kept(members, Seq::empty()) == members,
    decreases members.len(),
{
    if members.len() > 0 {
        exclude::no_patterns_exclude_nothing(members.last().path);
        all_kept(members.drop_last());
        assert(members.drop_last().push(members.last()) == members);
    } else {
        assert(kept(members, Seq::empty()) == members);
    }
}

/// Repacking keeps just the members whose paths are not excluded, in their
/// order.
pub proof fn kept_is_a_filter(members: Seq<MemberModel>, patterns: Seq<Seq<char>>)
    ensures
        kept(members, patterns) == members.filter(
            |m: MemberModel| !exclude::excluded_by(patterns, m.path),
        ),
    decreases members.len(),
{
    let stays = |m: MemberModel| !exclude::excluded_by(patterns, m.path);
    reveal(Seq::filter);
    if members.len() > 0 {
        kept_is_a_filter(members.drop_last(), patterns);
        assert(members.drop_last().filter(stays) == kept(members.drop_last(), patterns));
    }
}

/// What repacking an archive reports adds up: kept and excluded members are all
/// members, and the sizes are those of the members that stay.
pub proof fn repack_report_adds_up(
    stats: RepackStats,
    level: i32,
    members: Seq<MemberModel>,
    patterns: Seq<Seq<char>>,
    output_path: Seq<char>,
)
    requires
        packing::readable(members, Purpose::Repack),
        kept(members, patterns).len() > 0,
        packing::size_total(kept(members, patterns)) <= u64::MAX,
        selection(pack::pack_bytes(level, members), patterns) matches Ok(s) && reports(
            stats,
            s,
            output_path,
        ),
    ensures
        stats.kept + stats.excluded == members.len(),
        stats.kept == members.filter(
            |m: MemberModel| !exclude::excluded_by(patterns, m.path),
        ).len(),
        stats.original_bytes == packing::size_total(
            members.filter(|m: MemberModel| !exclude::excluded_by(patterns, m.path)),
        ),
        stats.archive_bytes == pack::pack_bytes(
            level,
            members.filter(|m: MemberModel| !exclude::excluded_by(patterns, m.path)),
        ).len(),
        stats.output_path@ == output_path,
{
    repack_of_packed(level, members, patterns);
    kept_is_a_filter(members, patterns);
}

/// Repacking refuses to leave nothing.
pub proof fn empty_repack_is_refused(
    level: i32,
    members: Seq<MemberModel>,
    patterns: Seq<Seq<char>>,
)
    requires
        packing::readable(members, Purpose::Repack),
        forall|k: int|
            0 <= k < members.len() ==> exclude::excluded_by(
                patterns,
                (#[trigger] members[k]).path,
            ),
    ensures
        selection(pack::pack_bytes(level, members), patterns) matches Err(fault) && fault.kind
            == ErrorKind::NothingToPack,
{
    let archive = pack::pack_bytes(level, members);
    packing::pack_round_trip(level, members, Purpose::Repack);
    let list = pack::pack_contents(archive, Purpose::Repack)->Ok_0.1;
    assert(members_in(archive, list) == members);
    kept_are_members(members, patterns);
    if kept(members, patterns).len() > 0 {
        let m = kept(members, patterns)[0];
        assert(members.contains(m));
        let k = choose|k: int| 0 <= k < members.len() && members[k] == m;
        assert(exclude::excluded_by(patterns, members[k].path));
    }
}

/// An output is refused exactly if it exists and overwriting is not forced.
pub proof fn only_existing_outputs_are_refused(
    exists_already: bool,
    force: bool,
    shown: Seq<char>,
)
    ensures
        exists_fault(exists_already, force, shown) is Some <==> exists_already && !force,
        exists_fault(exists_already, force, shown) matches Some(fault) ==> fault.kind
            == ErrorKind::AlreadyExists,
{
}

} // verus!
