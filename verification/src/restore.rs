//! Whole runs of unpacking: what they write, and what they never write.

use vstd::prelude::*;

use crate::codec;
use crate::error::{Error, Failure};
use crate::member;
use crate::member::{FoundModel, MemberModel, Purpose};
use crate::pack;
use crate::pack::Prologue;
use crate::packing;
use crate::paths;
use crate::text;
use crate::unpack;
use crate::unpack::{
    finish_unpack, next_candidate, settle, start_unpack, MemberStatsModel, OptsModel, Progress,
    Step, UnpackOpts, Unpacking,
};

verus! {

/// One file that unpacking restored.
#[derive(Debug)]
pub struct Restored {
    /// The destination: components under the output directory.
    pub target: Vec<String>,
    pub contents: Vec<u8>,
}

/// The view of a [`Restored`].
#[verifier::ext_equal]
pub struct Written {
    pub target: Seq<Seq<char>>,
    pub contents: Seq<u8>,
}

impl View for Restored {
    type V = Written;

    open spec fn view(&self) -> Written {
        Written { target: text::texts(self.target@), contents: self.contents@ }
    }
}

/// The views of a list of files.
pub open spec fn files_view(files: Seq<Restored>) -> Seq<Written> {
    files.map_values(|f: Restored| f@)
}

/// `done` in front of what is written by a run.
pub open spec fn behind(done: Seq<Written>, rest: Result<(Progress, Seq<Written>), Failure>) -> Result<
    (Progress, Seq<Written>),
    Failure,
> {
    match rest {
        Err(fault) => Err(fault),
        Ok((end, files)) => Ok((end, done + files)),
    }
}

/// The files that a settled member adds: one, or none where it is skipped.
pub open spec fn added(target: Seq<Seq<char>>, plain: Option<Seq<u8>>) -> Seq<Written> {
    match plain {
        None => Seq::empty(),
        Some(contents) => seq![Written { target, contents }],
    }
}

/// A whole run of unpacking from `p` on, where `taken` says which destinations
/// exist when they are looked at and `show` how errors show them: the files
/// that are written, in order, and the progress at the end.
pub open spec fn run(
    archive: Seq<u8>,
    opts: OptsModel,
    p: Progress,
    taken: spec_fn(Seq<Seq<char>>) -> bool,
    show: spec_fn(Seq<Seq<char>>) -> Seq<char>,
) -> Result<(Progress, Seq<Written>), Failure>
    decreases p.count - p.index,
{
    let (q, step) = unpack::advanced(archive, opts, p);
    proof {
        unpack::advance_moves(archive, opts, p);
    }
    match step {
        Step::Fail(fault) => Err(fault),
        Step::Done => match unpack::finish_fault(opts, q) {
            Some(fault) => Err(fault),
            None => Ok((q, Seq::empty())),
        },
        Step::Ask { index, found, target } => {
            let outcome = unpack::settled(
                archive,
                opts,
                index,
                found,
                taken(target),
                show(target),
            );
            match outcome {
                Err(fault) => Err(fault),
                Ok(plain) => behind(
                    added(target, plain),
                    run(archive, opts, unpack::recorded(q, found, outcome), taken, show),
                ),
            }
        },
    }
}

/// A place where no file exists.
pub open spec fn nothing_taken() -> spec_fn(Seq<Seq<char>>) -> bool {
    |target: Seq<Seq<char>>| false
}

/// Destinations that are not shown.
pub open spec fn not_shown() -> spec_fn(Seq<Seq<char>>) -> Seq<char> {
    |target: Seq<Seq<char>>| Seq::empty()
}

/// The files that unpacking an archive in memory gives.
pub open spec fn in_memory(archive: Seq<u8>, opts: OptsModel) -> Result<Seq<Written>, Failure> {
    match pack::prologue(archive, Purpose::Unpack) {
        Err(fault) => Err(fault),
        Ok(head) => match run(
            archive,
            opts,
            unpack::started(head),
            nothing_taken(),
            not_shown(),
        ) {
            Err(fault) => Err(fault),
            Ok((_, files)) => Ok(files),
        },
    }
}

/// The views of unpacked files.
pub open spec fn files_result(r: Result<Vec<Restored>, Error>) -> Result<Seq<Written>, Failure> {
    match r {
        Ok(files) => Ok(files_view(files@)),
        Err(e) => Err(e@),
    }
}

/// Unpacks an archive in memory, as into an empty directory.
#[verifier::spinoff_prover]
pub fn unpack_in_memory(archive: &[u8], opts: &UnpackOpts) -> (r: Result<Vec<Restored>, Error>)
    ensures
        files_result(r) == in_memory(archive@, opts@),
{
    let mut p: Unpacking = match start_unpack(archive) {
        Ok(p) => p,
        Err(e) => return Err(e),
    };
    let ghost whole = run(archive@, opts@, p@, nothing_taken(), not_shown());
    let mut files: Vec<Restored> = Vec::new();
    proof {
        assert(files_view(files@) == Seq::<Written>::empty());
        if whole is Ok {
            assert(Seq::<Written>::empty() + whole->Ok_0.1 == whole->Ok_0.1);
        }
    }
    loop
        invariant
            unpack::consistent(archive@, p@),
            whole == behind(
                files_view(files@),
                run(archive@, opts@, p@, nothing_taken(), not_shown()),
            ),
            in_memory(archive@, opts@) == match whole {
                Err(fault) => Err(fault),
                Ok((_, all)) => Ok(all),
            },
        decreases p.count - p.index,
    {
        let ghost before = p@;
        let next: Result<Option<unpack::Candidate>, Error> = next_candidate(
            archive,
            opts,
            &mut p,
        );
        proof {
            unpack::advance_moves(archive@, opts@, before);
        }
        match next {
            Err(e) => return Err(e),
            Ok(None) => {
                assert(files_view(files@) + Seq::<Written>::empty() == files_view(files@));
                return match finish_unpack(opts, p, "") {
                    Ok(_) => Ok(files),
                    Err(e) => Err(e),
                };
            },
            Ok(Some(candidate)) => {
                let ghost target = text::texts(candidate.target@);
                let ghost found = candidate.found@;
                let ghost done = files_view(files@);
                let mut names: Vec<String> = Vec::new();
                let mut i: usize = 0;
                assert(text::texts(names@) == target.take(0));
                while i < candidate.target.len()
                    invariant
                        i <= candidate.target@.len(),
                        target == text::texts(candidate.target@),
                        text::texts(names@) == target.take(i as int),
                    decreases candidate.target@.len() - i,
                {
                    let ghost so_far = text::texts(names@);
                    names.push(candidate.target[i].as_str().to_owned());
                    assert(text::texts(names@) == so_far.push(target[i as int]));
                    i = i + 1;
                    assert(text::texts(names@) == target.take(i as int));
                }
                assert(target.take(i as int) == target);
                proof {
                    reveal_strlit("");
                    assert(""@ == Seq::<char>::empty());
                }
                match settle(archive, opts, &mut p, candidate, false, "") {
                    Err(e) => return Err(e),
                    Ok(plain) => {
                        let ghost new = added(target, unpack::settled_result(Ok(plain))->Ok_0);
                        let ghost rest = run(archive@, opts@, p@, nothing_taken(), not_shown());
                        proof {
                            if rest is Ok {
                                assert(done + (new + rest->Ok_0.1) == done + new + rest->Ok_0.1);
                            }
                        }
                        match plain {
                            Some(contents) => {
                                let file: Restored = Restored { target: names, contents };
                                let ghost shown = file@;
                                files.push(file);
                                assert(files_view(files@) == done.push(shown));
                                assert(files_view(files@) == done + new);
                            },
                            None => {
                                assert(files_view(files@) == done + new);
                            },
                        }
                    },
                }
            },
        }
    }
}

/// What one member does to a run: the progress behind it and the files that it
/// adds.
pub open spec fn stepped(
    archive: Seq<u8>,
    opts: OptsModel,
    p: Progress,
    f: FoundModel,
    taken: spec_fn(Seq<Seq<char>>) -> bool,
    show: spec_fn(Seq<Seq<char>>) -> Seq<char>,
) -> Result<(Progress, Seq<Written>), Failure> {
    if !unpack::wanted(opts, f.path) {
        Ok((unpack::past(p, f.end), Seq::empty()))
    } else {
        let q = unpack::past_wanted(opts, p, f.end);
        match paths::place(f.path, opts.strip_components) {
            Err(fault) => Err(fault),
            Ok(None) => Ok((unpack::with_skipped(q, f), Seq::empty())),
            Ok(Some(target)) => {
                let outcome = unpack::settled(
                    archive,
                    opts,
                    p.index,
                    f,
                    taken(target),
                    show(target),
                );
                match outcome {
                    Err(fault) => Err(fault),
                    Ok(plain) => Ok((unpack::recorded(q, f, outcome), added(target, plain))),
                }
            },
        }
    }
}

/// A run goes member by member.
pub proof fn run_by_member(
    archive: Seq<u8>,
    opts: OptsModel,
    p: Progress,
    taken: spec_fn(Seq<Seq<char>>) -> bool,
    show: spec_fn(Seq<Seq<char>>) -> Seq<char>,
)
    requires
        p.index < p.count,
    ensures
        run(archive, opts, p, taken, show) == match member::member_at(
            archive,
            p.at,
            Purpose::Unpack,
            p.index,
        ) {
            Err(fault) => Err(fault),
            Ok(f) => match stepped(archive, opts, p, f, taken, show) {
                Err(fault) => Err(fault),
                Ok((next, files)) => behind(files, run(archive, opts, next, taken, show)),
            },
        },
{
    if let Ok(f) = member::member_at(archive, p.at, Purpose::Unpack, p.index) {
        let q = unpack::past_wanted(opts, p, f.end);
        let next = if !unpack::wanted(opts, f.path) {
            unpack::past(p, f.end)
        } else {
            unpack::with_skipped(q, f)
        };
        let passed = !unpack::wanted(opts, f.path) || paths::place(f.path, opts.strip_components)
            == Ok::<Option<Seq<Seq<char>>>, Failure>(None);
        if passed {
            assert(unpack::advanced(archive, opts, p) == unpack::advanced(archive, opts, next));
            let rest = run(archive, opts, next, taken, show);
            if rest is Ok {
                assert(Seq::<Written>::empty() + rest->Ok_0.1 == rest->Ok_0.1);
            }
        }
    }
}

/// Where a member with this path goes, if it is restored at all.
pub open spec fn destination(opts: OptsModel, path: Seq<char>) -> Option<Seq<Seq<char>>> {
    if unpack::wanted(opts, path) {
        paths::place(path, opts.strip_components)->Ok_0
    } else {
        None
    }
}

/// Whether a member with this path may be restored: where it is wanted, its
/// path does not lead upwards, and what is left of it goes to a safe place.
pub open spec fn restorable(opts: OptsModel, path: Seq<char>) -> bool {
    unpack::wanted(opts, path) ==> paths::place(path, opts.strip_components) is Ok
}

/// Whether a member with this path is written: it goes somewhere, and not to a
/// file that exists where existing files are skipped.
pub open spec fn is_written(
    opts: OptsModel,
    taken: spec_fn(Seq<Seq<char>>) -> bool,
    path: Seq<char>,
) -> bool {
    destination(opts, path) matches Some(target) && !(taken(target) && opts.skip_existing)
}

/// The files that an archive of `members` with contents `data` unpacks to,
/// from the `i`th on: those that are wanted and not stripped away entirely,
/// without those that exist where existing files are skipped.
pub open spec fn files_from(
    members: Seq<MemberModel>,
    data: Seq<Seq<u8>>,
    opts: OptsModel,
    taken: spec_fn(Seq<Seq<char>>) -> bool,
    i: int,
) -> Seq<Written>
    decreases members.len() - i,
{
    if i >= members.len() {
        Seq::empty()
    } else {
        let rest = files_from(members, data, opts, taken, i + 1);
        if is_written(opts, taken, members[i].path) {
            let target = destination(opts, members[i].path)->Some_0;
            seq![Written { target, contents: data[i] }] + rest
        } else {
            rest
        }
    }
}

/// What is recorded of the members from the `i`th on: every wanted one, as
/// written or as skipped.
pub open spec fn records_from(
    members: Seq<MemberModel>,
    opts: OptsModel,
    taken: spec_fn(Seq<Seq<char>>) -> bool,
    i: int,
) -> Seq<MemberStatsModel>
    decreases members.len() - i,
{
    if i >= members.len() {
        Seq::empty()
    } else {
        let rest = records_from(members, opts, taken, i + 1);
        let m = members[i];
        if unpack::wanted(opts, m.path) {
            seq![
                MemberStatsModel {
                    path: m.path,
                    original_bytes: m.original_len,
                    skipped: !is_written(opts, taken, m.path),
                },
            ] + rest
        } else {
            rest
        }
    }
}

/// Whether `members` from the `i`th on hold what is looked for, unless it was
/// met before.
pub open spec fn to_be_met(members: Seq<MemberModel>, opts: OptsModel, p: Progress, i: int) -> bool {
    p.matched_only || (opts.only matches Some(only) ==> exists|k: int|
        i <= k < members.len() && (#[trigger] members[k]).path == only)
}

/// Whether a run stands in front of the `i`th of `members`.
pub open spec fn stands_at(members: Seq<MemberModel>, p: Progress, i: int) -> bool {
    &&& 0 <= i <= members.len()
    &&& p.at == packing::offset(members, i)
    &&& p.index == i
    &&& p.count == members.len()
    &&& p.written <= i
    &&& p.skipped <= i
}

/// The progress behind a packed member that may be restored.
pub open spec fn moved(
    members: Seq<MemberModel>,
    opts: OptsModel,
    taken: spec_fn(Seq<Seq<char>>) -> bool,
    p: Progress,
    i: int,
) -> Progress {
    let f = packing::found_at(members, i, Purpose::Unpack);
    let q = unpack::past_wanted(opts, p, f.end);
    if !unpack::wanted(opts, f.path) {
        unpack::past(p, f.end)
    } else if is_written(opts, taken, f.path) {
        unpack::with_written(q, f)
    } else {
        unpack::with_skipped(q, f)
    }
}

/// The file of a packed member, where it is written.
pub open spec fn file_at(
    members: Seq<MemberModel>,
    data: Seq<Seq<u8>>,
    opts: OptsModel,
    taken: spec_fn(Seq<Seq<char>>) -> bool,
    i: int,
) -> Seq<Written> {
    if is_written(opts, taken, members[i].path) {
        seq![
            Written {
                target: destination(opts, members[i].path)->Some_0,
                contents: data[i],
            },
        ]
    } else {
        Seq::empty()
    }
}

/// What a packed member that holds its data does to a run.
proof fn packed_step(
    archive: Seq<u8>,
    members: Seq<MemberModel>,
    data: Seq<Seq<u8>>,
    opts: OptsModel,
    p: Progress,
    i: int,
    taken: spec_fn(Seq<Seq<char>>) -> bool,
    show: spec_fn(Seq<Seq<char>>) -> Seq<char>,
)
    requires
        0 <= i < members.len(),
        member::member_of(archive, packing::found_at(members, i, Purpose::Unpack)) == members[i],
        is_written(opts, taken, members[i].path) ==> packing::holds(members[i], data[i]),
        restorable(opts, members[i].path),
        forall|t: Seq<Seq<char>>| #[trigger] taken(t) ==> opts.force || opts.skip_existing,
    ensures
        stepped(
            archive,
            opts,
            p,
            packing::found_at(members, i, Purpose::Unpack),
            taken,
            show,
        ) == Ok::<(Progress, Seq<Written>), Failure>(
            (moved(members, opts, taken, p, i), file_at(members, data, opts, taken, i)),
        ),
{
    let m = members[i];
    let f = packing::found_at(members, i, Purpose::Unpack);
    assert(f.path == m.path);
    if is_written(opts, taken, m.path) {
        assert(member::opened(Purpose::Unpack, p.index, m) == Ok::<Seq<u8>, Failure>(data[i]));
    }
    if unpack::wanted(opts, m.path) {
        if let Ok(Some(target)) = paths::place(m.path, opts.strip_components) {
            assert(destination(opts, m.path) == Some(target));
        }
    }
}

/// One packed member of a run.
proof fn run_over_packed(
    level: i32,
    members: Seq<MemberModel>,
    data: Seq<Seq<u8>>,
    opts: OptsModel,
    p: Progress,
    i: int,
    taken: spec_fn(Seq<Seq<char>>) -> bool,
    show: spec_fn(Seq<Seq<char>>) -> Seq<char>,
)
    requires
        packing::readable(members, Purpose::Unpack),
        i < members.len(),
        stands_at(members, p, i),
        is_written(opts, taken, members[i].path) ==> packing::holds(members[i], data[i]),
        restorable(opts, members[i].path),
        forall|t: Seq<Seq<char>>| #[trigger] taken(t) ==> opts.force || opts.skip_existing,
    ensures
        run(pack::pack_bytes(level, members), opts, p, taken, show) == behind(
            file_at(members, data, opts, taken, i),
            run(
                pack::pack_bytes(level, members),
                opts,
                moved(members, opts, taken, p, i),
                taken,
                show,
            ),
        ),
{
    let archive = pack::pack_bytes(level, members);
    packing::member_at_offset(level, members, i, Purpose::Unpack, i as u32);
    packed_step(archive, members, data, opts, p, i, taken, show);
    run_by_member(archive, opts, p, taken, show);
}

/// What is known of the end of a run from the `i`th member on.
pub open spec fn ends_well(
    members: Seq<MemberModel>,
    data: Seq<Seq<u8>>,
    opts: OptsModel,
    taken: spec_fn(Seq<Seq<char>>) -> bool,
    p: Progress,
    i: int,
    r: Result<(Progress, Seq<Written>), Failure>,
) -> bool {
    let files = files_from(members, data, opts, taken, i);
    let records = records_from(members, opts, taken, i);
    &&& r matches Ok((end, written))
    &&& written == files
    &&& end.members == p.members + records
    &&& end.written == p.written + files.len()
    &&& end.skipped == p.skipped + records.len() - files.len()
}

/// A packed member takes a run to the next one, and what is known of the rest
/// is then known from it on.
proof fn one_more(
    members: Seq<MemberModel>,
    data: Seq<Seq<u8>>,
    opts: OptsModel,
    taken: spec_fn(Seq<Seq<char>>) -> bool,
    p: Progress,
    i: int,
    rest: Result<(Progress, Seq<Written>), Failure>,
)
    requires
        i < members.len() <= u32::MAX,
        stands_at(members, p, i),
        to_be_met(members, opts, p, i),
    ensures
        stands_at(members, moved(members, opts, taken, p, i), i + 1),
        to_be_met(members, opts, moved(members, opts, taken, p, i), i + 1),
        ends_well(members, data, opts, taken, moved(members, opts, taken, p, i), i + 1, rest)
            ==> ends_well(
            members,
            data,
            opts,
            taken,
            p,
            i,
            behind(file_at(members, data, opts, taken, i), rest),
        ),
{
    let next = moved(members, opts, taken, p, i);
    let later = records_from(members, opts, taken, i + 1);
    assert(to_be_met(members, opts, next, i + 1)) by {
        if !next.matched_only && opts.only is Some {
            let k = choose|k: int|
                i <= k < members.len() && (#[trigger] members[k]).path == opts.only->Some_0;
            assert(members[k].path == opts.only->Some_0);
        }
    }
    if ends_well(members, data, opts, taken, next, i + 1, rest) {
        let files = files_from(members, data, opts, taken, i + 1);
        if unpack::wanted(opts, members[i].path) {
            let record = MemberStatsModel {
                path: members[i].path,
                original_bytes: members[i].original_len,
                skipped: !is_written(opts, taken, members[i].path),
            };
            assert(next.members == p.members.push(record));
            assert(p.members.push(record) + later == p.members + (seq![record] + later));
        } else {
            assert(destination(opts, members[i].path) is None);
        }
        if !is_written(opts, taken, members[i].path) {
            assert(Seq::<Written>::empty() + files == files);
        }
    }
}

proof fn run_from_offset(
    level: i32,
    members: Seq<MemberModel>,
    data: Seq<Seq<u8>>,
    opts: OptsModel,
    p: Progress,
    i: int,
    taken: spec_fn(Seq<Seq<char>>) -> bool,
    show: spec_fn(Seq<Seq<char>>) -> Seq<char>,
)
    requires
        packing::readable(members, Purpose::Unpack),
        data.len() == members.len(),
        forall|k: int|
            0 <= k < members.len() && is_written(opts, taken, members[k].path) ==> packing::holds(
                #[trigger] members[k],
                data[k],
            ),
        forall|k: int| 0 <= k < members.len() ==> restorable(opts, (#[trigger] members[k]).path),
        forall|t: Seq<Seq<char>>| #[trigger] taken(t) ==> opts.force || opts.skip_existing,
        stands_at(members, p, i),
        to_be_met(members, opts, p, i),
    ensures
        ends_well(
            members,
            data,
            opts,
            taken,
            p,
            i,
            run(pack::pack_bytes(level, members), opts, p, taken, show),
        ),
    decreases members.len() - i,
{
    if i < members.len() {
        let next = moved(members, opts, taken, p, i);
        let rest = run(pack::pack_bytes(level, members), opts, next, taken, show);
        assert(is_written(opts, taken, members[i].path) ==> packing::holds(members[i], data[i]));
        assert(restorable(opts, members[i].path));
        run_over_packed(level, members, data, opts, p, i, taken, show);
        one_more(members, data, opts, taken, p, i, rest);
        run_from_offset(level, members, data, opts, next, i + 1, taken, show);
    } else {
        assert(p.members + Seq::<MemberStatsModel>::empty() == p.members);
    }
}

/// Unpacking gives back what was packed: from an archive of members that may be
/// restored, and that hold their data where they are written, exactly the files
/// that the options ask for are written, each with its contents, to the place that its path names, in
/// order, and every member that was asked for is recorded as written or as
/// skipped. Existing files are in the way only where they may be neither
/// skipped nor overwritten.
pub proof fn packed_files_unpack(
    level: i32,
    members: Seq<MemberModel>,
    data: Seq<Seq<u8>>,
    opts: OptsModel,
    taken: spec_fn(Seq<Seq<char>>) -> bool,
    show: spec_fn(Seq<Seq<char>>) -> Seq<char>,
)
    requires
        packing::readable(members, Purpose::Unpack),
        data.len() == members.len(),
        forall|k: int|
            0 <= k < members.len() && is_written(opts, taken, members[k].path) ==> packing::holds(
                #[trigger] members[k],
                data[k],
            ),
        forall|k: int| 0 <= k < members.len() ==> restorable(opts, (#[trigger] members[k]).path),
        forall|t: Seq<Seq<char>>| #[trigger] taken(t) ==> opts.force || opts.skip_existing,
        opts.only matches Some(only) ==> exists|k: int|
            0 <= k < members.len() && (#[trigger] members[k]).path == only,
    ensures
        ({
            let archive = pack::pack_bytes(level, members);
            let records = records_from(members, opts, taken, 0);
            &&& pack::prologue(archive, Purpose::Unpack) matches Ok(head)
            &&& run(archive, opts, unpack::started(head), taken, show) matches Ok((end, written))
            &&& written == files_from(members, data, opts, taken, 0)
            &&& end.members == records
            &&& end.written == written.len()
            &&& end.skipped == records.len() - written.len()
        }),
{
    packing::prologue_round_trip(
        level,
        members.len() as u32,
        pack::members_bytes(members),
        Purpose::Unpack,
    );
    assert(members.take(0) == Seq::<MemberModel>::empty());
    let head = Prologue { level, count: members.len() as u32 };
    let start = unpack::started(head);
    run_from_offset(level, members, data, opts, start, 0, taken, show);
    let records = records_from(members, opts, taken, 0);
    assert(start.members + records == records);
}

/// Without a choice and without stripping, every file of a pack is written,
/// where none is skipped.
pub proof fn all_files_unpack(
    members: Seq<MemberModel>,
    data: Seq<Seq<u8>>,
    opts: OptsModel,
    taken: spec_fn(Seq<Seq<char>>) -> bool,
    i: int,
)
    requires
        opts.only is None,
        opts.strip_components == 0,
        !opts.skip_existing,
        forall|k: int| 0 <= k < members.len() ==> restorable(opts, (#[trigger] members[k]).path),
        0 <= i <= members.len(),
    ensures
        files_from(members, data, opts, taken, i) == Seq::new(
            (members.len() - i) as nat,
            |k: int|
                Written {
                    target: paths::safe_target(members[i + k].path)->Ok_0,
                    contents: data[i + k],
                },
        ),
    decreases members.len() - i,
{
    if i < members.len() {
        all_files_unpack(members, data, opts, taken, i + 1);
        assert(restorable(opts, members[i].path));
    }
}

proof fn run_meets_climber(
    level: i32,
    members: Seq<MemberModel>,
    opts: OptsModel,
    p: Progress,
    i: int,
    k: int,
    taken: spec_fn(Seq<Seq<char>>) -> bool,
    show: spec_fn(Seq<Seq<char>>) -> Seq<char>,
)
    requires
        packing::readable(members, Purpose::Unpack),
        0 <= i <= k < members.len(),
        p.at == packing::offset(members, i),
        p.index == i,
        p.count == members.len(),
        unpack::wanted(opts, members[k].path),
        paths::climbs(members[k].path),
    ensures
        run(pack::pack_bytes(level, members), opts, p, taken, show) is Err,
    decreases k - i,
{
    let archive = pack::pack_bytes(level, members);
    let f = packing::found_at(members, i, Purpose::Unpack);
    packing::member_at_offset(level, members, i, Purpose::Unpack, i as u32);
    run_by_member(archive, opts, p, taken, show);
    if let Ok((next, _)) = stepped(archive, opts, p, f, taken, show) {
        if i < k {
            run_meets_climber(level, members, opts, next, i + 1, k, taken, show);
        }
    }
}

/// An archive with a wanted path that contains `..` does not unpack, however
/// many components are stripped from the paths.
pub proof fn climbing_pack_does_not_unpack(
    level: i32,
    members: Seq<MemberModel>,
    opts: OptsModel,
    k: int,
    taken: spec_fn(Seq<Seq<char>>) -> bool,
    show: spec_fn(Seq<Seq<char>>) -> Seq<char>,
)
    requires
        packing::readable(members, Purpose::Unpack),
        0 <= k < members.len(),
        unpack::wanted(opts, members[k].path),
        paths::climbs(members[k].path),
    ensures
        ({
            let archive = pack::pack_bytes(level, members);
            pack::prologue(archive, Purpose::Unpack) matches Ok(head) && run(
                archive,
                opts,
                unpack::started(head),
                taken,
                show,
            ) is Err
        }),
{
    packing::prologue_round_trip(
        level,
        members.len() as u32,
        pack::members_bytes(members),
        Purpose::Unpack,
    );
    assert(members.take(0) == Seq::<MemberModel>::empty());
    let head = Prologue { level, count: members.len() as u32 };
    run_meets_climber(level, members, opts, unpack::started(head), 0, k, taken, show);
}

proof fn cut_run(
    level: i32,
    members: Seq<MemberModel>,
    n: int,
    opts: OptsModel,
    p: Progress,
    i: int,
    taken: spec_fn(Seq<Seq<char>>) -> bool,
    show: spec_fn(Seq<Seq<char>>) -> Seq<char>,
)
    requires
        packing::readable(members, Purpose::Unpack),
        0 <= n < pack::pack_bytes(level, members).len(),
        0 <= i <= members.len(),
        p.at == packing::offset(members, i),
        p.index == i,
        p.count == members.len(),
        p.at <= n,
    ensures
        run(pack::pack_bytes(level, members).take(n), opts, p, taken, show) is Err,
    decreases members.len() - i,
{
    let part = pack::pack_bytes(level, members).take(n);
    packing::member_of_prefix(level, members, n, i, Purpose::Unpack);
    run_by_member(part, opts, p, taken, show);
    if let Ok(f) = member::member_at(part, p.at, Purpose::Unpack, p.index) {
        if let Ok((next, _)) = stepped(part, opts, p, f, taken, show) {
            cut_run(level, members, n, opts, next, i + 1, taken, show);
        }
    }
}

/// Unpacking an archive that is cut off anywhere fails.
pub proof fn cut_off_pack_does_not_unpack(
    level: i32,
    members: Seq<MemberModel>,
    n: int,
    opts: OptsModel,
    taken: spec_fn(Seq<Seq<char>>) -> bool,
    show: spec_fn(Seq<Seq<char>>) -> Seq<char>,
)
    requires
        packing::readable(members, Purpose::Unpack),
        0 <= n < pack::pack_bytes(level, members).len(),
    ensures
        pack::prologue(pack::pack_bytes(level, members).take(n), Purpose::Unpack) matches Ok(head)
            ==> run(
            pack::pack_bytes(level, members).take(n),
            opts,
            unpack::started(head),
            taken,
            show,
        ) is Err,
{
    assert(members.take(0) == Seq::<MemberModel>::empty());
    if n >= 13 {
        packing::prologue_of_prefix(level, members, n, Purpose::Unpack);
        let head = Prologue { level, count: members.len() as u32 };
        cut_run(level, members, n, opts, unpack::started(head), 0, taken, show);
    }
}

/// Whether a file may be written from `archive`: its contents are those of a
/// member, with the size and the digest that it records, its destination is a
/// list of proper names, and the path that it comes from does not lead upwards.
pub open spec fn sound(archive: Seq<u8>, w: Written) -> bool {
    &&& forall|k: int| 0 <= k < w.target.len() ==> paths::proper_name(#[trigger] w.target[k])
    &&& exists|at: int, index: u32|
        {
            &&& #[trigger] member::member_at(archive, at, Purpose::Unpack, index) matches Ok(f)
            &&& !paths::climbs(f.path)
            &&& w.contents.len() == f.original_len
            &&& codec::sha256_digest(w.contents) == f.checksum
        }
}

proof fn step_is_sound(
    archive: Seq<u8>,
    opts: OptsModel,
    p: Progress,
    f: FoundModel,
    taken: spec_fn(Seq<Seq<char>>) -> bool,
    show: spec_fn(Seq<Seq<char>>) -> Seq<char>,
)
    requires
        member::member_at(archive, p.at, Purpose::Unpack, p.index) == Ok::<FoundModel, Failure>(f),
        stepped(archive, opts, p, f, taken, show) is Ok,
    ensures
        forall|i: int|
            0 <= i < stepped(archive, opts, p, f, taken, show)->Ok_0.1.len() ==> sound(
                archive,
                #[trigger] stepped(archive, opts, p, f, taken, show)->Ok_0.1[i],
            ),
{
    if unpack::wanted(opts, f.path) {
        if let Ok(Some(target)) = paths::place(f.path, opts.strip_components) {
            let rest = paths::stripped(f.path, opts.strip_components)->Some_0;
            paths::safe_target_stays_below(rest);
            let opened = member::opened(
                Purpose::Unpack,
                p.index,
                member::member_of(archive, f),
            );
            if opened is Ok {
                member::opened_is_intact(Purpose::Unpack, p.index, member::member_of(archive, f));
                let w = Written { target, contents: opened->Ok_0 };
                assert(member::member_at(archive, p.at, Purpose::Unpack, p.index) is Ok);
                assert(sound(archive, w));
            }
        }
    }
}

/// Nothing is written outside the output directory, nothing from a path that
/// leads upwards, and no damaged data: whatever the archive holds, every file
/// that is written goes to proper names below the directory and has the size
/// and the SHA-256 that its member records.
pub proof fn writes_are_sound(
    archive: Seq<u8>,
    opts: OptsModel,
    p: Progress,
    taken: spec_fn(Seq<Seq<char>>) -> bool,
    show: spec_fn(Seq<Seq<char>>) -> Seq<char>,
)
    requires
        run(archive, opts, p, taken, show) is Ok,
    ensures
        forall|i: int|
            0 <= i < run(archive, opts, p, taken, show)->Ok_0.1.len() ==> sound(
                archive,
                #[trigger] run(archive, opts, p, taken, show)->Ok_0.1[i],
            ),
    decreases p.count - p.index,
{
    if p.index < p.count {
        run_by_member(archive, opts, p, taken, show);
        let f = member::member_at(archive, p.at, Purpose::Unpack, p.index)->Ok_0;
        let (next, files) = stepped(archive, opts, p, f, taken, show)->Ok_0;
        let rest = run(archive, opts, next, taken, show)->Ok_0.1;
        let all = run(archive, opts, p, taken, show)->Ok_0.1;
        step_is_sound(archive, opts, p, f, taken, show);
        writes_are_sound(archive, opts, next, taken, show);
        assert forall|i: int| 0 <= i < all.len() implies sound(archive, #[trigger] all[i]) by {
            if i < files.len() {
                assert(sound(archive, files[i]));
            } else {
                assert(sound(archive, rest[i - files.len()]));
            }
        }
    }
}

/// With `skip_existing`, or without `force`, existing files are left alone:
/// nothing is ever written to a destination that exists.
pub proof fn existing_files_are_kept(
    archive: Seq<u8>,
    opts: OptsModel,
    p: Progress,
    taken: spec_fn(Seq<Seq<char>>) -> bool,
    show: spec_fn(Seq<Seq<char>>) -> Seq<char>,
)
    requires
        opts.skip_existing || !opts.force,
        run(archive, opts, p, taken, show) is Ok,
    ensures
        forall|i: int|
            0 <= i < run(archive, opts, p, taken, show)->Ok_0.1.len() ==> !taken(
                (#[trigger] run(archive, opts, p, taken, show)->Ok_0.1[i]).target,
            ),
    decreases p.count - p.index,
{
    if p.index < p.count {
        run_by_member(archive, opts, p, taken, show);
        let f = member::member_at(archive, p.at, Purpose::Unpack, p.index)->Ok_0;
        let (next, files) = stepped(archive, opts, p, f, taken, show)->Ok_0;
        let rest = run(archive, opts, next, taken, show)->Ok_0.1;
        let all = run(archive, opts, p, taken, show)->Ok_0.1;
        existing_files_are_kept(archive, opts, next, taken, show);
        assert forall|i: int| 0 <= i < all.len() implies !taken((#[trigger] all[i]).target) by {
            if i < files.len() {
                assert(all[i] == files[i]);
            } else {
                assert(!taken(rest[i - files.len()].target));
            }
        }
    }
}

/// Whether `members` are called by lists of proper names: each path is the names
/// with a slash between each two.
pub open spec fn called(members: Seq<MemberModel>, names: Seq<Seq<Seq<char>>>) -> bool {
    &&& names.len() == members.len()
    &&& forall|k: int|
        0 <= k < members.len() ==> (#[trigger] members[k]).path == text::joined(names[k], "/"@)
            && names[k].len() > 0
    &&& forall|k: int, j: int|
        0 <= k < names.len() && 0 <= j < names[k].len() ==> paths::proper_name(
            #[trigger] names[k][j],
        )
}

/// Whether the options ask for `path`: they name no path, or this one.
pub open spec fn asked_for(opts: OptsModel, path: Seq<char>) -> bool {
    opts.only is None || opts.only == Some(path)
}

/// Whether a member called `names` is written: it is asked for, some of its
/// names are left after stripping, and it is not skipped for an existing file.
pub open spec fn comes_out(
    opts: OptsModel,
    taken: spec_fn(Seq<Seq<char>>) -> bool,
    names: Seq<Seq<char>>,
) -> bool {
    &&& asked_for(opts, text::joined(names, "/"@))
    &&& names.len() > opts.strip_components
    &&& !(opts.skip_existing && taken(names.skip(opts.strip_components as int)))
}

/// The files of all members, none of those that do not come out.
pub open spec fn files_by_member(
    data: Seq<Seq<u8>>,
    names: Seq<Seq<Seq<char>>>,
    opts: OptsModel,
    taken: spec_fn(Seq<Seq<char>>) -> bool,
) -> Seq<Seq<Written>> {
    Seq::new(
        names.len(),
        |k: int|
            if comes_out(opts, taken, names[k]) {
                seq![
                    Written {
                        target: names[k].skip(opts.strip_components as int),
                        contents: data[k],
                    },
                ]
            } else {
                Seq::empty()
            },
    )
}

/// The records of all members, none of those that are not asked for.
pub open spec fn records_by_member(
    members: Seq<MemberModel>,
    names: Seq<Seq<Seq<char>>>,
    opts: OptsModel,
    taken: spec_fn(Seq<Seq<char>>) -> bool,
) -> Seq<Seq<MemberStatsModel>> {
    Seq::new(
        names.len(),
        |k: int|
            if asked_for(opts, text::joined(names[k], "/"@)) {
                seq![
                    MemberStatsModel {
                        path: text::joined(names[k], "/"@),
                        original_bytes: members[k].original_len,
                        skipped: !comes_out(opts, taken, names[k]),
                    },
                ]
            } else {
                Seq::empty()
            },
    )
}

proof fn called_has_place(
    members: Seq<MemberModel>,
    names: Seq<Seq<Seq<char>>>,
    opts: OptsModel,
    k: int,
)
    requires
        called(members, names),
        0 <= k < members.len(),
    ensures
        restorable(opts, members[k].path),
        unpack::wanted(opts, members[k].path) <==> asked_for(opts, members[k].path),
        names[k].len() > opts.strip_components ==> paths::place(
            members[k].path,
            opts.strip_components,
        ) == Ok::<Option<Seq<Seq<char>>>, Failure>(
            Some(names[k].skip(opts.strip_components as int)),
        ),
        names[k].len() <= opts.strip_components ==> paths::place(
            members[k].path,
            opts.strip_components,
        ) == Ok::<Option<Seq<Seq<char>>>, Failure>(None),
{
    assert(members[k].path == text::joined(names[k], "/"@));
    assert forall|j: int| 0 <= j < names[k].len() implies paths::proper_name(
        #[trigger] names[k][j],
    ) by {}
    paths::place_of_names(names[k], opts.strip_components);
}

proof fn files_are_by_member(
    members: Seq<MemberModel>,
    data: Seq<Seq<u8>>,
    names: Seq<Seq<Seq<char>>>,
    opts: OptsModel,
    taken: spec_fn(Seq<Seq<char>>) -> bool,
    i: int,
)
    requires
        called(members, names),
        data.len() == members.len(),
        0 <= i <= members.len(),
    ensures
        files_from(members, data, opts, taken, i) == files_by_member(
            data,
            names,
            opts,
            taken,
        ).skip(i).flatten(),
        records_from(members, opts, taken, i) == records_by_member(
            members,
            names,
            opts,
            taken,
        ).skip(i).flatten(),
    decreases members.len() - i,
{
    let files = files_by_member(data, names, opts, taken);
    let records = records_by_member(members, names, opts, taken);
    if i < members.len() {
        files_are_by_member(members, data, names, opts, taken, i + 1);
        called_has_place(members, names, opts, i);
        assert(members[i].path == text::joined(names[i], "/"@));
        assert(files.skip(i).drop_first() == files.skip(i + 1));
        assert(records.skip(i).drop_first() == records.skip(i + 1));
        assert(files.skip(i).first() == files[i]);
        assert(records.skip(i).first() == records[i]);
        let later = files.skip(i + 1).flatten();
        let others = records.skip(i + 1).flatten();
        assert(Seq::<Written>::empty() + later == later);
        assert(Seq::<MemberStatsModel>::empty() + others == others);
    } else {
        assert(files.skip(i) == Seq::<Seq<Written>>::empty());
        assert(records.skip(i) == Seq::<Seq<MemberStatsModel>>::empty());
    }
}

/// Unpacking writes every file that is asked for to the names of its path
/// without the first ones, as many as are stripped, in the order of the archive.
/// A file of which no name is left is skipped, and so is one that exists where
/// existing files are skipped. Every file that is asked for is recorded with its
/// path and size, as written or skipped. What is not written is not opened, so
/// it may be damaged.
pub proof fn packed_names_unpack(
    level: i32,
    members: Seq<MemberModel>,
    data: Seq<Seq<u8>>,
    names: Seq<Seq<Seq<char>>>,
    opts: OptsModel,
    taken: spec_fn(Seq<Seq<char>>) -> bool,
    show: spec_fn(Seq<Seq<char>>) -> Seq<char>,
)
    requires
        packing::readable(members, Purpose::Unpack),
        called(members, names),
        data.len() == members.len(),
        forall|k: int|
            0 <= k < members.len() && comes_out(opts, taken, names[k]) ==> packing::holds(
                #[trigger] members[k],
                data[k],
            ),
        forall|t: Seq<Seq<char>>| #[trigger] taken(t) ==> opts.force || opts.skip_existing,
        opts.only matches Some(only) ==> exists|k: int|
            0 <= k < members.len() && (#[trigger] members[k]).path == only,
    ensures
        ({
            let archive = pack::pack_bytes(level, members);
            let records = records_by_member(members, names, opts, taken).flatten();
            &&& pack::prologue(archive, Purpose::Unpack) matches Ok(head)
            &&& run(archive, opts, unpack::started(head), taken, show) matches Ok((end, written))
            &&& written == files_by_member(data, names, opts, taken).flatten()
            &&& end.members == records
            &&& end.written == written.len()
            &&& end.skipped == records.len() - written.len()
        }),
{
    assert forall|k: int| 0 <= k < members.len() implies restorable(
        opts,
        (#[trigger] members[k]).path,
    ) by {
        called_has_place(members, names, opts, k);
    }
    assert forall|k: int|
        0 <= k < members.len() && is_written(opts, taken, members[k].path) implies packing::holds(
        #[trigger] members[k],
        data[k],
    ) by {
        called_has_place(members, names, opts, k);
        assert(comes_out(opts, taken, names[k]));
    }
    packed_files_unpack(level, members, data, opts, taken, show);
    files_are_by_member(members, data, names, opts, taken, 0);
    let files = files_by_member(data, names, opts, taken);
    let records = records_by_member(members, names, opts, taken);
    assert(files.skip(0) == files);
    assert(records.skip(0) == records);
}

/// Unpacking in memory, where nothing exists, gives the files that are asked for
/// and not stripped away.
pub proof fn packed_names_unpack_in_memory(
    level: i32,
    members: Seq<MemberModel>,
    data: Seq<Seq<u8>>,
    names: Seq<Seq<Seq<char>>>,
    opts: OptsModel,
)
    requires
        packing::readable(members, Purpose::Unpack),
        called(members, names),
        data.len() == members.len(),
        forall|k: int|
            0 <= k < members.len() && comes_out(opts, |t: Seq<Seq<char>>| false, names[k])
                ==> packing::holds(#[trigger] members[k], data[k]),
        opts.only matches Some(only) ==> exists|k: int|
            0 <= k < members.len() && (#[trigger] members[k]).path == only,
    ensures
        in_memory(pack::pack_bytes(level, members), opts) == Ok::<Seq<Written>, Failure>(
            files_by_member(data, names, opts, |t: Seq<Seq<char>>| false).flatten(),
        ),
{
    let never = |t: Seq<Seq<char>>| false;
    assert forall|k: int|
        0 <= k < members.len() && comes_out(opts, nothing_taken(), names[k]) implies packing::holds(
        #[trigger] members[k],
        data[k],
    ) by {
        assert(comes_out(opts, never, names[k]));
    }
    packed_names_unpack(level, members, data, names, opts, nothing_taken(), not_shown());
    assert(files_by_member(data, names, opts, never) == files_by_member(
        data,
        names,
        opts,
        nothing_taken(),
    ));
}

proof fn run_meets_existing(
    level: i32,
    members: Seq<MemberModel>,
    names: Seq<Seq<Seq<char>>>,
    opts: OptsModel,
    p: Progress,
    i: int,
    k: int,
    taken: spec_fn(Seq<Seq<char>>) -> bool,
    show: spec_fn(Seq<Seq<char>>) -> Seq<char>,
)
    requires
        packing::readable(members, Purpose::Unpack),
        called(members, names),
        0 <= i <= k < members.len(),
        p.at == packing::offset(members, i),
        p.index == i,
        p.count == members.len(),
        asked_for(opts, members[k].path),
        names[k].len() > opts.strip_components,
        taken(names[k].skip(opts.strip_components as int)),
        !opts.force,
        !opts.skip_existing,
    ensures
        run(pack::pack_bytes(level, members), opts, p, taken, show) is Err,
    decreases k - i,
{
    let archive = pack::pack_bytes(level, members);
    let f = packing::found_at(members, i, Purpose::Unpack);
    packing::member_at_offset(level, members, i, Purpose::Unpack, i as u32);
    run_by_member(archive, opts, p, taken, show);
    called_has_place(members, names, opts, k);
    if let Ok((next, _)) = stepped(archive, opts, p, f, taken, show) {
        if i < k {
            run_meets_existing(level, members, names, opts, next, i + 1, k, taken, show);
        }
    }
}

/// Where existing files may be neither overwritten nor skipped, one that is in
/// the way of a file that is asked for makes unpacking fail.
pub proof fn existing_file_stops_unpacking(
    level: i32,
    members: Seq<MemberModel>,
    names: Seq<Seq<Seq<char>>>,
    opts: OptsModel,
    k: int,
    taken: spec_fn(Seq<Seq<char>>) -> bool,
    show: spec_fn(Seq<Seq<char>>) -> Seq<char>,
)
    requires
        packing::readable(members, Purpose::Unpack),
        called(members, names),
        0 <= k < members.len(),
        asked_for(opts, members[k].path),
        names[k].len() > opts.strip_components,
        taken(names[k].skip(opts.strip_components as int)),
        !opts.force,
        !opts.skip_existing,
    ensures
        ({
            let archive = pack::pack_bytes(level, members);
            pack::prologue(archive, Purpose::Unpack) matches Ok(head) && run(
                archive,
                opts,
                unpack::started(head),
                taken,
                show,
            ) is Err
        }),
{
    packing::prologue_round_trip(
        level,
        members.len() as u32,
        pack::members_bytes(members),
        Purpose::Unpack,
    );
    assert(members.take(0) == Seq::<MemberModel>::empty());
    let head = Prologue { level, count: members.len() as u32 };
    run_meets_existing(level, members, names, opts, unpack::started(head), 0, k, taken, show);
}

proof fn run_meets_nothing(
    level: i32,
    members: Seq<MemberModel>,
    opts: OptsModel,
    p: Progress,
    i: int,
    only: Seq<char>,
    taken: spec_fn(Seq<Seq<char>>) -> bool,
    show: spec_fn(Seq<Seq<char>>) -> Seq<char>,
)
    requires
        packing::readable(members, Purpose::Unpack),
        0 <= i <= members.len(),
        p.at == packing::offset(members, i),
        p.index == i,
        p.count == members.len(),
        !p.matched_only,
        opts.only == Some(only),
        forall|k: int| 0 <= k < members.len() ==> (#[trigger] members[k]).path != only,
    ensures
        run(pack::pack_bytes(level, members), opts, p, taken, show) == Err::<
            (Progress, Seq<Written>),
            Failure,
        >(pack::not_in_archive(only)),
    decreases members.len() - i,
{
    if i < members.len() {
        let archive = pack::pack_bytes(level, members);
        let f = packing::found_at(members, i, Purpose::Unpack);
        packing::member_at_offset(level, members, i, Purpose::Unpack, i as u32);
        run_by_member(archive, opts, p, taken, show);
        assert(members[i].path != only);
        run_meets_nothing(
            level,
            members,
            opts,
            unpack::past(p, f.end),
            i + 1,
            only,
            taken,
            show,
        );
    }
}

/// Asking for a path that no member has fails as not found.
pub proof fn absent_member_does_not_unpack(
    level: i32,
    members: Seq<MemberModel>,
    opts: OptsModel,
    only: Seq<char>,
    taken: spec_fn(Seq<Seq<char>>) -> bool,
    show: spec_fn(Seq<Seq<char>>) -> Seq<char>,
)
    requires
        packing::readable(members, Purpose::Unpack),
        opts.only == Some(only),
        forall|k: int| 0 <= k < members.len() ==> (#[trigger] members[k]).path != only,
    ensures
        ({
            let archive = pack::pack_bytes(level, members);
            pack::prologue(archive, Purpose::Unpack) matches Ok(head) && run(
                archive,
                opts,
                unpack::started(head),
                taken,
                show,
            ) == Err::<(Progress, Seq<Written>), Failure>(pack::not_in_archive(only))
        }),
{
    packing::prologue_round_trip(
        level,
        members.len() as u32,
        pack::members_bytes(members),
        Purpose::Unpack,
    );
    assert(members.take(0) == Seq::<MemberModel>::empty());
    let head = Prologue { level, count: members.len() as u32 };
    run_meets_nothing(level, members, opts, unpack::started(head), 0, only, taken, show);
}

} // verus!
