//! Unpacking: which members of an archive are restored, where to, and what is
//! reported. The caller looks at the disk and writes the files.

use vstd::prelude::*;

use crate::error::{error, Error, ErrorKind, Failure};
use crate::member;
use crate::member::{open_member, read_member, Found, FoundModel, Purpose};
use crate::pack;
use crate::pack::{not_in_archive_error, read_prologue, Prologue};
use crate::paths;
use crate::paths::place_for;
use crate::text;

verus! {

/// Options for unpacking a pack archive.
#[derive(Debug)]
pub struct UnpackOpts {
    /// Skip members whose destination already exists.
    pub skip_existing: bool,
    /// Only extract the member with this exact archive path.
    pub only: Option<String>,
    /// Strip this many leading path components.
    pub strip_components: u32,
    /// Overwrite existing destination files. Without it an existing file is an
    /// error, unless `skip_existing` is set.
    pub force: bool,
}

impl Default for UnpackOpts {
    fn default() -> (opts: Self)
        ensures
            !opts.skip_existing,
            opts.only is None,
            opts.strip_components == 0,
            !opts.force,
    {
        UnpackOpts { skip_existing: false, only: None, strip_components: 0, force: false }
    }
}

/// The view of [`UnpackOpts`].
pub struct OptsModel {
    pub skip_existing: bool,
    pub only: Option<Seq<char>>,
    pub strip_components: nat,
    pub force: bool,
}

impl View for UnpackOpts {
    type V = OptsModel;

    open spec fn view(&self) -> OptsModel {
        OptsModel {
            skip_existing: self.skip_existing,
            only: paths::text_view(self.only),
            strip_components: self.strip_components as nat,
            force: self.force,
        }
    }
}

/// What became of one member.
#[derive(Debug)]
pub struct UnpackMemberStats {
    pub path: String,
    pub original_bytes: u64,
    pub skipped: bool,
}

/// The view of an [`UnpackMemberStats`].
#[verifier::ext_equal]
pub struct MemberStatsModel {
    pub path: Seq<char>,
    pub original_bytes: u64,
    pub skipped: bool,
}

impl View for UnpackMemberStats {
    type V = MemberStatsModel;

    open spec fn view(&self) -> MemberStatsModel {
        MemberStatsModel {
            path: self.path@,
            original_bytes: self.original_bytes,
            skipped: self.skipped,
        }
    }
}

/// The views of what became of members.
pub open spec fn stats_view(members: Seq<UnpackMemberStats>) -> Seq<MemberStatsModel> {
    members.map_values(|m: UnpackMemberStats| m@)
}

/// Aggregate unpack result.
#[derive(Debug)]
pub struct UnpackStats {
    pub members: Vec<UnpackMemberStats>,
    pub written: u32,
    pub skipped: u32,
    pub output_dir: String,
}

/// How far unpacking has come.
#[derive(Debug)]
pub struct Unpacking {
    /// Offset of the next member.
    pub at: usize,
    /// Number of the next member.
    pub index: u32,
    /// Number of members in the archive.
    pub count: u32,
    pub members: Vec<UnpackMemberStats>,
    pub written: u32,
    pub skipped: u32,
    /// Whether a member with the wanted path was met.
    pub matched_only: bool,
}

/// The view of an [`Unpacking`].
#[verifier::ext_equal]
pub struct Progress {
    pub at: int,
    pub index: u32,
    pub count: u32,
    pub members: Seq<MemberStatsModel>,
    pub written: u32,
    pub skipped: u32,
    pub matched_only: bool,
}

impl View for Unpacking {
    type V = Progress;

    open spec fn view(&self) -> Progress {
        Progress {
            at: self.at as int,
            index: self.index,
            count: self.count,
            members: stats_view(self.members@),
            written: self.written,
            skipped: self.skipped,
            matched_only: self.matched_only,
        }
    }
}

/// What holds all the time: no more is recorded than was read.
pub open spec fn consistent(archive: Seq<u8>, p: Progress) -> bool {
    &&& 0 <= p.at <= archive.len()
    &&& p.index <= p.count
    &&& p.written + p.skipped == p.members.len()
    &&& p.members.len() <= p.index
}

/// A member that is to be restored, unless its destination decides otherwise.
#[derive(Debug)]
pub struct Candidate {
    /// Number of the member.
    pub index: u32,
    pub found: Found,
    /// The destination: components under the output directory.
    pub target: Vec<String>,
}

/// The start of unpacking.
pub open spec fn started(head: Prologue) -> Progress {
    Progress {
        at: 13,
        index: 0,
        count: head.count,
        members: Seq::empty(),
        written: 0,
        skipped: 0,
        matched_only: false,
    }
}

/// Reads the start of an archive that is to be unpacked.
pub fn start_unpack(archive: &[u8]) -> (r: Result<Unpacking, Error>)
    ensures
        match pack::prologue(archive@, Purpose::Unpack) {
            Ok(head) => r matches Ok(p) && p@ == started(head) && consistent(archive@, p@),
            Err(fault) => r matches Err(e) && e@ == fault,
        },
{
    match read_prologue(archive, Purpose::Unpack) {
        Ok(head) => {
            let members: Vec<UnpackMemberStats> = Vec::new();
            assert(stats_view(members@) == Seq::<MemberStatsModel>::empty());
            Ok(
                Unpacking {
                    at: 13,
                    index: 0,
                    count: head.count,
                    members,
                    written: 0,
                    skipped: 0,
                    matched_only: false,
                },
            )
        },
        Err(e) => Err(e),
    }
}

/// What comes next in unpacking.
pub enum Step {
    /// All members were read.
    Done,
    /// The caller is to look at the destination of a member.
    Ask { index: u32, found: FoundModel, target: Seq<Seq<char>> },
    /// Unpacking fails.
    Fail(Failure),
}

/// `p` behind a member that ends at `end`.
pub open spec fn past(p: Progress, end: int) -> Progress {
    Progress { at: end, index: (p.index + 1) as u32, ..p }
}

/// `p` behind a member that is wanted.
pub open spec fn past_wanted(opts: OptsModel, p: Progress, end: int) -> Progress {
    Progress { matched_only: p.matched_only || opts.only is Some, ..past(p, end) }
}

/// `p` with a skipped member recorded.
pub open spec fn with_skipped(p: Progress, f: FoundModel) -> Progress {
    Progress {
        members: p.members.push(
            MemberStatsModel { path: f.path, original_bytes: f.original_len, skipped: true },
        ),
        skipped: (p.skipped + 1) as u32,
        ..p
    }
}

/// `p` with a written member recorded.
pub open spec fn with_written(p: Progress, f: FoundModel) -> Progress {
    Progress {
        members: p.members.push(
            MemberStatsModel { path: f.path, original_bytes: f.original_len, skipped: false },
        ),
        written: (p.written + 1) as u32,
        ..p
    }
}

/// Whether unpacking with `opts` looks at a member with this path.
pub open spec fn wanted(opts: OptsModel, path: Seq<char>) -> bool {
    opts.only matches Some(only) ==> only == path
}

/// Reads on to the next member that is to be restored. Members with another
/// path than the wanted one are passed over without a record; members whose
/// path is entirely stripped are recorded as skipped; a wanted path that leads
/// upwards is refused, however much of it would be stripped.
pub open spec fn advanced(archive: Seq<u8>, opts: OptsModel, p: Progress) -> (Progress, Step)
    decreases p.count - p.index,
{
    if p.index >= p.count {
        (p, Step::Done)
    } else {
        match member::member_at(archive, p.at, Purpose::Unpack, p.index) {
            Err(fault) => (p, Step::Fail(fault)),
            Ok(f) => if !wanted(opts, f.path) {
                advanced(archive, opts, past(p, f.end))
            } else {
                let q = past_wanted(opts, p, f.end);
                match paths::place(f.path, opts.strip_components) {
                    Err(fault) => (q, Step::Fail(fault)),
                    Ok(None) => advanced(archive, opts, with_skipped(q, f)),
                    Ok(Some(target)) => (q, Step::Ask { index: p.index, found: f, target }),
                }
            },
        }
    }
}

/// The step that a call of [`next_candidate`] reports.
pub open spec fn step_result(r: Result<Option<Candidate>, Error>) -> Step {
    match r {
        Ok(None) => Step::Done,
        Ok(Some(c)) => Step::Ask {
            index: c.index,
            found: c.found@,
            target: text::texts(c.target@),
        },
        Err(e) => Step::Fail(e@),
    }
}

/// Reads on to the next member that is to be restored.
#[verifier::spinoff_prover]
pub fn next_candidate(archive: &[u8], opts: &UnpackOpts, p: &mut Unpacking) -> (r: Result<
    Option<Candidate>,
    Error,
>)
    requires
        consistent(archive@, old(p)@),
    ensures
        (final(p)@, step_result(r)) == advanced(archive@, opts@, old(p)@),
        consistent(archive@, final(p)@),
        r matches Ok(Some(c)) ==> c.found.start <= c.found.end <= archive@.len()
            && final(p)@.members.len() < final(p)@.index,
{
    while p.index < p.count
        invariant
            consistent(archive@, p@),
            advanced(archive@, opts@, p@) == advanced(archive@, opts@, old(p)@),
        decreases p.count - p.index,
    {
        let index: u32 = p.index;
        let found: Found = match read_member(archive, p.at, Purpose::Unpack, index) {
            Ok(found) => found,
            Err(e) => return Err(e),
        };
        let ghost before = p@;
        p.at = found.end;
        p.index = index + 1;
        let wanted: bool = match &opts.only {
            Some(only) => text::same_text(found.path.as_str(), only.as_str()),
            None => true,
        };
        if !wanted {
            assert(p@ == past(before, found@.end));
        } else {
            if opts.only.is_some() {
                p.matched_only = true;
            }
            match place_for(found.path.as_str(), opts.strip_components) {
                Ok(None) => {
                    let ghost q = p@;
                    p.members.push(
                        UnpackMemberStats {
                            path: found.path.as_str().to_owned(),
                            original_bytes: found.original_len,
                            skipped: true,
                        },
                    );
                    p.skipped = p.skipped + 1;
                    assert(stats_view(p.members@) == q.members.push(
                        MemberStatsModel {
                            path: found@.path,
                            original_bytes: found@.original_len,
                            skipped: true,
                        },
                    ));
                    assert(p@ == with_skipped(q, found@));
                },
                Ok(Some(target)) => return Ok(Some(Candidate { index, found, target })),
                Err(e) => return Err(e),
            }
        }
    }
    Ok(None)
}

/// What is done with a member whose destination does or does not exist: its
/// contents are to be written, or it is skipped, or unpacking fails. `shown` is
/// the destination as errors show it.
pub open spec fn settled(
    archive: Seq<u8>,
    opts: OptsModel,
    index: u32,
    f: FoundModel,
    exists_already: bool,
    shown: Seq<char>,
) -> Result<Option<Seq<u8>>, Failure> {
    if exists_already && opts.skip_existing {
        Ok(None)
    } else if exists_already && !opts.force {
        Err(
            Failure {
                kind: ErrorKind::AlreadyExists,
                text: "output already exists: "@ + shown
                    + " (use --force to overwrite or --skip-existing)"@,
            },
        )
    } else {
        match member::opened(Purpose::Unpack, index, member::member_of(archive, f)) {
            Err(fault) => Err(fault),
            Ok(plain) => Ok(Some(plain)),
        }
    }
}

/// The progress after a member was settled.
pub open spec fn recorded(
    p: Progress,
    f: FoundModel,
    outcome: Result<Option<Seq<u8>>, Failure>,
) -> Progress {
    match outcome {
        Err(_) => p,
        Ok(None) => with_skipped(p, f),
        Ok(Some(_)) => with_written(p, f),
    }
}

/// The views of a settlement.
pub open spec fn settled_result(r: Result<Option<Vec<u8>>, Error>) -> Result<
    Option<Seq<u8>>,
    Failure,
> {
    match r {
        Err(e) => Err(e@),
        Ok(None) => Ok(None),
        Ok(Some(plain)) => Ok(Some(plain@)),
    }
}

/// Decides on a member now that its destination was looked at. Returns the
/// contents to write, or `None` where the member is skipped.
pub fn settle(
    archive: &[u8],
    opts: &UnpackOpts,
    p: &mut Unpacking,
    candidate: Candidate,
    exists_already: bool,
    shown: &str,
) -> (r: Result<Option<Vec<u8>>, Error>)
    requires
        consistent(archive@, old(p)@),
        old(p)@.members.len() < old(p)@.index,
        candidate.found.start <= candidate.found.end <= archive@.len(),
    ensures
        settled_result(r) == settled(
            archive@,
            opts@,
            candidate.index,
            candidate.found@,
            exists_already,
            shown@,
        ),
        final(p)@ == recorded(old(p)@, candidate.found@, settled_result(r)),
        consistent(archive@, final(p)@),
{
    let ghost before = p@;
    let ghost f = candidate.found@;
    if exists_already {
        if opts.skip_existing {
            p.members.push(
                UnpackMemberStats {
                    path: candidate.found.path,
                    original_bytes: candidate.found.original_len,
                    skipped: true,
                },
            );
            p.skipped = p.skipped + 1;
            assert(p@ == with_skipped(before, f));
            return Ok(None);
        }
        if !opts.force {
            return Err(
                error(
                    ErrorKind::AlreadyExists,
                    "output already exists: ".to_owned().concat(shown).concat(
                        " (use --force to overwrite or --skip-existing)",
                    ),
                ),
            );
        }
    }
    let plain: Vec<u8> = match open_member(
        archive,
        &candidate.found,
        Purpose::Unpack,
        candidate.index,
    ) {
        Ok(plain) => plain,
        Err(e) => return Err(e),
    };
    p.members.push(
        UnpackMemberStats {
            path: candidate.found.path,
            original_bytes: candidate.found.original_len,
            skipped: false,
        },
    );
    p.written = p.written + 1;
    assert(p@ == with_written(before, f));
    Ok(Some(plain))
}

/// The failure at the end of unpacking, if there is one: the wanted member was
/// not met.
pub open spec fn finish_fault(opts: OptsModel, p: Progress) -> Option<Failure> {
    match opts.only {
        Some(only) if !p.matched_only => Some(pack::not_in_archive(only)),
        _ => None,
    }
}

/// Ends unpacking.
pub fn finish_unpack(opts: &UnpackOpts, p: Unpacking, output_dir: &str) -> (r: Result<
    UnpackStats,
    Error,
>)
    ensures
        match finish_fault(opts@, p@) {
            Some(fault) => r matches Err(e) && e@ == fault,
            None => r matches Ok(stats) && stats_view(stats.members@) == p@.members
                && stats.written == p.written && stats.skipped == p.skipped
                && stats.output_dir@ == output_dir@,
        },
{
    match &opts.only {
        Some(only) => {
            if !p.matched_only {
                return Err(not_in_archive_error(only.as_str()));
            }
        },
        None => {},
    }
    Ok(
        UnpackStats {
            members: p.members,
            written: p.written,
            skipped: p.skipped,
            output_dir: output_dir.to_owned(),
        },
    )
}

/// Reading on never goes back, and a member that is asked for was read.
pub proof fn advance_moves(archive: Seq<u8>, opts: OptsModel, p: Progress)
    ensures
        advanced(archive, opts, p).0.count == p.count,
        advanced(archive, opts, p).0.index >= p.index,
        advanced(archive, opts, p).1 is Ask ==> p.index < advanced(archive, opts, p).0.index
            <= p.count,
    decreases p.count - p.index,
{
    if p.index < p.count {
        match member::member_at(archive, p.at, Purpose::Unpack, p.index) {
            Err(_) => {},
            Ok(f) => {
                if !wanted(opts, f.path) {
                    advance_moves(archive, opts, past(p, f.end));
                } else {
                    let q = past_wanted(opts, p, f.end);
                    advance_moves(archive, opts, with_skipped(q, f));
                }
            },
        }
    }
}

/// An existing file is skipped where existing files are skipped, else refused
/// unless overwriting is forced. Only what is written is opened.
pub proof fn existing_files_decide(
    archive: Seq<u8>,
    opts: OptsModel,
    index: u32,
    f: FoundModel,
    shown: Seq<char>,
)
    ensures
        opts.skip_existing ==> settled(archive, opts, index, f, true, shown) == Ok::<
            Option<Seq<u8>>,
            Failure,
        >(None),
        !opts.skip_existing && !opts.force ==> (settled(
            archive,
            opts,
            index,
            f,
            true,
            shown,
        ) matches Err(fault) && fault.kind == ErrorKind::AlreadyExists),
        !opts.skip_existing && opts.force ==> settled(archive, opts, index, f, true, shown)
            == settled(archive, opts, index, f, false, shown),
        settled(archive, opts, index, f, false, shown) matches Ok(plain) ==> plain is Some
            && member::opened(Purpose::Unpack, index, member::member_of(archive, f)) == Ok::<
            Seq<u8>,
            Failure,
        >(plain->Some_0),
        settled(archive, opts, index, f, false, shown) is Err <==> member::opened(
            Purpose::Unpack,
            index,
            member::member_of(archive, f),
        ) is Err,
{
}

} // verus!
