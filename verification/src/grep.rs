//! Searching the text of archive members.

use vstd::prelude::*;

use crate::codec;
use crate::codec::decode_lossy;
use crate::container;
use crate::container::decompress_reader;
use crate::error::{error, Error, ErrorKind, Failure};
use crate::header;
use crate::header::{peek_version, read_header, Header, VERSION_V3};
use crate::member;
use crate::member::{open_member, read_member, Found, MemberModel, Purpose};
use crate::pack;
use crate::pack::{read_prologue, Prologue};
use crate::packing;
use crate::text;

verus! {

/// Default largest size of a member that is searched: 32 MiB.
pub const DEFAULT_GREP_MAX_SIZE: u64 = 33554432;

/// A compiled regular expression.
#[verifier::external_type_specification]
#[verifier::external_body]
pub struct ExRegex(regex::Regex);

/// The pattern that a regular expression was compiled from.
pub uninterp spec fn regex_pattern(re: regex::Regex) -> Seq<char>;

/// Whether the regular expression `pattern` matches anywhere in `line`.
pub uninterp spec fn regex_matches(pattern: Seq<char>, line: Seq<char>) -> bool;

/// What the regex parser says of a malformed pattern, and nothing of others.
pub uninterp spec fn regex_fault(pattern: Seq<char>) -> Option<Seq<char>>;

/// Why a pattern did not compile.
#[derive(Debug)]
pub enum PatternError {
    /// It is malformed.
    Malformed(String),
    /// It takes more memory than a regular expression may.
    TooBig(String),
}

/// Calls `regex::Regex::new`, which parses the pattern before it compiles it.
/// The contract says that the expression keeps its pattern and that whether a
/// pattern is malformed, and the message then, depend on the pattern alone. It
/// does not say which other patterns are too big to compile: the sizes that are
/// added up for that depend on the machine.
#[verifier::external_body]
pub(crate) fn compile_regex(pattern: &str) -> (r: Result<regex::Regex, PatternError>)
    ensures
        match r {
            Ok(re) => regex_pattern(re) == pattern@ && regex_fault(pattern@) is None,
            Err(PatternError::Malformed(message)) => regex_fault(pattern@) == Some(message@),
            Err(PatternError::TooBig(_)) => regex_fault(pattern@) is None,
        },
{
    regex::Regex::new(pattern).map_err(
        |e| match e {
            regex::Error::Syntax(message) => PatternError::Malformed(message),
            other => PatternError::TooBig(other.to_string()),
        },
    )
}

/// Calls `regex::Regex::is_match`. The contract says that a match depends on
/// the pattern and the line alone.
#[verifier::external_body]
pub(crate) fn line_matches(re: &regex::Regex, line: &str) -> (yes: bool)
    ensures
        yes == regex_matches(regex_pattern(*re), line@),
{
    re.is_match(line)
}

/// One matching line.
#[derive(Debug)]
pub struct GrepMatch {
    pub member: String,
    /// Counted from 1.
    pub line_number: usize,
    pub line: String,
}

/// The view of a [`GrepMatch`].
#[verifier::ext_equal]
pub struct Hit {
    pub member: Seq<char>,
    pub line_number: nat,
    pub line: Seq<char>,
}

impl View for GrepMatch {
    type V = Hit;

    open spec fn view(&self) -> Hit {
        Hit {
            member: self.member@,
            line_number: self.line_number as nat,
            line: self.line@,
        }
    }
}

/// The views of matching lines.
pub open spec fn hits_view(matches: Seq<GrepMatch>) -> Seq<Hit> {
    matches.map_values(|m: GrepMatch| m@)
}

/// The lines that match, with their numbers.
pub open spec fn hits(member: Seq<char>, lines: Seq<Seq<char>>, pattern: Seq<char>) -> Seq<Hit>
    decreases lines.len(),
{
    if lines.len() == 0 {
        Seq::empty()
    } else {
        let before = hits(member, lines.drop_last(), pattern);
        if regex_matches(pattern, lines.last()) {
            before.push(Hit { member, line_number: lines.len(), line: lines.last() })
        } else {
            before
        }
    }
}

/// The matching lines of a member. What is not UTF-8 is replaced, so that any
/// member can be searched.
pub open spec fn hits_in(member: Seq<char>, plain: Seq<u8>, pattern: Seq<char>) -> Seq<Hit> {
    hits(member, text::lines(codec::lossy_text(plain)), pattern)
}

/// Appends the matching lines of a member.
pub fn grep_plain(
    member: &str,
    plain: &[u8],
    re: &regex::Regex,
    matches: &mut Vec<GrepMatch>,
)
    ensures
        hits_view(final(matches)@) == hits_view(old(matches)@) + hits_in(
            member@,
            plain@,
            regex_pattern(*re),
        ),
{
    let ghost pattern = regex_pattern(*re);
    let shown: String = decode_lossy(plain);
    let lines: Vec<String> = text::text_lines(shown.as_str());
    let ghost all = text::texts(lines@);
    let mut i: usize = 0;
    assert(all.take(0) == Seq::<Seq<char>>::empty());
    assert(hits_view(matches@) == hits_view(old(matches)@) + hits(member@, all.take(0), pattern));
    while i < lines.len()
        invariant
            i <= lines@.len(),
            all == text::texts(lines@),
            pattern == regex_pattern(*re),
            hits_view(matches@) == hits_view(old(matches)@) + hits(
                member@,
                all.take(i as int),
                pattern,
            ),
        decreases lines@.len() - i,
    {
        let line: &str = lines[i].as_str();
        assert(all.take(i + 1).drop_last() == all.take(i as int));
        if line_matches(re, line) {
            let ghost before = hits_view(matches@);
            matches.push(
                GrepMatch { member: member.to_owned(), line_number: i + 1, line: line.to_owned() },
            );
            assert(hits_view(matches@) == before.push(matches@.last()@));
        }
        i = i + 1;
        assert(hits_view(matches@) == hits_view(old(matches)@) + hits(
            member@,
            all.take(i as int),
            pattern,
        ));
    }
    assert(all.take(i as int) == all);
}

/// What a search found.
#[derive(Debug)]
pub struct Findings {
    pub matches: Vec<GrepMatch>,
    pub members_searched: u32,
    pub members_skipped: u32,
}

/// The view of [`Findings`].
#[verifier::ext_equal]
pub struct FindingsModel {
    pub matches: Seq<Hit>,
    pub searched: nat,
    pub skipped: nat,
}

impl View for Findings {
    type V = FindingsModel;

    open spec fn view(&self) -> FindingsModel {
        FindingsModel {
            matches: hits_view(self.matches@),
            searched: self.members_searched as nat,
            skipped: self.members_skipped as nat,
        }
    }
}

/// Nothing found yet.
pub open spec fn nothing() -> FindingsModel {
    FindingsModel { matches: Seq::empty(), searched: 0, skipped: 0 }
}

/// Two findings one behind the other.
pub open spec fn together(a: FindingsModel, b: FindingsModel) -> FindingsModel {
    FindingsModel {
        matches: a.matches + b.matches,
        searched: a.searched + b.searched,
        skipped: a.skipped + b.skipped,
    }
}

/// `a` in front of what `rest` gives.
pub open spec fn continued(a: FindingsModel, rest: Result<FindingsModel, Failure>) -> Result<
    FindingsModel,
    Failure,
> {
    match rest {
        Err(fault) => Err(fault),
        Ok(b) => Ok(together(a, b)),
    }
}

/// A member that was skipped.
pub open spec fn one_skipped() -> FindingsModel {
    FindingsModel { matches: Seq::empty(), searched: 0, skipped: 1 }
}

/// A member that was searched.
pub open spec fn one_searched(matches: Seq<Hit>) -> FindingsModel {
    FindingsModel { matches, searched: 1, skipped: 0 }
}

/// Searches the members from offset `p` on. Members larger than `max_size` are
/// skipped; the others are checked before they are searched.
pub open spec fn found_from(
    archive: Seq<u8>,
    p: int,
    index: u32,
    count: u32,
    pattern: Seq<char>,
    max_size: u64,
) -> Result<FindingsModel, Failure>
    decreases count - index,
{
    if index >= count {
        Ok(nothing())
    } else {
        match member::member_at(archive, p, Purpose::Search, index) {
            Err(fault) => Err(fault),
            Ok(f) => {
                let rest = found_from(archive, f.end, (index + 1) as u32, count, pattern, max_size);
                if f.original_len > max_size {
                    continued(one_skipped(), rest)
                } else {
                    match member::opened(
                        Purpose::Search,
                        index,
                        member::member_of(archive, f),
                    ) {
                        Err(fault) => Err(fault),
                        Ok(plain) => continued(
                            one_searched(hits_in(f.path, plain, pattern)),
                            rest,
                        ),
                    }
                }
            },
        }
    }
}

/// Searches an archive of either kind. `name` stands for the contents of a
/// single-file archive.
pub open spec fn found_in(
    archive: Seq<u8>,
    name: Seq<char>,
    pattern: Seq<char>,
    max_size: u64,
) -> Result<FindingsModel, Failure> {
    match header::version_of(archive) {
        Err(fault) => Err(fault),
        Ok(version) => if version == VERSION_V3 {
            match pack::prologue(archive, Purpose::Search) {
                Err(fault) => Err(fault),
                Ok(head) => found_from(archive, 13, 0, head.count, pattern, max_size),
            }
        } else {
            match header::parsed_header(archive) {
                Err(fault) => Err(fault),
                Ok(h) => if h.original_len > max_size {
                    Ok(one_skipped())
                } else {
                    match container::restored(archive, Seq::empty()) {
                        Err(fault) => Err(fault),
                        Ok(plain) => Ok(one_searched(hits_in(name, plain, pattern))),
                    }
                },
            }
        },
    }
}

/// The views of a search.
pub open spec fn findings_result(r: Result<Findings, Error>) -> Result<FindingsModel, Failure> {
    match r {
        Ok(f) => Ok(f@),
        Err(e) => Err(e@),
    }
}

/// One finding in front of others.
proof fn together_step(a: FindingsModel, one: FindingsModel, rest: Result<FindingsModel, Failure>)
    ensures
        continued(a, continued(one, rest)) == continued(together(a, one), rest),
{
    if let Ok(b) = rest {
        assert(a.matches + (one.matches + b.matches) == a.matches + one.matches + b.matches);
    }
}

/// Searches the members of a pack.
#[verifier::spinoff_prover]
fn search_pack(archive: &[u8], re: &regex::Regex, max_size: u64) -> (r: Result<Findings, Error>)
    requires
        header::version_of(archive@) == Ok::<u8, Failure>(VERSION_V3),
    ensures
        findings_result(r) == found_in(archive@, Seq::empty(), regex_pattern(*re), max_size),
{
    let ghost pattern = regex_pattern(*re);
    let head: Prologue = match read_prologue(archive, Purpose::Search) {
        Ok(head) => head,
        Err(e) => return Err(e),
    };
    let mut matches: Vec<GrepMatch> = Vec::new();
    let mut members_searched: u32 = 0;
    let mut members_skipped: u32 = 0;
    let mut at: usize = 13;
    let mut index: u32 = 0;
    let ghost whole = found_from(archive@, 13, 0, head.count, pattern, max_size);
    let ghost mut done = nothing();
    assert(hits_view(matches@) == Seq::<Hit>::empty());
    proof {
        if let Ok(all) = whole {
            assert(Seq::<Hit>::empty() + all.matches == all.matches);
        }
    }
    while index < head.count
        invariant
            index <= head.count,
            at <= archive@.len(),
            pattern == regex_pattern(*re),
            members_searched + members_skipped == index,
            done == (FindingsModel {
                matches: hits_view(matches@),
                searched: members_searched as nat,
                skipped: members_skipped as nat,
            }),
            whole == found_in(archive@, Seq::empty(), pattern, max_size),
            continued(
                done,
                found_from(archive@, at as int, index, head.count, pattern, max_size),
            ) == whole,
        decreases head.count - index,
    {
        let f: Found = match read_member(archive, at, Purpose::Search, index) {
            Ok(f) => f,
            Err(e) => return Err(e),
        };
        let ghost rest = found_from(
            archive@,
            f.end as int,
            (index + 1) as u32,
            head.count,
            pattern,
            max_size,
        );
        if f.original_len > max_size {
            members_skipped = members_skipped + 1;
            proof {
                together_step(done, one_skipped(), rest);
                done = together(done, one_skipped());
                assert(done.matches == hits_view(matches@));
            }
        } else {
            let plain: Vec<u8> = match open_member(archive, &f, Purpose::Search, index) {
                Ok(plain) => plain,
                Err(e) => return Err(e),
            };
            members_searched = members_searched + 1;
            grep_plain(f.path.as_str(), plain.as_slice(), re, &mut matches);
            proof {
                let one = one_searched(hits_in(f.path@, plain@, pattern));
                together_step(done, one, rest);
                done = together(done, one);
            }
        }
        at = f.end;
        index = index + 1;
    }
    let findings: Findings = Findings { matches, members_searched, members_skipped };
    assert(together(done, nothing()) == done) by {
        assert(done.matches + Seq::<Hit>::empty() == done.matches);
    }
    Ok(findings)
}

/// Searches an archive of either kind with a compiled expression.
pub fn search_archive(archive: &[u8], name: &str, re: &regex::Regex, max_size: u64) -> (r: Result<
    Findings,
    Error,
>)
    ensures
        findings_result(r) == found_in(archive@, name@, regex_pattern(*re), max_size),
{
    let version: u8 = match peek_version(archive) {
        Ok(version) => version,
        Err(e) => return Err(e),
    };
    if version == VERSION_V3 {
        return search_pack(archive, re, max_size);
    }
    let header: Header = match read_header(archive) {
        Ok(header) => header,
        Err(e) => return Err(e),
    };
    let mut matches: Vec<GrepMatch> = Vec::new();
    assert(hits_view(matches@) == Seq::<Hit>::empty());
    if header.original_len > max_size {
        return Ok(Findings { matches, members_searched: 0, members_skipped: 1 });
    }
    let mut plain: Vec<u8> = Vec::new();
    let ghost none = plain@;
    match decompress_reader(archive, &mut plain) {
        Ok(_) => {},
        Err(e) => return Err(e),
    }
    assert(none + container::written_by(archive@, Seq::empty()) == container::written_by(
        archive@,
        Seq::empty(),
    ));
    grep_plain(name, plain.as_slice(), re, &mut matches);
    let findings: Findings = Findings { matches, members_searched: 1, members_skipped: 0 };
    assert(findings@.matches == hits_in(name@, plain@, regex_pattern(*re)));
    Ok(findings)
}

/// Result of grepping an archive.
#[derive(Debug)]
pub struct GrepResult {
    pub pattern: String,
    pub matches: Vec<GrepMatch>,
    pub members_searched: u32,
    pub members_skipped: u32,
    pub match_count: u32,
}

/// The failure of a pattern that does not compile.
pub open spec fn bad_pattern(pattern: Seq<char>, message: Seq<char>) -> Failure {
    Failure {
        kind: ErrorKind::InvalidPattern,
        text: "invalid regex pattern: "@ + pattern + ": "@ + message,
    }
}

/// Whether `result` tells what was found with `pattern`. Matches are counted
/// modulo 2^32.
pub open spec fn presents(result: GrepResult, pattern: Seq<char>, found: FindingsModel) -> bool {
    &&& result.pattern@ == pattern
    &&& hits_view(result.matches@) == found.matches
    &&& result.members_searched == found.searched
    &&& result.members_skipped == found.skipped
    &&& result.match_count == found.matches.len() % 0x1_0000_0000
}

/// Searches an archive with `pattern`, of which compiling gave `compiled`.
pub fn grep_compiled(
    archive: &[u8],
    name: &str,
    pattern: &str,
    compiled: Result<regex::Regex, PatternError>,
    max_size: u64,
) -> (r: Result<GrepResult, Error>)
    ensures
        match compiled {
            Err(PatternError::Malformed(message)) | Err(PatternError::TooBig(message)) => r matches Err(
                e,
            ) && e@ == bad_pattern(pattern@, message@),
            Ok(re) => match found_in(archive@, name@, regex_pattern(re), max_size) {
                Ok(found) => r matches Ok(result) && presents(result, pattern@, found),
                Err(fault) => r matches Err(e) && e@ == fault,
            },
        },
{
    let re: regex::Regex = match compiled {
        Ok(re) => re,
        Err(PatternError::Malformed(message)) | Err(PatternError::TooBig(message)) => {
            return Err(
                error(
                    ErrorKind::InvalidPattern,
                    "invalid regex pattern: ".to_owned().concat(pattern).concat(": ").concat(
                        message.as_str(),
                    ),
                ),
            );
        },
    };
    match search_archive(archive, name, &re, max_size) {
        Ok(found) => {
            let count: u64 = found.matches.len() as u64;
            Ok(
                GrepResult {
                    pattern: pattern.to_owned(),
                    matches: found.matches,
                    members_searched: found.members_searched,
                    members_skipped: found.members_skipped,
                    match_count: (count % 0x1_0000_0000) as u32,
                },
            )
        },
        Err(e) => Err(e),
    }
}

/// Grep decompressed text of archive members, single-file or pack. Members
/// whose original size exceeds `max_size` are skipped. `name` stands for the
/// contents of a single-file archive. A malformed pattern is an error, and so
/// is one that the regex engine finds too big.
pub fn grep_archive(archive: &[u8], name: &str, pattern: &str, max_size: u64) -> (r: Result<
    GrepResult,
    Error,
>)
    ensures
        match regex_fault(pattern@) {
            Some(message) => r matches Err(e) && e@ == bad_pattern(pattern@, message),
            None => match r {
                Ok(result) => found_in(archive@, name@, pattern@, max_size) matches Ok(found)
                    && presents(result, pattern@, found),
                Err(e) => {
                    ||| exists|message: Seq<char>| e@ == bad_pattern(pattern@, message)
                    ||| found_in(archive@, name@, pattern@, max_size) == Err::<
                        FindingsModel,
                        Failure,
                    >(e@)
                },
            },
        },
{
    let compiled: Result<regex::Regex, PatternError> = compile_regex(pattern);
    grep_compiled(archive, name, pattern, compiled, max_size)
}

/// Every match is a line of the text: its number says which, and it matches the
/// pattern.
pub proof fn hits_are_lines(member: Seq<char>, lines: Seq<Seq<char>>, pattern: Seq<char>)
    ensures
        forall|i: int|
            0 <= i < hits(member, lines, pattern).len() ==> {
                let hit = #[trigger] hits(member, lines, pattern)[i];
                hit.member == member && 1 <= hit.line_number <= lines.len() && hit.line
                    == lines[hit.line_number - 1] && regex_matches(pattern, hit.line)
            },
    decreases lines.len(),
{
    if lines.len() > 0 {
        hits_are_lines(member, lines.drop_last(), pattern);
        let before = hits(member, lines.drop_last(), pattern);
        assert forall|i: int| 0 <= i < hits(member, lines, pattern).len() implies {
            let hit = #[trigger] hits(member, lines, pattern)[i];
            hit.member == member && 1 <= hit.line_number <= lines.len() && hit.line
                == lines[hit.line_number - 1] && regex_matches(pattern, hit.line)
        } by {
            if i < before.len() {
                assert(hits(member, lines, pattern)[i] == before[i]);
            }
        }
    }
}

/// Every line that matches is found.
pub proof fn matching_lines_are_hits(
    member: Seq<char>,
    lines: Seq<Seq<char>>,
    pattern: Seq<char>,
    k: int,
)
    requires
        0 <= k < lines.len(),
        regex_matches(pattern, lines[k]),
    ensures
        hits(member, lines, pattern).contains(
            Hit { member, line_number: (k + 1) as nat, line: lines[k] },
        ),
    decreases lines.len(),
{
    let hit = Hit { member, line_number: (k + 1) as nat, line: lines[k] };
    let all = hits(member, lines, pattern);
    if k == lines.len() - 1 {
        assert(all[all.len() - 1] == hit);
    } else {
        let init = lines.drop_last();
        assert(init[k] == lines[k]);
        matching_lines_are_hits(member, init, pattern, k);
        let i = choose|i: int|
            0 <= i < hits(member, init, pattern).len() && hits(member, init, pattern)[i] == hit;
        assert(all[i] == hit);
    }
}

/// The matches of a text come in the order of its lines, each line at most
/// once.
pub proof fn hits_ascend(member: Seq<char>, lines: Seq<Seq<char>>, pattern: Seq<char>)
    ensures
        forall|i: int, j: int|
            0 <= i < j < hits(member, lines, pattern).len() ==> (#[trigger] hits(
                member,
                lines,
                pattern,
            )[i]).line_number < (#[trigger] hits(member, lines, pattern)[j]).line_number,
    decreases lines.len(),
{
    if lines.len() > 0 {
        let init = lines.drop_last();
        let before = hits(member, init, pattern);
        let all = hits(member, lines, pattern);
        hits_ascend(member, init, pattern);
        hits_are_lines(member, init, pattern);
        assert forall|i: int, j: int| 0 <= i < j < all.len() implies (
        #[trigger] all[i]).line_number < (#[trigger] all[j]).line_number by {
            assert(all[i] == before[i]);
            if j < before.len() {
                assert(all[j] == before[j]);
            }
        }
    }
}

/// The matching lines of each member, none where the member is too large to be
/// searched.
pub open spec fn hits_by_member(
    members: Seq<MemberModel>,
    data: Seq<Seq<u8>>,
    pattern: Seq<char>,
    max_size: u64,
) -> Seq<Seq<Hit>> {
    Seq::new(
        members.len(),
        |k: int|
            if members[k].original_len <= max_size {
                hits(members[k].path, text::lines(codec::lossy_text(data[k])), pattern)
            } else {
                Seq::empty()
            },
    )
}

proof fn filter_front<A>(s: Seq<A>, keep: spec_fn(A) -> bool)
    requires
        s.len() > 0,
    ensures
        s.filter(keep).len() == s.skip(1).filter(keep).len() + if keep(s[0]) {
            1int
        } else {
            0
        },
{
    let one = seq![s[0]];
    assert(one + s.skip(1) == s);
    Seq::filter_distributes_over_add(one, s.skip(1), keep);
    reveal(Seq::filter);
    assert(one.drop_last() == Seq::<A>::empty());
    assert(one.drop_last().filter(keep) == Seq::<A>::empty());
}

proof fn found_from_offset(
    level: i32,
    members: Seq<MemberModel>,
    data: Seq<Seq<u8>>,
    i: int,
    pattern: Seq<char>,
    max_size: u64,
)
    requires
        packing::readable(members, Purpose::Search),
        data.len() == members.len(),
        forall|k: int|
            0 <= k < members.len() && members[k].original_len <= max_size ==> packing::holds(
                #[trigger] members[k],
                data[k],
            ),
        0 <= i <= members.len(),
    ensures
        found_from(
            pack::pack_bytes(level, members),
            packing::offset(members, i),
            i as u32,
            members.len() as u32,
            pattern,
            max_size,
        ) matches Ok(found) && {
            &&& found.matches == hits_by_member(members, data, pattern, max_size).skip(i).flatten()
            &&& found.searched == members.skip(i).filter(
                |m: MemberModel| m.original_len <= max_size,
            ).len()
            &&& found.skipped == members.skip(i).filter(
                |m: MemberModel| m.original_len > max_size,
            ).len()
        },
    decreases members.len() - i,
{
    let all = hits_by_member(members, data, pattern, max_size);
    let rest = members.skip(i);
    let small = |m: MemberModel| m.original_len <= max_size;
    let large = |m: MemberModel| m.original_len > max_size;
    if i < members.len() {
        packing::member_at_offset(level, members, i, Purpose::Search, i as u32);
        found_from_offset(level, members, data, i + 1, pattern, max_size);
        assert(members[i].original_len <= max_size ==> packing::holds(members[i], data[i]));
        assert(rest.skip(1) == members.skip(i + 1));
        assert(rest[0] == members[i]);
        filter_front(rest, small);
        filter_front(rest, large);
        assert(all.skip(i).drop_first() == all.skip(i + 1));
        assert(all.skip(i).first() == all[i]);
        let later = all.skip(i + 1).flatten();
        assert(all.skip(i).flatten() == all[i] + later);
        assert(Seq::<Hit>::empty() + later == later);
    } else {
        reveal(Seq::filter);
        assert(rest == Seq::<MemberModel>::empty());
        assert(all.skip(i) == Seq::<Seq<Hit>>::empty());
    }
}

/// Searching a pack finds the matching lines of every member that is not too
/// large, member after member, and counts the members on either side of the
/// limit. Members that are too large are not opened, so they may be damaged.
pub proof fn search_of_packed(
    level: i32,
    members: Seq<MemberModel>,
    data: Seq<Seq<u8>>,
    name: Seq<char>,
    pattern: Seq<char>,
    max_size: u64,
)
    requires
        packing::readable(members, Purpose::Search),
        data.len() == members.len(),
        forall|k: int|
            0 <= k < members.len() && members[k].original_len <= max_size ==> packing::holds(
                #[trigger] members[k],
                data[k],
            ),
    ensures
        found_in(pack::pack_bytes(level, members), name, pattern, max_size) matches Ok(found) && {
            &&& found.matches == hits_by_member(members, data, pattern, max_size).flatten()
            &&& found.searched == members.filter(
                |m: MemberModel| m.original_len <= max_size,
            ).len()
            &&& found.skipped == members.filter(|m: MemberModel| m.original_len > max_size).len()
        },
{
    let archive = pack::pack_bytes(level, members);
    let all = hits_by_member(members, data, pattern, max_size);
    packing::prologue_round_trip(
        level,
        members.len() as u32,
        pack::members_bytes(members),
        Purpose::Search,
    );
    assert(archive.take(4) == header::MAGIC@);
    assert(members.take(0) == Seq::<MemberModel>::empty());
    assert(members.skip(0) == members);
    assert(all.skip(0) == all);
    found_from_offset(level, members, data, 0, pattern, max_size);
}

proof fn flatten_holds<A>(lists: Seq<Seq<A>>, k: int, x: A)
    requires
        0 <= k < lists.len(),
        lists[k].contains(x),
    ensures
        lists.flatten().contains(x),
    decreases lists.len(),
{
    let rest = lists.drop_first();
    let all = lists.first() + rest.flatten();
    assert(lists.flatten() == all);
    if k == 0 {
        let i = choose|i: int| 0 <= i < lists[0].len() && lists[0][i] == x;
        assert(all[i] == x);
    } else {
        assert(rest[k - 1] == lists[k]);
        flatten_holds(rest, k - 1, x);
        let i = choose|i: int| 0 <= i < rest.flatten().len() && rest.flatten()[i] == x;
        assert(all[lists.first().len() + i] == x);
    }
}

proof fn flatten_comes_from<A>(lists: Seq<Seq<A>>, x: A) -> (k: int)
    requires
        lists.flatten().contains(x),
    ensures
        0 <= k < lists.len(),
        lists[k].contains(x),
    decreases lists.len(),
{
    let all = lists.flatten();
    let i = choose|i: int| 0 <= i < all.len() && all[i] == x;
    if lists.len() == 0 {
        assert(all == Seq::<A>::empty());
        0
    } else {
        let rest = lists.drop_first();
        assert(all == lists.first() + rest.flatten());
        if i < lists.first().len() {
            assert(lists[0][i] == x);
            0
        } else {
            assert(rest.flatten()[i - lists.first().len()] == x);
            let k = flatten_comes_from(rest, x);
            assert(rest[k] == lists[k + 1]);
            k + 1
        }
    }
}

/// A search of a pack reports every line that matches, of every member that is
/// not too large, with the path of the member and the number of the line.
pub proof fn matching_lines_are_reported(
    result: GrepResult,
    level: i32,
    members: Seq<MemberModel>,
    data: Seq<Seq<u8>>,
    name: Seq<char>,
    pattern: Seq<char>,
    max_size: u64,
    k: int,
    n: int,
)
    requires
        packing::readable(members, Purpose::Search),
        data.len() == members.len(),
        forall|i: int|
            0 <= i < members.len() && members[i].original_len <= max_size ==> packing::holds(
                #[trigger] members[i],
                data[i],
            ),
        found_in(pack::pack_bytes(level, members), name, pattern, max_size) matches Ok(found)
            && presents(result, pattern, found),
        0 <= k < members.len(),
        members[k].original_len <= max_size,
        0 <= n < text::lines(codec::lossy_text(data[k])).len(),
        regex_matches(pattern, text::lines(codec::lossy_text(data[k]))[n]),
    ensures
        exists|i: int|
            0 <= i < result.matches@.len() && (#[trigger] result.matches@[i]).member@
                == members[k].path && result.matches@[i].line_number == n + 1
                && result.matches@[i].line@ == text::lines(codec::lossy_text(data[k]))[n],
{
    let lines = text::lines(codec::lossy_text(data[k]));
    let all = hits_by_member(members, data, pattern, max_size);
    let hit = Hit { member: members[k].path, line_number: (n + 1) as nat, line: lines[n] };
    search_of_packed(level, members, data, name, pattern, max_size);
    matching_lines_are_hits(members[k].path, lines, pattern, n);
    flatten_holds(all, k, hit);
    let view = hits_view(result.matches@);
    assert(view.contains(hit));
    let i = choose|i: int| 0 <= i < view.len() && view[i] == hit;
    assert(result.matches@[i]@ == hit);
}

/// Whatever a search of a pack reports is a matching line of a member that is
/// not too large, and the counts are those of the matches and of the members.
pub proof fn reported_lines_match(
    result: GrepResult,
    level: i32,
    members: Seq<MemberModel>,
    data: Seq<Seq<u8>>,
    name: Seq<char>,
    pattern: Seq<char>,
    max_size: u64,
)
    requires
        packing::readable(members, Purpose::Search),
        data.len() == members.len(),
        forall|i: int|
            0 <= i < members.len() && members[i].original_len <= max_size ==> packing::holds(
                #[trigger] members[i],
                data[i],
            ),
        found_in(pack::pack_bytes(level, members), name, pattern, max_size) matches Ok(found)
            && presents(result, pattern, found),
    ensures
        forall|i: int|
            0 <= i < result.matches@.len() ==> exists|k: int|
                0 <= k < members.len() && #[trigger] members[k].path == (
                #[trigger] result.matches@[i]).member@ && members[k].original_len <= max_size
                    && matching_line(
                    pattern,
                    text::lines(codec::lossy_text(data[k])),
                    result.matches@[i],
                ),
        result.matches@.len() <= u32::MAX ==> result.match_count == result.matches@.len(),
        result.members_searched == members.filter(
            |m: MemberModel| m.original_len <= max_size,
        ).len(),
        result.members_skipped == members.filter(
            |m: MemberModel| m.original_len > max_size,
        ).len(),
        result.pattern@ == pattern,
{
    let all = hits_by_member(members, data, pattern, max_size);
    search_of_packed(level, members, data, name, pattern, max_size);
    let view = hits_view(result.matches@);
    assert(view.len() == result.matches@.len());
    assert forall|i: int| 0 <= i < result.matches@.len() implies exists|k: int|
        0 <= k < members.len() && #[trigger] members[k].path == (
        #[trigger] result.matches@[i]).member@ && members[k].original_len <= max_size
            && matching_line(
            pattern,
            text::lines(codec::lossy_text(data[k])),
            result.matches@[i],
        ) by {
        assert(view[i] == result.matches@[i]@);
        assert(all.flatten().contains(view[i]));
        let k = flatten_comes_from(all, view[i]);
        let lines = text::lines(codec::lossy_text(data[k]));
        hits_are_lines(members[k].path, lines, pattern);
        let j = choose|j: int| 0 <= j < all[k].len() && all[k][j] == view[i];
        assert(hits(members[k].path, lines, pattern)[j] == view[i]);
        assert(members[k].path == result.matches@[i].member@);
    }
}

/// Whether `m` is one of `lines`, by its number, and matches.
pub open spec fn matching_line(pattern: Seq<char>, lines: Seq<Seq<char>>, m: GrepMatch) -> bool {
    1 <= m.line_number <= lines.len() && m.line@ == lines[m.line_number - 1] && regex_matches(
        pattern,
        m.line@,
    )
}

/// Searching a single-file archive searches its contents under the given name,
/// unless they are too large.
pub proof fn search_of_container(
    data: Seq<u8>,
    level: i32,
    frame: Seq<u8>,
    name: Seq<char>,
    pattern: Seq<char>,
    max_size: u64,
)
    requires
        data.len() <= u64::MAX,
        codec::decodes_to(frame, Seq::empty(), data),
        codec::sha256_digest(data).len() == codec::HASH_LEN,
    ensures
        found_in(container::container_bytes(data, level, frame), name, pattern, max_size) matches Ok(
            found,
        ) && if data.len() <= max_size {
            found.matches == hits(name, text::lines(codec::lossy_text(data)), pattern)
                && found.searched == 1 && found.skipped == 0
        } else {
            found.matches.len() == 0 && found.searched == 0 && found.skipped == 1
        },
{
    container::container_round_trip(data, level, frame, Seq::empty());
    let h = header::v2_header(level, data.len() as u64, codec::sha256_digest(data));
    header::header_round_trip(h, frame);
}

proof fn search_meets_damage(
    level: i32,
    members: Seq<MemberModel>,
    i: int,
    k: int,
    pattern: Seq<char>,
    max_size: u64,
)
    requires
        packing::readable(members, Purpose::Search),
        0 <= i <= k < members.len(),
        members[k].original_len <= max_size,
        member::opened(Purpose::Search, k as u32, members[k]) is Err,
    ensures
        found_from(
            pack::pack_bytes(level, members),
            packing::offset(members, i),
            i as u32,
            members.len() as u32,
            pattern,
            max_size,
        ) is Err,
    decreases k - i,
{
    packing::member_at_offset(level, members, i, Purpose::Search, i as u32);
    if i < k {
        search_meets_damage(level, members, i + 1, k, pattern, max_size);
    }
}

/// A search fails if a member that it looks into is damaged: its payload decodes
/// to data with another size or digest than it records.
pub proof fn damaged_pack_is_not_searched(
    level: i32,
    members: Seq<MemberModel>,
    k: int,
    plain: Seq<u8>,
    name: Seq<char>,
    pattern: Seq<char>,
    max_size: u64,
)
    requires
        packing::readable(members, Purpose::Search),
        0 <= k < members.len(),
        members[k].original_len <= max_size,
        codec::decodes_to(members[k].payload, Seq::empty(), plain),
        plain.len() != members[k].original_len || codec::sha256_digest(plain)
            != members[k].checksum,
    ensures
        found_in(pack::pack_bytes(level, members), name, pattern, max_size) is Err,
{
    let archive = pack::pack_bytes(level, members);
    packing::prologue_round_trip(
        level,
        members.len() as u32,
        pack::members_bytes(members),
        Purpose::Search,
    );
    assert(archive.take(4) == header::MAGIC@);
    assert(members.take(0) == Seq::<MemberModel>::empty());
    member::damaged_member_does_not_open(Purpose::Search, k as u32, members[k], plain);
    search_meets_damage(level, members, 0, k, pattern, max_size);
}

/// A single-file archive that is too large is skipped without being opened.
pub proof fn large_container_is_skipped(
    h: header::HeaderModel,
    frame: Seq<u8>,
    name: Seq<char>,
    pattern: Seq<char>,
    max_size: u64,
)
    requires
        header::header_fault(h) is None,
        h.version == header::VERSION_V1 || h.version == header::VERSION,
        h.checksum matches Some(hash) ==> hash.len() == 32,
        h.original_len > max_size,
    ensures
        found_in(header::header_bytes(h) + frame, name, pattern, max_size) matches Ok(found)
            && found.matches.len() == 0 && found.searched == 0 && found.skipped == 1,
{
    header::header_round_trip(h, frame);
}

} // verus!
