//! Which files under a directory an operation takes.

use vstd::prelude::*;

use crate::error::{Error, Failure};
use crate::exclude;
use crate::exclude::is_excluded;
use crate::header::VERSION_V3;
use crate::inspect;
use crate::paths;
use crate::paths::{normalize_archive_path, PathPart};
use crate::text;

verus! {

/// Options for packing a directory.
#[derive(Debug)]
pub struct PackOpts {
    /// Glob patterns to exclude.
    pub excludes: Vec<String>,
    /// Only take files modified within the last so many days.
    pub newer_than_days: Option<u64>,
    /// Overwrite the output archive if it already exists.
    pub force: bool,
}

impl Default for PackOpts {
    fn default() -> (opts: Self)
        ensures
            opts.excludes@.len() == 0,
            opts.newer_than_days is None,
            !opts.force,
    {
        PackOpts { excludes: Vec::new(), newer_than_days: None, force: false }
    }
}

/// A point in time: seconds since the epoch, which may be negative, and
/// nanoseconds besides.
#[derive(Debug, Clone, Copy, PartialEq, Eq)]
pub struct Stamp {
    pub secs: i64,
    pub nanos: u32,
}

/// Whether `a` is earlier than `b`.
pub open spec fn earlier(a: Stamp, b: Stamp) -> bool {
    a.secs < b.secs || (a.secs == b.secs && a.nanos < b.nanos)
}

/// The seconds in `days` days, at most 2^64 - 1.
pub open spec fn day_seconds(days: u64) -> nat {
    if days * 86400 > u64::MAX {
        u64::MAX as nat
    } else {
        (days * 86400) as nat
    }
}

/// The earliest time of change of files that are taken: `days` days before
/// `now`, or the epoch where that is before all time.
pub open spec fn cutoff_for(now: Stamp, days: u64) -> Stamp {
    if now.secs - day_seconds(days) >= i64::MIN {
        Stamp { secs: (now.secs - day_seconds(days)) as i64, nanos: now.nanos }
    } else {
        Stamp { secs: 0, nanos: 0 }
    }
}

/// The earliest time of change of files that are taken.
pub fn mtime_cutoff(now: Stamp, days: u64) -> (cutoff: Stamp)
    ensures
        cutoff == cutoff_for(now, days),
{
    let span: u64 = if days > u64::MAX / 86400 {
        u64::MAX
    } else {
        days * 86400
    };
    let secs: i128 = now.secs as i128 - span as i128;
    if secs >= i64::MIN as i128 {
        Stamp { secs: secs as i64, nanos: now.nanos }
    } else {
        Stamp { secs: 0, nanos: 0 }
    }
}

/// Whether a file was changed before the cutoff, if there is one.
pub open spec fn too_old(modified: Stamp, cutoff: Option<Stamp>) -> bool {
    match cutoff {
        Some(c) => earlier(modified, c),
        None => false,
    }
}

/// Whether a file was changed before the cutoff, if there is one.
pub fn is_too_old(modified: Stamp, cutoff: Option<Stamp>) -> (yes: bool)
    ensures
        yes == match cutoff {
            Some(c) => earlier(modified, c),
            None => false,
        },
        yes == too_old(modified, cutoff),
{
    match cutoff {
        Some(c) => modified.secs < c.secs || (modified.secs == c.secs && modified.nanos < c.nanos),
        None => false,
    }
}

/// The path under which a file is packed, or nothing where it is excluded.
pub open spec fn packed_as(
    parts: Seq<paths::PartModel>,
    shown: Seq<char>,
    patterns: Seq<Seq<char>>,
) -> Result<Option<Seq<char>>, Failure> {
    match paths::normalized(parts, shown) {
        Err(fault) => Err(fault),
        Ok(path) => if exclude::excluded_by(patterns, path) {
            Ok(None)
        } else {
            Ok(Some(path))
        },
    }
}

/// The path under which a file is packed, or `None` where it is excluded.
/// `parts` lead to the file from the packed directory, `shown` is that path as
/// errors show it.
pub fn archive_name(parts: &Vec<PathPart>, shown: &str, set: &Option<globset::GlobSet>) -> (r:
    Result<Option<String>, Error>)
    ensures
        match packed_as(paths::parts_view(parts@), shown@, exclude::patterns_in(*set)) {
            Ok(name) => r matches Ok(got) && paths::text_view(got) == name,
            Err(fault) => r matches Err(e) && e@ == fault,
        },
{
    match normalize_archive_path(parts, shown) {
        Err(e) => Err(e),
        Ok(path) => {
            if is_excluded(path.as_str(), set) {
                Ok(None)
            } else {
                Ok(Some(path))
            }
        },
    }
}

/// Whether a name marks a compressed file: its extension is `rzst` in any case,
/// or the name ends with `.rzst`.
pub open spec fn is_compressed_name(name: Option<Seq<char>>, extension: Option<Seq<char>>) -> bool {
    ||| extension matches Some(e) && text::lower(e) == "rzst"@
    ||| name matches Some(n) && text::ends_with(n, ".rzst"@)
}

/// Whether a name marks a compressed file.
pub fn looks_compressed(name: Option<&str>, extension: Option<&str>) -> (yes: bool)
    ensures
        yes == is_compressed_name(inspect::name_view(name), inspect::name_view(extension)),
{
    let by_extension: bool = match extension {
        Some(e) => text::same_text(text::lower_text(e).as_str(), "rzst"),
        None => false,
    };
    let by_name: bool = match name {
        Some(n) => text::has_suffix(n, ".rzst"),
        None => false,
    };
    by_extension || by_name
}

/// `s` with forward slashes in place of backslashes.
pub open spec fn forward(s: Seq<char>) -> Seq<char> {
    Seq::new(
        s.len(),
        |i: int|
            if s[i] == '\\' {
                '/'
            } else {
                s[i]
            },
    )
}

/// `s` with forward slashes in place of backslashes.
pub fn forward_slashes(s: &str) -> (out: String)
    ensures
        out@ == forward(s@),
{
    let chars: Vec<char> = text::chars_of(s);
    let mut out: String = String::new();
    let mut i: usize = 0;
    while i < chars.len()
        invariant
            i <= chars@.len(),
            out@ == forward(chars@.take(i as int)),
        decreases chars@.len() - i,
    {
        let c: char = if chars[i] == '\\' {
            '/'
        } else {
            chars[i]
        };
        out.push(c);
        assert(forward(chars@.take(i + 1)) == forward(chars@.take(i as int)).push(c));
        i = i + 1;
    }
    assert(chars@.take(i as int) == s@);
    out
}

/// Whether a recursive compression takes a file.
pub open spec fn compresses(
    name: Option<Seq<char>>,
    extension: Option<Seq<char>>,
    rel_path: Seq<char>,
    patterns: Seq<Seq<char>>,
) -> bool {
    !is_compressed_name(name, extension) && !exclude::excluded_by(patterns, forward(rel_path))
}

/// Whether a recursive compression takes a file: it is not compressed already,
/// and its path below the directory is not excluded.
pub fn takes_for_compress(
    name: Option<&str>,
    extension: Option<&str>,
    rel_path: &str,
    set: &Option<globset::GlobSet>,
) -> (yes: bool)
    ensures
        yes == (!is_compressed_name(inspect::name_view(name), inspect::name_view(extension))
            && !exclude::excluded_by(exclude::patterns_in(*set), forward(rel_path@))),
        yes == compresses(
            inspect::name_view(name),
            inspect::name_view(extension),
            rel_path@,
            exclude::patterns_in(*set),
        ),
{
    !looks_compressed(name, extension) && !is_excluded(forward_slashes(rel_path).as_str(), set)
}

/// Whether a recursive decompression takes a file.
pub open spec fn decompresses(name: Option<Seq<char>>, version: Option<u8>) -> bool {
    (name matches Some(n) && text::ends_with(n, ".rzst"@)) && version != Some(VERSION_V3)
}

/// Whether a recursive decompression takes a file: its name ends with `.rzst`,
/// and it is not known to be a pack. `version` is its container version, if it
/// has one.
pub fn takes_for_decompress(name: Option<&str>, version: Option<u8>) -> (yes: bool)
    ensures
        yes == ((inspect::name_view(name) matches Some(n) && text::ends_with(n, ".rzst"@))
            && version != Some(VERSION_V3)),
        yes == decompresses(inspect::name_view(name), version),
{
    let named: bool = match name {
        Some(n) => text::has_suffix(n, ".rzst"),
        None => false,
    };
    let is_pack: bool = match version {
        Some(v) => v == VERSION_V3,
        None => false,
    };
    named && !is_pack
}

/// A later change never makes a file too old that was not, and a file changed
/// now is taken.
pub proof fn newer_files_are_taken(modified: Stamp, later: Stamp, cutoff: Stamp)
    requires
        !earlier(modified, cutoff),
        earlier(modified, later),
    ensures
        !earlier(later, cutoff),
{
}

/// Compressed files are named so that a recursive compression passes over
/// them, and a recursive decompression takes them.
pub proof fn outputs_are_recognised(path: Seq<char>, extension: Option<Seq<char>>)
    ensures
        is_compressed_name(Some(path + ".rzst"@), extension),
        text::ends_with(path + ".rzst"@, ".rzst"@),
{
    let name = path + ".rzst"@;
    assert(name.skip(name.len() - ".rzst"@.len()) == ".rzst"@);
}

/// A point in time in nanoseconds since the epoch.
pub open spec fn nanoseconds(t: Stamp) -> int {
    t.secs * 1_000_000_000 + t.nanos
}

/// A file is too old exactly if it was changed more than the given number of
/// days ago.
pub proof fn old_files_are_left_out(now: Stamp, days: u64, modified: Stamp)
    requires
        now.nanos < 1_000_000_000,
        modified.nanos < 1_000_000_000,
        days * 86400 <= u64::MAX,
        now.secs - days * 86400 >= i64::MIN,
    ensures
        earlier(modified, cutoff_for(now, days)) <==> nanoseconds(now) - nanoseconds(modified)
            > days * 86400 * 1_000_000_000,
{
}

/// A file that is named as packed has the slash-joined names of its path, and is
/// left out exactly if that path is excluded.
pub proof fn packed_under_its_names(
    names: Seq<Seq<char>>,
    shown: Seq<char>,
    patterns: Seq<Seq<char>>,
)
    requires
        names.len() > 0,
        forall|i: int|
            0 <= i < names.len() ==> !(#[trigger] names[i]).contains('/') && !names[i].contains(
                '\\',
            ),
    ensures
        ({
            let path = text::joined(names, "/"@);
            let r = packed_as(paths::as_parts(names), shown, patterns);
            if exclude::excluded_by(patterns, path) {
                r == Ok::<Option<Seq<char>>, Failure>(None)
            } else {
                r == Ok::<Option<Seq<char>>, Failure>(Some(path))
            }
        }),
{
    paths::names_are_stored_joined(names, shown);
}

/// Only names with the suffix, or with its letters in any case as extension,
/// count as compressed.
pub proof fn other_names_are_not_compressed(name: Seq<char>, extension: Seq<char>)
    ensures
        is_compressed_name(Some(name), None) <==> exists|front: Seq<char>|
            name == #[trigger] (front + ".rzst"@),
        is_compressed_name(None, Some(extension)) <==> text::lower(extension) == "rzst"@,
        !is_compressed_name(None, None),
{
    text::ending_has_front(name, ".rzst"@);
}

/// Every backslash becomes a slash, and nothing else changes.
pub proof fn only_backslashes_change(s: Seq<char>)
    ensures
        forward(s).len() == s.len(),
        !forward(s).contains('\\'),
        forall|i: int| 0 <= i < s.len() && s[i] != '\\' ==> #[trigger] forward(s)[i] == s[i],
        forall|i: int| 0 <= i < s.len() && s[i] == '\\' ==> #[trigger] forward(s)[i] == '/',
{
}

/// Without a limit no file is too old; with a limit, a file that was changed
/// more than so many days ago, and no other.
pub proof fn only_old_files_are_too_old(now: Stamp, days: u64, modified: Stamp)
    requires
        now.nanos < 1_000_000_000,
        modified.nanos < 1_000_000_000,
        days * 86400 <= u64::MAX,
        now.secs - days * 86400 >= i64::MIN,
    ensures
        !too_old(modified, None),
        too_old(modified, Some(cutoff_for(now, days))) <==> nanoseconds(now) - nanoseconds(modified)
            > days * 86400 * 1_000_000_000,
{
    old_files_are_left_out(now, days, modified);
}

/// What a recursive compression writes beside a file it does not take again,
/// and a recursive decompression takes it, unless it is a pack. What is excluded
/// is not taken, and without patterns everything else is.
pub proof fn outputs_are_not_compressed_again(
    path: Seq<char>,
    extension: Option<Seq<char>>,
    rel_path: Seq<char>,
    patterns: Seq<Seq<char>>,
    version: Option<u8>,
)
    ensures
        !compresses(Some(path + ".rzst"@), extension, rel_path, patterns),
        decompresses(Some(path + ".rzst"@), version) <==> version != Some(3u8),
        decompresses(Some(path), version) ==> exists|front: Seq<char>|
            path == #[trigger] (front + ".rzst"@),
        exclude::excluded_by(patterns, forward(rel_path)) ==> !compresses(
            Some(path),
            extension,
            rel_path,
            patterns,
        ),
        !is_compressed_name(Some(path), extension) ==> compresses(
            Some(path),
            extension,
            rel_path,
            Seq::empty(),
        ),
{
    outputs_are_recognised(path, extension);
    text::ending_has_front(path, ".rzst"@);
    exclude::no_patterns_exclude_nothing(forward(rel_path));
}

} // verus!
