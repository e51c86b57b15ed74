//! What the command line asks for.

use vstd::prelude::*;

use crate::error::{error, plain_error, Error, ErrorKind, Failure};
use crate::inspect;
use crate::paths;
use crate::paths::{append_suffix, is_stdio_path};
use crate::text;

verus! {

/// What `compress` does.
#[derive(Debug, Clone, Copy, PartialEq, Eq, Structural)]
pub enum CompressPlan {
    /// Compress, or with a dry run estimate, every file under a directory.
    Tree { dry_run: bool },
    /// Estimate the size of what standard input or a file compresses to.
    Estimate { stdin: bool },
    /// Standard input to standard output.
    StdinToStdout,
    /// Standard input to the given file.
    StdinToFile,
    /// A file to standard output.
    FileToStdout,
    /// A file to the given or the default file.
    FileToFile,
}

/// A mistake in the use of the command line.
pub open spec fn misuse(text: Seq<char>) -> Failure {
    Failure { kind: ErrorKind::Usage, text }
}

/// What is wrong with the arguments of a recursive operation, if anything is.
pub open spec fn tree_fault(
    input: Seq<char>,
    input_is_dir: bool,
    has_output: bool,
    output_refusal: Seq<char>,
) -> Option<Failure> {
    if input == "-"@ {
        Some(misuse("--recursive cannot be used with stdin (-)"@))
    } else if !input_is_dir {
        Some(misuse("--recursive requires a directory input; got "@ + input))
    } else if has_output {
        Some(misuse(output_refusal))
    } else {
        None
    }
}

/// Checks the arguments of a recursive operation.
fn check_tree(input: &str, input_is_dir: bool, has_output: bool, output_refusal: &str) -> (r: Result<
    (),
    Error,
>)
    ensures
        match tree_fault(input@, input_is_dir, has_output, output_refusal@) {
            None => r is Ok,
            Some(fault) => r matches Err(e) && e@ == fault,
        },
{
    if is_stdio_path(input) {
        return Err(plain_error(ErrorKind::Usage, "--recursive cannot be used with stdin (-)"));
    }
    if !input_is_dir {
        return Err(
            error(
                ErrorKind::Usage,
                "--recursive requires a directory input; got ".to_owned().concat(input),
            ),
        );
    }
    if has_output {
        return Err(plain_error(ErrorKind::Usage, output_refusal));
    }
    Ok(())
}

/// What `compress` does with its arguments.
pub open spec fn compress_plan(
    input: Seq<char>,
    input_is_dir: bool,
    output: Option<Seq<char>>,
    recursive: bool,
    dry_run: bool,
    has_excludes: bool,
) -> Result<CompressPlan, Failure> {
    if recursive {
        match tree_fault(
            input,
            input_is_dir,
            output is Some,
            "--output is not supported with --recursive (writes sibling .rzst files)"@,
        ) {
            Some(fault) => Err(fault),
            None => Ok(CompressPlan::Tree { dry_run }),
        }
    } else if has_excludes {
        Err(misuse("--exclude requires --recursive (or use `rzc pack --exclude`)"@))
    } else if dry_run {
        Ok(CompressPlan::Estimate { stdin: input == "-"@ })
    } else if input == "-"@ {
        match output {
            Some(path) if path != "-"@ => Ok(CompressPlan::StdinToFile),
            _ => Ok(CompressPlan::StdinToStdout),
        }
    } else if output == Some("-"@) {
        Ok(CompressPlan::FileToStdout)
    } else {
        Ok(CompressPlan::FileToFile)
    }
}

/// Decides what `compress` does. `input` and `output` are the paths as given,
/// `-` being standard input and output.
pub fn plan_compress(
    input: &str,
    input_is_dir: bool,
    output: Option<&str>,
    recursive: bool,
    dry_run: bool,
    has_excludes: bool,
) -> (r: Result<CompressPlan, Error>)
    ensures
        match compress_plan(
            input@,
            input_is_dir,
            inspect::name_view(output),
            recursive,
            dry_run,
            has_excludes,
        ) {
            Ok(plan) => r == Ok::<CompressPlan, Error>(plan),
            Err(fault) => r matches Err(e) && e@ == fault,
        },
{
    if recursive {
        return match check_tree(
            input,
            input_is_dir,
            output.is_some(),
            "--output is not supported with --recursive (writes sibling .rzst files)",
        ) {
            Ok(()) => Ok(CompressPlan::Tree { dry_run }),
            Err(e) => Err(e),
        };
    }
    if has_excludes {
        return Err(
            plain_error(
                ErrorKind::Usage,
                "--exclude requires --recursive (or use `rzc pack --exclude`)",
            ),
        );
    }
    let from_stdin: bool = is_stdio_path(input);
    if dry_run {
        return Ok(CompressPlan::Estimate { stdin: from_stdin });
    }
    let to_stdout: bool = match output {
        Some(path) => is_stdio_path(path),
        None => false,
    };
    if from_stdin {
        if output.is_some() && !to_stdout {
            Ok(CompressPlan::StdinToFile)
        } else {
            Ok(CompressPlan::StdinToStdout)
        }
    } else if to_stdout {
        Ok(CompressPlan::FileToStdout)
    } else {
        Ok(CompressPlan::FileToFile)
    }
}

/// What `decompress` does.
#[derive(Debug, Clone, Copy, PartialEq, Eq, Structural)]
pub enum DecompressPlan {
    /// Decompress every `.rzst` file under a directory.
    Tree,
    /// Standard input to standard output.
    StdinToStdout,
    /// Standard input to the given file.
    StdinToFile,
    /// A file to standard output.
    FileToStdout,
    /// A file to the given or the default file.
    FileToFile,
}

/// What `decompress` does with its arguments.
pub open spec fn decompress_plan(
    input: Seq<char>,
    input_is_dir: bool,
    output: Option<Seq<char>>,
    recursive: bool,
    skip_existing: bool,
) -> Result<DecompressPlan, Failure> {
    if recursive {
        match tree_fault(
            input,
            input_is_dir,
            output is Some,
            "--output is not supported with --recursive"@,
        ) {
            Some(fault) => Err(fault),
            None => Ok(DecompressPlan::Tree),
        }
    } else if input == "-"@ {
        if skip_existing {
            Err(misuse("--skip-existing is not supported with stdin"@))
        } else {
            match output {
                Some(path) if path != "-"@ => Ok(DecompressPlan::StdinToFile),
                _ => Ok(DecompressPlan::StdinToStdout),
            }
        }
    } else if output == Some("-"@) {
        if skip_existing {
            Err(misuse("--skip-existing is not supported with stdout"@))
        } else {
            Ok(DecompressPlan::FileToStdout)
        }
    } else {
        Ok(DecompressPlan::FileToFile)
    }
}

/// Decides what `decompress` does.
pub fn plan_decompress(
    input: &str,
    input_is_dir: bool,
    output: Option<&str>,
    recursive: bool,
    skip_existing: bool,
) -> (r: Result<DecompressPlan, Error>)
    ensures
        match decompress_plan(
            input@,
            input_is_dir,
            inspect::name_view(output),
            recursive,
            skip_existing,
        ) {
            Ok(plan) => r == Ok::<DecompressPlan, Error>(plan),
            Err(fault) => r matches Err(e) && e@ == fault,
        },
{
    if recursive {
        return match check_tree(
            input,
            input_is_dir,
            output.is_some(),
            "--output is not supported with --recursive",
        ) {
            Ok(()) => Ok(DecompressPlan::Tree),
            Err(e) => Err(e),
        };
    }
    let to_stdout: bool = match output {
        Some(path) => is_stdio_path(path),
        None => false,
    };
    if is_stdio_path(input) {
        if skip_existing {
            return Err(
                plain_error(ErrorKind::Usage, "--skip-existing is not supported with stdin"),
            );
        }
        if output.is_some() && !to_stdout {
            return Ok(DecompressPlan::StdinToFile);
        }
        return Ok(DecompressPlan::StdinToStdout);
    }
    if to_stdout {
        if skip_existing {
            return Err(
                plain_error(ErrorKind::Usage, "--skip-existing is not supported with stdout"),
            );
        }
        return Ok(DecompressPlan::FileToStdout);
    }
    Ok(DecompressPlan::FileToFile)
}

/// Where a pack goes by default: next to the directory, under its name with
/// `.rzst` behind it.
pub open spec fn pack_path(parent: Option<Seq<char>>, name: Option<Seq<char>>) -> Seq<char> {
    let file = match name {
        Some(n) => n + ".rzst"@,
        None => "archive.rzst"@,
    };
    match parent {
        Some(dir) if dir.len() > 0 => paths::with_separator(dir) + file,
        _ => file,
    }
}

/// Default output of packing a directory with the given parent and name.
pub fn default_pack_path(parent: Option<&str>, name: Option<&str>) -> (out: String)
    ensures
        out@ == pack_path(inspect::name_view(parent), inspect::name_view(name)),
{
    let file: String = match name {
        Some(n) => n.to_owned().concat(".rzst"),
        None => "archive.rzst".to_owned(),
    };
    match parent {
        Some(dir) => {
            let chars: Vec<char> = text::chars_of(dir);
            if chars.len() == 0 {
                file
            } else if chars[chars.len() - 1] == '/' {
                dir.to_owned().concat(file.as_str())
            } else {
                dir.to_owned().concat("/").concat(file.as_str())
            }
        },
        None => file,
    }
}

/// Where a pack is unpacked to by default.
pub open spec fn unpack_dir(input: Seq<char>) -> Seq<char> {
    if text::ends_with(input, ".rzst"@) {
        input.take(input.len() - ".rzst"@.len())
    } else {
        input + ".unpacked"@
    }
}

/// Default directory to unpack to: strip `.rzst`, else append `.unpacked`.
pub fn default_unpack_dir(input: &str) -> (out: String)
    ensures
        out@ == unpack_dir(input@),
{
    if text::has_suffix(input, ".rzst") {
        proof {
            reveal_strlit(".rzst");
        }
        let chars: Vec<char> = text::chars_of(input);
        let end: usize = chars.len() - 5;
        assert(chars@.subrange(0, end as int) == input@.take(end as int));
        text::text_between(chars.as_slice(), 0, end)
    } else {
        append_suffix(input, ".unpacked")
    }
}

/// How progress is shown.
#[derive(Debug, Clone, Copy, PartialEq, Eq, Structural)]
pub enum ProgressKind {
    /// Not at all.
    Hidden,
    /// As a bar of known length.
    Bar,
    /// As a spinner.
    Spinner,
}

/// How progress is shown.
pub open spec fn progress_for(terminal: bool, total: u64) -> ProgressKind {
    if !terminal || 0 < total < 0x10_0000 {
        ProgressKind::Hidden
    } else if total > 0 {
        ProgressKind::Bar
    } else {
        ProgressKind::Spinner
    }
}

/// Decides how progress is shown: only on a terminal, not for sizes that are
/// known to be below 1 MiB, and as a spinner for sizes that are not known.
pub fn progress_kind(terminal: bool, total: u64) -> (kind: ProgressKind)
    ensures
        kind == if !terminal || 0 < total < 0x10_0000 {
            ProgressKind::Hidden
        } else if total > 0 {
            ProgressKind::Bar
        } else {
            ProgressKind::Spinner
        },
        kind == progress_for(terminal, total),
{
    if !terminal || (total > 0 && total < 0x10_0000) {
        ProgressKind::Hidden
    } else if total > 0 {
        ProgressKind::Bar
    } else {
        ProgressKind::Spinner
    }
}

/// How far copying has come one piece after `done`.
pub open spec fn mark_after(done: int, total: int) -> int {
    if total - done <= 0x1_0000 {
        total
    } else {
        done + 0x1_0000
    }
}

/// How far copying `total` bytes in pieces of 64 KiB has come one piece after
/// `done`.
pub fn next_mark(done: usize, total: usize) -> (mark: usize)
    requires
        done <= total,
    ensures
        mark == if total - done <= 0x1_0000 {
            total as int
        } else {
            done + 0x1_0000
        },
        mark == mark_after(done as int, total as int),
{
    if total - done <= 0x1_0000 {
        total
    } else {
        done + 0x1_0000
    }
}

/// A recursive operation takes a directory that is not standard input, and no
/// output; nothing else takes a tree.
pub proof fn trees_need_a_directory(
    input: Seq<char>,
    input_is_dir: bool,
    output: Option<Seq<char>>,
    recursive: bool,
    dry_run: bool,
    has_excludes: bool,
    skip_existing: bool,
)
    ensures
        ({
            let plan = compress_plan(
                input,
                input_is_dir,
                output,
                recursive,
                dry_run,
                has_excludes,
            );
            let fit = recursive && input != "-"@ && input_is_dir && output is None;
            &&& fit ==> plan == Ok::<CompressPlan, Failure>(CompressPlan::Tree { dry_run })
            &&& recursive && !fit ==> plan is Err
            &&& !recursive ==> !(plan matches Ok(CompressPlan::Tree { .. }))
        }),
        ({
            let plan = decompress_plan(input, input_is_dir, output, recursive, skip_existing);
            let fit = recursive && input != "-"@ && input_is_dir && output is None;
            &&& fit ==> plan == Ok::<DecompressPlan, Failure>(DecompressPlan::Tree)
            &&& recursive && !fit ==> plan is Err
            &&& !recursive ==> !(plan matches Ok(DecompressPlan::Tree))
        }),
{
}

/// Where compressing reads from.
pub open spec fn reads_stdin(plan: CompressPlan) -> bool {
    match plan {
        CompressPlan::StdinToStdout => true,
        CompressPlan::StdinToFile => true,
        CompressPlan::Estimate { stdin } => stdin,
        _ => false,
    }
}

/// Where compressing writes to.
pub open spec fn writes_stdout(plan: CompressPlan) -> bool {
    plan is StdinToStdout || plan is FileToStdout
}

/// Without a tree, compressing reads standard input exactly if the input is
/// `-`. It only estimates in a dry run, and else writes standard output exactly
/// if the output is `-`, or if there is none and the input is `-`. Excludes are
/// refused.
pub proof fn compressing_follows_the_paths(
    input: Seq<char>,
    input_is_dir: bool,
    output: Option<Seq<char>>,
    dry_run: bool,
    has_excludes: bool,
)
    ensures
        ({
            let plan = compress_plan(input, input_is_dir, output, false, dry_run, has_excludes);
            &&& plan is Err <==> has_excludes
            &&& plan matches Ok(p) ==> {
                &&& reads_stdin(p) <==> input == "-"@
                &&& p is Estimate <==> dry_run
                &&& writes_stdout(p) <==> !dry_run && (output == Some("-"@) || (output is None
                    && input == "-"@))
            }
        }),
{
}

/// Without a tree, decompressing reads standard input exactly if the input is
/// `-`, and writes standard output exactly if the output is `-`, or if there is
/// none and the input is `-`. Skipping existing files is refused where standard
/// input or output is used.
pub proof fn decompressing_follows_the_paths(
    input: Seq<char>,
    input_is_dir: bool,
    output: Option<Seq<char>>,
    skip_existing: bool,
)
    ensures
        ({
            let plan = decompress_plan(input, input_is_dir, output, false, skip_existing);
            &&& plan is Err <==> skip_existing && (input == "-"@ || output == Some("-"@))
            &&& plan matches Ok(p) ==> {
                &&& (p is StdinToStdout || p is StdinToFile) <==> input == "-"@
                &&& (p is StdinToStdout || p is FileToStdout) <==> output == Some("-"@) || (
                output is None && input == "-"@)
            }
        }),
{
}

/// A pack goes beside the directory, under its name with `.rzst` behind it, and
/// unpacking it goes back to the path of the directory.
pub proof fn pack_path_is_undone(dir: Seq<char>, name: Seq<char>)
    requires
        dir.len() > 0,
        dir.last() != '/',
    ensures
        pack_path(Some(dir), Some(name)) == dir + "/"@ + name + ".rzst"@,
        pack_path(None, Some(name)) == name + ".rzst"@,
        unpack_dir(pack_path(Some(dir), Some(name))) == dir + "/"@ + name,
        unpack_dir(pack_path(None, Some(name))) == name,
{
    let full = dir + "/"@ + name;
    assert(paths::with_separator(dir) + (name + ".rzst"@) == full + ".rzst"@);
    unpack_dir_is_stem(full);
    unpack_dir_is_stem(name);
}

/// A pack is unpacked to its name without `.rzst`, any other file to its name
/// with `.unpacked` behind it.
pub proof fn unpack_dir_is_stem(stem: Seq<char>)
    ensures
        unpack_dir(stem + ".rzst"@) == stem,
        !(exists|front: Seq<char>| stem == #[trigger] (front + ".rzst"@)) ==> unpack_dir(stem)
            == stem + ".unpacked"@,
{
    let input = stem + ".rzst"@;
    assert(input.skip(input.len() - ".rzst"@.len()) == ".rzst"@);
    assert(input.take(input.len() - ".rzst"@.len()) == stem);
    text::ending_has_front(stem, ".rzst"@);
}

/// A pack of a directory without a name is called `archive.rzst`; a parent that
/// is empty counts as none, and one that ends with a slash needs no other.
pub proof fn nameless_packs_are_archives(dir: Seq<char>, name: Option<Seq<char>>)
    ensures
        pack_path(None, None) == "archive.rzst"@,
        pack_path(Some(Seq::empty()), name) == pack_path(None, name),
        dir.len() > 0 && dir.last() == '/' ==> pack_path(Some(dir), name) == dir + pack_path(
            None,
            name,
        ),
        dir.len() > 0 && dir.last() != '/' ==> pack_path(Some(dir), name) == dir + "/"@
            + pack_path(None, name),
{
}

/// Progress is shown only on a terminal, and there for all but sizes that are
/// known to be less than a mebibyte: as a bar where the size is known.
pub proof fn progress_is_for_terminals(total: u64)
    ensures
        progress_for(false, total) == ProgressKind::Hidden,
        progress_for(true, total) == ProgressKind::Hidden <==> 1 <= total < 1024 * 1024,
        progress_for(true, total) == ProgressKind::Bar <==> total >= 1024 * 1024,
        progress_for(true, total) == ProgressKind::Spinner <==> total == 0,
{
}

/// Marks come closer to the end by 64 KiB at a time, do not pass it, and reach
/// it.
pub proof fn marks_reach_the_end(done: int, total: int)
    requires
        0 <= done < total,
    ensures
        done < mark_after(done, total) <= total,
        mark_after(done, total) - done <= 64 * 1024,
        mark_after(done, total) - done < 64 * 1024 ==> mark_after(done, total) == total,
        mark_after(total, total) == total,
{
}

} // verus!
