//! What the commands print, line by line.

use vstd::prelude::*;

use crate::binary64;
use crate::bytes;
use crate::codec;
use crate::codec::hex_text;
use crate::diff;
use crate::diff::{DiffModel, DiffResult, DiffStatus};
use crate::doctor::DoctorReport;
use crate::grep;
use crate::grep::GrepResult;
use crate::inspect::{ArchiveInfo, ArchiveInfoModel, ListModel, ListResult};
use crate::pack;
use crate::pack::{EntryModel, PackInfo, PackInfoModel, PackMemberInfo};
use crate::packing::PackStats;
use crate::repack::RepackStats;
use crate::report;
use crate::report::{
    bytes_per_second, describe_size_delta, describe_speed_delta, display_bytes, ratio_text,
    seconds_text, short_ratio_text, truncate_display, Elapsed,
};
use crate::seal::SealInfo;
use crate::text;
use crate::unpack;
use crate::unpack::{MemberStatsModel, UnpackStats};

verus! {

/// `n` blanks.
pub open spec fn blanks(n: int) -> Seq<char> {
    Seq::new(
        if n > 0 {
            n as nat
        } else {
            0
        },
        |i: int| ' ',
    )
}

/// `s` with blanks behind it, in a column of the given width.
pub open spec fn left(s: Seq<char>, width: nat) -> Seq<char> {
    s + blanks(width - s.len())
}

/// `s` with blanks in front of it, in a column of the given width.
pub open spec fn right(s: Seq<char>, width: nat) -> Seq<char> {
    blanks(width - s.len()) + s
}

/// As many blanks as `s` lacks to the given width.
fn filling(s: &str, width: usize) -> (out: String)
    ensures
        out@ == blanks(width - s@.len()),
{
    let count: usize = text::chars_of(s).len();
    let mut out: String = String::new();
    let mut i: usize = count;
    assert(out@ == blanks(0));
    while i < width
        invariant
            count <= i <= width || count > width && i == count,
            out@ == blanks(i - count),
        decreases width - i,
    {
        out.push(' ');
        i = i + 1;
        assert(blanks(i - count) == blanks(i - 1 - count).push(' '));
    }
    assert(out@ == blanks(width - s@.len()));
    out
}

/// `s` in a column, to the left.
pub fn left_text(s: &str, width: usize) -> (out: String)
    ensures
        out@ == left(s@, width as nat),
{
    s.to_owned().concat(filling(s, width).as_str())
}

/// `s` in a column, to the right.
pub fn right_text(s: &str, width: usize) -> (out: String)
    ensures
        out@ == right(s@, width as nat),
{
    filling(s, width).concat(s)
}

/// A size twice: as a number, and in binary units in brackets.
pub open spec fn both_sizes(bytes: nat) -> Seq<char> {
    text::decimal(bytes) + " ("@ + report::bytes_text(bytes) + ")"@
}

/// A size twice: as a number, and in binary units in brackets.
fn both_sizes_text(bytes: u64) -> (out: String)
    ensures
        out@ == both_sizes(bytes as nat),
{
    text::decimal_text(bytes).concat(" (").concat(display_bytes(bytes).as_str()).concat(")")
}

/// A ratio with two decimals and a percent sign.
pub open spec fn percent(compressed: nat, original: nat) -> Seq<char> {
    report::hundredths(report::ratio_units(compressed, original, 100)) + "%"@
}

/// A ratio with two decimals and a percent sign.
fn percent_text(compressed: u64, original: u64) -> (out: String)
    ensures
        out@ == percent(compressed as nat, original as nat),
{
    ratio_text(compressed, original).concat("%")
}

/// A ratio with one decimal in a column, and a percent sign.
pub open spec fn short_percent(compressed: nat, original: nat) -> Seq<char> {
    right(report::tenths(report::ratio_units(compressed, original, 10)), 7) + "%"@
}

/// A ratio with one decimal in a column, and a percent sign.
fn short_percent_text(compressed: u64, original: u64) -> (out: String)
    ensures
        out@ == short_percent(compressed as nat, original as nat),
{
    right_text(short_ratio_text(compressed, original).as_str(), 7).concat("%")
}

/// Result statistics of compressing or decompressing a file.
#[derive(Debug)]
pub struct IoStats {
    pub input_bytes: u64,
    pub output_bytes: u64,
    pub output_path: String,
}

/// The view of an [`IoStats`].
#[verifier::ext_equal]
pub struct IoModel {
    pub input_bytes: nat,
    pub output_bytes: nat,
    pub output_path: Seq<char>,
}

impl View for IoStats {
    type V = IoModel;

    open spec fn view(&self) -> IoModel {
        IoModel {
            input_bytes: self.input_bytes as nat,
            output_bytes: self.output_bytes as nat,
            output_path: self.output_path@,
        }
    }
}

/// The views of statistics.
pub open spec fn io_views(list: Seq<IoStats>) -> Seq<IoModel> {
    list.map_values(|s: IoStats| s@)
}

/// An estimate: of what, its size, the estimated size and the ratio.
pub open spec fn estimate(title: Seq<char>, input: nat, estimated: nat) -> Seq<Seq<char>> {
    seq![
        title,
        "Input:  "@ + both_sizes(input),
        "Est. compressed: "@ + both_sizes(estimated),
        "Ratio:  "@ + percent(estimated, input),
    ]
}

/// The lines on an estimate. Without a path it is standard input that was
/// estimated.
pub fn estimate_lines(path: Option<&str>, input: u64, estimated: u64) -> (out: Vec<String>)
    ensures
        text::texts(out@) == estimate(
            match path {
                Some(p) => "Dry-run: "@ + p@,
                None => "Dry-run (stdin)"@,
            },
            input as nat,
            estimated as nat,
        ),
{
    let title: String = match path {
        Some(p) => "Dry-run: ".to_owned().concat(p),
        None => "Dry-run (stdin)".to_owned(),
    };
    let ghost shown = title@;
    let mut out: Vec<String> = Vec::new();
    out.push(title);
    out.push("Input:  ".to_owned().concat(both_sizes_text(input).as_str()));
    out.push("Est. compressed: ".to_owned().concat(both_sizes_text(estimated).as_str()));
    out.push("Ratio:  ".to_owned().concat(percent_text(estimated, input).as_str()));
    assert(text::texts(out@) == estimate(shown, input as nat, estimated as nat));
    out
}

/// The head of the table of ratios.
pub open spec fn ratio_head() -> Seq<char> {
    left("status"@, 10) + " "@ + right("original"@, 12) + " "@ + right("compressed"@, 12) + " "@
        + right("ratio"@, 8) + "  path"@
}

/// A row of the table of ratios.
#[verifier::opaque]
pub open spec fn ratio_row(status: Seq<char>, input: nat, output: nat, what: Seq<char>) -> Seq<
    char,
> {
    left(status, 10) + " "@ + right(report::bytes_text(input), 12) + " "@ + right(
        report::bytes_text(output),
        12,
    ) + " "@ + short_percent(output, input) + "  "@ + what
}

fn ratio_row_text(status: &str, input: u64, output: u64, what: &str) -> (out: String)
    ensures
        out@ == ratio_row(status@, input as nat, output as nat, what@),
{
    proof {
        reveal(ratio_row);
    }
    left_text(status, 10).concat(" ").concat(
        right_text(display_bytes(input).as_str(), 12).as_str(),
    ).concat(" ").concat(right_text(display_bytes(output).as_str(), 12).as_str()).concat(
        " ",
    ).concat(short_percent_text(output, input).as_str()).concat("  ").concat(what)
}

/// The sum of the input sizes.
pub open spec fn input_total(results: Seq<IoModel>) -> nat
    decreases results.len(),
{
    if results.len() == 0 {
        0
    } else {
        input_total(results.drop_last()) + results.last().input_bytes
    }
}

/// The sum of the output sizes.
pub open spec fn output_total(results: Seq<IoModel>) -> nat
    decreases results.len(),
{
    if results.len() == 0 {
        0
    } else {
        output_total(results.drop_last()) + results.last().output_bytes
    }
}

/// The table of ratios: a head, a row per file, and a row of totals.
pub open spec fn ratio_table(results: Seq<IoModel>) -> Seq<Seq<char>> {
    seq![ratio_head()] + results.map_values(
        |r: IoModel| ratio_row("ok"@, r.input_bytes, r.output_bytes, r.output_path),
    ) + seq![
        ratio_row(
            "TOTAL"@,
            bytes::capped(input_total(results)),
            bytes::capped(output_total(results)),
            "("@ + text::decimal(results.len()) + " files)"@,
        ),
    ]
}

/// Per-file rows plus a row of totals.
pub fn ratio_table_lines(results: &Vec<IoStats>) -> (out: Vec<String>)
    ensures
        text::texts(out@) == ratio_table(io_views(results@)),
{
    let ghost all = io_views(results@);
    let ghost rows = all.map_values(
        |r: IoModel| ratio_row("ok"@, r.input_bytes, r.output_bytes, r.output_path),
    );
    let mut out: Vec<String> = Vec::new();
    out.push(
        left_text("status", 10).concat(" ").concat(right_text("original", 12).as_str()).concat(
            " ",
        ).concat(right_text("compressed", 12).as_str()).concat(" ").concat(
            right_text("ratio", 8).as_str(),
        ).concat("  path"),
    );
    let mut total_in: u64 = 0;
    let mut total_out: u64 = 0;
    let mut i: usize = 0;
    assert(text::texts(out@) == seq![ratio_head()] + rows.take(0));
    while i < results.len()
        invariant
            i <= results@.len(),
            all == io_views(results@),
            rows == all.map_values(
                |r: IoModel| ratio_row("ok"@, r.input_bytes, r.output_bytes, r.output_path),
            ),
            text::texts(out@) == seq![ratio_head()] + rows.take(i as int),
            total_in == bytes::capped(input_total(all.take(i as int))),
            total_out == bytes::capped(output_total(all.take(i as int))),
        decreases results@.len() - i,
    {
        let s: &IoStats = &results[i];
        let ghost before = text::texts(out@);
        total_in = bytes::add_size(total_in, s.input_bytes);
        total_out = bytes::add_size(total_out, s.output_bytes);
        out.push(
            ratio_row_text("ok", s.input_bytes, s.output_bytes, s.output_path.as_str()),
        );
        assert(text::texts(out@) == before.push(rows[i as int]));
        i = i + 1;
        assert(all.take(i as int).drop_last() == all.take(i - 1));
        assert(text::texts(out@) == seq![ratio_head()] + rows.take(i as int));
    }
    assert(all.take(i as int) == all);
    let count: String = "(".to_owned().concat(
        text::decimal_text(results.len() as u64).as_str(),
    ).concat(" files)");
    let ghost before = text::texts(out@);
    let last: String = ratio_row_text("TOTAL", total_in, total_out, count.as_str());
    let ghost shown = last@;
    out.push(last);
    assert(text::texts(out@) == before.push(shown));
    assert(text::texts(out@) == ratio_table(all));
    out
}

/// What compressing a directory reports in front of the table.
pub open spec fn compressed_tree(count: nat, dir: Seq<char>, dry_run: bool) -> Seq<char> {
    if count == 0 {
        "No files compressed under "@ + dir
    } else if dry_run {
        "Dry-run: would compress "@ + text::decimal(count) + " file(s) under "@ + dir
    } else {
        "Compressed "@ + text::decimal(count) + " file(s) under "@ + dir
    }
}

/// What compressing a directory reports in front of the table.
pub fn compressed_tree_line(count: usize, dir: &str, dry_run: bool) -> (out: String)
    ensures
        out@ == compressed_tree(count as nat, dir@, dry_run),
{
    if count == 0 {
        return "No files compressed under ".to_owned().concat(dir);
    }
    let verb: String = if dry_run {
        "Dry-run: would compress ".to_owned()
    } else {
        "Compressed ".to_owned()
    };
    verb.concat(text::decimal_text(count as u64).as_str()).concat(" file(s) under ").concat(dir)
}

/// What decompressing a directory reports.
pub open spec fn decompressed_tree(results: Seq<IoModel>, dir: Seq<char>) -> Seq<Seq<char>> {
    if results.len() == 0 {
        seq!["No .rzst files found under "@ + dir]
    } else {
        seq!["Decompressed "@ + text::decimal(results.len()) + " file(s) under "@ + dir]
            + results.map_values(
            |r: IoModel|
                "  "@ + report::bytes_text(r.input_bytes) + " -> "@ + report::bytes_text(
                    r.output_bytes,
                ) + "  "@ + r.output_path,
        )
    }
}

/// What decompressing a directory reports.
pub fn decompressed_tree_lines(results: &Vec<IoStats>, dir: &str) -> (out: Vec<String>)
    ensures
        text::texts(out@) == decompressed_tree(io_views(results@), dir@),
{
    let ghost all = io_views(results@);
    let mut out: Vec<String> = Vec::new();
    if results.len() == 0 {
        out.push("No .rzst files found under ".to_owned().concat(dir));
        assert(text::texts(out@) == decompressed_tree(all, dir@));
        return out;
    }
    let ghost rows = all.map_values(
        |r: IoModel|
            "  "@ + report::bytes_text(r.input_bytes) + " -> "@ + report::bytes_text(
                r.output_bytes,
            ) + "  "@ + r.output_path,
    );
    let head: String = "Decompressed ".to_owned().concat(
        text::decimal_text(results.len() as u64).as_str(),
    ).concat(" file(s) under ").concat(dir);
    let ghost first = head@;
    out.push(head);
    let mut i: usize = 0;
    assert(text::texts(out@) == seq![first] + rows.take(0));
    while i < results.len()
        invariant
            i <= results@.len(),
            all == io_views(results@),
            rows == all.map_values(
                |r: IoModel|
                    "  "@ + report::bytes_text(r.input_bytes) + " -> "@ + report::bytes_text(
                        r.output_bytes,
                    ) + "  "@ + r.output_path,
            ),
            text::texts(out@) == seq![first] + rows.take(i as int),
        decreases results@.len() - i,
    {
        let s: &IoStats = &results[i];
        let ghost before = text::texts(out@);
        out.push(
            "  ".to_owned().concat(display_bytes(s.input_bytes).as_str()).concat(" -> ").concat(
                display_bytes(s.output_bytes).as_str(),
            ).concat("  ").concat(s.output_path.as_str()),
        );
        assert(text::texts(out@) == before.push(rows[i as int]));
        i = i + 1;
        assert(text::texts(out@) == seq![first] + rows.take(i as int));
    }
    assert(rows.take(i as int) == rows);
    out
}

/// Whether any time has passed.
pub open spec fn is_zero(e: Elapsed) -> bool {
    e.secs == 0 && e.nanos == 0
}

/// What compressing a file reports. A time is shown where one was taken.
pub open spec fn compressed_file(s: IoModel, elapsed: Elapsed) -> Seq<Seq<char>> {
    seq![
        "Compressed "@ + report::bytes_text(s.input_bytes) + " -> "@ + report::bytes_text(
            s.output_bytes,
        ),
        "Output: "@ + s.output_path,
        if is_zero(elapsed) {
            "Ratio: "@ + percent(s.output_bytes, s.input_bytes)
        } else {
            "Ratio: "@ + percent(s.output_bytes, s.input_bytes) + " | Time: "@
                + report::seconds_shown(elapsed) + "s | Throughput: "@ + report::bytes_text(
                report::rate(s.input_bytes as u64, elapsed),
            ) + "/s"@
        },
    ]
}

/// What compressing a file reports.
pub fn compressed_file_lines(s: &IoStats, elapsed: Elapsed) -> (out: Vec<String>)
    requires
        report::proper(elapsed),
    ensures
        text::texts(out@) == compressed_file(s@, elapsed),
{
    let mut out: Vec<String> = Vec::new();
    out.push(
        "Compressed ".to_owned().concat(display_bytes(s.input_bytes).as_str()).concat(
            " -> ",
        ).concat(display_bytes(s.output_bytes).as_str()),
    );
    out.push("Output: ".to_owned().concat(s.output_path.as_str()));
    let ratio: String = "Ratio: ".to_owned().concat(
        percent_text(s.output_bytes, s.input_bytes).as_str(),
    );
    if elapsed.secs == 0 && elapsed.nanos == 0 {
        out.push(ratio);
    } else {
        let rate: u64 = bytes_per_second(s.input_bytes, elapsed);
        out.push(
            ratio.concat(" | Time: ").concat(seconds_text(elapsed).as_str()).concat(
                "s | Throughput: ",
            ).concat(display_bytes(rate).as_str()).concat("/s"),
        );
    }
    assert(text::texts(out@) == compressed_file(s@, elapsed));
    out
}

/// What decompressing a file reports. A time is shown where one was taken.
pub open spec fn decompressed_file(s: IoModel, elapsed: Elapsed) -> Seq<Seq<char>> {
    let head = seq![
        "Decompressed "@ + report::bytes_text(s.input_bytes) + " -> "@ + report::bytes_text(
            s.output_bytes,
        ),
        "Output: "@ + s.output_path,
    ];
    if is_zero(elapsed) {
        head
    } else {
        head.push(
            "Time: "@ + report::seconds_shown(elapsed) + "s | Throughput: "@ + report::bytes_text(
                report::rate(s.output_bytes as u64, elapsed),
            ) + "/s"@,
        )
    }
}

/// What decompressing a file reports.
pub fn decompressed_file_lines(s: &IoStats, elapsed: Elapsed) -> (out: Vec<String>)
    requires
        report::proper(elapsed),
    ensures
        text::texts(out@) == decompressed_file(s@, elapsed),
{
    let mut out: Vec<String> = Vec::new();
    out.push(
        "Decompressed ".to_owned().concat(display_bytes(s.input_bytes).as_str()).concat(
            " -> ",
        ).concat(display_bytes(s.output_bytes).as_str()),
    );
    out.push("Output: ".to_owned().concat(s.output_path.as_str()));
    if elapsed.secs != 0 || elapsed.nanos != 0 {
        let rate: u64 = bytes_per_second(s.output_bytes, elapsed);
        out.push(
            "Time: ".to_owned().concat(seconds_text(elapsed).as_str()).concat(
                "s | Throughput: ",
            ).concat(display_bytes(rate).as_str()).concat("/s"),
        );
    }
    assert(text::texts(out@) == decompressed_file(s@, elapsed));
    out
}

/// What packing reports.
pub open spec fn packed(stats: PackStats) -> Seq<Seq<char>> {
    seq![
        "Packed "@ + text::decimal(stats.file_count as nat) + " file(s) -> "@ + stats.output_path@,
        "Original: "@ + report::bytes_text(stats.original_bytes as nat) + " | Archive: "@
            + report::bytes_text(stats.archive_bytes as nat) + " | Ratio: "@ + percent(
            stats.archive_bytes as nat,
            stats.original_bytes as nat,
        ),
    ]
}

/// What packing reports.
pub fn packed_lines(stats: &PackStats) -> (out: Vec<String>)
    ensures
        text::texts(out@) == seq![
            "Packed "@ + text::decimal(stats.file_count as nat) + " file(s) -> "@
                + stats.output_path@,
            "Original: "@ + report::bytes_text(stats.original_bytes as nat) + " | Archive: "@
                + report::bytes_text(stats.archive_bytes as nat) + " | Ratio: "@ + percent(
                stats.archive_bytes as nat,
                stats.original_bytes as nat,
            ),
        ],
        text::texts(out@) == packed(*stats),
{
    let mut out: Vec<String> = Vec::new();
    out.push(
        "Packed ".to_owned().concat(text::decimal_text(stats.file_count as u64).as_str()).concat(
            " file(s) -> ",
        ).concat(stats.output_path.as_str()),
    );
    out.push(
        "Original: ".to_owned().concat(display_bytes(stats.original_bytes).as_str()).concat(
            " | Archive: ",
        ).concat(display_bytes(stats.archive_bytes).as_str()).concat(" | Ratio: ").concat(
            percent_text(stats.archive_bytes, stats.original_bytes).as_str(),
        ),
    );
    assert(text::texts(out@) == packed(*stats));
    out
}

/// What unpacking reports of one member.
pub open spec fn unpacked_member(m: MemberStatsModel) -> Seq<char> {
    if m.skipped {
        "  [skip] "@ + m.path + " ("@ + report::bytes_text(m.original_bytes as nat) + ")"@
    } else {
        "  [ok  ] "@ + m.path + " ("@ + report::bytes_text(m.original_bytes as nat) + ")"@
    }
}

/// What unpacking reports.
pub open spec fn unpacked(stats: UnpackStats) -> Seq<Seq<char>> {
    seq![
        "Unpacked "@ + text::decimal(stats.written as nat) + " file(s) into "@ + stats.output_dir@
            + " (skipped "@ + text::decimal(stats.skipped as nat) + ")"@,
    ] + unpack::stats_view(stats.members@).map_values(|m: MemberStatsModel| unpacked_member(m))
}

/// What unpacking reports.
pub fn unpacked_lines(stats: &UnpackStats) -> (out: Vec<String>)
    ensures
        text::texts(out@) == unpacked(*stats),
        text::texts(out@) == seq![
            "Unpacked "@ + text::decimal(stats.written as nat) + " file(s) into "@
                + stats.output_dir@ + " (skipped "@ + text::decimal(stats.skipped as nat) + ")"@,
        ] + unpack::stats_view(stats.members@).map_values(
            |m: MemberStatsModel| unpacked_member(m),
        ),
{
    let ghost rows = unpack::stats_view(stats.members@).map_values(
        |m: MemberStatsModel| unpacked_member(m),
    );
    let mut out: Vec<String> = Vec::new();
    let head: String = "Unpacked ".to_owned().concat(
        text::decimal_text(stats.written as u64).as_str(),
    ).concat(" file(s) into ").concat(stats.output_dir.as_str()).concat(" (skipped ").concat(
        text::decimal_text(stats.skipped as u64).as_str(),
    ).concat(")");
    let ghost first = head@;
    out.push(head);
    let mut i: usize = 0;
    assert(text::texts(out@) == seq![first] + rows.take(0));
    while i < stats.members.len()
        invariant
            i <= stats.members@.len(),
            rows == unpack::stats_view(stats.members@).map_values(
                |m: MemberStatsModel| unpacked_member(m),
            ),
            text::texts(out@) == seq![first] + rows.take(i as int),
        decreases stats.members@.len() - i,
    {
        let ghost before = text::texts(out@);
        let tag: String = if stats.members[i].skipped {
            "  [skip] ".to_owned()
        } else {
            "  [ok  ] ".to_owned()
        };
        out.push(
            tag.concat(stats.members[i].path.as_str()).concat(" (").concat(
                display_bytes(stats.members[i].original_bytes).as_str(),
            ).concat(")"),
        );
        assert(text::texts(out@) == before.push(rows[i as int]));
        i = i + 1;
        assert(text::texts(out@) == seq![first] + rows.take(i as int));
    }
    assert(rows.take(i as int) == rows);
    out
}

/// What a comparison reports of a path that differs.
pub open spec fn difference(d: DiffModel) -> Seq<Seq<char>> {
    let path = left(report::shortened(d.path, 40), 40);
    match d.status {
        DiffStatus::Identical => Seq::empty(),
        DiffStatus::OnlyInA => seq![left("only_a"@, 10) + " "@ + path + " only in A"@],
        DiffStatus::OnlyInB => seq![left("only_b"@, 10) + " "@ + path + " only in B"@],
        DiffStatus::Changed => seq![left("changed"@, 10) + " "@ + path + " checksum differs"@],
    }
}

/// What a comparison reports of all paths that differ.
pub open spec fn differences(list: Seq<DiffModel>) -> Seq<Seq<char>>
    decreases list.len(),
{
    if list.len() == 0 {
        Seq::empty()
    } else {
        differences(list.drop_last()) + difference(list.last())
    }
}

/// Whether a comparison found no difference.
pub open spec fn same_archives(d: DiffResult) -> bool {
    d.only_in_a == 0 && d.only_in_b == 0 && d.changed == 0
}

/// What a comparison reports.
pub open spec fn comparison(d: DiffResult) -> Seq<Seq<char>> {
    let head = seq![
        "Comparing:"@,
        "  A: "@ + d.archive_a@,
        "  B: "@ + d.archive_b@,
        Seq::empty(),
    ];
    if same_archives(d) {
        head + seq![
            "Archives are identical ("@ + text::decimal(d.identical as nat) + " member(s))"@,
        ]
    } else {
        head + seq![left("status"@, 10) + " "@ + left("path"@, 40) + " detail"@] + differences(
            diff::diffs_view(d.entries@),
        ) + seq![
            Seq::empty(),
            "Summary: "@ + text::decimal(d.identical as nat) + " identical, "@ + text::decimal(
                d.changed as nat,
            ) + " changed, "@ + text::decimal(d.only_in_a as nat) + " only in A, "@
                + text::decimal(d.only_in_b as nat) + " only in B"@,
        ]
    }
}

/// An empty line.
fn empty_line() -> (out: String)
    ensures
        out@ == Seq::<char>::empty(),
{
    let out: String = String::new();
    assert(out@ == Seq::<char>::empty());
    out
}

/// What a comparison reports.
pub fn comparison_lines(d: &DiffResult) -> (out: Vec<String>)
    ensures
        text::texts(out@) == comparison(*d),
{
    let mut out: Vec<String> = Vec::new();
    out.push("Comparing:".to_owned());
    out.push("  A: ".to_owned().concat(d.archive_a.as_str()));
    out.push("  B: ".to_owned().concat(d.archive_b.as_str()));
    out.push(empty_line());
    let ghost head = text::texts(out@);
    assert(head == seq![
        "Comparing:"@,
        "  A: "@ + d.archive_a@,
        "  B: "@ + d.archive_b@,
        Seq::empty(),
    ]);
    if d.is_equal() {
        let line: String = "Archives are identical (".to_owned().concat(
            text::decimal_text(d.identical as u64).as_str(),
        ).concat(" member(s))");
        let ghost shown = line@;
        out.push(line);
        assert(text::texts(out@) == head + seq![shown]);
        return out;
    }
    let titles: String = left_text("status", 10).concat(" ").concat(
        left_text("path", 40).as_str(),
    ).concat(" detail");
    let ghost title = titles@;
    out.push(titles);
    let ghost top = head + seq![title];
    assert(text::texts(out@) == top);
    let ghost all = diff::diffs_view(d.entries@);
    let mut i: usize = 0;
    assert(all.take(0) == Seq::<DiffModel>::empty());
    assert(text::texts(out@) == top + differences(all.take(0)));
    while i < d.entries.len()
        invariant
            i <= d.entries@.len(),
            all == diff::diffs_view(d.entries@),
            text::texts(out@) == top + differences(all.take(i as int)),
        decreases d.entries@.len() - i,
    {
        let ghost before = text::texts(out@);
        assert(all.take(i + 1).drop_last() == all.take(i as int));
        assert(all.take(i + 1).last() == d.entries@[i as int]@);
        let path: String = left_text(
            truncate_display(d.entries[i].path.as_str(), 40).as_str(),
            40,
        );
        match d.entries[i].status {
            DiffStatus::Identical => {},
            DiffStatus::OnlyInA => {
                out.push(
                    left_text("only_a", 10).concat(" ").concat(path.as_str()).concat(" only in A"),
                );
            },
            DiffStatus::OnlyInB => {
                out.push(
                    left_text("only_b", 10).concat(" ").concat(path.as_str()).concat(" only in B"),
                );
            },
            DiffStatus::Changed => {
                out.push(
                    left_text("changed", 10).concat(" ").concat(path.as_str()).concat(
                        " checksum differs",
                    ),
                );
            },
        }
        assert(text::texts(out@) == before + difference(all[i as int]));
        i = i + 1;
        assert(text::texts(out@) == top + differences(all.take(i as int)));
    }
    assert(all.take(i as int) == all);
    out.push(empty_line());
    let last: String = "Summary: ".to_owned().concat(
        text::decimal_text(d.identical as u64).as_str(),
    ).concat(" identical, ").concat(text::decimal_text(d.changed as u64).as_str()).concat(
        " changed, ",
    ).concat(text::decimal_text(d.only_in_a as u64).as_str()).concat(" only in A, ").concat(
        text::decimal_text(d.only_in_b as u64).as_str(),
    ).concat(" only in B");
    let ghost shown = last@;
    out.push(last);
    assert(text::texts(out@) == top + differences(all) + seq![Seq::<char>::empty(), shown]);
    out
}

/// What is shown of a single-file archive.
pub open spec fn file_info(info: ArchiveInfoModel) -> Seq<Seq<char>> {
    let h = info.header;
    seq![
        "File:            "@ + info.path,
        "Kind:            single-file"@,
        "Magic:           RZC1"@,
        "Version:         "@ + text::decimal(h.version as nat),
        "Level:           "@ + text::signed_decimal(h.level as int),
        "Original size:   "@ + both_sizes(h.original_len as nat),
        "Compressed size: "@ + both_sizes(info.compressed_size as nat),
        "Ratio:           "@ + percent(info.compressed_size as nat, h.original_len as nat),
    ] + match h.checksum {
        Some(hash) => seq![
            "Checksum:        present (SHA-256)"@,
            "SHA-256:         "@ + codec::hex_of(hash),
        ],
        None => seq!["Checksum:        absent (v1 container)"@],
    }
}

/// What is shown of a single-file archive.
pub fn file_info_lines(info: &ArchiveInfo) -> (out: Vec<String>)
    ensures
        text::texts(out@) == file_info(info@),
{
    let mut out: Vec<String> = Vec::new();
    out.push("File:            ".to_owned().concat(info.path.as_str()));
    out.push("Kind:            single-file".to_owned());
    out.push("Magic:           RZC1".to_owned());
    out.push(
        "Version:         ".to_owned().concat(
            text::decimal_text(info.header.version as u64).as_str(),
        ),
    );
    out.push(
        "Level:           ".to_owned().concat(
            text::signed_decimal_text(info.header.level).as_str(),
        ),
    );
    out.push(
        "Original size:   ".to_owned().concat(both_sizes_text(info.header.original_len).as_str()),
    );
    out.push(
        "Compressed size: ".to_owned().concat(both_sizes_text(info.compressed_size).as_str()),
    );
    out.push(
        "Ratio:           ".to_owned().concat(
            percent_text(info.compressed_size, info.header.original_len).as_str(),
        ),
    );
    match &info.header.checksum {
        Some(hash) => {
            out.push("Checksum:        present (SHA-256)".to_owned());
            out.push("SHA-256:         ".to_owned().concat(hex_text(hash.as_slice()).as_str()));
        },
        None => {
            out.push("Checksum:        absent (v1 container)".to_owned());
        },
    }
    assert(text::texts(out@) == file_info(info@));
    out
}

/// What is shown of a pack member.
#[verifier::opaque]
pub open spec fn member_row(m: EntryModel) -> Seq<char> {
    left(report::shortened(m.path, 40), 40) + " "@ + right(
        report::bytes_text(m.original_len as nat),
        12,
    ) + " "@ + right(report::bytes_text(m.compressed_len as nat), 12) + " "@ + short_percent(
        m.compressed_len as nat,
        m.original_len as nat,
    )
}

fn member_row_text(m: &PackMemberInfo) -> (out: String)
    ensures
        out@ == member_row(m@),
{
    proof {
        reveal(member_row);
    }
    left_text(truncate_display(m.path.as_str(), 40).as_str(), 40).concat(" ").concat(
        right_text(display_bytes(m.original_len).as_str(), 12).as_str(),
    ).concat(" ").concat(right_text(display_bytes(m.compressed_len).as_str(), 12).as_str()).concat(
        " ",
    ).concat(short_percent_text(m.compressed_len, m.original_len).as_str())
}

/// What is shown of a pack, in front of its members.
pub open spec fn pack_head(info: PackInfoModel) -> Seq<Seq<char>> {
    let total = bytes::capped(pack::original_total(info.members));
    seq![
        "File:            "@ + info.path,
        "Kind:            pack (multi-file)"@,
        "Magic:           RZC1"@,
        "Version:         "@ + text::decimal(info.version as nat),
        "Level:           "@ + text::signed_decimal(info.level as int),
        "Members:         "@ + text::decimal(info.file_count as nat),
        "Archive size:    "@ + both_sizes(info.archive_size as nat),
        "Total original:  "@ + both_sizes(total),
        "Ratio:           "@ + percent(info.archive_size as nat, total),
        Seq::empty(),
        left("path"@, 40) + " "@ + right("original"@, 12) + " "@ + right("compressed"@, 12) + " "@
            + right("ratio"@, 8),
    ]
}

/// What is shown of a pack, with a row for each member.
pub open spec fn pack_info(info: PackInfoModel) -> Seq<Seq<char>> {
    pack_head(info) + info.members.map_values(|m: EntryModel| member_row(m))
}

/// What is shown of a pack.
pub fn pack_info_lines(info: &PackInfo) -> (out: Vec<String>)
    ensures
        text::texts(out@) == pack_info(info@),
        text::texts(out@) == pack_head(info@) + info@.members.map_values(
            |m: EntryModel| member_row(m),
        ),
{
    let total: u64 = info.total_original_len();
    let mut out: Vec<String> = Vec::new();
    out.push("File:            ".to_owned().concat(info.path.as_str()));
    out.push("Kind:            pack (multi-file)".to_owned());
    out.push("Magic:           RZC1".to_owned());
    out.push(
        "Version:         ".to_owned().concat(text::decimal_text(info.version as u64).as_str()),
    );
    out.push(
        "Level:           ".to_owned().concat(text::signed_decimal_text(info.level).as_str()),
    );
    out.push(
        "Members:         ".to_owned().concat(text::decimal_text(info.file_count as u64).as_str()),
    );
    out.push("Archive size:    ".to_owned().concat(both_sizes_text(info.archive_size).as_str()));
    out.push("Total original:  ".to_owned().concat(both_sizes_text(total).as_str()));
    out.push("Ratio:           ".to_owned().concat(percent_text(info.archive_size, total).as_str()));
    out.push(empty_line());
    out.push(
        left_text("path", 40).concat(" ").concat(right_text("original", 12).as_str()).concat(
            " ",
        ).concat(right_text("compressed", 12).as_str()).concat(" ").concat(
            right_text("ratio", 8).as_str(),
        ),
    );
    let ghost head = pack_head(info@);
    let ghost rows = info@.members.map_values(|m: EntryModel| member_row(m));
    assert(text::texts(out@) == head);
    let mut i: usize = 0;
    assert(text::texts(out@) == head + rows.take(0));
    while i < info.members.len()
        invariant
            i <= info.members@.len(),
            rows == pack::entries(info.members@).map_values(|m: EntryModel| member_row(m)),
            text::texts(out@) == head + rows.take(i as int),
        decreases info.members@.len() - i,
    {
        let ghost before = text::texts(out@);
        out.push(member_row_text(&info.members[i]));
        assert(text::texts(out@) == before.push(rows[i as int]));
        i = i + 1;
        assert(text::texts(out@) == head + rows.take(i as int));
    }
    assert(rows.take(i as int) == rows);
    out
}

/// The size that verifying an archive is expected to restore; 0 where it is
/// not known.
pub open spec fn expected_size(listing: Option<ListModel>) -> nat {
    match listing {
        Some(ListModel::Single(info)) => info.header.original_len as nat,
        Some(ListModel::Pack(info)) => bytes::capped(
            pack::original_total(info.members),
        ),
        None => 0,
    }
}

/// The view of an optional listing.
pub open spec fn listing_view(listing: Option<ListResult>) -> Option<ListModel> {
    match listing {
        Some(list) => Some(list@),
        None => None,
    }
}

/// The size that verifying an archive is expected to restore.
pub fn expected_total(listing: &Option<ListResult>) -> (total: u64)
    ensures
        total == expected_size(listing_view(*listing)),
{
    match listing {
        Some(ListResult::Single(info)) => info.header.original_len,
        Some(ListResult::Pack(info)) => info.total_original_len(),
        None => 0,
    }
}

/// What a successful verification reports.
pub open spec fn verified(
    input: Seq<char>,
    written: nat,
    elapsed: Elapsed,
    listing: Option<ListModel>,
) -> Seq<Seq<char>> {
    seq![
        "OK: "@ + input,
        "Verified "@ + report::bytes_text(written) + " in "@ + report::seconds_shown(elapsed)
            + "s"@,
    ] + match listing {
        Some(ListModel::Single(info)) => if info.header.checksum is Some {
            seq!["Checksum: valid (SHA-256)"@]
        } else {
            seq!["Checksum: not present (v1); size check passed"@]
        },
        Some(ListModel::Pack(info)) => seq![
            "Pack: "@ + text::decimal(info.file_count as nat) + " members, all checksums valid"@,
        ],
        None => Seq::empty(),
    }
}

/// What a successful verification reports.
pub fn verified_lines(
    input: &str,
    written: u64,
    elapsed: Elapsed,
    listing: &Option<ListResult>,
) -> (out: Vec<String>)
    requires
        report::proper(elapsed),
    ensures
        text::texts(out@) == verified(input@, written as nat, elapsed, listing_view(*listing)),
{
    let mut out: Vec<String> = Vec::new();
    out.push("OK: ".to_owned().concat(input));
    out.push(
        "Verified ".to_owned().concat(display_bytes(written).as_str()).concat(" in ").concat(
            seconds_text(elapsed).as_str(),
        ).concat("s"),
    );
    match listing {
        Some(ListResult::Single(info)) => {
            if info.header.has_checksum() {
                out.push("Checksum: valid (SHA-256)".to_owned());
            } else {
                out.push("Checksum: not present (v1); size check passed".to_owned());
            }
        },
        Some(ListResult::Pack(info)) => {
            out.push(
                "Pack: ".to_owned().concat(
                    text::decimal_text(info.file_count as u64).as_str(),
                ).concat(" members, all checksums valid"),
            );
        },
        None => {},
    }
    assert(text::texts(out@) == verified(
        input@,
        written as nat,
        elapsed,
        listing_view(*listing),
    ));
    out
}

/// What the self-tests report.
pub open spec fn examined(report: DoctorReport) -> Seq<Seq<char>> {
    seq!["rzc doctor"@] + text::texts(report.messages@).map_values(|m: Seq<char>| "  "@ + m)
        + seq![
        if report.ok {
            "Status: OK"@
        } else {
            "Status: FAILED"@
        },
    ]
}

/// What the self-tests report.
pub fn doctor_lines(report: &DoctorReport) -> (out: Vec<String>)
    ensures
        text::texts(out@) == examined(*report),
        text::texts(out@) == seq!["rzc doctor"@] + text::texts(report.messages@).map_values(
            |m: Seq<char>| "  "@ + m,
        ) + seq![
            if report.ok {
                "Status: OK"@
            } else {
                "Status: FAILED"@
            },
        ],
{
    let ghost rows = text::texts(report.messages@).map_values(|m: Seq<char>| "  "@ + m);
    let mut out: Vec<String> = Vec::new();
    out.push("rzc doctor".to_owned());
    let mut i: usize = 0;
    assert(text::texts(out@) == seq!["rzc doctor"@] + rows.take(0));
    while i < report.messages.len()
        invariant
            i <= report.messages@.len(),
            rows == text::texts(report.messages@).map_values(|m: Seq<char>| "  "@ + m),
            text::texts(out@) == seq!["rzc doctor"@] + rows.take(i as int),
        decreases report.messages@.len() - i,
    {
        let ghost before = text::texts(out@);
        out.push("  ".to_owned().concat(report.messages[i].as_str()));
        assert(text::texts(out@) == before.push(rows[i as int]));
        i = i + 1;
        assert(text::texts(out@) == seq!["rzc doctor"@] + rows.take(i as int));
    }
    assert(rows.take(i as int) == rows);
    let ghost before = text::texts(out@);
    if report.ok {
        out.push("Status: OK".to_owned());
        assert(text::texts(out@) == before.push("Status: OK"@));
    } else {
        out.push("Status: FAILED".to_owned());
        assert(text::texts(out@) == before.push("Status: FAILED"@));
    }
    out
}

/// A matching line, with its member and number.
pub open spec fn match_line(h: grep::Hit) -> Seq<char> {
    h.member + ":"@ + text::decimal(h.line_number) + ":"@ + h.line
}

/// The matching lines.
pub open spec fn matches_shown(result: GrepResult) -> Seq<Seq<char>> {
    grep::hits_view(result.matches@).map_values(|h: grep::Hit| match_line(h))
}

/// The matching lines.
pub fn match_lines(result: &GrepResult) -> (out: Vec<String>)
    ensures
        text::texts(out@) == matches_shown(*result),
        text::texts(out@) == grep::hits_view(result.matches@).map_values(
            |h: grep::Hit| match_line(h),
        ),
{
    let ghost rows = grep::hits_view(result.matches@).map_values(|h: grep::Hit| match_line(h));
    let mut out: Vec<String> = Vec::new();
    let mut i: usize = 0;
    while i < result.matches.len()
        invariant
            i <= result.matches@.len(),
            rows == grep::hits_view(result.matches@).map_values(|h: grep::Hit| match_line(h)),
            text::texts(out@) == rows.take(i as int),
        decreases result.matches@.len() - i,
    {
        let ghost before = text::texts(out@);
        out.push(
            result.matches[i].member.as_str().to_owned().concat(":").concat(
                text::decimal_text(result.matches[i].line_number as u64).as_str(),
            ).concat(":").concat(result.matches[i].line.as_str()),
        );
        assert(text::texts(out@) == before.push(rows[i as int]));
        i = i + 1;
        assert(text::texts(out@) == rows.take(i as int));
    }
    assert(rows.take(i as int) == rows);
    out
}

/// What a search reports besides the matching lines.
pub open spec fn matches_summed(
    result: GrepResult,
    pattern: Seq<char>,
    archive: Seq<char>,
) -> Seq<char> {
    if result.matches@.len() == 0 {
        "No matches for "@ + pattern + " in "@ + archive + " (scanned "@ + text::decimal(
            result.members_searched as nat,
        ) + ", skipped "@ + text::decimal(result.members_skipped as nat) + ")"@
    } else {
        "("@ + text::decimal(result.matches@.len()) + " match(es); scanned "@ + text::decimal(
            result.members_searched as nat,
        ) + ", skipped large/binary "@ + text::decimal(result.members_skipped as nat) + ")"@
    }
}

/// What a search reports besides the matching lines: how many there are, or
/// that there are none. `pattern` is the pattern in quotes.
pub fn match_summary(result: &GrepResult, pattern: &str, archive: &str) -> (out: String)
    ensures
        out@ == matches_summed(*result, pattern@, archive@),
        out@ == if result.matches@.len() == 0 {
            "No matches for "@ + pattern@ + " in "@ + archive@ + " (scanned "@ + text::decimal(
                result.members_searched as nat,
            ) + ", skipped "@ + text::decimal(result.members_skipped as nat) + ")"@
        } else {
            "("@ + text::decimal(result.matches@.len()) + " match(es); scanned "@ + text::decimal(
                result.members_searched as nat,
            ) + ", skipped large/binary "@ + text::decimal(result.members_skipped as nat) + ")"@
        },
{
    let searched: String = text::decimal_text(result.members_searched as u64);
    let skipped: String = text::decimal_text(result.members_skipped as u64);
    if result.matches.len() == 0 {
        "No matches for ".to_owned().concat(pattern).concat(" in ").concat(archive).concat(
            " (scanned ",
        ).concat(searched.as_str()).concat(", skipped ").concat(skipped.as_str()).concat(")")
    } else {
        "(".to_owned().concat(text::decimal_text(result.matches.len() as u64).as_str()).concat(
            " match(es); scanned ",
        ).concat(searched.as_str()).concat(", skipped large/binary ").concat(
            skipped.as_str(),
        ).concat(")")
    }
}

/// The start of a digest.
pub open spec fn short_digest(digest: Seq<char>) -> Seq<char> {
    digest.take(
        if digest.len() < 16 {
            digest.len() as int
        } else {
            16
        },
    )
}

fn short_digest_text(digest: &str) -> (out: String)
    ensures
        out@ == short_digest(digest@),
{
    let chars: Vec<char> = text::chars_of(digest);
    let end: usize = if chars.len() < 16 {
        chars.len()
    } else {
        16
    };
    assert(chars@.subrange(0, end as int) == digest@.take(end as int));
    text::text_between(chars.as_slice(), 0, end)
}

/// What sealing reports.
pub fn sealed_line(info: &SealInfo) -> (out: String)
    ensures
        out@ == "Sealed "@ + info.archive@ + " → "@ + info.sidecar@ + " ("@ + short_digest(
            info.sha256@,
        ) + ")"@,
{
    "Sealed ".to_owned().concat(info.archive.as_str()).concat(" → ").concat(
        info.sidecar.as_str(),
    ).concat(" (").concat(short_digest_text(info.sha256.as_str()).as_str()).concat(")")
}

/// What a successful check of a seal reports.
pub fn checked_line(info: &SealInfo) -> (out: String)
    ensures
        out@ == "OK "@ + info.archive@ + " matches seal "@ + info.sidecar@ + " ("@ + short_digest(
            info.sha256@,
        ) + ")"@,
{
    "OK ".to_owned().concat(info.archive.as_str()).concat(" matches seal ").concat(
        info.sidecar.as_str(),
    ).concat(" (").concat(short_digest_text(info.sha256.as_str()).as_str()).concat(")")
}

/// What repacking reports.
pub open spec fn repacked(input: Seq<char>, stats: RepackStats) -> Seq<char> {
    "Repacked "@ + input + " → "@ + stats.output_path@ + " (kept "@ + text::decimal(
        stats.kept as nat,
    ) + ", excluded "@ + text::decimal(stats.excluded as nat) + ")"@
}

/// What repacking reports.
pub fn repacked_line(input: &str, stats: &RepackStats) -> (out: String)
    ensures
        out@ == repacked(input@, *stats),
        out@ == "Repacked "@ + input@ + " → "@ + stats.output_path@ + " (kept "@ + text::decimal(
            stats.kept as nat,
        ) + ", excluded "@ + text::decimal(stats.excluded as nat) + ")"@,
{
    "Repacked ".to_owned().concat(input).concat(" → ").concat(stats.output_path.as_str()).concat(
        " (kept ",
    ).concat(text::decimal_text(stats.kept as u64).as_str()).concat(", excluded ").concat(
        text::decimal_text(stats.excluded as u64).as_str(),
    ).concat(")")
}

/// One side of a benchmark.
#[derive(Debug, Clone, Copy)]
pub struct Timed {
    pub output_bytes: u64,
    pub elapsed: Elapsed,
}

/// The verdict of a benchmark.
#[verifier::opaque]
pub open spec fn verdict(rzc: Timed, zip: Timed) -> Seq<char> {
    "rzc output was "@ + report::size_delta(zip.output_bytes as nat, rzc.output_bytes as nat)
        + " than zip -9 and "@ + report::speed_delta(zip.elapsed, rzc.elapsed) + "."@
}

/// The verdict of a benchmark.
pub fn bench_summary(rzc: &Timed, zip: &Timed) -> (out: String)
    requires
        report::proper(rzc.elapsed),
        report::proper(zip.elapsed),
    ensures
        out@ == verdict(*rzc, *zip),
{
    proof {
        reveal(verdict);
    }
    "rzc output was ".to_owned().concat(
        describe_size_delta(zip.output_bytes, rzc.output_bytes).as_str(),
    ).concat(" than zip -9 and ").concat(
        describe_speed_delta(zip.elapsed, rzc.elapsed).as_str(),
    ).concat(".")
}

/// A row of the benchmark table.
#[verifier::opaque]
pub open spec fn bench_row(tool: Seq<char>, t: Timed, input: u64) -> Seq<char> {
    left(tool, 12) + " "@ + right(report::bytes_text(t.output_bytes as nat), 12) + " "@ + right(
        report::hundredths(report::ratio_units(t.output_bytes as nat, input as nat, 100)),
        9,
    ) + "% "@ + right(report::seconds_shown(t.elapsed), 9) + "s "@ + right(
        report::bytes_text(report::rate(input, t.elapsed)),
        13,
    ) + "/s"@
}

fn bench_row_text(tool: &str, t: &Timed, input: u64) -> (out: String)
    requires
        report::proper(t.elapsed),
    ensures
        out@ == bench_row(tool@, *t, input),
{
    proof {
        reveal(bench_row);
    }
    let rate: u64 = bytes_per_second(input, t.elapsed);
    left_text(tool, 12).concat(" ").concat(
        right_text(display_bytes(t.output_bytes).as_str(), 12).as_str(),
    ).concat(" ").concat(right_text(ratio_text(t.output_bytes, input).as_str(), 9).as_str()).concat(
        "% ",
    ).concat(right_text(seconds_text(t.elapsed).as_str(), 9).as_str()).concat("s ").concat(
        right_text(display_bytes(rate).as_str(), 13).as_str(),
    ).concat("/s")
}

/// What a benchmark reports.
pub fn bench_lines(
    input_path: &str,
    input: u64,
    dir: &str,
    level: i32,
    rzc: &Timed,
    zip: &Timed,
) -> (out: Vec<String>)
    requires
        report::proper(rzc.elapsed),
        report::proper(zip.elapsed),
    ensures
        text::texts(out@) == seq![
            "Input: "@ + input_path@ + " ("@ + report::bytes_text(input as nat) + ")"@,
            "Benchmark artifacts: "@ + dir@,
            Seq::empty(),
            left("tool"@, 12) + " "@ + right("size"@, 12) + " "@ + right("ratio"@, 10) + " "@
                + right("time"@, 10) + " "@ + right("throughput"@, 14),
            bench_row("rzc-l"@ + text::signed_decimal(level as int), *rzc, input),
            bench_row("zip-9"@, *zip, input),
            Seq::empty(),
            "Result: "@ + verdict(*rzc, *zip),
        ],
{
    let mut out: Vec<String> = Vec::new();
    out.push(
        "Input: ".to_owned().concat(input_path).concat(" (").concat(
            display_bytes(input).as_str(),
        ).concat(")"),
    );
    out.push("Benchmark artifacts: ".to_owned().concat(dir));
    out.push(empty_line());
    out.push(
        left_text("tool", 12).concat(" ").concat(right_text("size", 12).as_str()).concat(
            " ",
        ).concat(right_text("ratio", 10).as_str()).concat(" ").concat(
            right_text("time", 10).as_str(),
        ).concat(" ").concat(right_text("throughput", 14).as_str()),
    );
    let tool: String = "rzc-l".to_owned().concat(text::signed_decimal_text(level).as_str());
    out.push(bench_row_text(tool.as_str(), rzc, input));
    out.push(bench_row_text("zip-9", zip, input));
    out.push(empty_line());
    out.push("Result: ".to_owned().concat(bench_summary(rzc, zip).as_str()));
    out
}

/// Whether `shown` is a ratio in percent with two decimals: the compressed size
/// to the original. It is at most 100.00% exactly where it should be.
pub open spec fn shows_ratio(shown: Seq<char>, compressed: nat, original: nat) -> bool {
    exists|n: nat|
        {
            &&& shown == #[trigger] report::hundredths(n) + "%"@
            &&& original == 0 ==> n == 0
            &&& original > 0 ==> binary64::is_percentage(n, compressed, original, 100)
            &&& compressed <= original ==> n <= 10_000
            &&& compressed >= original > 0 ==> n >= 10_000
        }
}

/// Whether `shown` is a ratio in percent with one decimal in a column.
pub open spec fn shows_short_ratio(shown: Seq<char>, compressed: nat, original: nat) -> bool {
    exists|n: nat|
        {
            &&& shown == #[trigger] right(report::tenths(n), 7) + "%"@
            &&& original == 0 ==> n == 0
            &&& original > 0 ==> binary64::is_percentage(n, compressed, original, 10)
            &&& compressed <= original ==> n <= 1000
            &&& compressed >= original > 0 ==> n >= 1000
        }
}

proof fn percent_shows_ratio(compressed: nat, original: nat)
    ensures
        shows_ratio(percent(compressed, original), compressed, original),
        shows_short_ratio(short_percent(compressed, original), compressed, original),
{
    report::ratio_is_percentage(compressed, original, 100);
    report::ratio_is_percentage(compressed, original, 10);
    let n = report::ratio_units(compressed, original, 100);
    let m = report::ratio_units(compressed, original, 10);
    assert(percent(compressed, original) == report::hundredths(n) + "%"@);
    assert(short_percent(compressed, original) == right(report::tenths(m), 7) + "%"@);
}

/// Whether the line starts with `label` and then shows a size both ways.
pub open spec fn labels_size(line: Seq<char>, label: Seq<char>, bytes: nat) -> bool {
    line == label + text::decimal(bytes) + " ("@ + report::bytes_text(bytes) + ")"@
}

/// Whether the line starts with `label` and then shows a ratio.
pub open spec fn labels_ratio(
    line: Seq<char>,
    label: Seq<char>,
    compressed: nat,
    original: nat,
) -> bool {
    exists|shown: Seq<char>|
        line == #[trigger] (label + shown) && shows_ratio(shown, compressed, original)
}

proof fn percent_labels_ratio(label: Seq<char>, compressed: nat, original: nat)
    ensures
        labels_ratio(label + percent(compressed, original), label, compressed, original),
{
    percent_shows_ratio(compressed, original);
    assert(label + percent(compressed, original) == label + percent(compressed, original));
}

proof fn both_sizes_label(label: Seq<char>, bytes: nat)
    ensures
        labels_size(label + both_sizes(bytes), label, bytes),
{
    assert(label + both_sizes(bytes) == label + text::decimal(bytes) + " ("@ + report::bytes_text(
        bytes,
    ) + ")"@);
}

/// An estimate shows the size of the input, the estimated size, and the
/// estimated size in percent of the input.
pub proof fn estimate_shows_sizes(title: Seq<char>, input: nat, estimated: nat)
    ensures
        estimate(title, input, estimated).len() == 4,
        estimate(title, input, estimated)[0] == title,
        labels_size(estimate(title, input, estimated)[1], "Input:  "@, input),
        labels_size(estimate(title, input, estimated)[2], "Est. compressed: "@, estimated),
        labels_ratio(estimate(title, input, estimated)[3], "Ratio:  "@, estimated, input),
{
    both_sizes_label("Input:  "@, input);
    both_sizes_label("Est. compressed: "@, estimated);
    percent_labels_ratio("Ratio:  "@, estimated, input);
}

/// What is shown of a single-file archive has the size of its contents, its own
/// size, and its own size in percent of that of its contents.
pub proof fn file_info_shows_sizes(info: ArchiveInfoModel)
    ensures
        file_info(info)[0] == "File:            "@ + info.path,
        file_info(info)[3] == "Version:         "@ + text::decimal(info.header.version as nat),
        file_info(info)[4] == "Level:           "@ + text::signed_decimal(
            info.header.level as int,
        ),
        labels_size(
            file_info(info)[5],
            "Original size:   "@,
            info.header.original_len as nat,
        ),
        labels_size(
            file_info(info)[6],
            "Compressed size: "@,
            info.compressed_size as nat,
        ),
        labels_ratio(
            file_info(info)[7],
            "Ratio:           "@,
            info.compressed_size as nat,
            info.header.original_len as nat,
        ),
        info.header.checksum matches Some(hash) ==> file_info(info).len() == 10 && file_info(
            info,
        )[9] == "SHA-256:         "@ + codec::hex_of(hash),
        info.header.checksum is None ==> file_info(info).len() == 9 && file_info(info)[8]
            == "Checksum:        absent (v1 container)"@,
{
    both_sizes_label("Original size:   "@, info.header.original_len as nat);
    both_sizes_label("Compressed size: "@, info.compressed_size as nat);
    percent_labels_ratio(
        "Ratio:           "@,
        info.compressed_size as nat,
        info.header.original_len as nat,
    );
}

/// What is shown of a pack has the number of its members, its own size, the sum
/// of the sizes of its members before compression, and its own size in percent
/// of that sum.
pub proof fn pack_info_shows_sizes(info: PackInfoModel)
    requires
        pack::original_total(info.members) <= u64::MAX,
    ensures
        pack_head(info)[0] == "File:            "@ + info.path,
        pack_head(info)[3] == "Version:         "@ + text::decimal(info.version as nat),
        pack_head(info)[4] == "Level:           "@ + text::signed_decimal(info.level as int),
        pack_head(info)[5] == "Members:         "@ + text::decimal(info.file_count as nat),
        labels_size(pack_head(info)[6], "Archive size:    "@, info.archive_size as nat),
        labels_size(
            pack_head(info)[7],
            "Total original:  "@,
            pack::original_total(info.members),
        ),
        labels_ratio(
            pack_head(info)[8],
            "Ratio:           "@,
            info.archive_size as nat,
            pack::original_total(info.members),
        ),
        pack_head(info).len() == 11,
{
    let total = pack::original_total(info.members);
    both_sizes_label("Archive size:    "@, info.archive_size as nat);
    both_sizes_label("Total original:  "@, total);
    percent_labels_ratio("Ratio:           "@, info.archive_size as nat, total);
}

/// What packing reports has the sizes before and after, and the archive in
/// percent of the originals.
pub proof fn packed_shows_sizes(stats: PackStats)
    ensures
        packed(stats).len() == 2,
        packed(stats)[0] == "Packed "@ + text::decimal(stats.file_count as nat)
            + " file(s) -> "@ + stats.output_path@,
        labels_ratio(
            packed(stats)[1],
            "Original: "@ + report::bytes_text(stats.original_bytes as nat) + " | Archive: "@
                + report::bytes_text(stats.archive_bytes as nat) + " | Ratio: "@,
            stats.archive_bytes as nat,
            stats.original_bytes as nat,
        ),
{
    percent_labels_ratio(
        "Original: "@ + report::bytes_text(stats.original_bytes as nat) + " | Archive: "@
            + report::bytes_text(stats.archive_bytes as nat) + " | Ratio: "@,
        stats.archive_bytes as nat,
        stats.original_bytes as nat,
    );
}

/// What compressing a file reports has the sizes before and after, where the
/// output went, and the output in percent of the input; the throughput is that
/// of the input.
pub proof fn compressed_shows_sizes(s: IoModel, elapsed: Elapsed)
    ensures
        compressed_file(s, elapsed).len() == 3,
        compressed_file(s, elapsed)[0] == "Compressed "@ + report::bytes_text(s.input_bytes)
            + " -> "@ + report::bytes_text(s.output_bytes),
        compressed_file(s, elapsed)[1] == "Output: "@ + s.output_path,
        !report::passed(elapsed) ==> labels_ratio(
            compressed_file(s, elapsed)[2],
            "Ratio: "@,
            s.output_bytes,
            s.input_bytes,
        ),
        report::passed(elapsed) ==> exists|ratio: Seq<char>|
            compressed_file(s, elapsed)[2] == #[trigger] ("Ratio: "@ + ratio) + " | Time: "@
                + report::seconds_shown(elapsed) + "s | Throughput: "@ + report::bytes_text(
                report::rate(s.input_bytes as u64, elapsed),
            ) + "/s"@ && shows_ratio(ratio, s.output_bytes, s.input_bytes),
{
    let ratio = percent(s.output_bytes, s.input_bytes);
    percent_labels_ratio("Ratio: "@, s.output_bytes, s.input_bytes);
    percent_shows_ratio(s.output_bytes, s.input_bytes);
    if report::passed(elapsed) {
        assert(compressed_file(s, elapsed)[2] == ("Ratio: "@ + ratio) + " | Time: "@
            + report::seconds_shown(elapsed) + "s | Throughput: "@ + report::bytes_text(
            report::rate(s.input_bytes as u64, elapsed),
        ) + "/s"@);
    }
}

/// A row of the table of ratios shows the size before, the size after, and the
/// second in percent of the first.
pub proof fn ratio_row_shows_sizes(status: Seq<char>, input: nat, output: nat, what: Seq<char>)
    ensures
        exists|ratio: Seq<char>|
            ratio_row(status, input, output, what) == left(status, 10) + " "@ + right(
                report::bytes_text(input),
                12,
            ) + " "@ + right(report::bytes_text(output), 12) + " "@ + ratio + "  "@ + what
                && #[trigger] shows_short_ratio(ratio, output, input),
{
    reveal(ratio_row);
    percent_shows_ratio(output, input);
    assert(shows_short_ratio(short_percent(output, input), output, input));
}

/// The row of a member shows its size before compression, the size of its
/// payload, and the second in percent of the first.
pub proof fn member_row_shows_sizes(m: EntryModel)
    ensures
        exists|ratio: Seq<char>|
            member_row(m) == left(report::shortened(m.path, 40), 40) + " "@ + right(
                report::bytes_text(m.original_len as nat),
                12,
            ) + " "@ + right(report::bytes_text(m.compressed_len as nat), 12) + " "@ + ratio
                && #[trigger] shows_short_ratio(
                ratio,
                m.compressed_len as nat,
                m.original_len as nat,
            ),
{
    reveal(member_row);
    percent_shows_ratio(m.compressed_len as nat, m.original_len as nat);
    assert(shows_short_ratio(
        short_percent(m.compressed_len as nat, m.original_len as nat),
        m.compressed_len as nat,
        m.original_len as nat,
    ));
}

/// A row of the benchmark shows the size of the output, which is also shown in
/// percent of the input, the time taken, and the input per second.
pub proof fn bench_row_shows_sizes(tool: Seq<char>, t: Timed, input: u64)
    ensures
        exists|n: nat|
            bench_row(tool, t, input) == left(tool, 12) + " "@ + right(
                report::bytes_text(t.output_bytes as nat),
                12,
            ) + " "@ + right(#[trigger] report::hundredths(n), 9) + "% "@ + right(
                report::seconds_shown(t.elapsed),
                9,
            ) + "s "@ + right(report::bytes_text(report::rate(input, t.elapsed)), 13) + "/s"@ && (
            input > 0 ==> binary64::is_percentage(n, t.output_bytes as nat, input as nat, 100)),
{
    reveal(bench_row);
    report::ratio_is_percentage(t.output_bytes as nat, input as nat, 100);
    let n = report::ratio_units(t.output_bytes as nat, input as nat, 100);
    assert(report::hundredths(n) == report::hundredths(n));
}

/// The totals of two lists one behind the other are the sums of their totals.
pub proof fn io_totals_add(a: Seq<IoModel>, b: Seq<IoModel>)
    ensures
        input_total(a + b) == input_total(a) + input_total(b),
        output_total(a + b) == output_total(a) + output_total(b),
    decreases b.len(),
{
    if b.len() == 0 {
        assert(a + b == a);
    } else {
        io_totals_add(a, b.drop_last());
        assert((a + b).drop_last() == a + b.drop_last());
        assert((a + b).last() == b.last());
    }
}

/// The totals of one file are its sizes.
pub proof fn io_total_of_one(s: IoModel)
    ensures
        input_total(seq![s]) == s.input_bytes,
        output_total(seq![s]) == s.output_bytes,
{
    assert(seq![s].drop_last() == Seq::<IoModel>::empty());
    assert(input_total(seq![s].drop_last()) == 0);
    assert(output_total(seq![s].drop_last()) == 0);
}

/// The table of ratios has a head, then a row for each file in the order given,
/// then the totals.
pub proof fn ratio_table_has_rows(results: Seq<IoModel>)
    requires
        input_total(results) <= u64::MAX,
        output_total(results) <= u64::MAX,
    ensures
        ratio_table(results).len() == results.len() + 2,
        forall|i: int|
            0 <= i < results.len() ==> #[trigger] ratio_table(results)[i + 1] == ratio_row(
                "ok"@,
                results[i].input_bytes,
                results[i].output_bytes,
                results[i].output_path,
            ),
        ratio_table(results).last() == ratio_row(
            "TOTAL"@,
            input_total(results),
            output_total(results),
            "("@ + text::decimal(results.len()) + " files)"@,
        ),
{
}

/// Whether a row on a difference says that.
pub open spec fn says(row: Seq<char>, word: Seq<char>, path: Seq<char>, detail: Seq<char>) -> bool {
    row == left(word, 10) + " "@ + left(report::shortened(path, 40), 40) + " "@ + detail
}

/// A comparison reports the paths that differ, in order and each once: those
/// only in the first archive as such, those only in the second as such, and
/// those with different checksums as changed.
pub proof fn differences_are_reported(list: Seq<DiffModel>)
    ensures
        ({
            let odd = list.filter(|d: DiffModel| d.status != DiffStatus::Identical);
            &&& differences(list).len() == odd.len()
            &&& forall|k: int|
                0 <= k < odd.len() ==> {
                    let row = #[trigger] differences(list)[k];
                    let path = odd[k].path;
                    &&& odd[k].status == DiffStatus::OnlyInA ==> says(
                        row,
                        "only_a"@,
                        path,
                        "only in A"@,
                    )
                    &&& odd[k].status == DiffStatus::OnlyInB ==> says(
                        row,
                        "only_b"@,
                        path,
                        "only in B"@,
                    )
                    &&& odd[k].status == DiffStatus::Changed ==> says(
                        row,
                        "changed"@,
                        path,
                        "checksum differs"@,
                    )
                }
        }),
    decreases list.len(),
{
    let keep = |d: DiffModel| d.status != DiffStatus::Identical;
    let odd = list.filter(keep);
    reveal(Seq::filter);
    if list.len() > 0 {
        let init = list.drop_last();
        let last = list.last();
        differences_are_reported(init);
        let before = init.filter(keep);
        let all = differences(list);
        assert(keep(last) ==> odd == before.push(last));
        assert(!keep(last) ==> odd == before);
        reveal_strlit(" ");
        reveal_strlit(" only in A");
        reveal_strlit(" only in B");
        reveal_strlit(" checksum differs");
        reveal_strlit("only in A");
        reveal_strlit("only in B");
        reveal_strlit("checksum differs");
        assert(" only in A"@ == " "@ + "only in A"@);
        assert(" only in B"@ == " "@ + "only in B"@);
        assert(" checksum differs"@ == " "@ + "checksum differs"@);
        let path = left(report::shortened(last.path, 40), 40);
        assert(left("only_a"@, 10) + " "@ + path + " only in A"@ == left("only_a"@, 10) + " "@
            + path + " "@ + "only in A"@);
        assert(left("only_b"@, 10) + " "@ + path + " only in B"@ == left("only_b"@, 10) + " "@
            + path + " "@ + "only in B"@);
        assert(left("changed"@, 10) + " "@ + path + " checksum differs"@ == left("changed"@, 10)
            + " "@ + path + " "@ + "checksum differs"@);
        assert forall|k: int| 0 <= k < odd.len() implies {
            let row = #[trigger] all[k];
            let path = odd[k].path;
            &&& odd[k].status == DiffStatus::OnlyInA ==> says(row, "only_a"@, path, "only in A"@)
            &&& odd[k].status == DiffStatus::OnlyInB ==> says(row, "only_b"@, path, "only in B"@)
            &&& odd[k].status == DiffStatus::Changed ==> says(
                row,
                "changed"@,
                path,
                "checksum differs"@,
            )
        } by {
            if k < before.len() {
                assert(all[k] == differences(init)[k]);
                assert(odd[k] == before[k]);
            } else {
                assert(odd[k] == last);
                assert(all[k] == difference(last)[0]);
            }
        }
    }
}

/// A comparison ends with its totals: how many paths are the same, changed, only
/// in the first archive and only in the second.
pub proof fn comparison_ends_with_totals(d: DiffResult)
    ensures
        comparison(d)[1] == "  A: "@ + d.archive_a@,
        comparison(d)[2] == "  B: "@ + d.archive_b@,
        d.only_in_a == 0 && d.only_in_b == 0 && d.changed == 0 ==> comparison(d).last()
            == "Archives are identical ("@ + text::decimal(d.identical as nat) + " member(s))"@,
        d.only_in_a > 0 || d.only_in_b > 0 || d.changed > 0 ==> comparison(d).last()
            == "Summary: "@ + text::decimal(d.identical as nat) + " identical, "@ + text::decimal(
            d.changed as nat,
        ) + " changed, "@ + text::decimal(d.only_in_a as nat) + " only in A, "@ + text::decimal(
            d.only_in_b as nat,
        ) + " only in B"@,
{
}

/// Columns keep what stands in them: on the left with blanks behind it, on the
/// right with blanks in front, and as wide as asked for or as needed.
pub proof fn columns_keep_their_text(s: Seq<char>, width: nat)
    ensures
        left(s, width).take(s.len() as int) == s,
        right(s, width).skip(right(s, width).len() - s.len()) == s,
        s.len() <= width ==> left(s, width).len() == width && right(s, width).len() == width,
        s.len() >= width ==> left(s, width) == s && right(s, width) == s,
        forall|i: int| s.len() <= i < left(s, width).len() ==> #[trigger] left(s, width)[i] == ' ',
        forall|i: int|
            0 <= i < right(s, width).len() - s.len() ==> #[trigger] right(s, width)[i] == ' ',
{
    assert(left(s, width).take(s.len() as int) == s);
    assert(right(s, width).skip(right(s, width).len() - s.len()) == s);
    if s.len() >= width {
        assert(left(s, width) == s);
        assert(right(s, width) == s);
    }
}

/// The verdict of a benchmark compares the first tool with the second as the
/// baseline: a smaller output is called smaller, and a clearly shorter time
/// faster.
pub proof fn verdict_compares_with_the_second(rzc: Timed, zip: Timed)
    requires
        0 < zip.output_bytes < binary64::BOUND,
        rzc.output_bytes < binary64::BOUND,
        report::proper(rzc.elapsed),
        report::proper(zip.elapsed),
        report::passed(rzc.elapsed),
        report::passed(zip.elapsed),
    ensures
        exists|size: Seq<char>, speed: Seq<char>|
            {
                let r = binary64::billionths(rzc.elapsed.secs, rzc.elapsed.nanos);
                let z = binary64::billionths(zip.elapsed.secs, zip.elapsed.nanos);
                &&& verdict(rzc, zip) == #[trigger] ("rzc output was "@ + size
                    + " than zip -9 and "@ + speed + "."@)
                &&& rzc.output_bytes <= zip.output_bytes ==> text::ends_with(size, "% smaller"@)
                &&& rzc.output_bytes > zip.output_bytes ==> text::ends_with(size, "% larger"@)
                &&& binary64::BOUND * r + 16 * z < binary64::BOUND * z ==> text::ends_with(
                    speed,
                    "x faster"@,
                )
                &&& binary64::BOUND * z + 16 * r < binary64::BOUND * r ==> text::ends_with(
                    speed,
                    "x slower"@,
                )
            },
{
    reveal(verdict);
    let a = zip.output_bytes as nat;
    let b = rzc.output_bytes as nat;
    let size = report::size_delta(a, b);
    let speed = report::speed_delta(zip.elapsed, rzc.elapsed);
    let r = binary64::billionths(rzc.elapsed.secs, rzc.elapsed.nanos);
    let z = binary64::billionths(zip.elapsed.secs, zip.elapsed.nanos);
    report::size_delta_is_percentage(a, b);
    report::speed_delta_is_quotient(zip.elapsed, rzc.elapsed);
    text::ending_has_front(size, "% smaller"@);
    text::ending_has_front(size, "% larger"@);
    text::ending_has_front(speed, "x faster"@);
    text::ending_has_front(speed, "x slower"@);
    assert(verdict(rzc, zip) == "rzc output was "@ + size + " than zip -9 and "@ + speed + "."@);
}

/// What verifying is expected to restore is what the listing says: the size of a
/// single file, or of all members together.
pub proof fn expected_size_is_listed(info: PackInfoModel, single: ArchiveInfoModel)
    ensures
        expected_size(Some(ListModel::Single(single))) == single.header.original_len,
        pack::original_total(info.members) <= u64::MAX ==> expected_size(
            Some(ListModel::Pack(info)),
        ) == pack::original_total(info.members),
        expected_size(None) == 0,
{
}

/// What decompressing a file reports has the sizes before and after and where
/// the output went; the throughput is that of the output.
pub proof fn decompressed_shows_sizes(s: IoModel, elapsed: Elapsed)
    ensures
        decompressed_file(s, elapsed)[0] == "Decompressed "@ + report::bytes_text(s.input_bytes)
            + " -> "@ + report::bytes_text(s.output_bytes),
        decompressed_file(s, elapsed)[1] == "Output: "@ + s.output_path,
        !report::passed(elapsed) ==> decompressed_file(s, elapsed).len() == 2,
        report::passed(elapsed) ==> decompressed_file(s, elapsed).len() == 3 && decompressed_file(
            s,
            elapsed,
        )[2] == "Time: "@ + report::seconds_shown(elapsed) + "s | Throughput: "@
            + report::bytes_text(report::rate(s.output_bytes as u64, elapsed)) + "/s"@,
{
}

/// A shown digest is a start of the digest, of 16 digits where it has as many.
pub proof fn short_digest_is_a_start(digest: Seq<char>)
    ensures
        short_digest(digest) == digest.take(short_digest(digest).len() as int),
        digest.len() >= 16 ==> short_digest(digest).len() == 16,
        digest.len() < 16 ==> short_digest(digest) == digest,
{
    assert(digest.take(digest.len() as int) == digest);
}

/// Where two archives differ, a comparison reports each difference between its
/// head and its totals.
pub proof fn comparison_reports_differences(d: DiffResult)
    requires
        d.only_in_a > 0 || d.only_in_b > 0 || d.changed > 0,
    ensures
        comparison(d).len() == 5 + differences(diff::diffs_view(d.entries@)).len() + 2,
        comparison(d).subrange(5, comparison(d).len() - 2) == differences(
            diff::diffs_view(d.entries@),
        ),
{
    assert(comparison(d).subrange(5, comparison(d).len() - 2) == differences(
        diff::diffs_view(d.entries@),
    ));
}

/// A matching line is shown behind its member and its number, with a colon
/// behind each.
pub proof fn match_line_shows_place(h: grep::Hit)
    requires
        !h.member.contains(':'),
    ensures
        ({
            let shown = match_line(h);
            let n = h.member.len() as int;
            let digits = text::decimal(h.line_number);
            &&& shown.take(n) == h.member
            &&& shown[n] == ':'
            &&& shown.subrange(n + 1, n + 1 + digits.len()) == digits
            &&& shown[n + 1 + digits.len()] == ':'
            &&& shown.skip(n + 2 + digits.len()) == h.line
        }),
{
    reveal_strlit(":");
    let shown = match_line(h);
    let n = h.member.len() as int;
    let digits = text::decimal(h.line_number);
    assert(shown.take(n) == h.member);
    assert(shown.subrange(n + 1, n + 1 + digits.len()) == digits);
    assert(shown.skip(n + 2 + digits.len()) == h.line);
}

/// What unpacking reports of a member tells skipped ones from written ones, and
/// has the path and the size.
pub proof fn unpacked_member_is_marked(m: MemberStatsModel)
    ensures
        m.skipped ==> unpacked_member(m) == "  [skip] "@ + m.path + " ("@ + report::bytes_text(
            m.original_bytes as nat,
        ) + ")"@,
        !m.skipped ==> unpacked_member(m) == "  [ok  ] "@ + m.path + " ("@ + report::bytes_text(
            m.original_bytes as nat,
        ) + ")"@,
{
}

/// A successful verification is reported with the size that was restored, and
/// says whether a checksum was there to be compared.
pub proof fn verified_tells_checksums(
    input: Seq<char>,
    written: nat,
    elapsed: Elapsed,
    info: ArchiveInfoModel,
    members: PackInfoModel,
)
    ensures
        verified(input, written, elapsed, None) == seq![
            "OK: "@ + input,
            "Verified "@ + report::bytes_text(written) + " in "@ + report::seconds_shown(elapsed)
                + "s"@,
        ],
        info.header.checksum is Some ==> verified(
            input,
            written,
            elapsed,
            Some(ListModel::Single(info)),
        ) == verified(input, written, elapsed, None).push("Checksum: valid (SHA-256)"@),
        info.header.checksum is None ==> verified(
            input,
            written,
            elapsed,
            Some(ListModel::Single(info)),
        ) == verified(input, written, elapsed, None).push(
            "Checksum: not present (v1); size check passed"@,
        ),
        verified(input, written, elapsed, Some(ListModel::Pack(members))) == verified(
            input,
            written,
            elapsed,
            None,
        ).push("Pack: "@ + text::decimal(members.file_count as nat) + " members, all checksums valid"@),
{
    let head = verified(input, written, elapsed, None);
    assert(head == seq![
        "OK: "@ + input,
        "Verified "@ + report::bytes_text(written) + " in "@ + report::seconds_shown(elapsed)
            + "s"@,
    ]);
    assert(verified(input, written, elapsed, Some(ListModel::Single(info))) == head.push(
        if info.header.checksum is Some {
            "Checksum: valid (SHA-256)"@
        } else {
            "Checksum: not present (v1); size check passed"@
        },
    ));
    assert(verified(input, written, elapsed, Some(ListModel::Pack(members))) == head.push(
        "Pack: "@ + text::decimal(members.file_count as nat) + " members, all checksums valid"@,
    ));
}

/// What is shown of a pack has a row for each member behind its head, in order.
pub proof fn pack_info_has_rows(info: PackInfoModel)
    ensures
        pack_info(info).len() == 11 + info.members.len(),
        forall|k: int|
            0 <= k < info.members.len() ==> #[trigger] pack_info(info)[11 + k] == member_row(
                info.members[k],
            ),
        pack_info(info).take(11) == pack_head(info),
{
    assert(pack_info(info).take(11) == pack_head(info));
}

/// What unpacking reports counts written and skipped files, and has a row for
/// each recorded member, in order.
pub proof fn unpacked_has_rows(stats: UnpackStats)
    ensures
        unpacked(stats).len() == 1 + stats.members@.len(),
        unpacked(stats)[0] == "Unpacked "@ + text::decimal(stats.written as nat)
            + " file(s) into "@ + stats.output_dir@ + " (skipped "@ + text::decimal(
            stats.skipped as nat,
        ) + ")"@,
        forall|k: int|
            0 <= k < stats.members@.len() ==> #[trigger] unpacked(stats)[1 + k] == unpacked_member(
                stats.members@[k]@,
            ),
{
}

/// Every match is shown, in order.
pub proof fn every_match_is_shown(result: GrepResult)
    ensures
        matches_shown(result).len() == result.matches@.len(),
        forall|k: int|
            0 <= k < result.matches@.len() ==> #[trigger] matches_shown(result)[k] == match_line(
                result.matches@[k]@,
            ),
{
}

/// A search without matches says so, and any search says how many members were
/// searched and how many were skipped.
pub proof fn search_tells_its_counts(result: GrepResult, pattern: Seq<char>, archive: Seq<char>)
    ensures
        text::ends_with(matches_summed(result, pattern, archive), text::decimal(
            result.members_skipped as nat,
        ) + ")"@),
        result.matches@.len() == 0 ==> matches_summed(result, pattern, archive).take(
            "No matches for "@.len() as int,
        ) == "No matches for "@,
        result.matches@.len() > 0 ==> matches_summed(result, pattern, archive).take(
            1 + text::decimal(result.matches@.len()).len() as int,
        ) == "("@ + text::decimal(result.matches@.len()),
        exists|front: Seq<char>, back: Seq<char>|
            matches_summed(result, pattern, archive) == #[trigger] (front + "scanned "@
                + text::decimal(result.members_searched as nat) + ", skipped "@ + back),
{
    let shown = matches_summed(result, pattern, archive);
    let searched = text::decimal(result.members_searched as nat);
    let skipped = text::decimal(result.members_skipped as nat) + ")"@;
    reveal_strlit("(");
    reveal_strlit("scanned ");
    reveal_strlit(", skipped ");
    reveal_strlit(", skipped large/binary ");
    reveal_strlit("large/binary ");
    reveal_strlit(" (scanned ");
    reveal_strlit(" (");
    reveal_strlit(" match(es); scanned ");
    reveal_strlit(" match(es); ");
    assert(" (scanned "@ == " ("@ + "scanned "@);
    assert(" match(es); scanned "@ == " match(es); "@ + "scanned "@);
    assert(", skipped large/binary "@ == ", skipped "@ + "large/binary "@);
    assert(shown.skip(shown.len() - skipped.len()) == skipped);
    if result.matches@.len() == 0 {
        let front = "No matches for "@ + pattern + " in "@ + archive + " ("@;
        assert(shown == front + "scanned "@ + searched + ", skipped "@ + skipped);
        assert(shown.take("No matches for "@.len() as int) == "No matches for "@);
    } else {
        let count = text::decimal(result.matches@.len());
        let front = "("@ + count + " match(es); "@;
        let back = "large/binary "@ + skipped;
        assert(shown == front + "scanned "@ + searched + ", skipped "@ + back);
        assert(shown.take(1 + count.len() as int) == "("@ + count);
    }
}

/// What repacking reports counts what was kept in front of what was left out.
pub proof fn repacked_tells_its_counts(input: Seq<char>, stats: RepackStats)
    ensures
        text::ends_with(
            repacked(input, stats),
            " (kept "@ + text::decimal(stats.kept as nat) + ", excluded "@ + text::decimal(
                stats.excluded as nat,
            ) + ")"@,
        ),
{
    let tail = " (kept "@ + text::decimal(stats.kept as nat) + ", excluded "@ + text::decimal(
        stats.excluded as nat,
    ) + ")"@;
    let shown = repacked(input, stats);
    assert(shown == "Repacked "@ + input + " → "@ + stats.output_path@ + tail);
    assert(shown.skip(shown.len() - tail.len()) == tail);
}

/// The self-tests are reported with a line for each message, in order, and end
/// with the verdict.
pub proof fn examination_ends_with_verdict(report: DoctorReport)
    ensures
        examined(report).len() == report.messages@.len() + 2,
        forall|k: int|
            0 <= k < report.messages@.len() ==> #[trigger] examined(report)[1 + k] == "  "@
                + report.messages@[k]@,
        report.ok ==> examined(report).last() == "Status: OK"@,
        !report.ok ==> examined(report).last() == "Status: FAILED"@,
{
}

/// For the same members, a larger archive is shown with no smaller ratio.
pub proof fn pack_ratio_grows(small: PackInfoModel, large: PackInfoModel)
    requires
        small.members == large.members,
        small.archive_size <= large.archive_size,
    ensures
        exists|n: nat, m: nat|
            pack_head(small)[8] == "Ratio:           "@ + (#[trigger] report::hundredths(n) + "%"@)
                && pack_head(large)[8] == "Ratio:           "@ + (#[trigger] report::hundredths(m)
                + "%"@) && n <= m,
{
    let total = bytes::capped(pack::original_total(small.members));
    report::ratio_grows(small.archive_size as nat, large.archive_size as nat, total, 100);
    let n = report::ratio_units(small.archive_size as nat, total, 100);
    let m = report::ratio_units(large.archive_size as nat, total, 100);
    assert(pack_head(small)[8] == "Ratio:           "@ + (report::hundredths(n) + "%"@));
    assert(pack_head(large)[8] == "Ratio:           "@ + (report::hundredths(m) + "%"@));
}

} // verus!
