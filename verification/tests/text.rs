//! Numbers, times, lines and command-line decisions.

use rust_file_compressor::lines::{
    bench_lines, bench_summary, checked_line, comparison_lines, compressed_file_lines,
    compressed_tree_line, decompressed_file_lines, decompressed_tree_lines, doctor_lines,
    estimate_lines, expected_total, file_info_lines, left_text, match_lines, match_summary,
    pack_info_lines, packed_lines, ratio_table_lines, repacked_line, right_text, sealed_line,
    unpacked_lines, verified_lines, Timed,
};
use rust_file_compressor::plan::{
    default_pack_path, default_unpack_dir, next_mark, plan_compress, plan_decompress,
    progress_kind, CompressPlan, DecompressPlan, ProgressKind,
};
use rust_file_compressor::preset::resolve_level;
use rust_file_compressor::report::{
    describe_size_delta, describe_speed_delta, ratio_text, seconds_text, short_ratio_text,
    truncate_display,
};
use rust_file_compressor::{
    bytes_per_second, compress_bytes, display_bytes, doctor, format_duration, grep_archive,
    inspect_pack, list_archive, pack_files, resolve_threads, DiffEntry, DiffResult, DiffStatus,
    Elapsed, ErrorKind, IoStats, ListResult, PackInput, PackStats, Preset, RepackStats, SealInfo,
    UnpackMemberStats, UnpackStats,
};

fn elapsed(secs: u64, nanos: u32) -> Elapsed {
    Elapsed { secs, nanos }
}

#[test]
fn format_duration_human() {
    assert_eq!(format_duration(elapsed(0, 0)), "0s");
    assert!(format_duration(elapsed(0, 250_000_000)).contains('s'));
    assert_eq!(format_duration(elapsed(65, 0)), "1m 05s");
    assert_eq!(format_duration(elapsed(3661, 0)), "1h 01m 01s");
}

#[test]
fn format_duration_details() {
    assert_eq!(format_duration(elapsed(0, 1)), "1µs");
    assert_eq!(format_duration(elapsed(0, 999_999)), "999µs");
    assert_eq!(format_duration(elapsed(0, 1_000_000)), "0.001s");
    assert_eq!(format_duration(elapsed(1, 234_000_000)), "1.234s");
    assert_eq!(format_duration(elapsed(59, 999_999_999)), "60.000s");
    assert_eq!(format_duration(elapsed(60, 0)), "1m 00s");
    assert_eq!(format_duration(elapsed(123, 0)), "2m 03s");
    assert_eq!(format_duration(elapsed(3723, 5)), "1h 02m 03s");
    assert_eq!(format_duration(elapsed(3599, 0)), "59m 59s");
}

#[test]
fn seconds_agree_with_floats() {
    let mut state: u64 = 12345;
    for _ in 0..2000 {
        state = state.wrapping_mul(6364136223846793005).wrapping_add(1442695040888963407);
        let secs = (state >> 33) % 100_000;
        let nanos = ((state >> 7) % 1_000_000_000) as u32;
        let float = std::time::Duration::new(secs, nanos).as_secs_f64();
        assert_eq!(seconds_text(elapsed(secs, nanos)), format!("{float:.3}"));
    }
    for (secs, nanos) in [(0, 500_000), (0, 1_500_000), (0, 2_500_000), (1, 500_000), (7, 62_500)] {
        let float = std::time::Duration::new(secs, nanos).as_secs_f64();
        assert_eq!(seconds_text(elapsed(secs, nanos)), format!("{float:.3}"));
    }
}

#[test]
fn large_times_agree_with_floats() {
    let mut state: u64 = 99;
    for i in 0..2000 {
        state = state.wrapping_mul(6364136223846793005).wrapping_add(1442695040888963407);
        let secs = state >> (i % 30);
        let nanos = ((state >> 7) % 1_000_000_000) as u32;
        let float = std::time::Duration::new(secs, nanos).as_secs_f64();
        assert_eq!(seconds_text(elapsed(secs, nanos)), format!("{float:.3}"));
    }
    let float = std::time::Duration::new(u64::MAX, 999_999_999).as_secs_f64();
    assert_eq!(seconds_text(elapsed(u64::MAX, 999_999_999)), format!("{float:.3}"));
}

fn float_bytes(bytes: u64) -> String {
    let units = ["B", "KiB", "MiB", "GiB", "TiB"];
    let mut size = bytes as f64;
    let mut unit = 0;
    while size >= 1024.0 && unit < units.len() - 1 {
        size /= 1024.0;
        unit += 1;
    }
    if unit == 0 {
        format!("{bytes} {}", units[unit])
    } else {
        format!("{size:.2} {}", units[unit])
    }
}

#[test]
fn sizes_agree_with_floats() {
    for bytes in [
        0,
        1,
        1023,
        1024,
        1025,
        1536,
        1029,
        1_048_575,
        1_048_576,
        5_242_880,
        u32::MAX as u64,
        1 << 40,
        (1 << 50) - 1,
        1 << 53,
        (1 << 53) + 1,
        u64::MAX - 1,
        u64::MAX,
    ] {
        assert_eq!(display_bytes(bytes), float_bytes(bytes));
    }
    let mut state: u64 = 7;
    for i in 0..2000 {
        state = state.wrapping_mul(6364136223846793005).wrapping_add(1442695040888963407);
        let bytes = state >> (i % 60);
        assert_eq!(display_bytes(bytes), float_bytes(bytes));
    }
    assert_eq!(display_bytes(1536), "1.50 KiB");
    assert_eq!(display_bytes(6_165_000), "5.88 MiB");
}

fn float_ratio(compressed: u64, original: u64) -> f64 {
    if original == 0 {
        0.0
    } else {
        compressed as f64 / original as f64 * 100.0
    }
}

#[test]
fn ratios_agree_with_floats() {
    let mut state: u64 = 1;
    for i in 0..3000 {
        state = state.wrapping_mul(6364136223846793005).wrapping_add(1442695040888963407);
        let a = state >> (i % 61);
        state = state.wrapping_mul(6364136223846793005).wrapping_add(1442695040888963407);
        let b = state >> (i % 47);
        let float = float_ratio(a, b);
        assert_eq!(ratio_text(a, b), format!("{float:.2}"));
        assert_eq!(short_ratio_text(a, b), format!("{float:.1}"));
    }
    assert_eq!(ratio_text(5, 0), "0.00");
    assert_eq!(ratio_text(0, 5), "0.00");
    assert_eq!(ratio_text(1, 8), "12.50");
    assert_eq!(ratio_text(u64::MAX, 1), format!("{:.2}", float_ratio(u64::MAX, 1)));
    assert_eq!(ratio_text(1, u64::MAX), "0.00");
}

#[test]
fn rates_agree_with_floats() {
    let mut state: u64 = 3;
    for i in 0..3000 {
        state = state.wrapping_mul(6364136223846793005).wrapping_add(1442695040888963407);
        let bytes = state >> (i % 50);
        let secs = (state >> 20) >> (i % 40);
        let nanos = ((state >> 9) % 1_000_000_000) as u32;
        let float = std::time::Duration::new(secs, nanos).as_secs_f64();
        let rate = if float == 0.0 { bytes } else { (bytes as f64 / float) as u64 };
        assert_eq!(bytes_per_second(bytes, elapsed(secs, nanos)), rate);
    }
    assert_eq!(bytes_per_second(100, elapsed(0, 0)), 100);
    assert_eq!(bytes_per_second(100, elapsed(2, 0)), 50);
    assert_eq!(bytes_per_second(u64::MAX, elapsed(0, 1)), u64::MAX);
    assert_eq!(bytes_per_second(0, elapsed(0, 1)), 0);
    assert_eq!(bytes_per_second(1, elapsed(u64::MAX, 0)), 0);
}

fn float_size_delta(baseline: u64, measured: u64) -> String {
    if baseline == 0 {
        return "0.00% different".to_string();
    }
    let delta = (baseline as f64 - measured as f64) / baseline as f64 * 100.0;
    if delta >= 0.0 {
        format!("{delta:.2}% smaller")
    } else {
        format!("{:.2}% larger", -delta)
    }
}

#[test]
fn size_deltas_agree_with_floats() {
    let mut state: u64 = 11;
    for i in 0..3000 {
        state = state.wrapping_mul(6364136223846793005).wrapping_add(1442695040888963407);
        let a = state >> (i % 55);
        state = state.wrapping_mul(6364136223846793005).wrapping_add(1442695040888963407);
        let b = state >> (i % 59);
        assert_eq!(describe_size_delta(a, b), float_size_delta(a, b));
    }
    assert_eq!(describe_size_delta(0, 5), "0.00% different");
    assert_eq!(describe_size_delta(100, 100), "0.00% smaller");
    assert_eq!(describe_size_delta(200, 150), "25.00% smaller");
    assert_eq!(describe_size_delta(100, 150), "50.00% larger");
    assert_eq!(describe_size_delta(u64::MAX, 0), "100.00% smaller");
    assert_eq!(describe_size_delta(u64::MAX - 1, u64::MAX), "0.00% smaller");
}

fn float_speed_delta(baseline: std::time::Duration, measured: std::time::Duration) -> String {
    let baseline = baseline.as_secs_f64();
    let measured = measured.as_secs_f64();
    if baseline == 0.0 || measured == 0.0 {
        return "timing difference was too small to compare".to_string();
    }
    if measured <= baseline {
        format!("{:.2}x faster", baseline / measured)
    } else {
        format!("{:.2}x slower", measured / baseline)
    }
}

#[test]
fn speed_deltas_agree_with_floats() {
    let mut state: u64 = 21;
    for i in 0..3000 {
        state = state.wrapping_mul(6364136223846793005).wrapping_add(1442695040888963407);
        let a = (state >> (i % 63), ((state >> 5) % 1_000_000_000) as u32);
        state = state.wrapping_mul(6364136223846793005).wrapping_add(1442695040888963407);
        let b = (state >> (i % 53), ((state >> 11) % 1_000_000_000) as u32);
        assert_eq!(
            describe_speed_delta(elapsed(a.0, a.1), elapsed(b.0, b.1)),
            float_speed_delta(
                std::time::Duration::new(a.0, a.1),
                std::time::Duration::new(b.0, b.1)
            )
        );
    }
    assert_eq!(
        describe_speed_delta(elapsed(0, 0), elapsed(1, 0)),
        "timing difference was too small to compare"
    );
    assert_eq!(describe_speed_delta(elapsed(3, 0), elapsed(2, 0)), "1.50x faster");
    assert_eq!(describe_speed_delta(elapsed(2, 0), elapsed(3, 0)), "1.50x slower");
    assert_eq!(describe_speed_delta(elapsed(0, 905_000_000), elapsed(0, 293_000_000)), "3.09x faster");
    assert_eq!(
        describe_speed_delta(elapsed(1 << 60, 0), elapsed(1 << 60, 1)),
        "1.00x faster"
    );
}

#[test]
fn shortening() {
    assert_eq!(truncate_display("short", 40), "short");
    assert_eq!(truncate_display("abcdef", 4), "abc…");
    assert_eq!(truncate_display("äöüß", 4), "äöüß");
    assert_eq!(truncate_display("äöüß", 3), "äö…");
    assert_eq!(truncate_display("abc", 0), "…");
    assert_eq!(truncate_display("", 0), "");
}

#[test]
fn columns() {
    assert_eq!(left_text("ab", 4), format!("{:<4}", "ab"));
    assert_eq!(right_text("ab", 4), format!("{:>4}", "ab"));
    assert_eq!(left_text("abcdef", 4), "abcdef");
    assert_eq!(right_text("äö", 3), format!("{:>3}", "äö"));
}

#[test]
fn levels_and_threads() {
    assert_eq!(resolve_level(Some(7), Some(Preset::Max)), 7);
    assert_eq!(resolve_level(None, Some(Preset::Max)), 19);
    assert_eq!(resolve_level(None, None), 12);
    assert_eq!(resolve_threads(5, Some(2)), 5);
    assert_eq!(resolve_threads(0, Some(4)), 4);
    assert_eq!(resolve_threads(0, Some(64)), 8);
    assert_eq!(resolve_threads(0, None), 1);
}

#[test]
fn compress_plans() {
    let plan = |input, dir, output, recursive, dry, excludes| {
        plan_compress(input, dir, output, recursive, dry, excludes)
    };
    assert_eq!(
        plan("d", true, None, true, true, true).expect("fine"),
        CompressPlan::Tree { dry_run: true }
    );
    assert_eq!(
        plan("-", false, None, true, false, false).expect_err("stdin").message,
        "--recursive cannot be used with stdin (-)"
    );
    assert_eq!(
        plan("f", false, None, true, false, false).expect_err("file").message,
        "--recursive requires a directory input; got f"
    );
    let err = plan("d", true, Some("o"), true, false, false).expect_err("output");
    assert_eq!(
        err.message,
        "--output is not supported with --recursive (writes sibling .rzst files)"
    );
    assert_eq!(err.kind, ErrorKind::Usage);
    assert_eq!(
        plan("f", false, None, false, true, true).expect_err("excludes").message,
        "--exclude requires --recursive (or use `rzc pack --exclude`)"
    );
    assert_eq!(
        plan("-", false, Some("o"), false, true, false).expect("fine"),
        CompressPlan::Estimate { stdin: true }
    );
    assert_eq!(
        plan("f", false, None, false, true, false).expect("fine"),
        CompressPlan::Estimate { stdin: false }
    );
    assert_eq!(
        plan("-", false, None, false, false, false).expect("fine"),
        CompressPlan::StdinToStdout
    );
    assert_eq!(
        plan("-", false, Some("-"), false, false, false).expect("fine"),
        CompressPlan::StdinToStdout
    );
    assert_eq!(
        plan("-", false, Some("o"), false, false, false).expect("fine"),
        CompressPlan::StdinToFile
    );
    assert_eq!(
        plan("f", false, Some("-"), false, false, false).expect("fine"),
        CompressPlan::FileToStdout
    );
    assert_eq!(
        plan("f", false, None, false, false, false).expect("fine"),
        CompressPlan::FileToFile
    );
}

#[test]
fn decompress_plans() {
    assert_eq!(
        plan_decompress("d", true, None, true, true).expect("fine"),
        DecompressPlan::Tree
    );
    assert_eq!(
        plan_decompress("d", true, Some("o"), true, false).expect_err("output").message,
        "--output is not supported with --recursive"
    );
    assert_eq!(
        plan_decompress("-", false, None, false, true).expect_err("stdin").message,
        "--skip-existing is not supported with stdin"
    );
    assert_eq!(
        plan_decompress("f", false, Some("-"), false, true).expect_err("stdout").message,
        "--skip-existing is not supported with stdout"
    );
    assert_eq!(
        plan_decompress("-", false, Some("-"), false, false).expect("fine"),
        DecompressPlan::StdinToStdout
    );
    assert_eq!(
        plan_decompress("-", false, Some("o"), false, false).expect("fine"),
        DecompressPlan::StdinToFile
    );
    assert_eq!(
        plan_decompress("f", false, Some("-"), false, false).expect("fine"),
        DecompressPlan::FileToStdout
    );
    assert_eq!(
        plan_decompress("f", false, None, false, true).expect("fine"),
        DecompressPlan::FileToFile
    );
}

#[test]
fn default_outputs() {
    assert_eq!(default_pack_path(Some("a/b"), Some("proj")), "a/b/proj.rzst");
    assert_eq!(default_pack_path(Some(""), Some("proj")), "proj.rzst");
    assert_eq!(default_pack_path(Some("/"), Some("proj.d")), "/proj.d.rzst");
    assert_eq!(default_pack_path(Some("work"), Some("app.v1")), "work/app.v1.rzst");
    assert_eq!(default_pack_path(None, Some(".git")), ".git.rzst");
    assert_eq!(default_pack_path(None, Some("a.b.c")), "a.b.c.rzst");
    assert_eq!(default_pack_path(None, None), "archive.rzst");
    assert_eq!(default_unpack_dir("x/bundle.rzst"), "x/bundle");
    assert_eq!(default_unpack_dir("bundle.bin"), "bundle.bin.unpacked");
}

#[test]
fn progress_kinds() {
    assert_eq!(progress_kind(false, 1 << 30), ProgressKind::Hidden);
    assert_eq!(progress_kind(true, 1), ProgressKind::Hidden);
    assert_eq!(progress_kind(true, (1 << 20) - 1), ProgressKind::Hidden);
    assert_eq!(progress_kind(true, 1 << 20), ProgressKind::Bar);
    assert_eq!(progress_kind(true, 0), ProgressKind::Spinner);
}

#[test]
fn estimates_printed() {
    assert_eq!(
        estimate_lines(Some("f.txt"), 1600, 80),
        [
            "Dry-run: f.txt",
            "Input:  1600 (1.56 KiB)",
            "Est. compressed: 80 (80 B)",
            "Ratio:  5.00%"
        ]
    );
    assert_eq!(estimate_lines(None, 0, 10)[0], "Dry-run (stdin)");
}

fn io(input: u64, output: u64, path: &str) -> IoStats {
    IoStats { input_bytes: input, output_bytes: output, output_path: path.to_string() }
}

#[test]
fn ratio_table_printed() {
    let lines = ratio_table_lines(&vec![io(2048, 512, "a.rzst"), io(0, 9, "b.rzst")]);
    assert_eq!(
        lines[0],
        format!("{:<10} {:>12} {:>12} {:>8}  path", "status", "original", "compressed", "ratio")
    );
    assert_eq!(
        lines[1],
        format!("{:<10} {:>12} {:>12} {:>7.1}%  {}", "ok", "2.00 KiB", "512 B", 25.0, "a.rzst")
    );
    assert_eq!(
        lines[3],
        format!("{:<10} {:>12} {:>12} {:>7.1}%  (2 files)", "TOTAL", "2.00 KiB", "521 B", 25.439453125)
    );
    assert_eq!(lines.len(), 4);
    assert_eq!(compressed_tree_line(0, "d", false), "No files compressed under d");
    assert_eq!(compressed_tree_line(2, "d", false), "Compressed 2 file(s) under d");
    assert_eq!(compressed_tree_line(2, "d", true), "Dry-run: would compress 2 file(s) under d");
    assert_eq!(decompressed_tree_lines(&Vec::new(), "d"), ["No .rzst files found under d"]);
    assert_eq!(
        decompressed_tree_lines(&vec![io(10, 2048, "x")], "d"),
        ["Decompressed 1 file(s) under d", "  10 B -> 2.00 KiB  x"]
    );
}

#[test]
fn file_stats_printed() {
    assert_eq!(
        compressed_file_lines(&io(4096, 1024, "x.rzst"), elapsed(2, 0)),
        [
            "Compressed 4.00 KiB -> 1.00 KiB",
            "Output: x.rzst",
            "Ratio: 25.00% | Time: 2.000s | Throughput: 2.00 KiB/s"
        ]
    );
    assert_eq!(compressed_file_lines(&io(8, 4, "x"), elapsed(0, 0))[2], "Ratio: 50.00%");
    assert_eq!(
        decompressed_file_lines(&io(1024, 4096, "x"), elapsed(0, 500_000_000)),
        ["Decompressed 1.00 KiB -> 4.00 KiB", "Output: x", "Time: 0.500s | Throughput: 8.00 KiB/s"]
    );
    assert_eq!(decompressed_file_lines(&io(1, 2, "x"), elapsed(0, 0)).len(), 2);
}

#[test]
fn pack_reports_printed() {
    let stats = PackStats {
        file_count: 2,
        original_bytes: 2048,
        archive_bytes: 1024,
        output_path: "p.rzst".to_string(),
    };
    assert_eq!(
        packed_lines(&stats),
        ["Packed 2 file(s) -> p.rzst", "Original: 2.00 KiB | Archive: 1.00 KiB | Ratio: 50.00%"]
    );
    let stats = UnpackStats {
        members: vec![
            UnpackMemberStats { path: "a".to_string(), original_bytes: 3, skipped: false },
            UnpackMemberStats { path: "b".to_string(), original_bytes: 4, skipped: true },
        ],
        written: 1,
        skipped: 1,
        output_dir: "out".to_string(),
    };
    assert_eq!(
        unpacked_lines(&stats),
        ["Unpacked 1 file(s) into out (skipped 1)", "  [ok  ] a (3 B)", "  [skip] b (4 B)"]
    );
    let stats = RepackStats {
        kept: 1,
        excluded: 2,
        original_bytes: 4,
        archive_bytes: 9,
        output_path: "o".to_string(),
    };
    assert_eq!(repacked_line("i", &stats), "Repacked i → o (kept 1, excluded 2)");
}

#[test]
fn comparison_printed() {
    let entry = |path: &str, status| DiffEntry {
        path: path.to_string(),
        status,
        checksum_a: None,
        checksum_b: None,
    };
    let mut result = DiffResult {
        archive_a: "a".to_string(),
        archive_b: "b".to_string(),
        entries: vec![
            entry("c", DiffStatus::Changed),
            entry("i", DiffStatus::Identical),
            entry("x", DiffStatus::OnlyInA),
            entry(&"y".repeat(50), DiffStatus::OnlyInB),
        ],
        only_in_a: 1,
        only_in_b: 1,
        changed: 1,
        identical: 1,
    };
    let lines = comparison_lines(&result);
    assert_eq!(lines[0], "Comparing:");
    assert_eq!(lines[4], format!("{:<10} {:<40} detail", "status", "path"));
    assert_eq!(lines[5], format!("{:<10} {:<40} checksum differs", "changed", "c"));
    assert_eq!(lines[6], format!("{:<10} {:<40} only in A", "only_a", "x"));
    assert_eq!(lines[7], format!("{:<10} {}… only in B", "only_b", "y".repeat(39)));
    assert_eq!(lines[9], "Summary: 1 identical, 1 changed, 1 only in A, 1 only in B");
    assert_eq!(lines.len(), 10);
    result.only_in_a = 0;
    result.only_in_b = 0;
    result.changed = 0;
    assert_eq!(comparison_lines(&result)[4], "Archives are identical (1 member(s))");
}

#[test]
fn infos_printed() {
    let mut container = Vec::new();
    compress_bytes(b"abc", &mut container, 3, 1).expect("compresses");
    let listing = list_archive(&container, "f.rzst").expect("lists");
    match &listing {
        ListResult::Single(info) => {
            let lines = file_info_lines(info);
            assert_eq!(lines[0], "File:            f.rzst");
            assert_eq!(lines[3], "Version:         2");
            assert_eq!(lines[4], "Level:           3");
            assert_eq!(lines[5], "Original size:   3 (3 B)");
            assert!(lines[9].starts_with("SHA-256:         ba7816bf"));
            assert_eq!(lines.len(), 10);
        }
        ListResult::Pack(_) => panic!("expected single"),
    }
    let listing = Some(listing);
    assert_eq!(expected_total(&listing), 3);
    assert_eq!(expected_total(&None), 0);
    assert_eq!(
        verified_lines("f.rzst", 3, elapsed(0, 1_000_000), &listing),
        ["OK: f.rzst", "Verified 3 B in 0.001s", "Checksum: valid (SHA-256)"]
    );
    assert_eq!(verified_lines("f", 3, elapsed(0, 0), &None).len(), 2);

    let files = vec![PackInput { path: "m.txt".to_string(), data: b"0123456789".to_vec() }];
    let mut archive = Vec::new();
    pack_files(&files, 3, 1, "d", "o", &mut archive).expect("packs");
    let info = inspect_pack(&archive, "p.rzst").expect("lists");
    let lines = pack_info_lines(&info);
    assert_eq!(lines[1], "Kind:            pack (multi-file)");
    assert_eq!(lines[5], "Members:         1");
    assert_eq!(lines[7], "Total original:  10 (10 B)");
    assert_eq!(
        lines[10],
        format!("{:<40} {:>12} {:>12} {:>8}", "path", "original", "compressed", "ratio")
    );
    let payload = info.members[0].compressed_len;
    assert_eq!(
        lines[11],
        format!(
            "{:<40} {:>12} {:>12} {:>7.1}%",
            "m.txt",
            "10 B",
            display_bytes(payload),
            payload as f64 * 10.0
        )
    );
    let listing = Some(ListResult::Pack(info));
    assert_eq!(
        verified_lines("p", 10, elapsed(1, 0), &listing)[2],
        "Pack: 1 members, all checksums valid"
    );
}

#[test]
fn search_results_printed() {
    let files = vec![PackInput { path: "m.txt".to_string(), data: b"one\ntwo\n".to_vec() }];
    let mut archive = Vec::new();
    pack_files(&files, 3, 1, "d", "o", &mut archive).expect("packs");
    let found = grep_archive(&archive, "p", "two", 100).expect("searches");
    assert_eq!(match_lines(&found), ["m.txt:2:two"]);
    assert_eq!(
        match_summary(&found, "\"two\"", "p"),
        "(1 match(es); scanned 1, skipped large/binary 0)"
    );
    let none = grep_archive(&archive, "p", "three", 1).expect("searches");
    assert!(match_lines(&none).is_empty());
    assert_eq!(
        match_summary(&none, "\"three\"", "p"),
        "No matches for \"three\" in p (scanned 0, skipped 1)"
    );
}

#[test]
fn seals_printed() {
    let info = SealInfo {
        archive: "a".to_string(),
        sidecar: "a.sha256".to_string(),
        sha256: "0123456789abcdef0123".to_string(),
        bytes: 5,
    };
    assert_eq!(sealed_line(&info), "Sealed a → a.sha256 (0123456789abcdef)");
    assert_eq!(checked_line(&info), "OK a matches seal a.sha256 (0123456789abcdef)");
}

#[test]
fn doctor_printed() {
    let lines = doctor_lines(&doctor());
    assert_eq!(lines[0], "rzc doctor");
    assert_eq!(lines[1], "  zstd roundtrip: ok");
    assert_eq!(lines[5], "Status: OK");
    assert_eq!(lines.len(), 6);
}

#[test]
fn benchmark_printed() {
    let rzc = Timed { output_bytes: 588, elapsed: elapsed(0, 293_000_000) };
    let zip = Timed { output_bytes: 643, elapsed: elapsed(0, 905_000_000) };
    assert_eq!(
        bench_summary(&rzc, &zip),
        "rzc output was 8.55% smaller than zip -9 and 3.09x faster."
    );
    let lines = bench_lines("in.txt", 4000, "/tmp/b", 12, &rzc, &zip);
    assert_eq!(lines[0], "Input: in.txt (3.91 KiB)");
    assert_eq!(lines[1], "Benchmark artifacts: /tmp/b");
    assert_eq!(
        lines[3],
        format!("{:<12} {:>12} {:>10} {:>10} {:>14}", "tool", "size", "ratio", "time", "throughput")
    );
    assert_eq!(
        lines[4],
        format!(
            "{:<12} {:>12} {:>9.2}% {:>9.3}s {:>13}/s",
            "rzc-l12", "588 B", 14.7, 0.293, "13.33 KiB"
        )
    );
    assert_eq!(lines[7], format!("Result: {}", bench_summary(&rzc, &zip)));
}

#[test]
fn swapped_times_swap_the_words() {
    let times = [elapsed(0, 1), elapsed(0, 999), elapsed(1, 500), elapsed(2, 0), elapsed(1 << 40, 7)];
    for (i, &shorter) in times.iter().enumerate() {
        for &longer in &times[i + 1..] {
            let faster = describe_speed_delta(longer, shorter);
            let slower = describe_speed_delta(shorter, longer);
            assert!(faster.ends_with("x faster"));
            assert_eq!(faster.replace("faster", "slower"), slower);
            let factor = faster.trim_end_matches("x faster").parse::<f64>().expect("a number");
            assert!(factor >= 1.0);
        }
    }
    assert_eq!(describe_speed_delta(elapsed(3, 0), elapsed(2, 0)), "1.50x faster");
    assert_eq!(describe_speed_delta(elapsed(2, 0), elapsed(3, 0)), "1.50x slower");
    assert_eq!(describe_speed_delta(elapsed(2, 0), elapsed(2, 1)), "1.00x slower");
    assert_eq!(describe_speed_delta(elapsed(2, 1), elapsed(2, 0)), "1.00x faster");
}

#[test]
fn copies_are_marked_every_64_kib() {
    let mut marks = Vec::new();
    let mut at = 0;
    while at < 150_000 {
        at = next_mark(at, 150_000);
        marks.push(at);
    }
    assert_eq!(marks, [65_536, 131_072, 150_000]);
    assert_eq!(next_mark(0, 65_536), 65_536);
    assert_eq!(next_mark(7, 7), 7);
}
