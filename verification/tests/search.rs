//! Globs, searching, sealing and trees.

use std::collections::BTreeMap;

use rust_file_compressor::exclude::{build_exclude_set, built, is_excluded};
use rust_file_compressor::grep::{grep_compiled, grep_plain, PatternError};
use rust_file_compressor::paths::{
    normalize_archive_path, safe_components, safe_join, PathPart,
};
use rust_file_compressor::seal::{missing_seal, parse_sidecar_hash};
use rust_file_compressor::select::{
    forward_slashes, looks_compressed, takes_for_compress, takes_for_decompress,
};
use rust_file_compressor::{
    append_suffix, check_seal, compress_bytes, decompress_reader, default_decompressed_path,
    format_path_tree,
    grep_archive, is_stdio_path, pack_files, peek_version, seal_archive, seal_sidecar_path,
    strip_path_components, ErrorKind, PackInput, DEFAULT_GREP_MAX_SIZE,
};

fn pack(files: &[(&str, &[u8])]) -> Vec<u8> {
    let inputs: Vec<PackInput> = files
        .iter()
        .map(|(path, data)| PackInput { path: path.to_string(), data: data.to_vec() })
        .collect();
    let mut out = Vec::new();
    pack_files(&inputs, 3, 1, "dir", "out.rzst", &mut out).expect("packs");
    out
}

#[test]
fn grep_pack_members() {
    let archive = pack(&[
        ("notes.txt", b"hello world\nfind me here\nbye\n"),
        ("other.txt", b"nothing interesting\n"),
    ]);
    let result =
        grep_archive(&archive, "a.rzst", "find me", DEFAULT_GREP_MAX_SIZE).expect("searches");
    assert_eq!(result.match_count, 1);
    assert_eq!(result.matches[0].member, "notes.txt");
    assert_eq!(result.matches[0].line_number, 2);
    assert!(result.matches[0].line.contains("find me"));
    assert_eq!(result.members_searched, 2);
    assert_eq!(result.pattern, "find me");

    let re = grep_archive(&archive, "a.rzst", r"find\s+me", DEFAULT_GREP_MAX_SIZE)
        .expect("searches");
    assert_eq!(re.match_count, 1);
}

#[test]
fn grep_skips_oversize_members() {
    let archive = pack(&[("big.txt", b"secret marker in big file")]);
    let result = grep_archive(&archive, "a.rzst", "secret", 5).expect("searches");
    assert_eq!(result.members_skipped, 1);
    assert_eq!(result.members_searched, 0);
    assert_eq!(result.match_count, 0);
}

#[test]
fn grep_single_file() {
    let mut container = Vec::new();
    compress_bytes(b"one\r\ntwo\nthree", &mut container, 3, 1).expect("compresses");
    let result = grep_archive(&container, "f.rzst", "^t", 100).expect("searches");
    assert_eq!(result.match_count, 2);
    assert_eq!(result.matches[0].member, "f.rzst");
    assert_eq!(result.matches[1].line, "three");
    assert_eq!(result.matches[1].line_number, 3);
    let exact = grep_archive(&container, "f.rzst", "^one$", 100).expect("searches");
    assert_eq!(exact.match_count, 1);
    let skipped = grep_archive(&container, "f.rzst", "t", 3).expect("searches");
    assert_eq!((skipped.members_searched, skipped.members_skipped), (0, 1));
}

#[test]
fn grep_errors() {
    let err = grep_archive(b"RZC1\x02", "f", "(", 10).expect_err("bad pattern");
    assert_eq!(err.kind, ErrorKind::InvalidPattern);
    assert!(err.message.starts_with("invalid regex pattern: (: "));
    let err = grep_archive(b"nope!", "f", "x", 10).expect_err("no archive");
    assert_eq!(err.kind, ErrorKind::InvalidMagic);
    let mut archive = pack(&[("a", b"text")]);
    let at = archive.len() - 1;
    archive[13 + 4 + 1 + 8] ^= 1;
    let err = grep_archive(&archive, "f", "x", 10).expect_err("altered digest");
    assert_eq!(err.message, "checksum mismatch for member a");
    archive.truncate(at);
    let err = grep_archive(&archive, "f", "x", 10).expect_err("cut off");
    assert!(err.message.starts_with("pack member payload: header declares "));
}

#[test]
fn grep_replaces_what_is_not_text() {
    let re = regex::Regex::new("caf").expect("compiles");
    let mut matches = Vec::new();
    grep_plain("m", b"caf\xe9\nplain", &re, &mut matches);
    assert_eq!(matches.len(), 1);
    assert_eq!(matches[0].line, "caf\u{fffd}");
}

#[test]
fn recursive_exclude() {
    let set = build_exclude_set(&vec!["target".to_string()]).expect("globs");
    assert!(takes_for_compress(Some("a.txt"), Some("txt"), "a.txt", &set));
    assert!(!takes_for_compress(Some("skip.bin"), Some("bin"), "target/skip.bin", &set));
    assert!(!takes_for_compress(Some("skip.bin"), Some("bin"), "target\\skip.bin", &set));
}

#[test]
fn globs_match_paths_and_names() {
    let none = build_exclude_set(&Vec::new()).expect("globs");
    assert!(none.is_none());
    assert!(!is_excluded("anything", &none));
    let set = build_exclude_set(&vec!["*.log".to_string(), "node_modules".to_string()])
        .expect("globs");
    assert!(is_excluded("deep/down/x.log", &set));
    assert!(is_excluded("node_modules", &set));
    assert!(is_excluded("web/node_modules/left/pad.js", &set));
    assert!(is_excluded("web/node_modules", &set));
    assert!(!is_excluded("src/main.rs", &set));
}

#[test]
fn malformed_globs_are_named() {
    let err = build_exclude_set(&vec!["ok".to_string(), "a{b".to_string()]).expect_err("unclosed");
    assert_eq!(err.kind, ErrorKind::InvalidGlob);
    assert!(err.message.starts_with("invalid exclude glob 'a{b': "));
}

#[test]
fn recursive_choices() {
    assert!(looks_compressed(Some("a.rzst"), Some("rzst")));
    assert!(looks_compressed(Some("a.RZST"), Some("RZST")));
    assert!(looks_compressed(Some(".rzst"), None));
    assert!(!looks_compressed(Some("a.txt"), Some("txt")));
    assert!(!looks_compressed(None, None));
    assert!(takes_for_decompress(Some("a.rzst"), Some(2)));
    assert!(takes_for_decompress(Some("a.rzst"), None));
    assert!(!takes_for_decompress(Some("a.rzst"), Some(3)));
    assert!(!takes_for_decompress(Some("a.RZST"), Some(2)));
    assert_eq!(forward_slashes("a\\b/c"), "a/b/c");
}

#[test]
fn seal_and_check_roundtrip() {
    let mut archive = Vec::new();
    compress_bytes(b"seal me", &mut archive, 3, 1).expect("compresses");
    let (sealed, sidecar) = seal_archive(&archive, "d/x.txt.rzst", "x.txt.rzst");
    assert_eq!(sealed.sidecar, seal_sidecar_path("d/x.txt.rzst"));
    assert_eq!(sealed.sidecar, "d/x.txt.rzst.sha256");
    assert_eq!(sidecar, format!("{}  x.txt.rzst\n", sealed.sha256));
    assert_eq!(sealed.bytes, archive.len() as u64);

    let checked = check_seal(&archive, "d/x.txt.rzst", Some(&sidecar)).expect("intact");
    assert_eq!(checked.sha256, sealed.sha256);

    if let Some(last) = archive.last_mut() {
        *last ^= 0xff;
    }
    let err = check_seal(&archive, "d/x.txt.rzst", Some(&sidecar)).expect_err("altered");
    assert_eq!(err.kind, ErrorKind::SealMismatch);
    assert!(err.message.starts_with("seal check failed for d/x.txt.rzst: expected "));
}

#[test]
fn seal_of_known_data() {
    let (info, sidecar) = seal_archive(b"abc", "f", "f");
    assert_eq!(
        sidecar,
        "ba7816bf8f01cfea414140de5dae2223b00361a396177a9cb410ff61f20015ad  f\n"
    );
    assert_eq!(info.bytes, 3);
    let (_, odd) = seal_archive(b"abc", "f", "name\nwith\r\nbreaks\r");
    assert!(check_seal(b"abc", "f", Some(&odd)).is_ok());
}

#[test]
fn sidecar_parsing() {
    let hash = "BA7816BF8F01CFEA414140DE5DAE2223B00361A396177A9CB410FF61F20015AD";
    let text = format!("\n   \n\t{hash} *file\nmore");
    assert_eq!(parse_sidecar_hash(&text).expect("a hash"), hash.to_ascii_lowercase());
    let err = parse_sidecar_hash(" \n\n").expect_err("blank");
    assert_eq!(err.message, "seal sidecar is empty");
    assert_eq!(err.kind, ErrorKind::InvalidSeal);
    let err = parse_sidecar_hash("deadbeef  f\n").expect_err("short");
    assert_eq!(err.message, "seal sidecar hash is not a valid 64-char hex SHA-256");
    let err = parse_sidecar_hash(&"g".repeat(64)).expect_err("no hex");
    assert_eq!(err.message, "seal sidecar hash is not a valid 64-char hex SHA-256");
    assert_eq!(
        missing_seal("a.rzst").message,
        "no seal sidecar found: a.rzst.sha256 (run `rzc seal` first)"
    );
    assert_eq!(
        check_seal(b"", "a.rzst", None).expect_err("missing").message,
        missing_seal("a.rzst").message
    );
}

#[test]
fn default_paths_are_predictable() {
    assert_eq!(append_suffix("notes.txt", ".rzst"), "notes.txt.rzst");
    assert_eq!(default_decompressed_path("notes.txt.rzst"), "notes.txt");
    assert_eq!(default_decompressed_path("archive.bin"), "archive.bin.out");
    assert!(is_stdio_path("-"));
    assert!(!is_stdio_path("./-"));
}

#[test]
fn path_traversal_rejected() {
    assert!(safe_join("/tmp/out", "../etc/passwd").is_err());
    assert!(safe_join("/tmp/out", "ok/../../etc").is_err());
    let parts = vec![
        PathPart::Normal("a".to_string()),
        PathPart::ParentDir,
        PathPart::Normal("b".to_string()),
    ];
    assert!(normalize_archive_path(&parts, "a/../b").is_err());
}

#[test]
fn safe_joining() {
    assert_eq!(safe_join("/tmp/out", "a/./b//c").expect("safe"), "/tmp/out/a/b/c");
    assert_eq!(safe_join("out/", "a").expect("safe"), "out/a");
    assert_eq!(safe_join("", "a/b").expect("safe"), "a/b");
    assert_eq!(safe_join("/o", "/etc").expect_err("root").message, "invalid archive path: /etc");
    assert_eq!(safe_join("/o", "").expect_err("empty").message, "invalid archive path: ");
    assert_eq!(
        safe_join("/o", "\\x").expect_err("root").message,
        "invalid archive path: \\x"
    );
    let err = safe_join("/o", "a/b\\c").expect_err("separator");
    assert_eq!(err.message, "invalid path component: b\\c");
    assert_eq!(err.kind, ErrorKind::InvalidPath);
    assert_eq!(
        safe_components("a/../b").expect_err("dots").message,
        "path traversal rejected: a/../b"
    );
    assert_eq!(safe_components("x/...").expect("safe"), ["x", "..."]);
}

#[test]
fn normalizing() {
    let parts = vec![
        PathPart::CurDir,
        PathPart::Normal("src".to_string()),
        PathPart::Normal("main.rs".to_string()),
    ];
    assert_eq!(normalize_archive_path(&parts, "./src/main.rs").expect("fine"), "src/main.rs");
    let err = normalize_archive_path(&vec![PathPart::Root], "/x").expect_err("absolute");
    assert_eq!(err.message, "path must be relative: /x");
    let err = normalize_archive_path(&vec![PathPart::ParentDir], "../x").expect_err("dots");
    assert_eq!(err.message, "path must not contain '..': ../x");
    let err = normalize_archive_path(&vec![PathPart::Normal("a\\b".to_string())], "a\\b")
        .expect_err("separator");
    assert_eq!(err.message, "invalid path component in a\\b");
    let err = normalize_archive_path(&vec![PathPart::CurDir], ".").expect_err("empty");
    assert_eq!(err.message, "empty relative path");
}

#[test]
fn strip_path_components_helper() {
    assert_eq!(strip_path_components("a/b/c.txt", 0).as_deref(), Some("a/b/c.txt"));
    assert_eq!(strip_path_components("a/b/c.txt", 1).as_deref(), Some("b/c.txt"));
    assert_eq!(strip_path_components("a/b/c.txt", 2).as_deref(), Some("c.txt"));
    assert_eq!(strip_path_components("a/b/c.txt", 3), None);
    assert_eq!(strip_path_components("file.txt", 1), None);
}

#[test]
fn stripping_twice() {
    let once = strip_path_components("//a/b//c/d", 1).expect("left");
    assert_eq!(once, "b/c/d");
    assert_eq!(strip_path_components(&once, 2), strip_path_components("//a/b//c/d", 3));
}

#[test]
fn format_path_tree_nested() {
    let paths: Vec<String> = vec![
        "README".to_string(),
        "src/main.rs".to_string(),
        "src/lib.rs".to_string(),
        "docs/guide.md".to_string(),
    ];
    let tree = format_path_tree(&paths);
    assert!(tree.contains("README"));
    assert!(tree.contains("src"));
    assert!(tree.contains("main.rs"));
    assert!(tree.contains("lib.rs"));
    assert!(tree.contains("docs"));
    assert!(tree.contains("├──") || tree.contains("└──"));
    assert_eq!(
        tree,
        "├── README\n├── docs\n│   └── guide.md\n└── src\n    ├── lib.rs\n    └── main.rs"
    );
}

#[test]
fn trees_ignore_order_and_repeats() {
    let a: Vec<String> = vec!["x/y".to_string(), "b".to_string(), "x/a".to_string()];
    let b: Vec<String> =
        vec!["x/a".to_string(), "x/y".to_string(), "b".to_string(), "x/a".to_string()];
    assert_eq!(format_path_tree(&a), format_path_tree(&b));
    assert_eq!(format_path_tree(&a).lines().count(), 4);
    let c: Vec<String> = vec!["//x//a/".to_string(), "/b".to_string(), "x/y".to_string(), "/".to_string()];
    assert_eq!(format_path_tree(&a), format_path_tree(&c));
    assert_eq!(format_path_tree(&Vec::new()), "");
}

#[test]
fn recursive_dir_compress_decompress() {
    let mut disk: BTreeMap<String, Vec<u8>> = BTreeMap::new();
    let a = b"file a contents repeated ".repeat(50);
    let b = b"file b contents repeated ".repeat(50);
    disk.insert("tree/a.txt".to_string(), a.clone());
    disk.insert("tree/sub/b.txt".to_string(), b.clone());

    let mut compressed = BTreeMap::new();
    for (path, data) in &disk {
        let name = path.rsplit('/').next();
        let rel = path.trim_start_matches("tree/");
        assert!(takes_for_compress(name, Some("txt"), rel, &None));
        let mut container = Vec::new();
        compress_bytes(data, &mut container, 3, 1).expect("compresses");
        compressed.insert(append_suffix(path, ".rzst"), container);
    }
    assert_eq!(compressed.len(), 2);
    assert!(compressed.contains_key("tree/a.txt.rzst"));
    assert!(compressed.contains_key("tree/sub/b.txt.rzst"));

    disk.clear();
    for (path, container) in &compressed {
        let name = path.rsplit('/').next();
        assert!(!takes_for_compress(name, Some("rzst"), path, &None));
        assert!(takes_for_decompress(name, peek_version(container).ok()));
        let mut plain = Vec::new();
        decompress_reader(container, &mut plain).expect("decompresses");
        disk.insert(default_decompressed_path(path), plain);
    }
    assert_eq!(disk.len(), 2);
    assert_eq!(disk["tree/a.txt"], a);
    assert_eq!(disk["tree/sub/b.txt"], b);
}

#[test]
fn outcomes_of_the_matchers() {
    let err = built(Err("boom".to_string())).expect_err("no set");
    assert_eq!(err.message, "building exclude glob set: boom");
    assert_eq!(err.kind, ErrorKind::InvalidGlob);
    let archive = pack(&[("m", b"one\ntwo\n")]);
    let err = grep_compiled(&archive, "a", "two", Err(PatternError::Malformed("boom".to_string())), 9).expect_err("no regex");
    assert_eq!(err.message, "invalid regex pattern: two: boom");
    let found = grep_compiled(&archive, "a", "two", Ok(regex::Regex::new("two").expect("compiles")), 9)
        .expect("searches");
    assert_eq!(found.match_count, 1);
}
