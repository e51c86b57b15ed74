//! Pack archives: packing, listing, verifying, extracting, unpacking, repacking.

use std::collections::BTreeMap;

use rust_file_compressor::member::{check_plain, Member, Purpose};
use rust_file_compressor::packing::{check_file_count, pack_member, write_pack};
use rust_file_compressor::restore::unpack_in_memory;
use rust_file_compressor::repack::{check_repack_paths, refuse_existing, repack_members};
use rust_file_compressor::select::{archive_name, is_too_old, mtime_cutoff, Stamp};
use rust_file_compressor::paths::PathPart;
use rust_file_compressor::unpack::{finish_unpack, next_candidate, settle, start_unpack};
use rust_file_compressor::{
    archive_tree, build_exclude_set, cat_member, diff_archives, extract_pack_member, inspect_pack,
    list_archive, pack_files, repack_archive, sha256, start_verify, verify_file, verify_next, verify_pack, Error, ErrorKind,
    ListResult, PackInput, UnpackOpts, UnpackStats, HASH_LEN, MAGIC, VERSION_V1, VERSION_V3,
    write_header, Header,
};

fn pack(files: &[(&str, &[u8])]) -> Vec<u8> {
    let inputs: Vec<PackInput> = files
        .iter()
        .map(|(path, data)| PackInput { path: path.to_string(), data: data.to_vec() })
        .collect();
    let mut out = Vec::new();
    let stats = pack_files(&inputs, 3, 1, "dir", "out.rzst", &mut out).expect("packs");
    assert_eq!(stats.file_count as usize, files.len());
    assert_eq!(stats.archive_bytes, out.len() as u64);
    assert_eq!(stats.output_path, "out.rzst");
    out
}

type Disk = BTreeMap<String, Vec<u8>>;

fn unpack(archive: &[u8], opts: &UnpackOpts, disk: &mut Disk) -> Result<UnpackStats, Error> {
    let mut progress = start_unpack(archive)?;
    while let Some(candidate) = next_candidate(archive, opts, &mut progress)? {
        let target = candidate.target.join("/");
        let exists = disk.contains_key(&target);
        let plain = settle(archive, opts, &mut progress, candidate, exists, &target)?;
        if let Some(plain) = plain {
            disk.insert(target, plain);
        }
    }
    finish_unpack(opts, progress, "out")
}

fn forced() -> UnpackOpts {
    UnpackOpts { force: true, ..Default::default() }
}

#[test]
fn pack_unpack_roundtrip() {
    let readme = b"hello pack world ".repeat(20);
    let main_rs = b"fn main() {}\n".repeat(30);
    let archive = pack(&[("README", &readme), ("src/main.rs", &main_rs)]);

    let mut disk = Disk::new();
    let stats = unpack(&archive, &forced(), &mut disk).expect("unpacks");
    assert_eq!(stats.written, 2);
    assert_eq!(stats.skipped, 0);
    assert_eq!(stats.output_dir, "out");
    assert_eq!(disk["README"], readme);
    assert_eq!(disk["src/main.rs"], main_rs);

    match list_archive(&archive, "proj.rzst").expect("lists") {
        ListResult::Pack(p) => {
            assert_eq!(p.file_count, 2);
            assert_eq!(p.version, VERSION_V3);
            assert_eq!(p.members.len(), 2);
            assert_eq!(p.kind, "pack");
            assert_eq!(p.level, 3);
            assert_eq!(p.total_original_len(), (readme.len() + main_rs.len()) as u64);
            assert_eq!(
                p.total_compressed_payload(),
                p.members[0].compressed_len + p.members[1].compressed_len
            );
        }
        ListResult::Single(_) => panic!("expected pack"),
    }
    let n = verify_file(&archive).expect("verifies");
    assert_eq!(n, (readme.len() + main_rs.len()) as u64);
}

fn parts(path: &str) -> Vec<PathPart> {
    path.split('/')
        .map(|p| match p {
            "." => PathPart::CurDir,
            ".." => PathPart::ParentDir,
            "" => PathPart::Root,
            name => PathPart::Normal(name.to_string()),
        })
        .collect()
}

fn pack_tree(files: &[(&str, &[u8])], excludes: &[&str]) -> Vec<u8> {
    let patterns: Vec<String> = excludes.iter().map(|p| p.to_string()).collect();
    let set = build_exclude_set(&patterns).expect("globs");
    let mut inputs = Vec::new();
    for (path, data) in files {
        if let Some(name) = archive_name(&parts(path), path, &set).expect("a name") {
            inputs.push(PackInput { path: name, data: data.to_vec() });
        }
    }
    let mut out = Vec::new();
    pack_files(&inputs, 3, 1, "tree", "bundle.rzst", &mut out).expect("packs");
    out
}

#[test]
fn pack_exclude_globs() {
    let archive = pack_tree(
        &[
            ("keep.txt", b"keep me"),
            ("target/debug/x.o", b"object"),
            (".git/config", b"git"),
        ],
        &["target", "*.git*", ".git"],
    );
    let info = inspect_pack(&archive, "bundle.rzst").expect("lists");
    assert_eq!(info.file_count, 1);
    assert_eq!(info.members.len(), 1);
    assert_eq!(info.members[0].path, "keep.txt");
}

#[test]
fn list_single_and_pack() {
    let archive = pack(&[("x", b"x")]);
    match list_archive(&archive, "d.rzst").expect("lists") {
        ListResult::Pack(p) => assert_eq!(p.file_count, 1),
        ListResult::Single(_) => panic!("expected pack"),
    }
    let mut single = Vec::new();
    rust_file_compressor::compress_bytes(b"single file", &mut single, 3, 1).expect("compresses");
    match list_archive(&single, "one.txt.rzst").expect("lists") {
        ListResult::Single(info) => {
            assert_eq!(info.header.original_len, 11);
            assert_eq!(info.kind, "single");
        }
        ListResult::Pack(_) => panic!("expected single"),
    }
}

#[test]
fn unpack_skip_existing() {
    let archive = pack(&[("f.txt", b"packed")]);
    let mut disk = Disk::new();
    disk.insert("f.txt".to_string(), b"keep".to_vec());
    let opts = UnpackOpts { skip_existing: true, force: true, ..Default::default() };
    let stats = unpack(&archive, &opts, &mut disk).expect("unpacks");
    assert_eq!(stats.skipped, 1);
    assert_eq!(stats.written, 0);
    assert!(stats.members[0].skipped);
    assert_eq!(disk["f.txt"], b"keep");
}

#[test]
fn unpack_only_member() {
    let archive = pack(&[("a.txt", b"aaa"), ("sub/b.txt", b"bbb")]);
    let mut disk = Disk::new();
    let opts = UnpackOpts { only: Some("sub/b.txt".to_string()), ..forced() };
    let stats = unpack(&archive, &opts, &mut disk).expect("unpacks");
    assert_eq!(stats.written, 1);
    assert_eq!(stats.members.len(), 1);
    assert!(!disk.contains_key("a.txt"));
    assert_eq!(disk["sub/b.txt"], b"bbb");

    let opts = UnpackOpts { only: Some("nope.txt".to_string()), ..forced() };
    let missing = unpack(&archive, &opts, &mut Disk::new()).expect_err("no such member");
    assert_eq!(missing.message, "member not found in archive: nope.txt");
    assert_eq!(missing.kind, ErrorKind::MemberNotFound);
}

#[test]
fn unpack_strip_components() {
    let archive = pack(&[("top/nested/file.txt", b"payload")]);
    let mut disk = Disk::new();
    let opts = UnpackOpts { strip_components: 1, ..forced() };
    let stats = unpack(&archive, &opts, &mut disk).expect("unpacks");
    assert_eq!(stats.written, 1);
    assert_eq!(disk["nested/file.txt"], b"payload");
    assert_eq!(disk.len(), 1);

    let mut disk = Disk::new();
    let opts = UnpackOpts { strip_components: 2, ..forced() };
    let stats = unpack(&archive, &opts, &mut disk).expect("unpacks");
    assert_eq!(stats.written, 1);
    assert_eq!(disk["file.txt"], b"payload");

    let mut disk = Disk::new();
    let opts = UnpackOpts { strip_components: 3, ..forced() };
    let stats = unpack(&archive, &opts, &mut disk).expect("unpacks");
    assert_eq!(stats.written, 0);
    assert_eq!(stats.skipped, 1);
    assert_eq!(stats.members[0].path, "top/nested/file.txt");
    assert_eq!(stats.members[0].original_bytes, 7);
    assert!(disk.is_empty());
}

#[test]
fn unpack_force_required_when_exists() {
    let archive = pack(&[("f.txt", b"packed")]);
    let mut disk = Disk::new();
    disk.insert("f.txt".to_string(), b"keep".to_vec());
    let err = unpack(&archive, &UnpackOpts::default(), &mut disk).expect_err("should require force");
    assert!(err.message.contains("--force") || err.message.contains("already exists"));
    assert_eq!(
        err.message,
        "output already exists: f.txt (use --force to overwrite or --skip-existing)"
    );
    assert_eq!(err.kind, ErrorKind::AlreadyExists);
    assert_eq!(disk["f.txt"], b"keep");

    let stats = unpack(&archive, &forced(), &mut disk).expect("unpacks");
    assert_eq!(stats.written, 1);
    assert_eq!(disk["f.txt"], b"packed");
}

#[test]
fn unpack_rejects_traversal() {
    let archive = pack(&[("ok.txt", b"fine"), ("../evil", b"bad")]);
    let mut disk = Disk::new();
    let err = unpack(&archive, &forced(), &mut disk).expect_err("traversal");
    assert_eq!(err.message, "path traversal rejected: ../evil");
    assert_eq!(disk.len(), 1);
}

#[test]
fn unpack_needs_a_pack() {
    let err = start_unpack(b"RZC1\x02").expect_err("single");
    assert_eq!(
        err.message,
        "expected pack archive version 3, got 2; use `rzc decompress` for single-file archives"
    );
    assert_eq!(start_unpack(b"RZ").expect_err("short").message, "failed to fill whole buffer");
    let err = start_unpack(b"ZIPPED").expect_err("no archive");
    assert_eq!(err.message, "invalid file magic; this is not an rzc .rzst file");
}

#[test]
fn cat_member_from_pack() {
    let archive = pack(&[("hello.txt", b"hello cat world"), ("other.txt", b"other")]);
    let mut out = Vec::new();
    let n = cat_member(&archive, Some("hello.txt"), &mut out).expect("prints");
    assert_eq!(n, b"hello cat world".len() as u64);
    assert_eq!(out, b"hello cat world");

    assert!(cat_member(&archive, Some("missing"), &mut Vec::new()).is_err());
    let err = cat_member(&archive, None, &mut Vec::new()).expect_err("which one");
    assert_eq!(err.message, "member path is required for pack archives");
    assert_eq!(err.kind, ErrorKind::MemberRequired);
}

#[test]
fn extract_takes_the_first_of_a_name() {
    let archive = pack(&[("a", b"first"), ("a", b"second")]);
    assert_eq!(extract_pack_member(&archive, "a").expect("extracts"), b"first");
}

#[test]
fn extract_stops_at_its_member() {
    let mut archive = pack(&[("a", b"first"), ("b", b"second")]);
    archive.truncate(archive.len() - 3);
    assert_eq!(extract_pack_member(&archive, "a").expect("extracts"), b"first");
    let err = extract_pack_member(&archive, "b").expect_err("cut off");
    assert!(err.message.starts_with("compressed data for b: header declares "));
    assert!(verify_pack(&archive).is_err());
}

#[test]
fn verify_names_the_entry() {
    let archive = pack(&[("a", b"first"), ("b", b"second")]);
    let info = inspect_pack(&archive, "x").expect("lists");
    let offset_b = 13 + 4 + 1 + 48 + info.members[0].compressed_len as usize;
    let mut bad = archive.clone();
    bad[offset_b + 4 + 1 + 8] ^= 1;
    let err = verify_pack(&bad).expect_err("altered digest");
    assert!(err.message.starts_with("pack member checksum mismatch for entry 1: expected "));
    let mut bad = archive.clone();
    bad[offset_b + 4 + 1] ^= 1;
    let err = verify_pack(&bad).expect_err("altered size");
    assert_eq!(err.message, "pack member size mismatch for entry 1: expected 7, got 6");
    let err = verify_pack(b"nope nope").expect_err("no archive");
    assert_eq!(err.message, "invalid file magic");
    let err = verify_pack(b"RZC1\x01").expect_err("single");
    assert_eq!(err.message, "not a v3 pack archive");
}

#[test]
fn archive_tree_from_pack() {
    let archive = pack(&[("a.txt", b"a"), ("sub/b.txt", b"b")]);
    let tree = archive_tree(&archive, "a.rzst").expect("draws");
    assert!(tree.contains("a.txt"));
    assert!(tree.contains("sub"));
    assert!(tree.contains("b.txt"));
    assert_eq!(tree, "a.rzst\n├── a.txt\n└── sub\n    └── b.txt\n");
    let err = archive_tree(b"RZC1\x02", "a.rzst").expect_err("single");
    assert_eq!(err.message, "tree requires a v3 pack archive (got version 2)");
}

#[test]
fn diff_pack_archives() {
    let a = pack(&[("changed.txt", b"v1"), ("only_a.txt", b"a"), ("same.txt", b"same")]);
    let b = pack(&[("changed.txt", b"v2"), ("only_b.txt", b"b"), ("same.txt", b"same")]);
    let named_a = rust_file_compressor::diff::Named { data: &a, name: "a.rzst", path: "x/a.rzst" };
    let named_b = rust_file_compressor::diff::Named { data: &b, name: "b.rzst", path: "x/b.rzst" };

    let diff = diff_archives(&named_a, &named_b).expect("compares");
    assert_eq!(diff.identical, 1);
    assert_eq!(diff.only_in_a, 1);
    assert_eq!(diff.only_in_b, 1);
    assert_eq!(diff.changed, 1);
    assert!(!diff.is_equal());
    let paths: Vec<&str> = diff.entries.iter().map(|e| e.path.as_str()).collect();
    assert_eq!(paths, ["changed.txt", "only_a.txt", "only_b.txt", "same.txt"]);
    assert_eq!(diff.archive_a, "x/a.rzst");
    assert!(diff.entries[1].checksum_b.is_none());
    assert_eq!(diff.entries[1].checksum_a.as_ref().map(|s| s.len()), Some(64));

    let same = diff_archives(&named_a, &named_a).expect("compares");
    assert!(same.is_equal());
    assert_eq!(same.identical, 3);
}

#[test]
fn diff_uses_the_last_of_a_name() {
    let a = pack(&[("f", b"old"), ("f", b"new")]);
    let b = pack(&[("f", b"new")]);
    let named_a = rust_file_compressor::diff::Named { data: &a, name: "a", path: "a" };
    let named_b = rust_file_compressor::diff::Named { data: &b, name: "b", path: "b" };
    assert!(diff_archives(&named_a, &named_b).expect("compares").is_equal());
}

#[test]
fn diff_single_file_archives() {
    let mut a = Vec::new();
    let mut b = Vec::new();
    rust_file_compressor::compress_bytes(b"content A", &mut a, 3, 1).expect("compresses");
    rust_file_compressor::compress_bytes(b"content B", &mut b, 3, 1).expect("compresses");
    let named_a =
        rust_file_compressor::diff::Named { data: &a, name: "one.txt.rzst", path: "one.txt.rzst" };
    let named_b =
        rust_file_compressor::diff::Named { data: &b, name: "two.txt.rzst", path: "two.txt.rzst" };
    let diff = diff_archives(&named_a, &named_b).expect("compares");
    assert_eq!(diff.only_in_a + diff.only_in_b + diff.changed, 2);
    assert!(!diff.is_equal());
}

#[test]
fn diff_hashes_old_containers() {
    let mut old = Vec::new();
    write_header(
        &mut old,
        &Header { version: VERSION_V1, level: 3, original_len: 4, checksum: None },
    )
    .expect("header");
    let frame =
        rust_file_compressor::codec::zstd_compress_raw(b"data", 3, 1, &[]).expect("frame");
    old.extend_from_slice(&frame);
    let mut new = Vec::new();
    rust_file_compressor::compress_bytes(b"data", &mut new, 3, 1).expect("compresses");
    let a = rust_file_compressor::diff::Named { data: &old, name: "f", path: "f" };
    let b = rust_file_compressor::diff::Named { data: &new, name: "f", path: "g" };
    assert!(diff_archives(&a, &b).expect("compares").is_equal());
}

#[test]
fn force_refuses_overwrite() {
    let err = refuse_existing(true, false, "out.rzst").expect_err("should refuse overwrite");
    assert!(err.message.contains("--force"));
    assert_eq!(err.message, "output already exists: out.rzst (use --force to overwrite)");
    assert!(refuse_existing(true, true, "out.rzst").is_ok());
    assert!(refuse_existing(false, false, "out.rzst").is_ok());
}

#[test]
fn pack_newer_than_days() {
    let now = Stamp { secs: 1_700_000_000, nanos: 5 };
    let cutoff = mtime_cutoff(now, 3);
    assert_eq!(cutoff, Stamp { secs: 1_700_000_000 - 3 * 86_400, nanos: 5 });
    let ten_days = Stamp { secs: 1_700_000_000 - 10 * 86_400, nanos: 0 };
    assert!(is_too_old(ten_days, Some(cutoff)));
    assert!(!is_too_old(now, Some(cutoff)));
    assert!(!is_too_old(cutoff, Some(cutoff)));
    assert!(is_too_old(Stamp { secs: cutoff.secs, nanos: 4 }, Some(cutoff)));
    assert!(!is_too_old(ten_days, None));
    assert_eq!(mtime_cutoff(now, u64::MAX), Stamp { secs: 0, nanos: 0 });
}

#[test]
fn repack_exclude_members() {
    let input = pack(&[("drop.tmp", b"tmp"), ("keep.txt", b"keep"), ("notes.log", b"log")]);
    assert_eq!(inspect_pack(&input, "in.rzst").expect("lists").file_count, 3);

    let mut output = Vec::new();
    let excludes = vec!["*.tmp".to_string(), "*.log".to_string()];
    let stats = repack_archive(&input, &excludes, "out.rzst", &mut output).expect("repacks");
    assert_eq!(stats.kept, 1);
    assert_eq!(stats.excluded, 2);
    assert_eq!(stats.original_bytes, 4);
    assert_eq!(stats.archive_bytes, output.len() as u64);

    let info = inspect_pack(&output, "out.rzst").expect("lists");
    assert_eq!(info.file_count, 1);
    assert_eq!(info.members[0].path, "keep.txt");
    assert_eq!(extract_pack_member(&output, "keep.txt").expect("extracts"), b"keep");

    assert!(check_repack_paths(true, false, false, "out.rzst").is_err());
    let err = check_repack_paths(true, true, true, "out.rzst").expect_err("same file");
    assert_eq!(err.message, "repack input and output paths must differ");
    assert_eq!(err.kind, ErrorKind::SamePath);
    assert!(check_repack_paths(false, false, false, "out.rzst").is_ok());
}

#[test]
fn repack_without_excludes_copies() {
    let input = pack(&[("a", b"aaa"), ("b/c", b"ccc")]);
    let mut output = Vec::new();
    repack_members(&input, &None, "out", &mut output).expect("repacks");
    assert_eq!(output, input);
}

#[test]
fn repack_refusals() {
    let input = pack(&[("a.tmp", b"aaa")]);
    let mut out = Vec::new();
    let err = repack_archive(&input, &vec!["*.tmp".to_string()], "o", &mut out)
        .expect_err("nothing left");
    assert_eq!(err.message, "repack would produce an empty archive (all members excluded)");
    assert!(out.is_empty());
    let err = repack_archive(b"RZC1\x01", &Vec::new(), "o", &mut out).expect_err("single");
    assert_eq!(err.message, "repack requires a v3 pack archive (got version 1)");
    let err = repack_archive(&input, &vec!["[".to_string()], "o", &mut out).expect_err("bad glob");
    assert_eq!(err.kind, ErrorKind::InvalidGlob);
    assert!(err.message.starts_with("invalid exclude glob '[': error parsing glob '['"));
}

#[test]
fn absurd_declared_lengths_error_instead_of_aborting() {
    let mut bytes = Vec::new();
    bytes.extend_from_slice(&MAGIC);
    bytes.push(3);
    bytes.extend_from_slice(&3_i32.to_le_bytes());
    bytes.extend_from_slice(&1_u32.to_le_bytes());
    bytes.extend_from_slice(&5_u32.to_le_bytes());
    bytes.extend_from_slice(b"a.txt");
    bytes.extend_from_slice(&100_u64.to_le_bytes());
    bytes.extend_from_slice(&[0_u8; HASH_LEN]);
    bytes.extend_from_slice(&0x0000_FFFF_FFFF_FFFF_u64.to_le_bytes());

    let err = unpack(&bytes, &forced(), &mut Disk::new()).expect_err("unpack must reject");
    assert!(
        err.message.contains("remain in the archive"),
        "unexpected error: {}",
        err.message
    );
    assert_eq!(
        err.message,
        "compressed data for a.txt: header declares 281474976710655 bytes but only 0 remain in the archive"
    );
    assert_eq!(err.kind, ErrorKind::DeclaredLength);
    let err = list_archive(&bytes, "hostile.rzst").expect_err("list must reject");
    assert_eq!(
        err.message,
        "pack member 'a.txt' declares 281474976710655 compressed bytes but only 0 remain in the archive"
    );
    let err = verify_file(&bytes).expect_err("verify must reject");
    assert_eq!(
        err.message,
        "pack member 0 payload: header declares 281474976710655 bytes but only 0 remain in the archive"
    );
}

#[test]
fn member_path_errors() {
    let mut bytes = Vec::new();
    bytes.extend_from_slice(b"RZC1\x03");
    bytes.extend_from_slice(&3_i32.to_le_bytes());
    bytes.extend_from_slice(&1_u32.to_le_bytes());
    let start = bytes.clone();

    bytes.extend_from_slice(&20_000_u32.to_le_bytes());
    let err = inspect_pack(&bytes, "p").expect_err("too long");
    assert_eq!(err.message, "pack member path too long (20000 bytes)");
    assert_eq!(err.kind, ErrorKind::PathTooLong);
    let err = verify_pack(&bytes).expect_err("cut off");
    assert_eq!(
        err.message,
        "pack member path: header declares 20000 bytes but only 0 remain in the archive"
    );

    let mut bytes = start.clone();
    bytes.extend_from_slice(&1_u32.to_le_bytes());
    bytes.push(0xff);
    bytes.extend_from_slice(&[0; 48]);
    let err = inspect_pack(&bytes, "p").expect_err("not text");
    assert_eq!(
        err.message,
        "pack member path is not UTF-8: invalid utf-8 sequence of 1 bytes from index 0"
    );
    assert_eq!(err.kind, ErrorKind::NotUtf8);

    let err = inspect_pack(&start, "p").expect_err("cut off");
    assert_eq!(err.message, "failed to fill whole buffer");
    assert_eq!(err.kind, ErrorKind::Truncated);
}

#[test]
fn trailing_bytes_are_ignored() {
    let mut archive = pack(&[("a", b"aaa")]);
    archive.extend_from_slice(b"trailing");
    assert_eq!(verify_pack(&archive).expect("verifies"), 3);
    assert_eq!(inspect_pack(&archive, "p").expect("lists").members.len(), 1);
}

#[test]
fn file_counts() {
    let err = check_file_count(0, "empty").expect_err("nothing");
    assert_eq!(err.message, "no files to pack under empty");
    assert_eq!(err.kind, ErrorKind::NothingToPack);
    assert_eq!(check_file_count(7, "d").expect("fine"), 7);
    if usize::BITS == 64 {
        let many = u32::MAX as usize + 1;
        let err = check_file_count(many, "d").expect_err("too many");
        assert_eq!(err.message, "too many files to pack");
        assert_eq!(err.kind, ErrorKind::TooManyFiles);
    }
    let mut out = Vec::new();
    assert!(pack_files(&Vec::new(), 3, 1, "empty", "o", &mut out).is_err());
    assert!(out.is_empty());
}

#[test]
fn members_written_one_by_one() {
    let first = pack_member("a", b"alpha", 3, 1).expect("packs");
    assert_eq!(first.original_len, 5);
    assert_eq!(first.checksum, sha256(b"alpha"));
    let second = pack_member("b", b"beta", 3, 2).expect("packs");
    let members: Vec<Member> = vec![first, second];
    let mut out = Vec::new();
    let stats = write_pack(3, &members, "o.rzst", &mut out).expect("writes");
    assert_eq!(stats.original_bytes, 9);
    assert_eq!(verify_pack(&out).expect("verifies"), 9);
    assert_eq!(extract_pack_member(&out, "b").expect("extracts"), b"beta");
}

#[test]
fn restored_data_is_checked() {
    let digest = sha256(b"abc");
    assert!(check_plain(Purpose::Extract, 0, "p", 3, &digest, b"abc").is_ok());
    let err = check_plain(Purpose::Extract, 0, "p", 4, &digest, b"abc").expect_err("size");
    assert_eq!(err.message, "size mismatch for p: expected 4, got 3");
    let err = check_plain(Purpose::Search, 0, "p", 4, &digest, b"abc").expect_err("size");
    assert_eq!(err.message, "size mismatch in member p: expected 4, got 3");
    let err = check_plain(Purpose::Search, 0, "p", 3, &digest, b"abd").expect_err("digest");
    assert_eq!(err.message, "checksum mismatch for member p");
    let err = check_plain(Purpose::Unpack, 0, "p", 3, &digest, b"abd").expect_err("digest");
    assert!(err.message.starts_with("checksum mismatch for p: expected ba7816bf8f01cfea"));
}

#[test]
fn damaged_payloads_are_named() {
    let mut archive = pack(&[("a.txt", b"some text some text")]);
    let at = 13 + 4 + 5 + 48;
    archive[at] ^= 0xff;
    let err = extract_pack_member(&archive, "a.txt").expect_err("damaged");
    assert_eq!(err.kind, ErrorKind::Codec);
    assert!(err.message.starts_with("decompressing a.txt: decompressing zstd frame: "));
    let err = verify_pack(&archive).expect_err("damaged");
    assert!(err.message.starts_with("decompressing zstd frame: "));
}

#[test]
fn unicode_paths_survive() {
    let archive = pack(&[("größe/日本.txt", b"x")]);
    let info = inspect_pack(&archive, "p").expect("lists");
    assert_eq!(info.members[0].path, "größe/日本.txt");
    let mut disk = Disk::new();
    unpack(&archive, &forced(), &mut disk).expect("unpacks");
    assert_eq!(disk["größe/日本.txt"], b"x");
}

#[test]
fn cut_off_archives_fail() {
    let archive = pack(&[("a.txt", b"first file"), ("b/c.txt", b"second file")]);
    for n in 0..archive.len() {
        let part = &archive[..n];
        assert!(inspect_pack(part, "p").is_err());
        assert!(verify_pack(part).is_err());
        assert!(list_archive(part, "p").is_err());
        assert!(unpack(part, &forced(), &mut Disk::new()).is_err());
        assert!(repack_archive(part, &Vec::new(), "o", &mut Vec::new()).is_err());
    }
    assert!(verify_pack(&archive).is_ok());
}

#[test]
fn damaged_archives_never_restore_other_data() {
    let files: [(&str, &[u8]); 2] = [("a.txt", b"first file"), ("b.txt", b"second file")];
    let archive = pack(&files);
    for at in 0..archive.len() {
        let mut bad = archive.clone();
        bad[at] ^= 0x10;
        let mut disk = Disk::new();
        let _ = unpack(&bad, &forced(), &mut disk);
        for contents in disk.values() {
            assert!(files.iter().any(|(_, data)| contents == data));
        }
        if verify_pack(&bad).is_ok() {
            if let Ok(info) = inspect_pack(&bad, "p") {
                for m in &info.members {
                    assert!(extract_pack_member(&bad, &m.path).is_ok());
                }
            }
        }
    }
}

#[test]
fn unpack_choices_combine() {
    let archive = pack(&[("top/a", b"aa"), ("top/sub/b", b"bb"), ("c", b"cc")]);
    let mut disk = Disk::new();
    disk.insert("a".to_string(), b"old".to_vec());
    let opts = UnpackOpts { strip_components: 1, skip_existing: true, ..Default::default() };
    let stats = unpack(&archive, &opts, &mut disk).expect("unpacks");
    assert_eq!((stats.written, stats.skipped), (1, 2));
    assert_eq!(disk["a"], b"old");
    assert_eq!(disk["sub/b"], b"bb");
    assert_eq!(disk.len(), 2);
    assert_eq!(stats.members.len(), 3);

    let mut disk = Disk::new();
    let opts = UnpackOpts {
        strip_components: 2,
        only: Some("top/sub/b".to_string()),
        ..Default::default()
    };
    let stats = unpack(&archive, &opts, &mut disk).expect("unpacks");
    assert_eq!(stats.members.len(), 1);
    assert_eq!(disk["b"], b"bb");
}

#[test]
fn checking_goes_member_by_member() {
    let archive = pack(&[("a", b"one"), ("b", b""), ("c", b"three")]);
    let mut check = start_verify(&archive).expect("starts");
    let mut sums = Vec::new();
    while let Some(next) = verify_next(&archive, &check).expect("intact") {
        check = next;
        sums.push(check.total);
    }
    assert_eq!(sums, [3, 3, 8]);
    assert_eq!(verify_pack(&archive).expect("verifies"), 8);

    let cut = &archive[..archive.len() - 1];
    let mut check = start_verify(cut).expect("starts");
    for sum in [3, 3] {
        check = verify_next(cut, &check).expect("intact").expect("one more");
        assert_eq!(check.total, sum);
    }
    assert!(verify_next(cut, &check).is_err());
}

#[test]
fn absolute_paths_are_invalid() {
    for path in ["/etc/x", "/a/../b", "\\a"] {
        let archive = pack(&[(path, b"bad")]);
        let err = unpack(&archive, &forced(), &mut Disk::new()).expect_err("invalid");
        assert_eq!(err.message, format!("invalid archive path: {path}"));
    }
    let archive = pack(&[("a/b/../c", b"bad")]);
    let opts = UnpackOpts { strip_components: 1, ..forced() };
    let err = unpack(&archive, &opts, &mut Disk::new()).expect_err("traversal");
    assert_eq!(err.message, "path traversal rejected: b/../c");
}

#[test]
fn paths_that_lead_upwards_are_refused_whole() {
    let archive = pack(&[("../evil.txt", b"bad")]);
    for strip_components in 0..4 {
        let mut disk = Disk::new();
        let opts = UnpackOpts { strip_components, ..forced() };
        let err = unpack(&archive, &opts, &mut disk).expect_err("traversal");
        assert_eq!(err.message, "path traversal rejected: ../evil.txt");
        assert_eq!(err.kind, ErrorKind::InvalidPath);
        assert!(disk.is_empty());
        assert!(unpack_in_memory(&archive, &opts).is_err());
    }
    let archive = pack(&[("a/../b", b"bad"), ("ok", b"fine")]);
    let opts = UnpackOpts { strip_components: 2, ..forced() };
    assert!(unpack(&archive, &opts, &mut Disk::new()).is_err());
    let mut disk = Disk::new();
    let opts = UnpackOpts { only: Some("ok".to_string()), ..forced() };
    assert_eq!(unpack(&archive, &opts, &mut disk).expect("unpacks").written, 1);
    assert_eq!(disk["ok"], b"fine");
}

#[test]
fn unpacking_in_memory() {
    let archive = pack(&[("top/a", b"aa"), ("b", b"bb")]);
    let files = unpack_in_memory(&archive, &UnpackOpts::default()).expect("unpacks");
    assert_eq!(files.len(), 2);
    assert_eq!(files[0].target, ["top", "a"]);
    assert_eq!(files[0].contents, b"aa");
    let opts = UnpackOpts { strip_components: 1, ..Default::default() };
    let files = unpack_in_memory(&archive, &opts).expect("unpacks");
    assert_eq!(files.len(), 1);
    assert_eq!(files[0].target, ["a"]);
    let opts = UnpackOpts { only: Some("c".to_string()), ..Default::default() };
    assert_eq!(
        unpack_in_memory(&archive, &opts).expect_err("missing").kind,
        ErrorKind::MemberNotFound
    );
}

#[test]
fn absurd_sizes_do_not_repack() {
    let frame = pack_member("a", b"x", 3, 1).expect("packs");
    let declare = |path: &str, original_len: u64| Member {
        path: path.to_string(),
        original_len,
        checksum: frame.checksum,
        payload: frame.payload.clone(),
    };
    let mut archive = Vec::new();
    let mut start = Vec::new();
    write_pack(3, &vec![declare("a", u64::MAX)], "o", &mut archive).expect("one fits");
    write_pack(3, &vec![declare("b", u64::MAX)], "o", &mut start).expect("one fits");
    archive.extend_from_slice(&start[13..]);
    archive[9] = 2;
    let info = inspect_pack(&archive, "p").expect("lists");
    assert_eq!(info.members.len(), 2);
    assert_eq!(info.total_original_len(), u64::MAX);

    let mut out = Vec::new();
    let err = repack_archive(&archive, &Vec::new(), "o", &mut out).expect_err("absurd");
    assert_eq!(err.kind, ErrorKind::TotalTooLarge);
    assert_eq!(err.message, "pack members add up to more than 18446744073709551615 bytes");
    assert!(out.is_empty());
    assert_eq!(
        repack_archive(&archive, &vec!["a".to_string()], "o", &mut out).expect("one stays").kept,
        1
    );
    let both = vec![declare("a", u64::MAX), declare("b", 1)];
    assert!(write_pack(3, &both, "o", &mut Vec::new()).is_err());
}
