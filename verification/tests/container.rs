//! Single-file containers.

use rust_file_compressor::codec::{encoded, EncodeError, zstd_compress_raw, zstd_decompress_raw};
use rust_file_compressor::container::{check_payload, estimate, put_container};
use rust_file_compressor::dict::trained;
use rust_file_compressor::doctor::{check_container, check_frame, check_pack};
use rust_file_compressor::error::plain_error;
use rust_file_compressor::report::ratio_text;
use rust_file_compressor::{
    cat_member, compress_bytes, compress_bytes_dict, compress_bytes_dry_run, compress_bytes_dry_run_dict,
    decompress_reader,
    decompress_reader_dict, doctor, inspect_file, list_archive, pack_files, peek_version,
    read_header, sha256,
    train_dictionary, verify_file, write_header, write_header_v2, CountingSink, ErrorKind, Header,
    ListResult, PackInput, Preset, DEFAULT_MAX_DICT_SIZE, MAGIC, VERSION, VERSION_V1,
};

fn sample_text() -> String {
    "Rust compression loves repeated natural language.\n".repeat(8_192)
}

fn compressed(data: &[u8], level: i32) -> Vec<u8> {
    let mut out = Vec::new();
    let n = compress_bytes(data, &mut out, level, 1).expect("compresses");
    assert_eq!(n, data.len() as u64);
    out
}

#[test]
fn v2_round_trip_with_hash() {
    let text = sample_text();
    let container = compressed(text.as_bytes(), 3);
    let mut out = Vec::new();
    let n = decompress_reader(&container, &mut out).expect("decompresses");
    assert_eq!(n, text.len() as u64);
    assert_eq!(out, text.as_bytes());
    assert!(container.len() < text.len());

    let info = inspect_file(&container, container.len() as u64, "sample.txt.rzst").expect("info");
    assert_eq!(info.header.version, VERSION);
    assert!(info.header.has_checksum());
    assert_eq!(info.header.original_len, text.len() as u64);
    assert_eq!(info.header.checksum, Some(sha256(text.as_bytes())));
}

#[test]
fn v1_round_trip_backward_compat() {
    let text = sample_text();
    let mut container = Vec::new();
    write_header(
        &mut container,
        &Header { version: VERSION_V1, level: 3, original_len: text.len() as u64, checksum: None },
    )
    .expect("header");
    let frame = zstd_compress_raw(text.as_bytes(), 3, 1, &[]).expect("frame");
    container.extend_from_slice(&frame);

    let mut out = Vec::new();
    decompress_reader(&container, &mut out).expect("decompresses");
    assert_eq!(out, text.as_bytes());

    let header = read_header(&container).expect("header");
    assert_eq!(header.version, VERSION_V1);
    assert!(!header.has_checksum());
}

#[test]
fn bad_checksum_fails() {
    let text = b"hello integrity check";
    let good = compressed(text, 3);
    let mut bad = good.clone();
    let hash_offset = 4 + 1 + 4 + 8;
    bad[hash_offset] ^= 0xff;

    let err = decompress_reader(&bad, &mut Vec::new()).expect_err("tampered checksum should fail");
    assert!(err.message.contains("checksum mismatch"), "unexpected error: {}", err.message);
    assert_eq!(err.kind, ErrorKind::ChecksumMismatch);
}

#[test]
fn rejects_unknown_container() {
    let error = decompress_reader(b"not a compressed rzc file", &mut Vec::new())
        .expect_err("invalid magic should fail");
    assert!(error.message.contains("invalid file magic"));
    assert_eq!(error.kind, ErrorKind::InvalidMagic);
}

#[test]
fn info_parsing() {
    let container = compressed(b"aaaaaaaaaaaaaaaaaaaaaaaa", 5);
    let info = inspect_file(&container, container.len() as u64, "data.bin.rzst").expect("info");
    assert_eq!(info.header.version, 2);
    assert_eq!(info.header.level, 5);
    assert_eq!(info.header.original_len, 24);
    assert!(info.header.has_checksum());
    assert!(info.compressed_size > 0);
    let ratio = ratio_text(info.compressed_size, info.header.original_len);
    assert!(ratio.parse::<f64>().expect("a number") > 0.0);
    assert_eq!(info.kind, "single");
    assert_eq!(info.path, "data.bin.rzst");
}

#[test]
fn verify_ok_and_fail() {
    let container = compressed(b"verify me please", 3);
    let n = verify_file(&container).expect("verifies");
    assert_eq!(n, b"verify me please".len() as u64);

    let mut bad = container.clone();
    if let Some(last) = bad.last_mut() {
        *last ^= 0x55;
    }
    assert!(verify_file(&bad).is_err());
}

#[test]
fn stdin_style_round_trip() {
    let data = b"stream me through memory";
    let container = compressed(data, 3);
    let mut out = Vec::new();
    decompress_reader(&container, &mut out).expect("decompresses");
    assert_eq!(out, data);
}

#[test]
fn size_mismatch_fails() {
    let mut container = Vec::new();
    write_header(
        &mut container,
        &Header { version: VERSION_V1, level: 3, original_len: 999, checksum: None },
    )
    .expect("header");
    container.extend_from_slice(&zstd_compress_raw(b"short", 3, 1, &[]).expect("frame"));

    let err = decompress_reader(&container, &mut Vec::new()).expect_err("size mismatch should fail");
    assert!(err.message.contains("decompressed size mismatch"));
    assert_eq!(err.message, "decompressed size mismatch: expected 999, wrote 5");
    assert_eq!(err.kind, ErrorKind::SizeMismatch);
}

#[test]
fn dry_run_does_not_write() {
    let data = b"dry run payload ".repeat(100);
    let dry = compress_bytes_dry_run(&data, 3, 1).expect("estimate");
    assert_eq!(dry.input_bytes, 16 * 100);
    assert!(dry.estimated_compressed_bytes > 0);
    assert!(dry.estimated_compressed_bytes < dry.input_bytes);
    assert_eq!(dry.input_path, "<memory>");
    let real = compressed(&data, 3);
    assert_eq!(real.len() as u64, dry.estimated_compressed_bytes);
}

#[test]
fn dry_run_counts_on_the_dictionary() {
    let dictionary = b"a phrase that comes back in every record of the set ".repeat(8);
    let data = b"a phrase that comes back in every record of the set, once";
    let dry = compress_bytes_dry_run_dict(data, 3, 1, &dictionary).expect("estimate");
    let plain = compress_bytes_dry_run(data, 3, 1).expect("estimate");
    assert!(dry.estimated_compressed_bytes < plain.estimated_compressed_bytes);
    let mut real = Vec::new();
    compress_bytes_dict(data, &mut real, 3, 1, &dictionary).expect("compresses");
    assert_eq!(real.len() as u64, dry.estimated_compressed_bytes);
}

#[test]
fn counting_sink_matches_vec_len() {
    let data = b"count me ".repeat(200);
    let mut sink = CountingSink::default();
    let n = sink.write(&compressed(&data, 3));
    assert_eq!(n as u64, sink.bytes);
    let vec = compressed(&data, 3);
    assert_eq!(sink.bytes, vec.len() as u64);
    sink.write(b"more");
    assert_eq!(sink.bytes, vec.len() as u64 + 4);
}

#[test]
fn cat_single_file_archive() {
    let container = compressed(b"single cat", 3);
    let mut out = Vec::new();
    let n = cat_member(&container, None, &mut out).expect("prints");
    assert_eq!(n, 10);
    assert_eq!(out, b"single cat");
    let mut again = Vec::new();
    cat_member(&container, Some("ignored"), &mut again).expect("prints");
    assert_eq!(again, b"single cat");
}

#[test]
fn preset_levels() {
    assert_eq!(Preset::Fast.level(), 3);
    assert_eq!(Preset::Balanced.level(), 12);
    assert_eq!(Preset::Max.level(), 19);
    assert_eq!(Preset::parse("FAST").expect("known"), Preset::Fast);
    assert!(Preset::parse("slow").is_err());
    let err = Preset::parse("SLOW").expect_err("unknown");
    assert_eq!(err.message, "unknown preset 'slow'; expected fast|balanced|max");
    assert_eq!(err.kind, ErrorKind::UnknownPreset);
}

#[test]
fn doctor_passes() {
    let report = doctor();
    assert!(report.ok, "{:?}", report.messages);
    assert!(report.zstd_roundtrip);
    assert!(report.container_v2_roundtrip);
    assert!(report.pack_v3_roundtrip);
    assert_eq!(report.messages.len(), 4);
    assert_eq!(report.messages[0], "zstd roundtrip: ok");
    assert_eq!(report.messages[3], "all checks passed");
}

#[test]
fn doctor_reports_failures() {
    let bad = Err(plain_error(ErrorKind::ProbeMismatch, "v2 payload mismatch"));
    let report = rust_file_compressor::doctor::doctor_report(&Ok(()), &bad, &Ok(()));
    assert!(!report.ok);
    assert!(!report.container_v2_roundtrip);
    assert_eq!(report.messages[1], "container v2 roundtrip: FAIL (v2 payload mismatch)");
    assert_eq!(report.messages.len(), 3);
}

fn json_samples(count: usize) -> Vec<Vec<u8>> {
    let mut samples = Vec::new();
    for i in 0..count {
        let record = format!(
            "{{\"user\":\"user-{i}\",\"role\":\"admin\",\"active\":true,\"quota\":{quota},\"region\":\"eu-west-1\",\"teams\":[\"platform\",\"infra\",\"tooling\"],\"note\":\"generated fixture record for dictionary training\"}}\n",
            i = i,
            quota = i * 100,
        );
        samples.push(record.repeat(4).into_bytes());
    }
    samples
}

#[test]
fn trains_from_similar_samples() {
    let dict = train_dictionary(&json_samples(40), DEFAULT_MAX_DICT_SIZE).expect("trains");
    assert!(!dict.is_empty());
    assert!(dict.len() <= DEFAULT_MAX_DICT_SIZE);
}

#[test]
fn rejects_too_few_samples() {
    let err = train_dictionary(&json_samples(3), DEFAULT_MAX_DICT_SIZE)
        .expect_err("3 samples should be rejected");
    assert!(
        err.message.contains("needs at least 8 sample files; got 3"),
        "unexpected error: {}",
        err.message
    );
    assert_eq!(err.kind, ErrorKind::TooFewSamples);
}

#[test]
fn training_failure_is_reported() {
    let empty: Vec<Vec<u8>> = vec![Vec::new(); 8];
    let err = train_dictionary(&empty, 1000).expect_err("nothing to learn");
    assert_eq!(err.kind, ErrorKind::Codec);
    assert!(err.message.starts_with("training zstd dictionary: "));
}

#[test]
fn dictionary_round_trip() {
    let samples = json_samples(40);
    let dict = train_dictionary(&samples, DEFAULT_MAX_DICT_SIZE).expect("trains");
    let mut with = Vec::new();
    compress_bytes_dict(&samples[7], &mut with, 3, 1, &dict).expect("compresses");
    let without = compressed(&samples[7], 3);
    assert!(with.len() < without.len());

    let mut out = Vec::new();
    let n = decompress_reader_dict(&with, &mut out, &dict).expect("decompresses");
    assert_eq!(n, samples[7].len() as u64);
    assert_eq!(out, samples[7]);

    let err = decompress_reader(&with, &mut Vec::new()).expect_err("needs the dictionary");
    assert_eq!(err.kind, ErrorKind::Codec);
    assert!(err.message.starts_with("decompressing data: "));
}

#[test]
fn empty_dictionary_is_none() {
    let data = b"plain plain plain";
    let mut a = Vec::new();
    compress_bytes_dict(data, &mut a, 3, 1, &[]).expect("compresses");
    assert_eq!(a, compressed(data, 3));
}

#[test]
fn empty_input_round_trip() {
    let container = compressed(b"", 12);
    assert!(container.len() >= 49);
    let mut out = b"kept".to_vec();
    assert_eq!(decompress_reader(&container, &mut out).expect("decompresses"), 0);
    assert_eq!(out, b"kept");
}

#[test]
fn threads_do_not_change_contents() {
    let data = sample_text();
    let mut container = Vec::new();
    compress_bytes(data.as_bytes(), &mut container, 3, 4).expect("compresses");
    let mut out = Vec::new();
    decompress_reader(&container, &mut out).expect("decompresses");
    assert_eq!(out, data.as_bytes());
}

#[test]
fn container_layout() {
    let container = compressed(b"layout", 7);
    assert_eq!(&container[0..4], b"RZC1");
    assert_eq!(container[4], 2);
    assert_eq!(&container[5..9], &7_i32.to_le_bytes());
    assert_eq!(&container[9..17], &6_u64.to_le_bytes());
    assert_eq!(&container[17..49], &sha256(b"layout"));
    assert_eq!(zstd_decompress_raw(&container[49..]).expect("frame"), b"layout");
    assert_eq!(MAGIC, *b"RZC1");
}

#[test]
fn sha256_known_value() {
    let digest = sha256(b"abc");
    assert_eq!(digest[0], 0xba);
    assert_eq!(digest[1], 0x78);
    assert_eq!(digest[31], 0xad);
}

#[test]
fn negative_levels_survive() {
    let mut out = Vec::new();
    write_header_v2(&mut out, -5, 1, [9u8; 32]).expect("header");
    let header = read_header(&out).expect("header");
    assert_eq!(header.level, -5);
    assert_eq!(header.encoded_len(), 49);
    assert_eq!(header.checksum, Some([9u8; 32]));
}

#[test]
fn header_fields_must_agree() {
    let mut out = Vec::new();
    let err = write_header(
        &mut out,
        &Header { version: VERSION_V1, level: 1, original_len: 0, checksum: Some([0; 32]) },
    )
    .expect_err("v1 has no checksum");
    assert_eq!(err.message, "checksum present but version is 1");
    assert_eq!(err.kind, ErrorKind::HeaderFields);
    let err = write_header(
        &mut Vec::new(),
        &Header { version: VERSION, level: 1, original_len: 0, checksum: None },
    )
    .expect_err("v2 needs a checksum");
    assert_eq!(err.message, "version 2 requires a checksum");
}

#[test]
fn header_errors() {
    assert_eq!(
        read_header(b"RZ").expect_err("short").message,
        "reading compressor magic: failed to fill whole buffer"
    );
    assert_eq!(
        read_header(b"RZC1").expect_err("short").message,
        "reading container version: failed to fill whole buffer"
    );
    assert_eq!(
        read_header(b"RZC1\x02\x01").expect_err("short").message,
        "reading compression level: failed to fill whole buffer"
    );
    assert_eq!(
        read_header(b"RZC1\x02\x01\x00\x00\x00\x01").expect_err("short").message,
        "reading original file length: failed to fill whole buffer"
    );
    let mut short = Vec::new();
    write_header_v2(&mut short, 3, 5, [1u8; 32]).expect("header");
    assert_eq!(
        read_header(&short[..48]).expect_err("short").message,
        "reading SHA-256 checksum: failed to fill whole buffer"
    );
    let err = read_header(b"RZC1\x03").expect_err("pack");
    assert_eq!(err.kind, ErrorKind::UnexpectedPack);
    assert_eq!(
        err.message,
        "this is a multi-file pack archive (v3); use list/unpack instead of single-file decompress"
    );
    let err = read_header(b"RZC1\x09").expect_err("unknown");
    assert_eq!(err.kind, ErrorKind::UnsupportedVersion);
    assert_eq!(
        err.message,
        "unsupported container version 9; supported versions are 1, 2, and 3"
    );
    assert_eq!(peek_version(b"RZC1\x09").expect("version"), 9);
}

#[test]
fn failed_checks_leave_the_output() {
    let good = compressed(b"written before the check", 3);
    let mut bad = good.clone();
    bad[20] ^= 1;
    let mut out = Vec::new();
    assert!(decompress_reader(&bad, &mut out).is_err());
    assert_eq!(out, b"written before the check");
}

#[test]
fn payload_check_on_given_data() {
    let header =
        Header { version: VERSION, level: 3, original_len: 3, checksum: Some(sha256(b"abc")) };
    assert_eq!(check_payload(&header, b"abc").expect("intact"), 3);
    let err = check_payload(&header, b"abd").expect_err("altered");
    assert!(err.message.starts_with("checksum mismatch: expected ba7816bf"));
    let err = check_payload(&header, b"ab").expect_err("short");
    assert_eq!(err.message, "decompressed size mismatch: expected 3, wrote 2");
}

#[test]
fn encoder_failure_leaves_a_header() {
    let mut out = Vec::new();
    let failed = Err(plain_error(ErrorKind::Codec, "no memory"));
    let err = put_container(b"abc", &mut out, 3, failed).expect_err("handed on");
    assert_eq!(err.message, "no memory");
    assert_eq!(out.len(), 49);
    let mut out = Vec::new();
    assert_eq!(put_container(b"abc", &mut out, 3, Ok(vec![1, 2])).expect("written"), 3);
    assert_eq!(&out[49..], &[1, 2]);
}

#[test]
fn listing_a_container() {
    let container = compressed(b"single file", 3);
    match list_archive(&container, "one.txt.rzst").expect("lists") {
        ListResult::Single(info) => {
            assert_eq!(info.header.original_len, 11);
            assert_eq!(info.kind, "single");
            assert_eq!(info.compressed_size, container.len() as u64);
        }
        ListResult::Pack(_) => panic!("expected single"),
    }
    let err = inspect_file(b"RZC1\x03", 5, "p.rzst").expect_err("pack");
    assert_eq!(
        err.message,
        "p.rzst is a multi-file pack archive (v3); use `rzc list` or `rzc info`"
    );
}

#[test]
fn outcomes_of_the_codec() {
    assert_eq!(encoded(Ok(vec![1, 2]), 3, 0, "writing").expect("a frame"), [1, 2]);
    let boom = || "boom".to_string();
    for (e, message) in [
        (EncodeError::Create(boom()), "creating zstd encoder at level -5: boom"),
        (EncodeError::Workers(boom()), "enabling 4 zstd worker threads: boom"),
        (EncodeError::Write(boom()), "writing: boom"),
        (EncodeError::Finish(boom()), "finishing zstd frame: boom"),
    ] {
        let err = encoded(Err(e), -5, 4, "writing").expect_err("no frame");
        assert_eq!(err.kind, ErrorKind::Codec);
        assert_eq!(err.message, message);
    }
    assert_eq!(trained(Ok(vec![7])).expect("a dictionary"), [7]);
    let err = trained(Err("boom".to_string())).expect_err("no dictionary");
    assert_eq!(err.message, "training zstd dictionary: boom");
}

#[test]
fn probes_look_at_what_comes_back() {
    let sample = b"doctor zstd probe data with some repetition repetition";
    assert!(check_frame(zstd_compress_raw(sample, 3, 1, &[])).is_ok());
    let err = check_frame(zstd_compress_raw(b"other", 3, 1, &[])).expect_err("other data");
    assert_eq!(err.message, "zstd payload mismatch");
    assert_eq!(err.kind, ErrorKind::ProbeMismatch);
    let err = check_frame(Err(plain_error(ErrorKind::Codec, "boom"))).expect_err("no frame");
    assert_eq!(err.message, "boom");

    let data = b"container v2 integrity bytes ".repeat(32);
    assert!(check_container(Ok(compressed(&data, 3))).is_ok());
    let err = check_container(Ok(compressed(b"other", 3))).expect_err("other data");
    assert_eq!(err.message, "v2 payload mismatch");
    assert!(check_container(Ok(Vec::new())).is_err());

    let mut archive = Vec::new();
    let files = vec![
        PackInput { path: "a.txt".to_string(), data: b"alpha alpha alpha".to_vec() },
        PackInput { path: "sub/b.txt".to_string(), data: b"other".to_vec() },
    ];
    pack_files(&files, 3, 1, "d", "o", &mut archive).expect("packs");
    let err = check_pack(Ok(archive)).expect_err("other data");
    assert_eq!(err.message, "pack member sub/b.txt mismatch");
    assert!(check_pack(Err(plain_error(ErrorKind::Codec, "boom"))).is_err());
}

#[test]
fn tiny_samples_are_rejected() {
    let unlearnable =
        "training zstd dictionary: the first three quarters of the samples are too small";
    let empty: Vec<Vec<u8>> = vec![Vec::new(); 8];
    let err = train_dictionary(&empty, 1000).expect_err("nothing at all");
    assert_eq!(err.message, "training zstd dictionary: Src size is incorrect");
    let mut seven_in_all: Vec<Vec<u8>> = vec![vec![7]; 7];
    seven_in_all.push(Vec::new());
    let err = train_dictionary(&seven_in_all, 1000).expect_err("seven bytes in all");
    assert_eq!(err.message, "training zstd dictionary: Src size is incorrect");
    let tiny: Vec<Vec<u8>> = vec![vec![7]; 8];
    let err = train_dictionary(&tiny, 1000).expect_err("too small");
    assert_eq!(err.message, unlearnable);
    let mut uneven: Vec<Vec<u8>> = vec![vec![7]; 7];
    uneven.push(vec![7; 1000]);
    let err = train_dictionary(&uneven, 1000).expect_err("nothing to learn from");
    assert_eq!(err.message, unlearnable);
    let mut seven: Vec<Vec<u8>> = vec![vec![7]; 5];
    seven.extend([vec![7, 7], vec![7; 9], vec![7; 9]]);
    let err = train_dictionary(&seven, 1000).expect_err("one byte short");
    assert_eq!(err.message, unlearnable);
}

#[test]
fn estimates_follow_the_frame() {
    let stats = estimate(b"abc", 3, Ok(vec![1, 2, 3, 4])).expect("an estimate");
    assert_eq!(stats.estimated_compressed_bytes, 53);
    assert_eq!(stats.input_bytes, 3);
    let err = estimate(b"abc", 3, Err(plain_error(ErrorKind::Codec, "boom"))).expect_err("none");
    assert_eq!(err.message, "boom");
}
