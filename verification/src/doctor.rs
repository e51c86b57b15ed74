//! Self-tests: round trips through zstd and both container formats.

use vstd::prelude::*;

use crate::bytes;
use crate::codec;
use crate::codec::{zstd_compress_raw, zstd_decompress_raw};
use crate::container;
use crate::container::{compress_bytes, decompress_reader};
use crate::error::{plain_error, Error, ErrorKind, Failure};
use crate::member;
use crate::member::MemberModel;
use crate::pack;
use crate::packing;
use crate::packing::{pack_files, PackInput, PackStats};
use crate::paths;
use crate::restore;
use crate::restore::{unpack_in_memory, Restored, Written};
use crate::text;
use crate::unpack::{OptsModel, UnpackOpts};

verus! {

/// Self-test result.
#[derive(Debug)]
pub struct DoctorReport {
    pub ok: bool,
    pub zstd_roundtrip: bool,
    pub container_v2_roundtrip: bool,
    pub pack_v3_roundtrip: bool,
    pub messages: Vec<String>,
}

/// The failure of a probe, if it failed.
pub open spec fn probe_fault(r: Result<(), Error>) -> Option<Failure> {
    match r {
        Ok(_) => None,
        Err(e) => Some(e@),
    }
}

/// Whether a probe succeeded, or failed in the encoder. `writing` is how the
/// probe calls handing it the data.
pub open spec fn encoder_decides(fault: Option<Failure>, writing: Seq<char>) -> bool {
    fault matches Some(f) ==> codec::encoder_failed(3, 1, writing, f)
}

/// The line on one probe.
pub open spec fn probe_line(what: Seq<char>, fault: Option<Failure>) -> Seq<char> {
    match fault {
        None => what + " roundtrip: ok"@,
        Some(f) => what + " roundtrip: FAIL ("@ + f.text + ")"@,
    }
}

/// The line on one probe.
fn probe_text(what: &str, outcome: &Result<(), Error>) -> (out: String)
    ensures
        out@ == probe_line(what@, probe_fault(*outcome)),
{
    match outcome {
        Ok(_) => what.to_owned().concat(" roundtrip: ok"),
        Err(e) => what.to_owned().concat(" roundtrip: FAIL (").concat(e.message.as_str()).concat(
            ")",
        ),
    }
}

/// Whether `report` tells of three probes.
pub open spec fn reports(
    report: DoctorReport,
    zstd: Option<Failure>,
    v2: Option<Failure>,
    v3: Option<Failure>,
) -> bool {
    let lines = seq![
        probe_line("zstd"@, zstd),
        probe_line("container v2"@, v2),
        probe_line("pack v3"@, v3),
    ];
    &&& report.zstd_roundtrip == (zstd is None)
    &&& report.container_v2_roundtrip == (v2 is None)
    &&& report.pack_v3_roundtrip == (v3 is None)
    &&& report.ok == (zstd is None && v2 is None && v3 is None)
    &&& text::texts(report.messages@) == if report.ok {
        lines.push("all checks passed"@)
    } else {
        lines
    }
}

/// Reports on the three probes.
pub fn doctor_report(
    zstd: &Result<(), Error>,
    container_v2: &Result<(), Error>,
    pack_v3: &Result<(), Error>,
) -> (report: DoctorReport)
    ensures
        reports(
            report,
            probe_fault(*zstd),
            probe_fault(*container_v2),
            probe_fault(*pack_v3),
        ),
{
    let zstd_roundtrip: bool = zstd.is_ok();
    let container_v2_roundtrip: bool = container_v2.is_ok();
    let pack_v3_roundtrip: bool = pack_v3.is_ok();
    let ok: bool = zstd_roundtrip && container_v2_roundtrip && pack_v3_roundtrip;
    let mut messages: Vec<String> = Vec::new();
    messages.push(probe_text("zstd", zstd));
    messages.push(probe_text("container v2", container_v2));
    messages.push(probe_text("pack v3", pack_v3));
    if ok {
        messages.push("all checks passed".to_owned());
    }
    let report: DoctorReport = DoctorReport {
        ok,
        zstd_roundtrip,
        container_v2_roundtrip,
        pack_v3_roundtrip,
        messages,
    };
    proof {
        let lines = seq![
            probe_line("zstd"@, probe_fault(*zstd)),
            probe_line("container v2"@, probe_fault(*container_v2)),
            probe_line("pack v3"@, probe_fault(*pack_v3)),
        ];
        if ok {
            assert(text::texts(report.messages@) == lines.push("all checks passed"@));
        } else {
            assert(text::texts(report.messages@) == lines);
        }
    }
    report
}

/// The failure of a probe that got other data back than it put in.
pub open spec fn mismatch(what: Seq<char>) -> Failure {
    Failure { kind: ErrorKind::ProbeMismatch, text: what }
}

/// Whether an attempt to encode `data` may end like this: with a frame of the
/// encoder, or with the encoder's failure.
pub open spec fn encoding(
    data: Seq<u8>,
    writing: Seq<char>,
    made: Result<Seq<u8>, Failure>,
) -> bool {
    match made {
        Ok(frame) => codec::framed(data, 3, 1, Seq::empty(), frame),
        Err(fault) => codec::encoder_failed(3, 1, writing, fault),
    }
}

/// What the first probe compresses.
pub open spec fn zstd_sample() -> Seq<u8> {
    vstd::utf8::encode_utf8("doctor zstd probe data with some repetition repetition"@)
}

/// What the first probe finds, given the frame.
pub open spec fn zstd_verdict(made: Result<Seq<u8>, Failure>) -> Option<Failure> {
    match made {
        Err(fault) => Some(fault),
        Ok(frame) => match codec::decoded(frame, Seq::empty(), "decompressing zstd frame"@) {
            Err(fault) => Some(fault),
            Ok(plain) => if plain != zstd_sample() {
                Some(mismatch("zstd payload mismatch"@))
            } else {
                None
            },
        },
    }
}

/// Whether the first probe may find this.
pub open spec fn zstd_probed(fault: Option<Failure>) -> bool {
    exists|made: Result<Seq<u8>, Failure>| #[trigger]
        encoding(zstd_sample(), "writing to zstd encoder"@, made) && fault == zstd_verdict(made)
}

/// Decompresses the frame of the first probe and looks at what it holds.
pub fn check_frame(made: Result<Vec<u8>, Error>) -> (r: Result<(), Error>)
    ensures
        probe_fault(r) == zstd_verdict(codec::bytes_result(made)),
{
    let data: &[u8] = "doctor zstd probe data with some repetition repetition".as_bytes();
    let frame: Vec<u8> = match made {
        Ok(frame) => frame,
        Err(e) => return Err(e),
    };
    let plain: Vec<u8> = match zstd_decompress_raw(frame.as_slice()) {
        Ok(plain) => plain,
        Err(e) => return Err(e),
    };
    if !bytes::same_bytes(plain.as_slice(), data) {
        return Err(plain_error(ErrorKind::ProbeMismatch, "zstd payload mismatch"));
    }
    Ok(())
}

/// Compresses and decompresses a raw zstd frame.
pub fn zstd_probe() -> (r: Result<(), Error>)
    ensures
        zstd_probed(probe_fault(r)),
        encoder_decides(probe_fault(r), "writing to zstd encoder"@),
{
    let data: &[u8] = "doctor zstd probe data with some repetition repetition".as_bytes();
    let none: Vec<u8> = Vec::new();
    assert(none@ == Seq::<u8>::empty());
    let made: Result<Vec<u8>, Error> = zstd_compress_raw(data, 3, 1, none.as_slice());
    assert(encoding(zstd_sample(), "writing to zstd encoder"@, codec::bytes_result(made)));
    check_frame(made)
}

/// `s` written `n` times.
pub open spec fn repeated(s: Seq<u8>, n: nat) -> Seq<u8>
    decreases n,
{
    if n == 0 {
        Seq::empty()
    } else {
        repeated(s, (n - 1) as nat) + s
    }
}

/// What the second probe compresses.
pub open spec fn container_sample() -> Seq<u8> {
    repeated(vstd::utf8::encode_utf8("container v2 integrity bytes "@), 32)
}

/// Makes what the second probe compresses.
fn container_sample_bytes() -> (data: Vec<u8>)
    ensures
        data@ == container_sample(),
{
    let piece: &[u8] = "container v2 integrity bytes ".as_bytes();
    let mut data: Vec<u8> = Vec::new();
    let mut i: u32 = 0;
    while i < 32
        invariant
            i <= 32,
            piece@ == vstd::utf8::encode_utf8("container v2 integrity bytes "@),
            data@ == repeated(piece@, i as nat),
        decreases 32 - i,
    {
        bytes::push_all(&mut data, piece);
        i = i + 1;
    }
    data
}

/// What the second probe finds, given the container.
pub open spec fn container_verdict(made: Result<Seq<u8>, Failure>) -> Option<Failure> {
    match made {
        Err(fault) => Some(fault),
        Ok(container) => match container::restored(container, Seq::empty()) {
            Err(fault) => Some(fault),
            Ok(plain) => if plain != container_sample() {
                Some(mismatch("v2 payload mismatch"@))
            } else {
                None
            },
        },
    }
}

/// The container around an encoded sample.
pub open spec fn around(made: Result<Seq<u8>, Failure>) -> Result<Seq<u8>, Failure> {
    match made {
        Err(fault) => Err(fault),
        Ok(frame) => Ok(container::container_bytes(container_sample(), 3, frame)),
    }
}

/// Whether the second probe may find this.
pub open spec fn container_probed(fault: Option<Failure>) -> bool {
    exists|made: Result<Seq<u8>, Failure>| #[trigger]
        encoding(container_sample(), "compressing data"@, made) && fault == container_verdict(around(made))
}

/// Decompresses the container of the second probe and looks at what it holds.
pub fn check_container(made: Result<Vec<u8>, Error>) -> (r: Result<(), Error>)
    ensures
        probe_fault(r) == container_verdict(codec::bytes_result(made)),
{
    let data: Vec<u8> = container_sample_bytes();
    let container: Vec<u8> = match made {
        Ok(container) => container,
        Err(e) => return Err(e),
    };
    let mut plain: Vec<u8> = Vec::new();
    let ghost none = plain@;
    match decompress_reader(container.as_slice(), &mut plain) {
        Ok(_) => {},
        Err(e) => return Err(e),
    }
    assert(forall|c: Seq<u8>| #[trigger] (none + c) == c);
    if !bytes::same_bytes(plain.as_slice(), data.as_slice()) {
        return Err(plain_error(ErrorKind::ProbeMismatch, "v2 payload mismatch"));
    }
    Ok(())
}

/// Compresses and decompresses a single-file container.
pub fn container_probe() -> (r: Result<(), Error>)
    ensures
        container_probed(probe_fault(r)),
        encoder_decides(probe_fault(r), "compressing data"@),
{
    let data: Vec<u8> = container_sample_bytes();
    let mut container: Vec<u8> = Vec::new();
    let ghost none = container@;
    let outcome: Result<u64, Error> = compress_bytes(data.as_slice(), &mut container, 3, 1);
    assert(forall|c: Seq<u8>| #[trigger] (none + c) == c);
    match outcome {
        Ok(_) => {
            let ghost frame = choose|frame: Seq<u8>|
                {
                    &&& #[trigger] codec::framed(data@, 3, 1, Seq::empty(), frame)
                    &&& container@ == container::container_bytes(data@, 3, frame)
                    &&& container::restored(container@, Seq::empty()) == Ok::<Seq<u8>, Failure>(
                        data@,
                    )
                };
            assert(encoding(container_sample(), "compressing data"@, Ok::<Seq<u8>, Failure>(frame)));
            check_container(Ok(container))
        },
        Err(e) => {
            assert(encoding(container_sample(), "compressing data"@, Err::<Seq<u8>, Failure>(e@)));
            check_container(Err(e))
        },
    }
}

/// The contents of the first file of the third probe.
pub open spec fn alpha_sample() -> Seq<u8> {
    vstd::utf8::encode_utf8("alpha alpha alpha"@)
}

/// The contents of the second file of the third probe.
pub open spec fn beta_sample() -> Seq<u8> {
    vstd::utf8::encode_utf8("beta beta beta"@)
}

/// What a destination holds after `files` were written in turn.
pub open spec fn held(files: Seq<Written>, target: Seq<Seq<char>>) -> Option<Seq<u8>>
    decreases files.len(),
{
    if files.len() == 0 {
        None
    } else if files.last().target == target {
        Some(files.last().contents)
    } else {
        held(files.drop_last(), target)
    }
}

/// The options of the third probe: restore everything, overwriting.
pub open spec fn probe_opts() -> OptsModel {
    OptsModel { skip_existing: false, only: None, strip_components: 0, force: true }
}

/// Where the first file of the third probe goes.
pub open spec fn alpha_target() -> Seq<Seq<char>> {
    seq!["a.txt"@]
}

/// Where the second file of the third probe goes.
pub open spec fn beta_target() -> Seq<Seq<char>> {
    seq!["sub"@, "b.txt"@]
}

/// What the third probe finds, given the archive.
pub open spec fn pack_verdict(made: Result<Seq<u8>, Failure>) -> Option<Failure> {
    match made {
        Err(fault) => Some(fault),
        Ok(archive) => match restore::in_memory(archive, probe_opts()) {
            Err(fault) => Some(fault),
            Ok(files) => if held(files, alpha_target()) != Some(alpha_sample()) {
                Some(mismatch("pack member a.txt mismatch"@))
            } else if held(files, beta_target()) != Some(beta_sample()) {
                Some(mismatch("pack member sub/b.txt mismatch"@))
            } else {
                None
            },
        },
    }
}

/// Whether an attempt to pack the two files may end like this.
pub open spec fn packing_of_samples(made: Result<Seq<u8>, Failure>) -> bool {
    match made {
        Ok(archive) => exists|a: MemberModel, b: MemberModel|
            {
                &&& #[trigger] packing::packs(a, "a.txt"@, alpha_sample(), 3, 1)
                &&& #[trigger] packing::packs(b, "sub/b.txt"@, beta_sample(), 3, 1)
                &&& archive == pack::pack_bytes(3, seq![a, b])
            },
        Err(fault) => codec::encoder_failed(3, 1, "writing to zstd encoder"@, fault),
    }
}

/// Whether the third probe may find this.
pub open spec fn pack_probed(fault: Option<Failure>) -> bool {
    exists|made: Result<Seq<u8>, Failure>| #[trigger]
        packing_of_samples(made) && fault == pack_verdict(made)
}

/// Whether two lists of names are the same.
fn same_names(a: &Vec<String>, b: &Vec<String>) -> (same: bool)
    ensures
        same == (text::texts(a@) == text::texts(b@)),
{
    let ghost x = text::texts(a@);
    let ghost y = text::texts(b@);
    if a.len() != b.len() {
        assert(x.len() != y.len());
        return false;
    }
    let mut i: usize = 0;
    while i < a.len()
        invariant
            i <= a@.len(),
            a@.len() == b@.len(),
            x == text::texts(a@),
            y == text::texts(b@),
            forall|k: int| 0 <= k < i ==> x[k] == y[k],
        decreases a@.len() - i,
    {
        if !text::same_text(a[i].as_str(), b[i].as_str()) {
            assert(x[i as int] != y[i as int]);
            return false;
        }
        i = i + 1;
    }
    assert(x == y);
    true
}

/// Whether a destination holds `contents` after `files` were written in turn.
fn holds_contents(files: &Vec<Restored>, target: &Vec<String>, contents: &[u8]) -> (yes: bool)
    ensures
        yes == (held(restore::files_view(files@), text::texts(target@)) == Some(contents@)),
{
    let ghost all = restore::files_view(files@);
    let mut i: usize = files.len();
    assert(all.take(i as int) == all);
    while i > 0
        invariant
            i <= files@.len(),
            all == restore::files_view(files@),
            held(all, text::texts(target@)) == held(all.take(i as int), text::texts(target@)),
        decreases i,
    {
        let file: &Restored = &files[i - 1];
        assert(all.take(i as int).last() == file@);
        assert(all.take(i as int).drop_last() == all.take(i - 1));
        if same_names(&file.target, target) {
            return bytes::same_bytes(file.contents.as_slice(), contents);
        }
        i = i - 1;
    }
    false
}

/// Unpacks the archive of the third probe and looks at what the two files hold.
pub fn check_pack(made: Result<Vec<u8>, Error>) -> (r: Result<(), Error>)
    ensures
        probe_fault(r) == pack_verdict(codec::bytes_result(made)),
{
    let archive: Vec<u8> = match made {
        Ok(archive) => archive,
        Err(e) => return Err(e),
    };
    let opts: UnpackOpts = UnpackOpts {
        skip_existing: false,
        only: None,
        strip_components: 0,
        force: true,
    };
    assert(opts@ == probe_opts());
    let files: Vec<Restored> = match unpack_in_memory(archive.as_slice(), &opts) {
        Ok(files) => files,
        Err(e) => return Err(e),
    };
    let mut first: Vec<String> = Vec::new();
    first.push("a.txt".to_owned());
    assert(text::texts(first@) == alpha_target());
    if !holds_contents(&files, &first, "alpha alpha alpha".as_bytes()) {
        return Err(plain_error(ErrorKind::ProbeMismatch, "pack member a.txt mismatch"));
    }
    let mut second: Vec<String> = Vec::new();
    second.push("sub".to_owned());
    second.push("b.txt".to_owned());
    assert(text::texts(second@) == beta_target());
    if !holds_contents(&files, &second, "beta beta beta".as_bytes()) {
        return Err(plain_error(ErrorKind::ProbeMismatch, "pack member sub/b.txt mismatch"));
    }
    Ok(())
}

/// The paths of the two files lead to their destinations.
proof fn sample_places()
    ensures
        paths::place("a.txt"@, 0) == Ok::<Option<Seq<Seq<char>>>, Failure>(Some(alpha_target())),
        paths::place("sub/b.txt"@, 0) == Ok::<Option<Seq<Seq<char>>>, Failure>(
            Some(beta_target()),
        ),
        alpha_target() != beta_target(),
        packing::path_fits("a.txt"@),
        packing::path_fits("sub/b.txt"@),
{
    reveal_strlit("a.txt");
    reveal_strlit("sub/b.txt");
    reveal_strlit("sub");
    reveal_strlit("b.txt");
    reveal_strlit("/");
    reveal_strlit(".");
    reveal_strlit("..");
    packing::encoded_length("a.txt"@);
    packing::encoded_length("sub/b.txt"@);
    assert("."@.len() == 1);
    assert(".."@.len() == 2);
    assert("a.txt"@.len() == 5);
    assert("b.txt"@.len() == 5);
    assert("sub"@.len() == 3);
    assert(paths::proper_name("a.txt"@));
    assert(paths::proper_name("sub"@));
    assert(paths::proper_name("b.txt"@));
    let one = alpha_target();
    let two = beta_target();
    assert(text::joined(one, "/"@) == "a.txt"@);
    assert(two.drop_last() == seq!["sub"@]);
    assert(text::joined(seq!["sub"@], "/"@) == "sub"@);
    assert(text::joined(two, "/"@) == "sub"@ + "/"@ + "b.txt"@);
    assert("sub"@ + "/"@ + "b.txt"@ == "sub/b.txt"@);
    paths::stored_path_has_place(one);
    paths::stored_path_has_place(two);
    assert(one.len() == 1 && two.len() == 2);
}

/// The archive of the two files passes the third probe.
proof fn sample_pack_passes(a: MemberModel, b: MemberModel)
    requires
        packing::packs(a, "a.txt"@, alpha_sample(), 3, 1),
        packing::packs(b, "sub/b.txt"@, beta_sample(), 3, 1),
    ensures
        pack_verdict(Ok::<Seq<u8>, Failure>(pack::pack_bytes(3, seq![a, b]))) is None,
{
    let members = seq![a, b];
    let data = seq![alpha_sample(), beta_sample()];
    let taken = restore::nothing_taken();
    sample_places();
    assert forall|k: int| 0 <= k < members.len() implies packing::holds(
        #[trigger] members[k],
        data[k],
    ) && restore::restorable(probe_opts(), members[k].path) && member::storable(members[k]) by {
        if k == 0 {
            assert(members[k] == a);
        } else {
            assert(members[k] == b);
        }
    }
    restore::packed_files_unpack(3, members, data, probe_opts(), taken, restore::not_shown());
    let files = restore::files_from(members, data, probe_opts(), taken, 0);
    let first = Written { target: alpha_target(), contents: alpha_sample() };
    let second = Written { target: beta_target(), contents: beta_sample() };
    let none = restore::files_from(members, data, probe_opts(), taken, 2);
    let late = restore::files_from(members, data, probe_opts(), taken, 1);
    assert(none == Seq::<Written>::empty());
    assert(late == seq![second] + none);
    assert(files == seq![first] + late);
    assert(files.drop_last() == seq![first]);
    assert(files.last() == second);
    assert(held(files, beta_target()) == Some(beta_sample()));
    assert(held(seq![first], alpha_target()) == Some(alpha_sample()));
}

/// Packs two files and unpacks them again.
pub fn pack_probe() -> (r: Result<(), Error>)
    ensures
        pack_probed(probe_fault(r)),
        encoder_decides(probe_fault(r), "writing to zstd encoder"@),
{
    let alpha: &[u8] = "alpha alpha alpha".as_bytes();
    let beta: &[u8] = "beta beta beta".as_bytes();
    let mut files: Vec<PackInput> = Vec::new();
    files.push(PackInput { path: "a.txt".to_owned(), data: vstd::slice::slice_to_vec(alpha) });
    files.push(PackInput { path: "sub/b.txt".to_owned(), data: vstd::slice::slice_to_vec(beta) });
    let mut archive: Vec<u8> = Vec::new();
    let ghost none = archive@;
    let outcome: Result<PackStats, Error> = pack_files(
        &files,
        3,
        1,
        "memory",
        "memory",
        &mut archive,
    );
    let ghost given = files@;
    assert(given[0].path@ == "a.txt"@ && given[0].data@ == alpha_sample());
    assert(given[1].path@ == "sub/b.txt"@ && given[1].data@ == beta_sample());
    match outcome {
        Ok(_) => {
            proof {
                assert(forall|c: Seq<u8>| #[trigger] (none + c) == c);
                let ms = choose|ms: Seq<MemberModel>|
                    #[trigger] packing::all_packed(ms, given, 3, 1) && archive@
                        == pack::pack_bytes(3, ms);
                assert(packing::packs(ms[0], given[0].path@, given[0].data@, 3, 1));
                assert(packing::packs(ms[1], given[1].path@, given[1].data@, 3, 1));
                assert(ms == seq![ms[0], ms[1]]);
                sample_pack_passes(ms[0], ms[1]);
                assert(packing_of_samples(Ok::<Seq<u8>, Failure>(archive@)));
            }
            check_pack(Ok(archive))
        },
        Err(e) => {
            proof {
                samples_fit(given);
                assert(packing_of_samples(Err::<Seq<u8>, Failure>(e@)));
            }
            check_pack(Err(e))
        },
    }
}

/// Neither paths nor sizes keep the two files from being packed.
proof fn samples_fit(files: Seq<PackInput>)
    requires
        files.len() == 2,
        files[0].path@ == "a.txt"@,
        files[1].path@ == "sub/b.txt"@,
        files[0].data@ == alpha_sample(),
        files[1].data@ == beta_sample(),
    ensures
        packing::data_total(files) <= u64::MAX,
        forall|ms: Seq<MemberModel>| #[trigger]
            packing::all_packed(ms, files, 3, 1) ==> packing::fitting(ms) == ms.len(),
{
    sample_places();
    packing::encoded_length("alpha alpha alpha"@);
    packing::encoded_length("beta beta beta"@);
    reveal_strlit("alpha alpha alpha");
    reveal_strlit("beta beta beta");
    reveal_with_fuel(packing::data_total, 3);
    assert forall|ms: Seq<MemberModel>| #[trigger]
        packing::all_packed(ms, files, 3, 1) implies packing::fitting(ms) == ms.len() by {
        assert forall|i: int| 0 <= i < ms.len() implies packing::path_fits(
            (#[trigger] ms[i]).path,
        ) by {
            assert(packing::packs(ms[i], files[i].path@, files[i].data@, 3, 1));
        }
        packing::fitting_all(ms);
    }
}

/// Run in-memory round-trip checks to confirm that zstd and the container
/// formats work. A check can fail only in the encoder.
pub fn doctor() -> (report: DoctorReport)
    ensures
        exists|zstd: Option<Failure>, v2: Option<Failure>, v3: Option<Failure>|
            {
                &&& #[trigger] reports(report, zstd, v2, v3)
                &&& zstd_probed(zstd) && encoder_decides(zstd, "writing to zstd encoder"@)
                &&& container_probed(v2) && encoder_decides(v2, "compressing data"@)
                &&& pack_probed(v3) && encoder_decides(v3, "writing to zstd encoder"@)
            },
{
    let zstd: Result<(), Error> = zstd_probe();
    let container_v2: Result<(), Error> = container_probe();
    let pack_v3: Result<(), Error> = pack_probe();
    doctor_report(&zstd, &container_v2, &pack_v3)
}

/// The report is good exactly if all three probes are, and says so; it has a
/// line on each probe, in order.
pub proof fn report_is_good_if_all_are(
    report: DoctorReport,
    zstd: Option<Failure>,
    v2: Option<Failure>,
    v3: Option<Failure>,
)
    requires
        reports(report, zstd, v2, v3),
    ensures
        report.ok <==> report.zstd_roundtrip && report.container_v2_roundtrip
            && report.pack_v3_roundtrip,
        report.zstd_roundtrip <==> zstd is None,
        report.container_v2_roundtrip <==> v2 is None,
        report.pack_v3_roundtrip <==> v3 is None,
        report.ok ==> report.messages@.len() == 4 && report.messages@[3]@ == "all checks passed"@,
        !report.ok ==> report.messages@.len() == 3,
        report.messages@[0]@ == match zstd {
            None => "zstd roundtrip: ok"@,
            Some(f) => "zstd roundtrip: FAIL ("@ + f.text + ")"@,
        },
        report.messages@[1]@ == match v2 {
            None => "container v2 roundtrip: ok"@,
            Some(f) => "container v2 roundtrip: FAIL ("@ + f.text + ")"@,
        },
        report.messages@[2]@ == match v3 {
            None => "pack v3 roundtrip: ok"@,
            Some(f) => "pack v3 roundtrip: FAIL ("@ + f.text + ")"@,
        },
{
    let shown = text::texts(report.messages@);
    assert(shown.len() == report.messages@.len());
    assert(shown[0] == report.messages@[0]@);
    assert(shown[1] == report.messages@[1]@);
    assert(shown[2] == report.messages@[2]@);
    if report.ok {
        assert(shown[3] == report.messages@[3]@);
    }
    reveal_strlit("zstd");
    reveal_strlit("container v2");
    reveal_strlit("pack v3");
    reveal_strlit(" roundtrip: ok");
    reveal_strlit(" roundtrip: FAIL (");
    reveal_strlit("zstd roundtrip: ok");
    reveal_strlit("zstd roundtrip: FAIL (");
    reveal_strlit("container v2 roundtrip: ok");
    reveal_strlit("container v2 roundtrip: FAIL (");
    reveal_strlit("pack v3 roundtrip: ok");
    reveal_strlit("pack v3 roundtrip: FAIL (");
    assert("zstd"@ + " roundtrip: ok"@ == "zstd roundtrip: ok"@);
    assert("zstd"@ + " roundtrip: FAIL ("@ == "zstd roundtrip: FAIL ("@);
    assert("container v2"@ + " roundtrip: ok"@ == "container v2 roundtrip: ok"@);
    assert("container v2"@ + " roundtrip: FAIL ("@ == "container v2 roundtrip: FAIL ("@);
    assert("pack v3"@ + " roundtrip: ok"@ == "pack v3 roundtrip: ok"@);
    assert("pack v3"@ + " roundtrip: FAIL ("@ == "pack v3 roundtrip: FAIL ("@);
}

/// The first two probes pass exactly if what they compressed comes back
/// unchanged.
pub proof fn probes_pass_on_what_comes_back(made: Seq<u8>)
    ensures
        zstd_verdict(Ok(made)) is None <==> codec::decodes_to(made, Seq::empty(), zstd_sample()),
        container_verdict(Ok(made)) is None <==> container::restored(made, Seq::empty()) == Ok::<
            Seq<u8>,
            Failure,
        >(container_sample()),
{
}

/// The third probe passes exactly if both files are unpacked, and what was
/// written last under each name is what was packed.
pub proof fn pack_probe_passes_on_what_comes_back(made: Seq<u8>)
    ensures
        pack_verdict(Ok(made)) is None <==> (restore::in_memory(made, probe_opts()) matches Ok(
            files,
        ) && held(files, seq!["a.txt"@]) == Some(vstd::utf8::encode_utf8("alpha alpha alpha"@))
            && held(files, seq!["sub"@, "b.txt"@]) == Some(
            vstd::utf8::encode_utf8("beta beta beta"@),
        )),
{
}

/// What a destination holds is what was written to it last.
pub proof fn last_write_is_held(files: Seq<Written>, k: int)
    requires
        0 <= k < files.len(),
        forall|j: int| k < j < files.len() ==> (#[trigger] files[j]).target != files[k].target,
    ensures
        held(files, files[k].target) == Some(files[k].contents),
    decreases files.len(),
{
    assert(files[files.len() - 1] == files.last());
    if k < files.len() - 1 {
        let init = files.drop_last();
        assert forall|j: int| k < j < init.len() implies (#[trigger] init[j]).target
            != init[k].target by {
            assert(init[j] == files[j]);
        }
        last_write_is_held(init, k);
    }
}

/// A probe that could not make its data fails with that failure.
pub proof fn failed_making_fails_the_probe(fault: Failure)
    ensures
        zstd_verdict(Err(fault)) == Some(fault),
        container_verdict(Err(fault)) == Some(fault),
        pack_verdict(Err(fault)) == Some(fault),
{
}

} // verus!
