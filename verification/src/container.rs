//! Single-file containers: a header and a zstd frame.

use vstd::prelude::*;

use crate::bytes;
use crate::codec;
use crate::codec::{sha256, zstd_compress, zstd_decompress};
use crate::error::{error, Error, ErrorKind, Failure};
use crate::header;
use crate::header::{read_header, write_header_v2, Header, HeaderModel};
use crate::text;

verus! {

/// The version 2 container of `data` around `frame`.
pub open spec fn container_bytes(data: Seq<u8>, level: i32, frame: Seq<u8>) -> Seq<u8> {
    header::header_bytes(
        header::v2_header(level, data.len() as u64, codec::sha256_digest(data)),
    ) + frame
}

/// Appends the version 2 header for `data`, then the frame if there is one.
/// Without a frame, its error is handed on.
pub fn put_container(
    data: &[u8],
    out: &mut Vec<u8>,
    level: i32,
    frame: Result<Vec<u8>, Error>,
) -> (r: Result<u64, Error>)
    ensures
        match frame {
            Ok(f) => r == Ok::<u64, Error>(data@.len() as u64) && final(out)@ == old(out)@
                + container_bytes(data@, level, f@),
            Err(e) => r == Err::<u64, Error>(e) && final(out)@ == old(out)@ + container_bytes(
                data@,
                level,
                Seq::empty(),
            ),
        },
        codec::sha256_digest(data@).len() == codec::HASH_LEN,
{
    let original_len: u64 = data.len() as u64;
    let written: Result<(), Error> = write_header_v2(out, level, original_len, sha256(data));
    assert(written is Ok);
    assert(out@ == old(out)@ + container_bytes(data@, level, Seq::empty()));
    match frame {
        Ok(f) => {
            bytes::push_all(out, f.as_slice());
            assert(out@ == old(out)@ + container_bytes(data@, level, f@));
            Ok(original_len)
        },
        Err(e) => Err(e),
    }
}

/// Compress an in-memory buffer into a version 2 container, with a dictionary
/// that reading it back will need. An empty dictionary is the same as none.
pub fn compress_bytes_dict(
    data: &[u8],
    out: &mut Vec<u8>,
    level: i32,
    threads: u32,
    dictionary: &[u8],
) -> (r: Result<u64, Error>)
    ensures
        match r {
            Ok(n) => n == data@.len() && exists|frame: Seq<u8>|
                {
                    &&& #[trigger] codec::framed(
                        data@,
                        level,
                        threads,
                        dictionary@,
                        frame,
                    )
                    &&& final(out)@ == old(out)@ + container_bytes(data@, level, frame)
                    &&& restored(container_bytes(data@, level, frame), dictionary@) == Ok::<
                        Seq<u8>,
                        Failure,
                    >(data@)
                },
            Err(e) => codec::encoder_failed(level, threads, "compressing data"@, e@)
                && final(out)@ == old(out)@ + container_bytes(data@, level, Seq::empty()),
        },
{
    let frame: Result<Vec<u8>, Error> = zstd_compress(
        data,
        level,
        threads,
        dictionary,
        "compressing data",
    );
    let ghost made = codec::bytes_result(frame);
    let r: Result<u64, Error> = put_container(data, out, level, frame);
    proof {
        if let Ok(f) = made {
            assert(data@.len() == data.len());
            container_round_trip(data@, level, f, dictionary@);
        }
    }
    r
}

/// Compress an in-memory buffer into a version 2 container.
pub fn compress_bytes(data: &[u8], out: &mut Vec<u8>, level: i32, threads: u32) -> (r: Result<
    u64,
    Error,
>)
    ensures
        match r {
            Ok(n) => n == data@.len() && exists|frame: Seq<u8>|
                {
                    &&& #[trigger] codec::framed(
                        data@,
                        level,
                        threads,
                        Seq::empty(),
                        frame,
                    )
                    &&& final(out)@ == old(out)@ + container_bytes(data@, level, frame)
                    &&& restored(container_bytes(data@, level, frame), Seq::empty()) == Ok::<
                        Seq<u8>,
                        Failure,
                    >(data@)
                },
            Err(e) => codec::encoder_failed(level, threads, "compressing data"@, e@)
                && final(out)@ == old(out)@ + container_bytes(data@, level, Seq::empty()),
        },
{
    let none: Vec<u8> = Vec::new();
    assert(none@ == Seq::<u8>::empty());
    compress_bytes_dict(data, out, level, threads, none.as_slice())
}

/// Why `plain` is not the payload that `h` describes.
pub open spec fn payload_fault(h: HeaderModel, plain: Seq<u8>) -> Option<Failure> {
    if plain.len() != h.original_len {
        Some(
            Failure {
                kind: ErrorKind::SizeMismatch,
                text: "decompressed size mismatch: expected "@ + text::decimal(
                    h.original_len as nat,
                ) + ", wrote "@ + text::decimal(plain.len()),
            },
        )
    } else {
        match h.checksum {
            Some(expected) if expected != codec::sha256_digest(plain) => Some(
                Failure {
                    kind: ErrorKind::ChecksumMismatch,
                    text: "checksum mismatch: expected "@ + codec::hex_of(expected) + ", got "@
                        + codec::hex_of(codec::sha256_digest(plain)),
                },
            ),
            _ => None,
        }
    }
}

/// Checks decompressed data against the size and the checksum in the header.
pub fn check_payload(header: &Header, plain: &[u8]) -> (r: Result<u64, Error>)
    ensures
        match payload_fault(header@, plain@) {
            None => r == Ok::<u64, Error>(plain@.len() as u64),
            Some(fault) => r matches Err(e) && e@ == fault,
        },
{
    let written: u64 = plain.len() as u64;
    if written != header.original_len {
        return Err(
            error(
                ErrorKind::SizeMismatch,
                "decompressed size mismatch: expected ".to_owned().concat(
                    text::decimal_text(header.original_len).as_str(),
                ).concat(", wrote ").concat(text::decimal_text(written).as_str()),
            ),
        );
    }
    match &header.checksum {
        Some(expected) => {
            let actual: [u8; 32] = sha256(plain);
            if !bytes::same_bytes(expected.as_slice(), actual.as_slice()) {
                return Err(
                    error(
                        ErrorKind::ChecksumMismatch,
                        "checksum mismatch: expected ".to_owned().concat(
                            codec::hex_text(expected.as_slice()).as_str(),
                        ).concat(", got ").concat(codec::hex_text(actual.as_slice()).as_str()),
                    ),
                );
            }
        },
        None => {},
    }
    Ok(written)
}

/// The frame part of a container with header `h`.
pub open spec fn frame_part(container: Seq<u8>, h: HeaderModel) -> Seq<u8> {
    container.skip((17 + header::checksum_field(h).len()) as int)
}

/// What the frame part of a container decodes to.
pub open spec fn unframed(container: Seq<u8>, h: HeaderModel, dictionary: Seq<u8>) -> Result<
    Seq<u8>,
    Failure,
> {
    codec::decoded(frame_part(container, h), dictionary, "decompressing data"@)
}

/// What a single-file container holds.
pub open spec fn restored(container: Seq<u8>, dictionary: Seq<u8>) -> Result<Seq<u8>, Failure> {
    match header::parsed_header(container) {
        Err(fault) => Err(fault),
        Ok(h) => match unframed(container, h, dictionary) {
            Err(fault) => Err(fault),
            Ok(plain) => match payload_fault(h, plain) {
                Some(fault) => Err(fault),
                None => Ok(plain),
            },
        },
    }
}

/// What decompressing a container writes, which includes data that then turns
/// out not to match the header.
pub open spec fn written_by(container: Seq<u8>, dictionary: Seq<u8>) -> Seq<u8> {
    match header::parsed_header(container) {
        Err(_) => Seq::empty(),
        Ok(h) => match unframed(container, h, dictionary) {
            Err(_) => Seq::empty(),
            Ok(plain) => plain,
        },
    }
}

/// Decompress a single-file container, appending its contents to `out` and
/// then checking their size and checksum. Returns the number of bytes written.
pub fn decompress_reader_dict(container: &[u8], out: &mut Vec<u8>, dictionary: &[u8]) -> (r: Result<
    u64,
    Error,
>)
    ensures
        match restored(container@, dictionary@) {
            Ok(plain) => r == Ok::<u64, Error>(plain.len() as u64) && plain.len() <= u64::MAX,
            Err(fault) => r matches Err(e) && e@ == fault,
        },
        final(out)@ == old(out)@ + written_by(container@, dictionary@),
{
    let header: Header = match read_header(container) {
        Ok(header) => header,
        Err(e) => {
            assert(out@ == old(out)@ + Seq::<u8>::empty());
            return Err(e);
        },
    };
    let start: usize = header.encoded_len();
    let total: usize = container.len();
    let frames: &[u8] = vstd::slice::slice_subrange(container, start, total);
    assert(frames@ == frame_part(container@, header@));
    let plain: Vec<u8> = match zstd_decompress(frames, dictionary, "decompressing data") {
        Ok(plain) => plain,
        Err(e) => {
            assert(out@ == old(out)@ + Seq::<u8>::empty());
            return Err(e);
        },
    };
    bytes::push_all(out, plain.as_slice());
    check_payload(&header, plain.as_slice())
}

/// Decompress a single-file container made without a dictionary.
pub fn decompress_reader(container: &[u8], out: &mut Vec<u8>) -> (r: Result<u64, Error>)
    ensures
        match restored(container@, Seq::empty()) {
            Ok(plain) => r == Ok::<u64, Error>(plain.len() as u64) && plain.len() <= u64::MAX,
            Err(fault) => r matches Err(e) && e@ == fault,
        },
        final(out)@ == old(out)@ + written_by(container@, Seq::empty()),
{
    let none: Vec<u8> = Vec::new();
    assert(none@ == Seq::<u8>::empty());
    decompress_reader_dict(container, out, none.as_slice())
}

/// Discards data but counts the bytes written.
#[derive(Debug)]
pub struct CountingSink {
    pub bytes: u64,
}

impl Default for CountingSink {
    fn default() -> (sink: Self)
        ensures
            sink.bytes == 0,
    {
        CountingSink { bytes: 0 }
    }
}

impl CountingSink {
    /// Counts `buf` and drops it.
    pub fn write(&mut self, buf: &[u8]) -> (n: usize)
        requires
            old(self).bytes + buf@.len() <= u64::MAX,
        ensures
            n == buf@.len(),
            final(self).bytes == old(self).bytes + buf@.len(),
    {
        self.bytes = self.bytes + buf.len() as u64;
        buf.len()
    }
}

/// Estimate of a compressed size, without any output written.
#[derive(Debug)]
pub struct DryRunStats {
    pub input_bytes: u64,
    pub estimated_compressed_bytes: u64,
    pub input_path: String,
}

/// The estimate that a frame of `data` gives: the size of the container around
/// it. Without a frame, its error is handed on.
pub fn estimate(data: &[u8], level: i32, frame: Result<Vec<u8>, Error>) -> (r: Result<
    DryRunStats,
    Error,
>)
    ensures
        match frame {
            Ok(f) => {
                &&& r matches Ok(stats)
                &&& stats.input_bytes == data@.len()
                &&& stats.estimated_compressed_bytes == container_bytes(data@, level, f@).len()
                &&& stats.input_path@ == "<memory>"@
            },
            Err(e) => r == Err::<DryRunStats, Error>(e),
        },
{
    let mut out: Vec<u8> = Vec::new();
    let ghost before = out@;
    match put_container(data, &mut out, level, frame) {
        Ok(input_bytes) => {
            assert(data@.len() == data.len());
            assert(out@.len() == out.len());
            let mut sink: CountingSink = CountingSink::default();
            sink.write(out.as_slice());
            assert(forall|c: Seq<u8>| #[trigger] (before + c) == c);
            Ok(
                DryRunStats {
                    input_bytes,
                    estimated_compressed_bytes: sink.bytes,
                    input_path: "<memory>".to_owned(),
                },
            )
        },
        Err(e) => Err(e),
    }
}

/// Estimate the compressed size of `data` with a dictionary.
pub fn compress_bytes_dry_run_dict(data: &[u8], level: i32, threads: u32, dictionary: &[u8]) -> (r:
    Result<DryRunStats, Error>)
    ensures
        match r {
            Ok(stats) => {
                &&& stats.input_bytes == data@.len()
                &&& stats.input_path@ == "<memory>"@
                &&& exists|frame: Seq<u8>|
                    {
                        &&& #[trigger] codec::framed(data@, level, threads, dictionary@, frame)
                        &&& stats.estimated_compressed_bytes == container_bytes(
                            data@,
                            level,
                            frame,
                        ).len()
                    }
            },
            Err(e) => codec::encoder_failed(level, threads, "compressing data"@, e@),
        },
{
    estimate(
        data,
        level,
        zstd_compress(data, level, threads, dictionary, "compressing data"),
    )
}

/// Estimate the compressed size of `data`.
pub fn compress_bytes_dry_run(data: &[u8], level: i32, threads: u32) -> (r: Result<
    DryRunStats,
    Error,
>)
    ensures
        match r {
            Ok(stats) => {
                &&& stats.input_bytes == data@.len()
                &&& stats.input_path@ == "<memory>"@
                &&& exists|frame: Seq<u8>|
                    {
                        &&& #[trigger] codec::framed(
                            data@,
                            level,
                            threads,
                            Seq::empty(),
                            frame,
                        )
                        &&& stats.estimated_compressed_bytes == container_bytes(
                            data@,
                            level,
                            frame,
                        ).len()
                    }
            },
            Err(e) => codec::encoder_failed(level, threads, "compressing data"@, e@),
        },
{
    let none: Vec<u8> = Vec::new();
    assert(none@ == Seq::<u8>::empty());
    compress_bytes_dry_run_dict(data, level, threads, none.as_slice())
}

/// An estimate is the size of what compressing writes, where the encoder picks
/// a frame of the same length both times: 49 bytes more than the frame.
pub proof fn estimate_is_exact(data: Seq<u8>, level: i32, estimated: Seq<u8>, picked: Seq<u8>)
    requires
        codec::sha256_digest(data).len() == codec::HASH_LEN,
        estimated.len() == picked.len(),
    ensures
        container_bytes(data, level, estimated).len() == 49 + estimated.len(),
        container_bytes(data, level, estimated).len() == container_bytes(
            data,
            level,
            picked,
        ).len(),
{
    let h = header::v2_header(level, data.len() as u64, codec::sha256_digest(data));
    header::header_round_trip(h, Seq::empty());
}

/// On one thread and for less than a block of data, the estimate of a dry run
/// is the size of what a run writes: whichever frames the two make, the
/// containers around them are the same.
pub proof fn dry_run_is_exact(
    data: Seq<u8>,
    level: i32,
    threads: u32,
    estimated: Seq<u8>,
    written: Seq<u8>,
)
    requires
        threads <= 1,
        data.len() < codec::FULL_BLOCK,
        codec::framed(data, level, threads, Seq::empty(), estimated),
        codec::framed(data, level, threads, Seq::empty(), written),
    ensures
        container_bytes(data, level, estimated) == container_bytes(data, level, written),
{
}

/// A version 2 container around a frame that decodes to `data` gives `data`
/// back.
pub proof fn container_round_trip(data: Seq<u8>, level: i32, frame: Seq<u8>, dictionary: Seq<u8>)
    requires
        data.len() <= u64::MAX,
        codec::decodes_to(frame, dictionary, data),
        codec::sha256_digest(data).len() == 32,
    ensures
        restored(container_bytes(data, level, frame), dictionary) == Ok::<Seq<u8>, Failure>(data),
{
    let h = header::v2_header(level, data.len() as u64, codec::sha256_digest(data));
    let container = container_bytes(data, level, frame);
    header::header_round_trip(h, frame);
    assert(frame_part(container, h) == frame);
}

/// A version 1 container, which has no checksum, around a frame that decodes
/// to `data` gives `data` back.
pub proof fn v1_round_trip(data: Seq<u8>, level: i32, frame: Seq<u8>, dictionary: Seq<u8>)
    requires
        data.len() <= u64::MAX,
        codec::decodes_to(frame, dictionary, data),
    ensures
        restored(
            header::header_bytes(
                HeaderModel {
                    version: header::VERSION_V1,
                    level,
                    original_len: data.len() as u64,
                    checksum: None,
                },
            ) + frame,
            dictionary,
        ) == Ok::<Seq<u8>, Failure>(data),
{
    let h = HeaderModel {
        version: header::VERSION_V1,
        level,
        original_len: data.len() as u64,
        checksum: None,
    };
    header::header_round_trip(h, frame);
    assert(frame_part(header::header_bytes(h) + frame, h) == frame);
}

/// Whatever comes out of a container has the recorded size and, where the
/// container has a checksum, the recorded SHA-256.
pub proof fn restored_is_intact(container: Seq<u8>, dictionary: Seq<u8>)
    requires
        restored(container, dictionary) is Ok,
    ensures
        header::parsed_header(container) is Ok,
        restored(container, dictionary)->Ok_0.len() == header::parsed_header(
            container,
        )->Ok_0.original_len,
        header::parsed_header(container)->Ok_0.checksum matches Some(hash) ==> hash
            == codec::sha256_digest(restored(container, dictionary)->Ok_0),
        restored(container, dictionary)->Ok_0 == written_by(container, dictionary),
{
}

/// A container whose recorded checksum is not that of its payload fails with a
/// checksum mismatch.
pub proof fn tampered_checksum_fails(
    h: HeaderModel,
    frame: Seq<u8>,
    dictionary: Seq<u8>,
    plain: Seq<u8>,
)
    requires
        h.version == header::VERSION,
        h.checksum matches Some(hash) && hash.len() == 32 && hash != codec::sha256_digest(plain),
        h.original_len == plain.len(),
        codec::decodes_to(frame, dictionary, plain),
    ensures
        restored(header::header_bytes(h) + frame, dictionary) matches Err(fault) && fault.kind
            == ErrorKind::ChecksumMismatch,
{
    header::header_round_trip(h, frame);
    assert(frame_part(header::header_bytes(h) + frame, h) == frame);
}

/// A container whose recorded size is not that of its payload fails with a
/// size mismatch.
pub proof fn wrong_size_fails(
    h: HeaderModel,
    frame: Seq<u8>,
    dictionary: Seq<u8>,
    plain: Seq<u8>,
)
    requires
        header::header_fault(h) is None,
        h.version == header::VERSION_V1 || h.version == header::VERSION,
        h.checksum matches Some(hash) ==> hash.len() == 32,
        h.original_len != plain.len(),
        codec::decodes_to(frame, dictionary, plain),
    ensures
        restored(header::header_bytes(h) + frame, dictionary) matches Err(fault) && fault.kind
            == ErrorKind::SizeMismatch,
{
    header::header_round_trip(h, frame);
    assert(frame_part(header::header_bytes(h) + frame, h) == frame);
}

/// Data that turns out not to be what the header records has been written all
/// the same.
pub proof fn mismatched_data_is_written(
    h: HeaderModel,
    frame: Seq<u8>,
    dictionary: Seq<u8>,
    plain: Seq<u8>,
)
    requires
        header::header_fault(h) is None,
        h.version == header::VERSION_V1 || h.version == header::VERSION,
        h.checksum matches Some(hash) ==> hash.len() == 32,
        codec::decodes_to(frame, dictionary, plain),
    ensures
        written_by(header::header_bytes(h) + frame, dictionary) == plain,
        restored(header::header_bytes(h) + frame, dictionary) is Ok <==> plain.len()
            == h.original_len && (h.checksum matches Some(hash) ==> hash == codec::sha256_digest(
            plain,
        )),
{
    header::header_round_trip(h, frame);
    assert(frame_part(header::header_bytes(h) + frame, h) == frame);
}

/// A frame that does not decode restores and writes nothing.
pub proof fn undecodable_frame_fails(h: HeaderModel, frame: Seq<u8>, dictionary: Seq<u8>)
    requires
        header::header_fault(h) is None,
        h.version == header::VERSION_V1 || h.version == header::VERSION,
        h.checksum matches Some(hash) ==> hash.len() == 32,
        codec::zstd_plain(frame, dictionary) is Err,
    ensures
        restored(header::header_bytes(h) + frame, dictionary) matches Err(fault) && fault.kind
            == ErrorKind::Codec,
        written_by(header::header_bytes(h) + frame, dictionary).len() == 0,
{
    header::header_round_trip(h, frame);
    assert(frame_part(header::header_bytes(h) + frame, h) == frame);
}

/// A container is its header, of version 2 with the level, the size and the
/// SHA-256 of the data, and the frame behind it.
pub proof fn container_layout(data: Seq<u8>, level: i32, frame: Seq<u8>)
    requires
        data.len() <= u64::MAX,
        codec::sha256_digest(data).len() == codec::HASH_LEN,
    ensures
        ({
            let b = container_bytes(data, level, frame);
            &&& b[4] == 2
            &&& b.subrange(17, 49) == codec::sha256_digest(data)
            &&& b.skip(49) == frame
            &&& header::parsed_header(b) matches Ok(h)
            &&& h.level == level
            &&& h.original_len == data.len()
        }),
{
    let h = header::v2_header(level, data.len() as u64, codec::sha256_digest(data));
    let b = container_bytes(data, level, frame);
    header::header_round_trip(h, frame);
    header::header_layout(h);
    assert(b.subrange(17, 49) == header::header_bytes(h).skip(17));
    assert(b.skip(49) == frame);
}

} // verus!
