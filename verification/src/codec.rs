//! The outside codecs: zstd frames, SHA-256, hexadecimal text and UTF-8.

use std::io::Read;
use std::io::Write;

use sha2::Digest;
use vstd::prelude::*;

use crate::error::{error, Error, ErrorKind, Failure};
use crate::text;

verus! {

/// Length of a SHA-256 digest in bytes.
pub const HASH_LEN: usize = 32;

/// The SHA-256 digest of `data`.
pub uninterp spec fn sha256_digest(data: Seq<u8>) -> Seq<u8>;

/// Compute SHA-256 of `data`.
///
/// Calls `sha2::Sha256`: `new`, one `update` with all of `data`, `finalize`.
/// The contract says that the digest depends on `data` alone.
#[verifier::external_body]
pub fn sha256(data: &[u8]) -> (digest: [u8; HASH_LEN])
    ensures
        digest@ == sha256_digest(data@),
{
    let mut hasher = sha2::Sha256::new();
    hasher.update(data);
    hasher.finalize().into()
}

/// The hexadecimal digit of `d`, with small letters.
pub open spec fn hex_digit(d: int) -> char {
    if d < 10 {
        (48 + d) as char
    } else {
        (87 + d) as char
    }
}

/// Two hexadecimal digits for each byte, the high one first.
pub open spec fn hex_of(data: Seq<u8>) -> Seq<char> {
    Seq::new(
        2 * data.len(),
        |i: int|
            if i % 2 == 0 {
                hex_digit(data[i / 2] as int / 16)
            } else {
                hex_digit(data[i / 2] as int % 16)
            },
    )
}

/// Calls `hex::encode`, which writes two small hexadecimal digits for each
/// byte.
#[verifier::external_body]
pub(crate) fn hex_text(data: &[u8]) -> (out: String)
    ensures
        out@ == hex_of(data@),
{
    hex::encode(data)
}

/// What std says of bytes that are not UTF-8: where they stop to be.
pub uninterp spec fn utf8_fault(data: Seq<u8>) -> Seq<char>;

/// Calls `String::from_utf8`, which succeeds on valid UTF-8 and then holds the
/// characters that the bytes encode. The contract says that the message on other
/// bytes depends on them alone.
#[verifier::external_body]
pub(crate) fn utf8_text(data: Vec<u8>) -> (out: Result<String, String>)
    ensures
        match out {
            Ok(s) => vstd::utf8::valid_utf8(data@) && s@ == vstd::utf8::decode_utf8(data@),
            Err(message) => !vstd::utf8::valid_utf8(data@) && message@ == utf8_fault(data@),
        },
{
    String::from_utf8(data).map_err(|e| e.to_string())
}

/// The text that a lossy UTF-8 decoding makes of `data`.
pub uninterp spec fn lossy_text(data: Seq<u8>) -> Seq<char>;

/// Calls `String::from_utf8_lossy`, which replaces what is not UTF-8 and
/// leaves valid UTF-8 as it is.
#[verifier::external_body]
pub(crate) fn decode_lossy(data: &[u8]) -> (out: String)
    ensures
        out@ == lossy_text(data@),
        vstd::utf8::valid_utf8(data@) ==> out@ == vstd::utf8::decode_utf8(data@),
{
    String::from_utf8_lossy(data).into_owned()
}

/// What decoding `frames` with `dictionary` gives: the concatenated contents of
/// all zstd frames in `frames`, or the decoder's message.
pub uninterp spec fn zstd_plain(frames: Seq<u8>, dictionary: Seq<u8>) -> Result<
    Seq<u8>,
    Seq<char>,
>;

/// The views of a codec call's result.
pub open spec fn outcome(r: Result<Vec<u8>, String>) -> Result<Seq<u8>, Seq<char>> {
    match r {
        Ok(data) => Ok(data@),
        Err(message) => Err(message@),
    }
}

/// `frames` decode to `plain` with `dictionary`.
pub open spec fn decodes_to(frames: Seq<u8>, dictionary: Seq<u8>, plain: Seq<u8>) -> bool {
    zstd_plain(frames, dictionary) == Ok::<Seq<u8>, Seq<char>>(plain)
}

/// Whether the zstd encoder, set to `level`, `workers` and `dictionary`, may
/// turn `data` into `frame`. The encoder's choice of matches is its own, so
/// several frames may qualify.
pub uninterp spec fn zstd_frame_of(
    data: Seq<u8>,
    level: i32,
    workers: u32,
    dictionary: Seq<u8>,
    frame: Seq<u8>,
) -> bool;

/// The size of a full zstd block. Where a longer input is split depends on the
/// byte order of the machine.
pub const FULL_BLOCK: usize = 131_072;

/// The frame that the zstd encoder, set to `level`, makes of less than a block
/// of `data` on its own thread and without a dictionary.
pub open spec fn lone_frame(data: Seq<u8>, level: i32) -> Seq<u8> {
    choose|frame: Seq<u8>| zstd_frame_of(data, level, 0, Seq::empty(), frame)
}

/// Calls `zstd::stream::read::Decoder::with_dictionary` on `frames` and reads
/// to the end. An empty dictionary is the same as none. The contract says that
/// the outcome depends on the bytes and the dictionary alone, an exhausted
/// allocator aside.
#[verifier::external_body]
pub(crate) fn zstd_decode(frames: &[u8], dictionary: &[u8]) -> (out: Result<Vec<u8>, String>)
    ensures
        outcome(out) == zstd_plain(frames@, dictionary@),
{
    let mut plain = Vec::new();
    zstd::stream::read::Decoder::with_dictionary(frames, dictionary)
        .and_then(|mut decoder| decoder.read_to_end(&mut plain))
        .map(|_| plain)
        .map_err(|e| e.to_string())
}

/// What the encoder reported, and when.
#[derive(Debug)]
pub enum EncodeError {
    /// It could not be set up.
    Create(String),
    /// It did not take the number of workers.
    Workers(String),
    /// It failed on the data.
    Write(String),
    /// It failed to end the frame.
    Finish(String),
}

/// The view of an [`EncodeError`].
pub enum EncodeFault {
    Create(Seq<char>),
    Workers(Seq<char>),
    Write(Seq<char>),
    Finish(Seq<char>),
}

impl View for EncodeError {
    type V = EncodeFault;

    open spec fn view(&self) -> EncodeFault {
        match self {
            EncodeError::Create(message) => EncodeFault::Create(message@),
            EncodeError::Workers(message) => EncodeFault::Workers(message@),
            EncodeError::Write(message) => EncodeFault::Write(message@),
            EncodeError::Finish(message) => EncodeFault::Finish(message@),
        }
    }
}

/// Calls `zstd::stream::write::Encoder::with_dictionary` over a vector, sets
/// `multithread(workers)`, writes all of `data` and finishes the frame. An
/// empty dictionary is the same as none, and `0` workers is the encoder's own
/// default. The contract says that decoding the frame with the same dictionary
/// gives `data` back, and that without workers and dictionary the frame of less
/// than a block depends on the data and the level alone: the encoder starts from
/// nothing, and makes a single block. It does not say when the encoder fails,
/// nor which of the frames that decode to `data` it picks otherwise. A failure
/// tells which of the four calls failed.
#[verifier::external_body]
pub(crate) fn zstd_encode(data: &[u8], level: i32, workers: u32, dictionary: &[u8]) -> (out: Result<
    Vec<u8>,
    EncodeError,
>)
    ensures
        out matches Ok(frame) ==> zstd_frame_of(data@, level, workers, dictionary@, frame@),
        out matches Ok(frame) ==> decodes_to(frame@, dictionary@, data@),
        out matches Ok(frame) ==> (workers == 0 && dictionary@.len() == 0 && data@.len()
            < FULL_BLOCK ==> frame@ == lone_frame(data@, level)),
{
    let mut encoder = zstd::stream::write::Encoder::with_dictionary(Vec::new(), level, dictionary)
        .map_err(|e| EncodeError::Create(e.to_string()))?;
    encoder.multithread(workers).map_err(|e| EncodeError::Workers(e.to_string()))?;
    encoder.write_all(data).map_err(|e| EncodeError::Write(e.to_string()))?;
    encoder.finish().map_err(|e| EncodeError::Finish(e.to_string()))
}

/// The worker count handed to the encoder: one thread needs no worker.
pub open spec fn workers_for(threads: u32) -> u32 {
    if threads > 1 {
        threads
    } else {
        0
    }
}

/// Whether compressing `data` with `threads` and `dictionary` may give `frame`.
pub open spec fn framed(
    data: Seq<u8>,
    level: i32,
    threads: u32,
    dictionary: Seq<u8>,
    frame: Seq<u8>,
) -> bool {
    &&& zstd_frame_of(data, level, workers_for(threads), dictionary, frame)
    &&& threads <= 1 && dictionary.len() == 0 && data.len() < FULL_BLOCK ==> frame == lone_frame(
        data,
        level,
    )
}

/// The failure of an encoder with these settings. `writing` is how handing it
/// the data is called.
pub open spec fn encode_failure(
    level: i32,
    workers: u32,
    writing: Seq<char>,
    fault: EncodeFault,
) -> Failure {
    Failure {
        kind: ErrorKind::Codec,
        text: match fault {
            EncodeFault::Create(message) => "creating zstd encoder at level "@
                + text::signed_decimal(level as int) + ": "@ + message,
            EncodeFault::Workers(message) => "enabling "@ + text::decimal(workers as nat)
                + " zstd worker threads: "@ + message,
            EncodeFault::Write(message) => writing + ": "@ + message,
            EncodeFault::Finish(message) => "finishing zstd frame: "@ + message,
        },
    }
}

/// Whether `failure` is one of the encoder with these settings.
pub open spec fn encoder_failed(
    level: i32,
    threads: u32,
    writing: Seq<char>,
    failure: Failure,
) -> bool {
    exists|fault: EncodeFault|
        failure == #[trigger] encode_failure(level, workers_for(threads), writing, fault)
}

/// The failure of a decoder that reported `message` while it was `doing`.
pub open spec fn decode_failure(doing: Seq<char>, message: Seq<char>) -> Failure {
    Failure { kind: ErrorKind::Codec, text: doing + ": "@ + message }
}

/// The contents of `frames`, or the failure to decode them.
pub open spec fn decoded(frames: Seq<u8>, dictionary: Seq<u8>, doing: Seq<char>) -> Result<
    Seq<u8>,
    Failure,
> {
    match zstd_plain(frames, dictionary) {
        Ok(plain) => Ok(plain),
        Err(message) => Err(decode_failure(doing, message)),
    }
}

/// The views of a result that holds bytes.
pub open spec fn bytes_result(r: Result<Vec<u8>, Error>) -> Result<Seq<u8>, Failure> {
    match r {
        Ok(data) => Ok(data@),
        Err(e) => Err(e@),
    }
}

/// The frame that the encoder made, or what it reported.
pub open spec fn made_frame(made: Result<Vec<u8>, EncodeError>) -> Result<Seq<u8>, EncodeFault> {
    match made {
        Ok(frame) => Ok(frame@),
        Err(e) => Err(e@),
    }
}

/// What the encoder made, its message put into an error.
pub fn encoded(
    made: Result<Vec<u8>, EncodeError>,
    level: i32,
    workers: u32,
    writing: &str,
) -> (out: Result<Vec<u8>, Error>)
    ensures
        bytes_result(out) == match made_frame(made) {
            Ok(frame) => Ok(frame),
            Err(fault) => Err(encode_failure(level, workers, writing@, fault)),
        },
{
    let shown: String = match made {
        Ok(frame) => {
            return Ok(frame);
        },
        Err(EncodeError::Create(message)) => "creating zstd encoder at level ".to_owned().concat(
            text::signed_decimal_text(level).as_str(),
        ).concat(": ").concat(message.as_str()),
        Err(EncodeError::Workers(message)) => "enabling ".to_owned().concat(
            text::decimal_text(workers as u64).as_str(),
        ).concat(" zstd worker threads: ").concat(message.as_str()),
        Err(EncodeError::Write(message)) => writing.to_owned().concat(": ").concat(
            message.as_str(),
        ),
        Err(EncodeError::Finish(message)) => "finishing zstd frame: ".to_owned().concat(
            message.as_str(),
        ),
    };
    Err(error(ErrorKind::Codec, shown))
}

/// Compress payload bytes with zstd only. `writing` is how errors call handing
/// the encoder the data.
pub fn zstd_compress(data: &[u8], level: i32, threads: u32, dictionary: &[u8], writing: &str) -> (
    out: Result<Vec<u8>, Error>)
    ensures
        match out {
            Ok(frame) => framed(data@, level, threads, dictionary@, frame@) && decodes_to(
                frame@,
                dictionary@,
                data@,
            ),
            Err(e) => encoder_failed(level, threads, writing@, e@),
        },
{
    let workers: u32 = if threads > 1 {
        threads
    } else {
        0
    };
    encoded(zstd_encode(data, level, workers, dictionary), level, workers, writing)
}

/// Compress payload bytes with zstd only, without a container header.
pub fn zstd_compress_raw(data: &[u8], level: i32, threads: u32, dictionary: &[u8]) -> (out: Result<
    Vec<u8>,
    Error,
>)
    ensures
        match out {
            Ok(frame) => framed(data@, level, threads, dictionary@, frame@) && decodes_to(
                frame@,
                dictionary@,
                data@,
            ),
            Err(e) => encoder_failed(level, threads, "writing to zstd encoder"@, e@),
        },
{
    zstd_compress(data, level, threads, dictionary, "writing to zstd encoder")
}

/// Decompress zstd frames into memory. An error says that it came while `doing`.
pub fn zstd_decompress(frames: &[u8], dictionary: &[u8], doing: &str) -> (out: Result<
    Vec<u8>,
    Error,
>)
    ensures
        bytes_result(out) == decoded(frames@, dictionary@, doing@),
{
    match zstd_decode(frames, dictionary) {
        Ok(plain) => Ok(plain),
        Err(message) => Err(
            error(ErrorKind::Codec, doing.to_owned().concat(": ").concat(message.as_str())),
        ),
    }
}

/// Decompress the raw zstd frames of a pack member into memory.
pub fn zstd_decompress_raw(frames: &[u8]) -> (out: Result<Vec<u8>, Error>)
    ensures
        bytes_result(out) == decoded(frames@, Seq::empty(), "decompressing zstd frame"@),
{
    let none: Vec<u8> = Vec::new();
    assert(none@ == Seq::<u8>::empty());
    zstd_decompress(frames, none.as_slice(), "decompressing zstd frame")
}

/// Several threads are handed on as workers; one thread, or none given, works
/// without.
pub proof fn one_thread_needs_no_worker(threads: u32)
    ensures
        threads <= 1 ==> workers_for(threads) == 0,
        threads > 1 ==> workers_for(threads) == threads,
{
}

} // verus!
