//! The error type of the library.

use vstd::prelude::*;

verus! {

/// What went wrong.
#[derive(Debug, Clone, Copy, PartialEq, Eq, Structural)]
pub enum ErrorKind {
    /// The data does not start with the container magic.
    InvalidMagic,
    /// The container version is none that the operation reads.
    UnsupportedVersion,
    /// A multi-file pack where a single-file container is needed.
    UnexpectedPack,
    /// The data ends in the middle of a fixed-size field.
    Truncated,
    /// A declared length exceeds what the data holds.
    DeclaredLength,
    /// A member path is longer than the format or the operation allows.
    PathTooLong,
    /// A member path is not UTF-8.
    NotUtf8,
    /// The version and the checksum of a header do not go together.
    HeaderFields,
    /// The zstd codec reported an error.
    Codec,
    /// Restored data has another length than recorded.
    SizeMismatch,
    /// Restored data has another SHA-256 than recorded.
    ChecksumMismatch,
    /// A pack member was asked for without naming it.
    MemberRequired,
    /// The archive has no such member.
    MemberNotFound,
    /// A path that may not be stored or extracted.
    InvalidPath,
    /// An output exists and may not be overwritten.
    AlreadyExists,
    /// An exclude glob is malformed.
    InvalidGlob,
    /// A search pattern is malformed.
    InvalidPattern,
    /// There is nothing to put into an archive.
    NothingToPack,
    /// More files than an archive can count.
    TooManyFiles,
    /// Sizes that add up to more than can be recorded.
    TotalTooLarge,
    /// Input and output are the same path.
    SamePath,
    /// A seal sidecar is missing or malformed.
    InvalidSeal,
    /// The data differs from what its seal recorded.
    SealMismatch,
    /// No preset has this name.
    UnknownPreset,
    /// Too few samples to train a dictionary.
    TooFewSamples,
    /// Command-line options that do not go together.
    Usage,
    /// A self-test found other data than it wrote.
    ProbeMismatch,
}

/// An error: its kind and a message for the user.
#[derive(Debug)]
pub struct Error {
    pub kind: ErrorKind,
    pub message: String,
}

/// The view of an [`Error`].
pub struct Failure {
    pub kind: ErrorKind,
    pub text: Seq<char>,
}

impl View for Error {
    type V = Failure;

    open spec fn view(&self) -> Failure {
        Failure { kind: self.kind, text: self.message@ }
    }
}

/// Makes an error.
pub fn error(kind: ErrorKind, message: String) -> (e: Error)
    ensures
        e@ == (Failure { kind, text: message@ }),
{
    Error { kind, message }
}

/// Makes an error with a fixed message.
pub fn plain_error(kind: ErrorKind, message: &str) -> (e: Error)
    ensures
        e@ == (Failure { kind, text: message@ }),
{
    Error { kind, message: message.to_owned() }
}

/// Puts `context` and a colon in front of the message.
pub fn in_context(context: &str, e: Error) -> (out: Error)
    ensures
        out@ == with_context(context@, e@),
{
    Error { kind: e.kind, message: context.to_owned().concat(": ").concat(e.message.as_str()) }
}

/// A failure with `context` and a colon in front of its text.
pub open spec fn with_context(context: Seq<char>, f: Failure) -> Failure {
    Failure { kind: f.kind, text: context + ": "@ + f.text }
}

/// The failure of a read that meets the end of the data.
pub open spec fn short_read() -> Failure {
    Failure { kind: ErrorKind::Truncated, text: "failed to fill whole buffer"@ }
}

/// The error of a read that meets the end of the data.
pub fn short_read_error() -> (e: Error)
    ensures
        e@ == short_read(),
{
    plain_error(ErrorKind::Truncated, "failed to fill whole buffer")
}

/// `done` in front of what `rest` gives.
pub open spec fn after<T>(done: Seq<T>, rest: Result<Seq<T>, Failure>) -> Result<
    Seq<T>,
    Failure,
> {
    match rest {
        Err(fault) => Err(fault),
        Ok(list) => Ok(done + list),
    }
}

/// Context stands in front of the text, with a colon between them, and leaves
/// the kind as it is.
pub proof fn context_comes_first(context: Seq<char>, f: Failure)
    ensures
        with_context(context, f).kind == f.kind,
        with_context(context, f).text.take(context.len() as int) == context,
        with_context(context, f).text.skip((context.len() + 2) as int) == f.text,
{
    reveal_strlit(": ");
    assert(with_context(context, f).text.take(context.len() as int) == context);
    assert(with_context(context, f).text.skip((context.len() + 2) as int) == f.text);
}

} // verus!
