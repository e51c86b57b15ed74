//! zstd dictionary training for sets of small, similar files.
//!
//! Payloads compressed with a dictionary are standard zstd frames in the same
//! container; reading them back takes the same dictionary.

use vstd::prelude::*;

use crate::codec;
use crate::error::{error, Error, ErrorKind, Failure};
use crate::text;

verus! {

/// Default maximum dictionary size (110 KiB).
pub const DEFAULT_MAX_DICT_SIZE: usize = 112_640;

/// Minimum number of samples required for meaningful training.
pub const MIN_SAMPLE_FILES: usize = 8;

/// The views of a list of samples.
pub open spec fn sample_views(samples: Seq<Vec<u8>>) -> Seq<Seq<u8>> {
    samples.map_values(|s: Vec<u8>| s@)
}

/// Whether training on `samples` with a limit of `max_size` bytes may give
/// `dictionary`.
pub uninterp spec fn trained_on(
    samples: Seq<Seq<u8>>,
    max_size: usize,
    dictionary: Seq<u8>,
) -> bool;

/// The number of bytes in all samples together.
pub open spec fn bytes_in(samples: Seq<Seq<u8>>) -> nat
    decreases samples.len(),
{
    if samples.len() == 0 {
        0
    } else {
        bytes_in(samples.drop_last()) + samples.last().len()
    }
}

/// The number of bytes that training learns from: those of the first three
/// quarters of the samples. The others are for testing.
pub open spec fn training_share(samples: Seq<Seq<u8>>) -> nat {
    bytes_in(samples.take((3 * samples.len() / 4) as int))
}

/// Calls `zstd::dict::from_samples`, whose documentation gives `max_size` as
/// the maximum size of the dictionary. The contract says that training fails on
/// fewer than eight bytes in all. It does not say when else it fails, nor which
/// dictionary it settles on. The call reserves `max_size` bytes, and no vector
/// holds more than `isize::MAX`. It hands on the number of samples as a `u32`,
/// the trainer makes a table with one entry more than that, and from eight bytes
/// on it takes for granted that its share of the samples holds at least one
/// piece of eight bytes.
#[verifier::external_body]
pub(crate) fn train(samples: &Vec<Vec<u8>>, max_size: usize) -> (r: Result<Vec<u8>, String>)
    requires
        max_size <= isize::MAX,
        samples@.len() < u32::MAX,
        training_share(sample_views(samples@)) >= 8 || bytes_in(sample_views(samples@)) < 8,
    ensures
        bytes_in(sample_views(samples@)) < 8 ==> r is Err,
        r matches Ok(dictionary) ==> trained_on(sample_views(samples@), max_size, dictionary@),
        r matches Ok(dictionary) ==> dictionary@.len() <= max_size,
{
    zstd::dict::from_samples(samples, max_size).map_err(|e| e.to_string())
}

/// The failure of training on too few samples.
pub open spec fn too_few(count: nat) -> Failure {
    Failure {
        kind: ErrorKind::TooFewSamples,
        text: "dictionary training needs at least 8 sample files; got "@ + text::decimal(count),
    }
}

/// The failure of training itself.
pub open spec fn untrained(message: Seq<char>) -> Failure {
    Failure { kind: ErrorKind::Codec, text: "training zstd dictionary: "@ + message }
}

/// What training made, its message put into an error.
pub fn trained(made: Result<Vec<u8>, String>) -> (r: Result<Vec<u8>, Error>)
    ensures
        codec::bytes_result(r) == match codec::outcome(made) {
            Ok(dictionary) => Ok(dictionary),
            Err(message) => Err(untrained(message)),
        },
{
    match made {
        Ok(dictionary) => Ok(dictionary),
        Err(message) => Err(
            error(
                ErrorKind::Codec,
                "training zstd dictionary: ".to_owned().concat(message.as_str()),
            ),
        ),
    }
}

/// More samples hold more bytes.
proof fn bytes_grow(samples: Seq<Seq<u8>>, n: int)
    requires
        0 <= n <= samples.len(),
    ensures
        bytes_in(samples.take(n)) <= bytes_in(samples),
    decreases samples.len() - n,
{
    if n < samples.len() {
        assert(samples.take(n + 1).drop_last() == samples.take(n));
        bytes_grow(samples, n + 1);
    } else {
        assert(samples.take(n) == samples);
    }
}

/// Whether the first `count` samples hold at least eight bytes.
fn holds_eight(samples: &Vec<Vec<u8>>, count: usize) -> (yes: bool)
    requires
        count <= samples@.len(),
    ensures
        yes == (bytes_in(sample_views(samples@).take(count as int)) >= 8),
{
    let ghost share = sample_views(samples@).take(count as int);
    let mut total: usize = 0;
    let mut i: usize = 0;
    assert(share.take(0) == Seq::<Seq<u8>>::empty());
    while i < count
        invariant
            i <= count <= samples@.len(),
            share == sample_views(samples@).take(count as int),
            total == bytes_in(share.take(i as int)),
            total < 8,
        decreases count - i,
    {
        assert(share[i as int] == samples@[i as int]@);
        assert(share.take(i + 1).drop_last() == share.take(i as int));
        if samples[i].len() >= 8 - total {
            proof {
                bytes_grow(share, i + 1);
            }
            return true;
        }
        total = total + samples[i].len();
        i = i + 1;
    }
    assert(share.take(i as int) == share);
    false
}

/// Whether training can take the samples: they hold next to nothing, which it
/// refuses, or its share of them holds enough to learn from.
fn share_suffices(samples: &Vec<Vec<u8>>) -> (yes: bool)
    requires
        samples@.len() < u32::MAX,
    ensures
        yes == (training_share(sample_views(samples@)) >= 8 || bytes_in(sample_views(samples@)) < 8),
{
    let ghost all = sample_views(samples@);
    assert(all.take(all.len() as int) == all);
    let count: usize = (samples.len() as u64 * 3 / 4) as usize;
    holds_eight(samples, count) || !holds_eight(samples, samples.len())
}

/// Train a zstd dictionary from samples. Training degenerates on tiny sample
/// sets, so fewer than [`MIN_SAMPLE_FILES`] samples are rejected, and so are
/// samples with next to nothing in them.
pub fn train_dictionary(samples: &Vec<Vec<u8>>, max_size: usize) -> (r: Result<Vec<u8>, Error>)
    requires
        max_size <= isize::MAX,
    ensures
        samples@.len() < MIN_SAMPLE_FILES ==> (r matches Err(e) && e@ == too_few(samples@.len())),
        samples@.len() >= u32::MAX ==> (r matches Err(e) && e@ == untrained("too many samples"@)),
        MIN_SAMPLE_FILES <= samples@.len() < u32::MAX && training_share(sample_views(samples@)) < 8
            <= bytes_in(sample_views(samples@)) ==> (r matches Err(e) && e@ == untrained(
            "the first three quarters of the samples are too small"@,
        )),
        bytes_in(sample_views(samples@)) < 8 ==> r is Err,
        samples@.len() >= MIN_SAMPLE_FILES ==> match r {
            Ok(dictionary) => trained_on(sample_views(samples@), max_size, dictionary@)
                && dictionary@.len() <= max_size,
            Err(e) => exists|message: Seq<char>| e@ == untrained(message),
        },
{
    if samples.len() < MIN_SAMPLE_FILES {
        return Err(
            error(
                ErrorKind::TooFewSamples,
                "dictionary training needs at least 8 sample files; got ".to_owned().concat(
                    text::decimal_text(samples.len() as u64).as_str(),
                ),
            ),
        );
    }
    if samples.len() as u64 >= u32::MAX as u64 {
        return trained(Err("too many samples".to_owned()));
    }
    if !share_suffices(samples) {
        return trained(Err("the first three quarters of the samples are too small".to_owned()));
    }
    trained(train(samples, max_size))
}

} // verus!
