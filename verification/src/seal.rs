//! Integrity sidecars: the SHA-256 of an archive in a file beside it.

use vstd::prelude::*;

use crate::codec;
use crate::codec::{hex_text, sha256, HASH_LEN};
use crate::error::{error, plain_error, Error, ErrorKind, Failure};
use crate::paths;
use crate::paths::seal_sidecar_path;
use crate::text;

verus! {

/// Result of writing or verifying a sidecar.
#[derive(Debug)]
pub struct SealInfo {
    pub archive: String,
    pub sidecar: String,
    pub sha256: String,
    pub bytes: u64,
}

/// Whether `info` describes the seal of an archive that holds `data`.
pub open spec fn describes(info: SealInfo, archive: Seq<char>, data: Seq<u8>) -> bool {
    &&& info.archive@ == archive
    &&& info.sidecar@ == archive + ".sha256"@
    &&& info.sha256@ == codec::hex_of(codec::sha256_digest(data))
    &&& info.bytes == data.len()
}

/// What a sidecar holds: the digest, two spaces and the file name, as
/// `sha256sum` writes it.
pub open spec fn sidecar_text(data: Seq<u8>, file_name: Seq<char>) -> Seq<char> {
    codec::hex_of(codec::sha256_digest(data)) + "  "@ + file_name + "\n"@
}

/// Hash an archive. Returns the report and the text of the sidecar.
pub fn seal_archive(data: &[u8], archive: &str, file_name: &str) -> (r: (SealInfo, String))
    ensures
        describes(r.0, archive@, data@),
        r.1@ == sidecar_text(data@, file_name@),
        codec::sha256_digest(data@).len() == HASH_LEN,
{
    let digest: [u8; 32] = sha256(data);
    let hex_digest: String = hex_text(digest.as_slice());
    let contents: String = hex_digest.as_str().to_owned().concat("  ").concat(file_name).concat(
        "\n",
    );
    (
        SealInfo {
            archive: archive.to_owned(),
            sidecar: seal_sidecar_path(archive),
            sha256: hex_digest,
            bytes: data.len() as u64,
        },
        contents,
    )
}

/// Whether `c` is a hexadecimal digit.
pub open spec fn is_hex(c: char) -> bool {
    ('0' <= c && c <= '9') || ('a' <= c && c <= 'f') || ('A' <= c && c <= 'F')
}

/// Whether all characters are hexadecimal digits.
pub open spec fn all_hex(s: Seq<char>) -> bool {
    forall|i: int| 0 <= i < s.len() ==> is_hex(#[trigger] s[i])
}

/// Whether all characters of `s` are hexadecimal digits.
fn holds_hex(s: &str) -> (yes: bool)
    ensures
        yes == all_hex(s@),
{
    let chars: Vec<char> = text::chars_of(s);
    let mut i: usize = 0;
    while i < chars.len()
        invariant
            i <= chars@.len(),
            chars@ == s@,
            forall|k: int| 0 <= k < i ==> is_hex(#[trigger] chars@[k]),
        decreases chars@.len() - i,
    {
        let c: char = chars[i];
        if !(('0' <= c && c <= '9') || ('a' <= c && c <= 'f') || ('A' <= c && c <= 'F')) {
            assert(!is_hex(s@[i as int]));
            return false;
        }
        i = i + 1;
    }
    true
}

/// The first word of the first line that has one; empty if there is none.
pub open spec fn first_entry(lines: Seq<Seq<char>>) -> Seq<char>
    decreases lines.len(),
{
    if lines.len() == 0 {
        Seq::empty()
    } else if text::first_word(lines[0]).len() > 0 {
        text::first_word(lines[0])
    } else {
        first_entry(lines.skip(1))
    }
}

/// The digest in a sidecar, with small letters.
pub open spec fn sidecar_hash(s: Seq<char>) -> Result<Seq<char>, Failure> {
    let word = first_entry(text::lines(s));
    if word.len() == 0 {
        Err(Failure { kind: ErrorKind::InvalidSeal, text: "seal sidecar is empty"@ })
    } else if word.len() != 2 * HASH_LEN || !all_hex(word) {
        Err(
            Failure {
                kind: ErrorKind::InvalidSeal,
                text: "seal sidecar hash is not a valid 64-char hex SHA-256"@,
            },
        )
    } else {
        Ok(text::lower(word))
    }
}

/// Reads the digest in a sidecar.
pub fn parse_sidecar_hash(sidecar: &str) -> (r: Result<String, Error>)
    ensures
        paths::text_result(r) == sidecar_hash(sidecar@),
{
    let lines: Vec<String> = text::text_lines(sidecar);
    let ghost all = text::texts(lines@);
    let mut i: usize = 0;
    assert(all.skip(0) == all);
    while i < lines.len()
        invariant
            i <= lines@.len(),
            all == text::texts(lines@),
            all == text::lines(sidecar@),
            first_entry(all) == first_entry(all.skip(i as int)),
        decreases lines@.len() - i,
    {
        let word: String = text::word_text(lines[i].as_str());
        assert(all.skip(i as int)[0] == all[i as int]);
        assert(all.skip(i as int).skip(1) == all.skip(i + 1));
        let count: usize = text::chars_of(word.as_str()).len();
        if count > 0 {
            if count != 64 || !holds_hex(word.as_str()) {
                return Err(
                    plain_error(
                        ErrorKind::InvalidSeal,
                        "seal sidecar hash is not a valid 64-char hex SHA-256",
                    ),
                );
            }
            return Ok(text::lower_text(word.as_str()));
        }
        i = i + 1;
    }
    Err(plain_error(ErrorKind::InvalidSeal, "seal sidecar is empty"))
}

/// What is wrong with an archive and its sidecar, if anything is.
pub open spec fn seal_fault(
    data: Seq<u8>,
    archive: Seq<char>,
    sidecar: Option<Seq<char>>,
) -> Option<Failure> {
    match sidecar {
        None => Some(
            Failure {
                kind: ErrorKind::InvalidSeal,
                text: "no seal sidecar found: "@ + (archive + ".sha256"@)
                    + " (run `rzc seal` first)"@,
            },
        ),
        Some(s) => match sidecar_hash(s) {
            Err(fault) => Some(fault),
            Ok(expected) => {
                let actual = codec::hex_of(codec::sha256_digest(data));
                if actual != expected {
                    Some(
                        Failure {
                            kind: ErrorKind::SealMismatch,
                            text: "seal check failed for "@ + archive + ": expected "@ + expected
                                + ", got "@ + actual,
                        },
                    )
                } else {
                    None
                }
            },
        },
    }
}

/// The error of an archive without a sidecar.
pub fn missing_seal(archive: &str) -> (e: Error)
    ensures
        seal_fault(Seq::empty(), archive@, None) == Some(e@),
{
    error(
        ErrorKind::InvalidSeal,
        "no seal sidecar found: ".to_owned().concat(seal_sidecar_path(archive).as_str()).concat(
            " (run `rzc seal` first)",
        ),
    )
}

/// Verify an archive against the text of its sidecar, if it has one.
pub fn check_seal(data: &[u8], archive: &str, sidecar: Option<&str>) -> (r: Result<SealInfo, Error>)
    ensures
        match seal_fault(
            data@,
            archive@,
            match sidecar {
                Some(s) => Some(s@),
                None => None,
            },
        ) {
            Some(fault) => r matches Err(e) && e@ == fault,
            None => r matches Ok(info) && describes(info, archive@, data@),
        },
{
    let contents: &str = match sidecar {
        Some(contents) => contents,
        None => return Err(missing_seal(archive)),
    };
    let expected: String = match parse_sidecar_hash(contents) {
        Ok(expected) => expected,
        Err(e) => return Err(e),
    };
    let digest: [u8; 32] = sha256(data);
    let actual: String = hex_text(digest.as_slice());
    if !text::same_text(actual.as_str(), expected.as_str()) {
        return Err(
            error(
                ErrorKind::SealMismatch,
                "seal check failed for ".to_owned().concat(archive).concat(": expected ").concat(
                    expected.as_str(),
                ).concat(", got ").concat(actual.as_str()),
            ),
        );
    }
    Ok(
        SealInfo {
            archive: archive.to_owned(),
            sidecar: seal_sidecar_path(archive),
            sha256: actual,
            bytes: data.len() as u64,
        },
    )
}

/// Digests as text are hexadecimal digits without capitals or white space.
proof fn digest_text_is_hex(digest: Seq<u8>)
    ensures
        codec::hex_of(digest).len() == 2 * digest.len(),
        all_hex(codec::hex_of(digest)),
        text::lower(codec::hex_of(digest)) == codec::hex_of(digest),
        forall|i: int|
            0 <= i < codec::hex_of(digest).len() ==> !text::is_space(
                #[trigger] codec::hex_of(digest)[i],
            ) && codec::hex_of(digest)[i] != '\n',
{
    let shown = codec::hex_of(digest);
    assert forall|i: int| 0 <= i < shown.len() implies is_hex(#[trigger] shown[i])
        && !text::is_space(shown[i]) && shown[i] != '\n' && text::lower_char(shown[i])
        == shown[i] by {
        let b = digest[i / 2] as int;
        assert(0 <= b / 16 < 16);
        assert(0 <= b % 16 < 16);
    }
    assert(text::lower(shown) == shown);
}

/// The first piece of a text starts with what comes before the first separator.
proof fn first_piece_starts(a: Seq<char>, t: Seq<char>, sep: char)
    requires
        !a.contains(sep),
    ensures
        text::split_on(a + t, sep)[0].len() >= a.len(),
        text::split_on(a + t, sep)[0].take(a.len() as int) == a,
    decreases t.len(),
{
    let s = a + t;
    if t.len() == 0 {
        assert(s == a);
        text::split_of_piece(a, sep);
        assert(a.take(a.len() as int) == a);
    } else {
        first_piece_starts(a, t.drop_last(), sep);
        text::split_on_has_pieces(s.drop_last(), sep);
        assert(s.drop_last() == a + t.drop_last());
        let before = text::split_on(s.drop_last(), sep);
        if s.last() != sep && before.len() == 1 {
            let first = before.last().push(s.last());
            assert(text::split_on(s, sep)[0] == first);
            assert(first.take(a.len() as int) == before[0].take(a.len() as int));
        }
    }
}

/// A run of non-space characters followed by a space is the leading word.
proof fn word_before_space(word: Seq<char>, rest: Seq<char>)
    requires
        forall|i: int| 0 <= i < word.len() ==> !text::is_space(#[trigger] word[i]),
        rest.len() > 0,
        text::is_space(rest[0]),
    ensures
        text::leading_word(word + rest) == word,
    decreases word.len(),
{
    if word.len() == 0 {
        assert(word + rest == rest);
        assert(word == Seq::<char>::empty());
    } else {
        let shorter = word.skip(1);
        assert forall|i: int| 0 <= i < shorter.len() implies !text::is_space(
            #[trigger] shorter[i],
        ) by {
            assert(shorter[i] == word[i + 1]);
        }
        word_before_space(shorter, rest);
        assert((word + rest).skip(1) == shorter + rest);
        assert((word + rest)[0] == word[0]);
        assert(seq![word[0]] + shorter == word);
    }
}

/// An archive passes the check against the sidecar that sealing it wrote, for
/// any file name.
pub proof fn sealed_archive_passes(data: Seq<u8>, archive: Seq<char>, file_name: Seq<char>)
    requires
        codec::sha256_digest(data).len() == HASH_LEN,
    ensures
        sidecar_hash(sidecar_text(data, file_name)) == Ok::<Seq<char>, Failure>(
            codec::hex_of(codec::sha256_digest(data)),
        ),
        seal_fault(data, archive, Some(sidecar_text(data, file_name))) is None,
{
    let shown = codec::hex_of(codec::sha256_digest(data));
    let contents = sidecar_text(data, file_name);
    digest_text_is_hex(codec::sha256_digest(data));
    reveal_strlit("  ");
    reveal_strlit("\n");
    let start = shown + "  "@;
    let rest = file_name + "\n"@;
    assert(contents == start + rest);
    assert(!start.contains('\n')) by {
        if start.contains('\n') {
            let i = choose|i: int| 0 <= i < start.len() && start[i] == '\n';
            if i < shown.len() {
                assert(shown[i] != '\n');
            }
        }
    }
    first_piece_starts(start, rest, '\n');
    let pieces = text::split_on(contents, '\n');
    assert(contents.last() == '\n');
    text::split_on_has_pieces(contents.drop_last(), '\n');
    assert(pieces.last().len() == 0);
    assert(pieces.len() >= 2);
    let lines = text::lines(contents);
    let line = lines[0];
    assert(line == text::without_cr(pieces[0]));
    assert(pieces[0].take(start.len() as int)[shown.len() as int] == ' ');
    assert(pieces[0][shown.len() as int] == ' ');
    assert(pieces[0].take(start.len() as int)[start.len() - 1] == ' ');
    assert(pieces[0][start.len() - 1] == ' ');
    let tail = line.skip(shown.len() as int);
    assert(tail.len() > 0 && tail[0] == ' ');
    assert(line == shown + tail) by {
        assert forall|i: int| 0 <= i < shown.len() implies line[i] == shown[i] by {
            assert(pieces[0].take(start.len() as int)[i] == start[i]);
        }
    }
    word_before_space(shown, tail);
    assert(!text::is_space(shown[0]));
    assert(text::first_word(line) == shown);
}

/// Data with another digest does not pass the check.
pub proof fn altered_archive_fails(
    data: Seq<u8>,
    altered: Seq<u8>,
    archive: Seq<char>,
    file_name: Seq<char>,
)
    requires
        codec::sha256_digest(data).len() == HASH_LEN,
        codec::sha256_digest(altered).len() == HASH_LEN,
        codec::sha256_digest(data) != codec::sha256_digest(altered),
    ensures
        seal_fault(altered, archive, Some(sidecar_text(data, file_name))) matches Some(fault)
            && fault.kind == ErrorKind::SealMismatch,
{
    sealed_archive_passes(data, archive, file_name);
    let a = codec::sha256_digest(data);
    let b = codec::sha256_digest(altered);
    if codec::hex_of(a) == codec::hex_of(b) {
        assert forall|i: int| 0 <= i < a.len() implies a[i] == b[i] by {
            let x = codec::hex_of(a);
            let y = codec::hex_of(b);
            assert(x[2 * i] == y[2 * i]);
            assert(x[2 * i + 1] == y[2 * i + 1]);
            assert((2 * i) / 2 == i && (2 * i + 1) / 2 == i);
            hex_digit_injective(a[i] as int / 16, b[i] as int / 16);
            hex_digit_injective(a[i] as int % 16, b[i] as int % 16);
        }
        assert(a == b);
    }
}

proof fn hex_digit_injective(a: int, b: int)
    requires
        0 <= a < 16,
        0 <= b < 16,
        codec::hex_digit(a) == codec::hex_digit(b),
    ensures
        a == b,
{
}

/// Whether a line is nothing but white space.
pub open spec fn is_blank(line: Seq<char>) -> bool {
    forall|i: int| 0 <= i < line.len() ==> text::is_space(#[trigger] line[i])
}

proof fn blank_has_no_word(line: Seq<char>)
    requires
        is_blank(line),
    ensures
        text::first_word(line).len() == 0,
    decreases line.len(),
{
    if line.len() > 0 {
        let rest = line.skip(1);
        assert(text::is_space(line[0]));
        assert forall|i: int| 0 <= i < rest.len() implies text::is_space(#[trigger] rest[i]) by {
            assert(rest[i] == line[i + 1]);
        }
        blank_has_no_word(rest);
    }
}

proof fn entry_behind_blanks(lines: Seq<Seq<char>>, k: int, word: Seq<char>)
    requires
        0 <= k < lines.len(),
        forall|j: int| 0 <= j < k ==> is_blank(#[trigger] lines[j]),
        text::first_word(lines[k]) == word,
        word.len() > 0,
    ensures
        first_entry(lines) == word,
    decreases k,
{
    if k > 0 {
        assert(is_blank(lines[0]));
        blank_has_no_word(lines[0]);
        let rest = lines.skip(1);
        assert forall|j: int| 0 <= j < k - 1 implies is_blank(#[trigger] rest[j]) by {
            assert(rest[j] == lines[j + 1]);
        }
        assert(rest[k - 1] == lines[k]);
        entry_behind_blanks(rest, k - 1, word);
    }
}

/// A sidecar is read up to the first word of its first line that is not blank.
/// That word is the digest if it is 64 hexadecimal digits, with small letters
/// where it has capitals, and is refused if it is not.
pub proof fn first_word_of_sidecar_counts(
    s: Seq<char>,
    k: int,
    front: Seq<char>,
    word: Seq<char>,
    rest: Seq<char>,
)
    requires
        0 <= k < text::lines(s).len(),
        forall|j: int| 0 <= j < k ==> is_blank(#[trigger] text::lines(s)[j]),
        text::lines(s)[k] == front + word + rest,
        is_blank(front),
        word.len() > 0,
        forall|i: int| 0 <= i < word.len() ==> !text::is_space(#[trigger] word[i]),
        rest.len() > 0 ==> text::is_space(rest[0]),
    ensures
        word.len() == 64 && all_hex(word) ==> sidecar_hash(s) == Ok::<Seq<char>, Failure>(
            text::lower(word),
        ),
        word.len() != 64 || !all_hex(word) ==> (sidecar_hash(s) matches Err(fault) && fault.kind
            == ErrorKind::InvalidSeal),
{
    text::first_word_is_first(front, word, rest);
    entry_behind_blanks(text::lines(s), k, word);
}

proof fn no_entry_in_blanks(lines: Seq<Seq<char>>)
    requires
        forall|j: int| 0 <= j < lines.len() ==> is_blank(#[trigger] lines[j]),
    ensures
        first_entry(lines).len() == 0,
    decreases lines.len(),
{
    if lines.len() > 0 {
        assert(is_blank(lines[0]));
        blank_has_no_word(lines[0]);
        let rest = lines.skip(1);
        assert forall|j: int| 0 <= j < rest.len() implies is_blank(#[trigger] rest[j]) by {
            assert(rest[j] == lines[j + 1]);
        }
        no_entry_in_blanks(rest);
    }
}

/// A sidecar with nothing but white space is refused.
pub proof fn blank_sidecar_is_refused(s: Seq<char>)
    requires
        forall|j: int| 0 <= j < text::lines(s).len() ==> is_blank(#[trigger] text::lines(s)[j]),
    ensures
        sidecar_hash(s) matches Err(fault) && fault.kind == ErrorKind::InvalidSeal,
{
    no_entry_in_blanks(text::lines(s));
}

/// An archive passes a check exactly if the sidecar holds the digest of its
/// bytes; without a sidecar it never does.
pub proof fn check_compares_digests(
    data: Seq<u8>,
    archive: Seq<char>,
    sidecar: Seq<char>,
    expected: Seq<char>,
)
    requires
        sidecar_hash(sidecar) == Ok::<Seq<char>, Failure>(expected),
    ensures
        seal_fault(data, archive, Some(sidecar)) is None <==> codec::hex_of(
            codec::sha256_digest(data),
        ) == expected,
        seal_fault(data, archive, None) is Some,
{
}

/// The sidecar is one line: the digest in 64 small hexadecimal digits, two
/// spaces and the file name.
pub proof fn sidecar_is_one_line(data: Seq<u8>, file_name: Seq<char>)
    requires
        codec::sha256_digest(data).len() == HASH_LEN,
        !file_name.contains('\n'),
        file_name.len() > 0,
        file_name.last() != '\r',
    ensures
        ({
            let lines = text::lines(sidecar_text(data, file_name));
            &&& lines.len() == 1
            &&& lines[0].take(64) == codec::hex_of(codec::sha256_digest(data))
            &&& lines[0][64] == ' ' && lines[0][65] == ' '
            &&& lines[0].skip(66) == file_name
        }),
{
    let shown = codec::hex_of(codec::sha256_digest(data));
    let line = shown + "  "@ + file_name;
    digest_text_is_hex(codec::sha256_digest(data));
    reveal_strlit("  ");
    reveal_strlit("\n");
    assert(!line.contains('\n')) by {
        if line.contains('\n') {
            let i = choose|i: int| 0 <= i < line.len() && line[i] == '\n';
            if i < shown.len() {
                assert(shown[i] != '\n');
            } else if i >= shown.len() + 2 {
                assert(file_name[i - shown.len() - 2] == '\n');
            }
        }
    }
    let list = seq![line];
    let plain = |i: int| false;
    text::lines_of_ended(list, plain);
    let parts = Seq::new(
        list.len(),
        |i: int|
            if plain(i) {
                list[i].push('\r').push('\n')
            } else {
                list[i].push('\n')
            },
    );
    assert(parts == seq![line.push('\n')]);
    text::flatten_last(parts);
    assert(parts.drop_last() == Seq::<Seq<char>>::empty());
    assert(parts.drop_last().flatten() == Seq::<char>::empty());
    assert(Seq::<char>::empty() + line.push('\n') == line.push('\n'));
    assert(sidecar_text(data, file_name) == line.push('\n'));
    assert(line.take(64) == shown);
    assert(line.skip(66) == file_name);
}

/// The report on a seal names the sidecar after the archive and gives the
/// digest and the size of its bytes.
pub proof fn seal_report_describes(info: SealInfo, archive: Seq<char>, data: Seq<u8>)
    requires
        describes(info, archive, data),
        codec::sha256_digest(data).len() == HASH_LEN,
    ensures
        info.archive@ == archive,
        info.sidecar@ == archive + ".sha256"@,
        info.bytes == data.len(),
        info.sha256@.len() == 64,
        info.sha256@ == codec::hex_of(codec::sha256_digest(data)),
{
    digest_text_is_hex(codec::sha256_digest(data));
}

} // verus!
