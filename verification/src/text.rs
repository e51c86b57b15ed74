//! Character-level helpers: decimal numbers, splitting, joining and ordering.

use vstd::prelude::*;

verus! {

/// `String::push` appends one character at the end of the string.
pub assume_specification[ String::push ](s: &mut String, c: char)
    ensures
        final(s)@ == old(s)@.push(c),
;

/// The characters of `s`, in order.
pub fn chars_of(s: &str) -> (out: Vec<char>)
    ensures
        out@ == s@,
{
    let mut out: Vec<char> = Vec::new();
    for c in it: s.chars()
        invariant
            it.seq() == s@,
            out@ == s@.take(it.index() as int),
    {
        out.push(c);
        assert(s@.take(it.index() as int + 1) == s@.take(it.index() as int).push(c));
    }
    assert(s@.take(s@.len() as int) == s@);
    out
}

/// The string made of `chars[from..to]`.
pub fn text_between(chars: &[char], from: usize, to: usize) -> (out: String)
    requires
        from <= to <= chars@.len(),
    ensures
        out@ == chars@.subrange(from as int, to as int),
{
    let mut out: String = String::new();
    let mut i: usize = from;
    while i < to
        invariant
            from <= i <= to <= chars@.len(),
            out@ == chars@.subrange(from as int, i as int),
        decreases to - i,
    {
        out.push(chars[i]);
        assert(chars@.subrange(from as int, i + 1) == chars@.subrange(from as int, i as int).push(
            chars@[i as int],
        ));
        i = i + 1;
    }
    out
}

/// The decimal digit character of `d`.
pub open spec fn digit(d: nat) -> char {
    (48 + d) as char
}

/// The decimal notation of `n`, without leading zeros.
pub open spec fn decimal(n: nat) -> Seq<char>
    decreases n,
{
    if n < 10 {
        seq![digit(n)]
    } else {
        decimal(n / 10).push(digit(n % 10))
    }
}

/// The decimal notation of `n`.
pub fn wide_decimal_text(n: u128) -> (out: String)
    ensures
        out@ == decimal(n as nat),
    decreases n,
{
    if n < 10 {
        let mut out: String = String::new();
        out.push((48u8 + n as u8) as char);
        assert(out@ == decimal(n as nat));
        out
    } else {
        let mut out: String = wide_decimal_text(n / 10);
        out.push((48u8 + (n % 10) as u8) as char);
        out
    }
}

/// The decimal notation of `n`.
pub fn decimal_text(n: u64) -> (out: String)
    ensures
        out@ == decimal(n as nat),
{
    wide_decimal_text(n as u128)
}

/// The last `width` decimal digits of `n`, zeros included.
pub open spec fn padded(n: nat, width: nat) -> Seq<char>
    decreases width,
{
    if width == 0 {
        Seq::empty()
    } else {
        padded(n / 10, (width - 1) as nat).push(digit(n % 10))
    }
}

/// The last `width` decimal digits of `n`, zeros included.
pub fn padded_text(n: u64, width: u32) -> (out: String)
    ensures
        out@ == padded(n as nat, width as nat),
    decreases width,
{
    if width == 0 {
        let out: String = String::new();
        assert(out@ == Seq::<char>::empty());
        out
    } else {
        let mut out: String = padded_text(n / 10, width - 1);
        out.push((48u8 + (n % 10) as u8) as char);
        out
    }
}

/// The decimal notation of `n`, with a minus sign if it is negative.
pub open spec fn signed_decimal(n: int) -> Seq<char> {
    if n < 0 {
        "-"@ + decimal((-n) as nat)
    } else {
        decimal(n as nat)
    }
}

/// The decimal notation of `n`, with a minus sign if it is negative.
pub fn signed_decimal_text(n: i32) -> (out: String)
    ensures
        out@ == signed_decimal(n as int),
{
    if n < 0 {
        "-".to_owned().concat(decimal_text((-(n as i64)) as u64).as_str())
    } else {
        decimal_text(n as u64)
    }
}

/// The views of a list of strings.
pub open spec fn texts(list: Seq<String>) -> Seq<Seq<char>> {
    Seq::new(list.len(), |i: int| list[i]@)
}

/// Whether two strings hold the same characters.
pub fn same_text(a: &str, b: &str) -> (same: bool)
    ensures
        same == (a@ == b@),
{
    let x: Vec<char> = chars_of(a);
    let y: Vec<char> = chars_of(b);
    if x.len() != y.len() {
        return false;
    }
    let mut i: usize = 0;
    while i < x.len()
        invariant
            i <= x@.len(),
            x@.len() == y@.len(),
            x@ == a@,
            y@ == b@,
            forall|k: int| 0 <= k < i ==> x@[k] == y@[k],
        decreases x@.len() - i,
    {
        if x[i] != y[i] {
            return false;
        }
        i = i + 1;
    }
    assert(a@ == b@);
    true
}

/// The pieces of `s` between occurrences of `sep`: always one more piece than
/// there are separators.
pub open spec fn split_on(s: Seq<char>, sep: char) -> Seq<Seq<char>>
    decreases s.len(),
{
    if s.len() == 0 {
        seq![Seq::empty()]
    } else {
        let before = split_on(s.drop_last(), sep);
        if s.last() == sep {
            before.push(Seq::empty())
        } else {
            before.drop_last().push(before.last().push(s.last()))
        }
    }
}

/// Splitting yields at least one piece.
pub proof fn split_on_has_pieces(s: Seq<char>, sep: char)
    ensures
        split_on(s, sep).len() >= 1,
    decreases s.len(),
{
    if s.len() > 0 {
        split_on_has_pieces(s.drop_last(), sep);
    }
}

/// Splits `s` at every `sep`.
pub fn split_text(s: &str, sep: char) -> (out: Vec<String>)
    ensures
        texts(out@) == split_on(s@, sep),
{
    let chars: Vec<char> = chars_of(s);
    let mut out: Vec<String> = Vec::new();
    let mut piece: String = String::new();
    let mut i: usize = 0;
    assert(chars@.take(0) == Seq::<char>::empty());
    assert(texts(out@).push(piece@) == split_on(chars@.take(0), sep));
    while i < chars.len()
        invariant
            i <= chars@.len(),
            texts(out@).push(piece@) == split_on(chars@.take(i as int), sep),
        decreases chars@.len() - i,
    {
        let c: char = chars[i];
        let ghost before = texts(out@).push(piece@);
        assert(chars@.take(i + 1).drop_last() == chars@.take(i as int));
        if c == sep {
            out.push(piece);
            piece = String::new();
            assert(texts(out@) == before);
        } else {
            piece.push(c);
            assert(before.drop_last() == texts(out@));
        }
        i = i + 1;
    }
    assert(chars@.take(i as int) == s@);
    let ghost all = texts(out@).push(piece@);
    out.push(piece);
    assert(texts(out@) == all);
    out
}

/// Text without separators is one piece.
pub proof fn split_of_piece(s: Seq<char>, sep: char)
    requires
        !s.contains(sep),
    ensures
        split_on(s, sep) == seq![s],
    decreases s.len(),
{
    if s.len() == 0 {
        assert(s == Seq::<char>::empty());
    } else {
        let c = s.last();
        assert(s.contains(c));
        assert forall|x: char| s.drop_last().contains(x) implies s.contains(x) by {
            let i = choose|i: int| 0 <= i < s.drop_last().len() && s.drop_last()[i] == x;
            assert(s[i] == x);
        }
        split_of_piece(s.drop_last(), sep);
        assert(s.drop_last().push(c) == s);
    }
}

/// A separator and a piece behind `s` add that piece.
pub proof fn split_of_appended(s: Seq<char>, sep: char, t: Seq<char>)
    requires
        !t.contains(sep),
    ensures
        split_on(s + seq![sep] + t, sep) == split_on(s, sep).push(t),
    decreases t.len(),
{
    let whole = s + seq![sep] + t;
    if t.len() == 0 {
        assert(whole.drop_last() == s);
        assert(t == Seq::<char>::empty());
    } else {
        let c = t.last();
        assert(t.contains(c));
        assert forall|x: char| t.drop_last().contains(x) implies t.contains(x) by {
            let i = choose|i: int| 0 <= i < t.drop_last().len() && t.drop_last()[i] == x;
            assert(t[i] == x);
        }
        split_of_appended(s, sep, t.drop_last());
        assert(whole.drop_last() == s + seq![sep] + t.drop_last());
        let before = split_on(s, sep).push(t.drop_last());
        assert(before.drop_last() == split_on(s, sep));
        assert(t.drop_last().push(c) == t);
    }
}

/// Splitting undoes joining.
pub proof fn split_of_joined(pieces: Seq<Seq<char>>, sep: char)
    requires
        pieces.len() >= 1,
        forall|i: int| 0 <= i < pieces.len() ==> !(#[trigger] pieces[i]).contains(sep),
    ensures
        split_on(joined(pieces, seq![sep]), sep) == pieces,
    decreases pieces.len(),
{
    if pieces.len() == 1 {
        split_of_piece(pieces[0], sep);
        assert(pieces == seq![pieces[0]]);
    } else {
        split_of_joined(pieces.drop_last(), sep);
        split_of_appended(joined(pieces.drop_last(), seq![sep]), sep, pieces.last());
        assert(pieces.drop_last().push(pieces.last()) == pieces);
    }
}

/// No piece holds the separator.
pub proof fn split_pieces_clean(s: Seq<char>, sep: char)
    ensures
        forall|i: int| 0 <= i < split_on(s, sep).len() ==> !(#[trigger] split_on(
            s,
            sep,
        )[i]).contains(sep),
    decreases s.len(),
{
    if s.len() > 0 {
        split_pieces_clean(s.drop_last(), sep);
        split_on_has_pieces(s.drop_last(), sep);
        let before = split_on(s.drop_last(), sep);
        assert forall|i: int| 0 <= i < split_on(s, sep).len() implies !(#[trigger] split_on(
            s,
            sep,
        )[i]).contains(sep) by {
            if s.last() == sep {
                if i < before.len() {
                    assert(split_on(s, sep)[i] == before[i]);
                }
            } else if i < before.len() - 1 {
                assert(split_on(s, sep)[i] == before[i]);
            } else {
                let piece = split_on(s, sep)[i];
                assert(piece == before.last().push(s.last()));
                if piece.contains(sep) {
                    let k = choose|k: int| 0 <= k < piece.len() && piece[k] == sep;
                    assert(k < before.last().len());
                    assert(before.last()[k] == sep);
                    assert(before[before.len() - 1].contains(sep));
                }
            }
        }
    }
}

/// The pieces that are not empty, in order.
pub open spec fn nonempty(pieces: Seq<Seq<char>>) -> Seq<Seq<char>>
    decreases pieces.len(),
{
    if pieces.len() == 0 {
        Seq::empty()
    } else if pieces.last().len() == 0 {
        nonempty(pieces.drop_last())
    } else {
        nonempty(pieces.drop_last()).push(pieces.last())
    }
}

/// Every one of the non-empty pieces is one of the pieces, and not empty.
pub proof fn nonempty_are_pieces(pieces: Seq<Seq<char>>)
    ensures
        forall|i: int| 0 <= i < nonempty(pieces).len() ==> (#[trigger] nonempty(pieces)[i]).len() > 0
            && pieces.contains(nonempty(pieces)[i]),
    decreases pieces.len(),
{
    if pieces.len() > 0 {
        let init = pieces.drop_last();
        nonempty_are_pieces(init);
        assert forall|i: int| 0 <= i < nonempty(pieces).len() implies (#[trigger] nonempty(
            pieces,
        )[i]).len() > 0 && pieces.contains(nonempty(pieces)[i]) by {
            if i < nonempty(init).len() {
                let x = nonempty(init)[i];
                assert(init.contains(x));
                let k = choose|k: int| 0 <= k < init.len() && init[k] == x;
                assert(pieces[k] == x);
            } else {
                assert(pieces[pieces.len() - 1] == pieces.last());
            }
        }
    }
}

/// Where no piece is empty, all of them stay.
pub proof fn nonempty_of_full(pieces: Seq<Seq<char>>)
    requires
        forall|i: int| 0 <= i < pieces.len() ==> (#[trigger] pieces[i]).len() > 0,
    ensures
        nonempty(pieces) == pieces,
    decreases pieces.len(),
{
    if pieces.len() > 0 {
        nonempty_of_full(pieces.drop_last());
        assert(pieces.drop_last().push(pieces.last()) == pieces);
    }
}

/// The non-empty pieces of `s` between separators.
pub fn nonempty_pieces(s: &str, sep: char) -> (out: Vec<String>)
    ensures
        texts(out@) == nonempty(split_on(s@, sep)),
{
    let pieces: Vec<String> = split_text(s, sep);
    let ghost all = texts(pieces@);
    let mut out: Vec<String> = Vec::new();
    let mut i: usize = 0;
    assert(all.take(0) == Seq::<Seq<char>>::empty());
    assert(texts(out@) == nonempty(all.take(0)));
    while i < pieces.len()
        invariant
            i <= pieces@.len(),
            all == texts(pieces@),
            texts(out@) == nonempty(all.take(i as int)),
        decreases pieces@.len() - i,
    {
        assert(all.take(i + 1).drop_last() == all.take(i as int));
        if !pieces[i].as_str().is_empty() {
            let ghost before = texts(out@);
            out.push(pieces[i].clone());
            assert(texts(out@) == before.push(all[i as int]));
        }
        i = i + 1;
    }
    assert(all.take(i as int) == all);
    out
}

/// The pieces with `sep` between neighbours.
pub open spec fn joined(pieces: Seq<Seq<char>>, sep: Seq<char>) -> Seq<char>
    decreases pieces.len(),
{
    if pieces.len() == 0 {
        Seq::empty()
    } else if pieces.len() == 1 {
        pieces[0]
    } else {
        joined(pieces.drop_last(), sep) + sep + pieces.last()
    }
}

/// Joins `pieces[from..]` with `sep` between neighbours.
pub fn join_from(pieces: &Vec<String>, from: usize, sep: &str) -> (out: String)
    requires
        from <= pieces@.len(),
    ensures
        out@ == joined(texts(pieces@).skip(from as int), sep@),
{
    let ghost all = texts(pieces@).skip(from as int);
    let mut out: String = String::new();
    let mut i: usize = from;
    assert(all.take(0) == Seq::<Seq<char>>::empty());
    while i < pieces.len()
        invariant
            from <= i <= pieces@.len(),
            all == texts(pieces@).skip(from as int),
            out@ == joined(all.take(i - from), sep@),
        decreases pieces@.len() - i,
    {
        assert(all.take(i - from + 1).drop_last() == all.take(i - from));
        if i > from {
            out.append(sep);
        }
        out.append(pieces[i].as_str());
        assert(out@ == joined(all.take(i - from + 1), sep@));
        i = i + 1;
    }
    assert(all.take(i - from) == all);
    out
}

/// `c` with an ASCII capital letter made small.
pub open spec fn lower_char(c: char) -> char {
    if 'A' <= c && c <= 'Z' {
        ((c as u32) + 32) as char
    } else {
        c
    }
}

/// `s` with every ASCII capital letter made small.
pub open spec fn lower(s: Seq<char>) -> Seq<char> {
    Seq::new(s.len(), |i: int| lower_char(s[i]))
}

/// `s` with every ASCII capital letter made small.
pub fn lower_text(s: &str) -> (out: String)
    ensures
        out@ == lower(s@),
{
    let chars: Vec<char> = chars_of(s);
    let mut out: String = String::new();
    let mut i: usize = 0;
    while i < chars.len()
        invariant
            i <= chars@.len(),
            out@ == lower(chars@.take(i as int)),
        decreases chars@.len() - i,
    {
        let c: char = chars[i];
        let small: char = if 'A' <= c && c <= 'Z' {
            ((c as u8) + 32u8) as char
        } else {
            c
        };
        out.push(small);
        assert(lower(chars@.take(i + 1)) == lower(chars@.take(i as int)).push(lower_char(c)));
        i = i + 1;
    }
    assert(chars@.take(i as int) == s@);
    out
}

/// Whether `s` ends with `suffix`.
pub open spec fn ends_with(s: Seq<char>, suffix: Seq<char>) -> bool {
    s.len() >= suffix.len() && s.skip(s.len() - suffix.len()) == suffix
}

/// Whether `s` ends with `suffix`.
pub fn has_suffix(s: &str, suffix: &str) -> (yes: bool)
    ensures
        yes == ends_with(s@, suffix@),
{
    let x: Vec<char> = chars_of(s);
    let y: Vec<char> = chars_of(suffix);
    if x.len() < y.len() {
        return false;
    }
    let total: usize = x.len();
    let start: usize = total - y.len();
    let mut i: usize = 0;
    while i < y.len()
        invariant
            i <= y@.len(),
            total == x@.len(),
            start == total - y@.len(),
            x@ == s@,
            y@ == suffix@,
            forall|k: int| 0 <= k < i ==> x@[start + k] == y@[k],
        decreases y@.len() - i,
    {
        if x[start + i] != y[i] {
            assert(s@.skip(start as int)[i as int] != suffix@[i as int]);
            return false;
        }
        i = i + 1;
    }
    assert(s@.skip(start as int) == suffix@);
    true
}

/// Whether `s` holds the character `c`.
pub fn has_char(s: &str, c: char) -> (yes: bool)
    ensures
        yes == s@.contains(c),
{
    let x: Vec<char> = chars_of(s);
    let mut i: usize = 0;
    while i < x.len()
        invariant
            i <= x@.len(),
            x@ == s@,
            forall|k: int| 0 <= k < i ==> x@[k] != c,
        decreases x@.len() - i,
    {
        if x[i] == c {
            assert(s@[i as int] == c);
            return true;
        }
        i = i + 1;
    }
    false
}

/// A line without the carriage return at its end, if there is one.
pub open spec fn without_cr(line: Seq<char>) -> Seq<char> {
    if line.len() > 0 && line.last() == '\r' {
        line.drop_last()
    } else {
        line
    }
}

/// The lines of `s`. A line ends at `\n` or `\r\n`, which are not part of it.
/// The last line may lack its ending, and then keeps a `\r` at its end; an
/// empty last line does not count.
pub open spec fn lines(s: Seq<char>) -> Seq<Seq<char>> {
    let pieces = split_on(s, '\n');
    let count = if pieces.last().len() == 0 {
        pieces.len() - 1
    } else {
        pieces.len() as int
    };
    Seq::new(
        count as nat,
        |i: int|
            if i < pieces.len() - 1 {
                without_cr(pieces[i])
            } else {
                pieces[i]
            },
    )
}

/// `line` without the carriage return at its end, if there is one.
fn strip_cr(line: &str) -> (out: String)
    ensures
        out@ == without_cr(line@),
{
    let chars: Vec<char> = chars_of(line);
    let n: usize = chars.len();
    if n > 0 && chars[n - 1] == '\r' {
        let out: String = text_between(chars.as_slice(), 0, n - 1);
        assert(out@ == line@.drop_last());
        out
    } else {
        line.to_owned()
    }
}

/// The lines of `s`.
pub fn text_lines(s: &str) -> (out: Vec<String>)
    ensures
        texts(out@) == lines(s@),
{
    let pieces: Vec<String> = split_text(s, '\n');
    let ghost all = texts(pieces@);
    proof {
        split_on_has_pieces(s@, '\n');
        assert(all.len() == pieces@.len());
    }
    let last: usize = pieces.len() - 1;
    let mut out: Vec<String> = Vec::new();
    let mut i: usize = 0;
    while i < last
        invariant
            i <= last,
            last == pieces@.len() - 1,
            all == texts(pieces@),
            out@.len() == i,
            forall|k: int| 0 <= k < i ==> out@[k]@ == without_cr(all[k]),
        decreases last - i,
    {
        out.push(strip_cr(pieces[i].as_str()));
        i = i + 1;
    }
    if !pieces[last].as_str().is_empty() {
        out.push(pieces[last].clone());
    }
    assert(texts(out@) == lines(s@));
    out
}

/// The characters with the Unicode property `White_Space`.
pub open spec fn is_space(c: char) -> bool {
    let u = c as u32;
    ||| 0x09 <= u <= 0x0d
    ||| u == 0x20
    ||| u == 0x85
    ||| u == 0xa0
    ||| u == 0x1680
    ||| 0x2000 <= u <= 0x200a
    ||| u == 0x2028
    ||| u == 0x2029
    ||| u == 0x202f
    ||| u == 0x205f
    ||| u == 0x3000
}

/// Whether `c` has the Unicode property `White_Space`.
pub fn space(c: char) -> (yes: bool)
    ensures
        yes == is_space(c),
{
    let u: u32 = c as u32;
    (0x09 <= u && u <= 0x0d) || u == 0x20 || u == 0x85 || u == 0xa0 || u == 0x1680 || (0x2000 <= u
        && u <= 0x200a) || u == 0x2028 || u == 0x2029 || u == 0x202f || u == 0x205f || u == 0x3000
}

/// The first run of characters of `s` that are not white space; empty if there
/// is none.
pub open spec fn first_word(s: Seq<char>) -> Seq<char>
    decreases s.len(),
{
    if s.len() == 0 {
        Seq::empty()
    } else if is_space(s[0]) {
        first_word(s.skip(1))
    } else {
        leading_word(s)
    }
}

/// The longest prefix of `s` without white space.
pub open spec fn leading_word(s: Seq<char>) -> Seq<char>
    decreases s.len(),
{
    if s.len() == 0 || is_space(s[0]) {
        Seq::empty()
    } else {
        seq![s[0]] + leading_word(s.skip(1))
    }
}

/// The first word of `s`; empty if `s` is all white space.
pub fn word_text(s: &str) -> (out: String)
    ensures
        out@ == first_word(s@),
{
    let chars: Vec<char> = chars_of(s);
    let mut i: usize = 0;
    assert(chars@.skip(0) == s@);
    while i < chars.len() && space(chars[i])
        invariant
            i <= chars@.len(),
            first_word(s@) == first_word(chars@.skip(i as int)),
        decreases chars@.len() - i,
    {
        assert(chars@.skip(i as int).skip(1) == chars@.skip(i + 1));
        i = i + 1;
    }
    let mut out: String = String::new();
    if i >= chars.len() {
        return out;
    }
    let mut j: usize = i;
    assert(first_word(s@) == out@ + leading_word(chars@.skip(j as int)));
    while j < chars.len() && !space(chars[j])
        invariant
            j <= chars@.len(),
            first_word(s@) == out@ + leading_word(chars@.skip(j as int)),
        decreases chars@.len() - j,
    {
        let ghost rest = chars@.skip(j as int);
        assert(rest.skip(1) == chars@.skip(j + 1));
        assert(leading_word(rest) == seq![rest[0]] + leading_word(rest.skip(1)));
        let ghost before = out@;
        out.push(chars[j]);
        assert(before + (seq![rest[0]] + leading_word(rest.skip(1))) == out@ + leading_word(
            rest.skip(1),
        ));
        j = j + 1;
    }
    assert(leading_word(chars@.skip(j as int)) == Seq::<char>::empty());
    assert(out@ + Seq::<char>::empty() == out@);
    out
}

/// Lexicographic order by code point, which for strings is the order of their
/// UTF-8 bytes.
pub open spec fn text_before(a: Seq<char>, b: Seq<char>) -> bool
    decreases a.len(),
{
    if b.len() == 0 {
        false
    } else if a.len() == 0 {
        true
    } else if a[0] != b[0] {
        a[0] < b[0]
    } else {
        text_before(a.skip(1), b.skip(1))
    }
}

/// Whether `a` comes strictly before `b`.
pub fn comes_before(a: &str, b: &str) -> (yes: bool)
    ensures
        yes == text_before(a@, b@),
{
    let x: Vec<char> = chars_of(a);
    let y: Vec<char> = chars_of(b);
    let mut i: usize = 0;
    assert(x@.skip(0) == a@);
    assert(y@.skip(0) == b@);
    while i < x.len() && i < y.len()
        invariant
            i <= x@.len(),
            i <= y@.len(),
            text_before(a@, b@) == text_before(x@.skip(i as int), y@.skip(i as int)),
        decreases x@.len() - i,
    {
        if x[i] != y[i] {
            return x[i] < y[i];
        }
        assert(x@.skip(i as int).skip(1) == x@.skip(i + 1));
        assert(y@.skip(i as int).skip(1) == y@.skip(i + 1));
        i = i + 1;
    }
    i < y.len()
}

/// The number that decimal digits stand for, the first digit counting most.
pub open spec fn value_of(digits: Seq<char>) -> nat
    decreases digits.len(),
{
    if digits.len() == 0 {
        0
    } else {
        (10 * value_of(digits.drop_last()) + (digits.last() as u32 - 48)) as nat
    }
}

/// Whether all characters are decimal digits.
pub open spec fn all_digits(s: Seq<char>) -> bool {
    forall|i: int| 0 <= i < s.len() ==> '0' <= #[trigger] s[i] && s[i] <= '9'
}

/// Decimal notation reads back as the number. It has digits only, at least one,
/// and no leading zero but that of zero itself.
pub proof fn decimal_reads_back(n: nat)
    ensures
        value_of(decimal(n)) == n,
        all_digits(decimal(n)),
        decimal(n).len() > 0,
        decimal(n)[0] == '0' <==> n == 0,
    decreases n,
{
    let d = decimal(n);
    if n < 10 {
        assert(d.drop_last() == Seq::<char>::empty());
        assert(value_of(d.drop_last()) == 0);
    } else {
        decimal_reads_back(n / 10);
        assert(d.drop_last() == decimal(n / 10));
        assert(d[0] == decimal(n / 10)[0]);
        assert forall|i: int| 0 <= i < d.len() implies '0' <= #[trigger] d[i] && d[i] <= '9' by {
            if i < d.len() - 1 {
                assert(d[i] == decimal(n / 10)[i]);
            }
        }
    }
}

/// 10 to the power of `n`.
pub open spec fn ten_to(n: nat) -> nat
    decreases n,
{
    if n == 0 {
        1
    } else {
        10 * ten_to((n - 1) as nat)
    }
}

/// A number in a field of zeros and digits reads back, where the field is wide
/// enough.
pub proof fn padded_reads_back(n: nat, width: nat)
    requires
        n < ten_to(width),
    ensures
        value_of(padded(n, width)) == n,
        padded(n, width).len() == width,
        all_digits(padded(n, width)),
    decreases width,
{
    let d = padded(n, width);
    if width > 0 {
        let w = (width - 1) as nat;
        padded_reads_back(n / 10, w);
        assert(d.drop_last() == padded(n / 10, w));
        assert forall|i: int| 0 <= i < d.len() implies '0' <= #[trigger] d[i] && d[i] <= '9' by {
            if i < d.len() - 1 {
                assert(d[i] == padded(n / 10, w)[i]);
            }
        }
    }
}

/// A negative number has a minus sign in front of its digits, and only a
/// negative number has one.
pub proof fn signed_decimal_reads_back(n: int)
    ensures
        n >= 0 ==> all_digits(signed_decimal(n)) && value_of(signed_decimal(n)) == n,
        n < 0 ==> signed_decimal(n)[0] == '-' && all_digits(signed_decimal(n).skip(1))
            && value_of(signed_decimal(n).skip(1)) == -n,
{
    reveal_strlit("-");
    if n < 0 {
        let size = (-n) as nat;
        decimal_reads_back(size);
        assert(signed_decimal(n).skip(1) == decimal(size));
    } else {
        decimal_reads_back(n as nat);
    }
}

/// Joining undoes splitting.
pub proof fn joined_of_split(s: Seq<char>, sep: char)
    ensures
        joined(split_on(s, sep), seq![sep]) == s,
    decreases s.len(),
{
    if s.len() > 0 {
        let t = s.drop_last();
        let before = split_on(t, sep);
        joined_of_split(t, sep);
        split_on_has_pieces(t, sep);
        if s.last() == sep {
            let after = before.push(Seq::empty());
            assert(after.drop_last() == before);
            assert(joined(after, seq![sep]) == t + seq![sep] + Seq::<char>::empty());
            assert(t + seq![sep] + Seq::<char>::empty() == s);
        } else {
            let piece = before.last().push(s.last());
            let after = before.drop_last().push(piece);
            if before.len() == 1 {
                assert(after[0] == piece);
                assert(before[0] == t);
                assert(piece == s);
            } else {
                assert(after.drop_last() == before.drop_last());
                let front = joined(before.drop_last(), seq![sep]) + seq![sep];
                assert(t == front + before.last());
                assert(front + piece == (front + before.last()).push(s.last()));
                assert(t.push(s.last()) == s);
            }
        }
    } else {
        assert(s == Seq::<char>::empty());
    }
}

/// The lines of a text whose lines all end: with a line feed, or with a carriage
/// return and a line feed where `cr` says so.
pub proof fn lines_of_ended(list: Seq<Seq<char>>, cr: spec_fn(int) -> bool)
    requires
        forall|i: int| 0 <= i < list.len() ==> !(#[trigger] list[i]).contains('\n'),
        forall|i: int|
            0 <= i < list.len() && (#[trigger] list[i]).len() > 0 && list[i].last() == '\r' ==> cr(
                i,
            ),
    ensures
        lines(ended(list, cr)) == list,
    decreases list.len(),
{
    let pieces = Seq::new(
        list.len() + 1,
        |i: int|
            if i == list.len() {
                Seq::empty()
            } else if cr(i) {
                list[i].push('\r')
            } else {
                list[i]
            },
    );
    assert forall|i: int| 0 <= i < pieces.len() implies !(#[trigger] pieces[i]).contains(
        '\n',
    ) by {
        if i < list.len() && cr(i) {
            let p = pieces[i];
            if p.contains('\n') {
                let k = choose|k: int| 0 <= k < p.len() && p[k] == '\n';
                assert(list[i][k] == '\n');
            }
        }
    }
    ended_is_joined(list, cr, list.len() as int);
    split_of_joined(pieces, '\n');
    assert(lines(ended(list, cr)) =~= list) by {
        assert forall|i: int| 0 <= i < list.len() implies #[trigger] lines(ended(list, cr))[i]
            == list[i] by {
            if cr(i) {
                assert(list[i].push('\r').drop_last() == list[i]);
            }
        }
    }
}

/// Lines with their endings, one behind the other.
pub open spec fn ended(list: Seq<Seq<char>>, cr: spec_fn(int) -> bool) -> Seq<char> {
    Seq::new(
        list.len(),
        |i: int|
            if cr(i) {
                list[i].push('\r').push('\n')
            } else {
                list[i].push('\n')
            },
    ).flatten()
}

/// The last part stands at the end of all parts together.
pub proof fn flatten_last<A>(list: Seq<Seq<A>>)
    requires
        list.len() > 0,
    ensures
        list.flatten() == list.drop_last().flatten() + list.last(),
    decreases list.len(),
{
    let none = Seq::<A>::empty();
    if list.len() == 1 {
        assert(list.drop_first() == Seq::<Seq<A>>::empty());
        assert(list.drop_last() == Seq::<Seq<A>>::empty());
        assert(list.drop_first().flatten() == none);
        assert(list.flatten() == list[0] + none);
        assert(list[0] + none == list[0]);
        assert(none + list[0] == list[0]);
    } else {
        flatten_last(list.drop_first());
        let middle = list.drop_first().drop_last();
        assert(list.drop_last().drop_first() == middle);
        assert(list.drop_first().last() == list.last());
        assert(list.flatten() == list[0] + (middle.flatten() + list.last()));
        assert(list.drop_last().flatten() == list[0] + middle.flatten());
        assert(list[0] + (middle.flatten() + list.last()) == list[0] + middle.flatten()
            + list.last());
    }
}

proof fn ended_is_joined(list: Seq<Seq<char>>, cr: spec_fn(int) -> bool, n: int)
    requires
        0 <= n <= list.len(),
    ensures
        ({
            let pieces = Seq::new(
                list.len() + 1,
                |i: int|
                    if i == list.len() {
                        Seq::empty()
                    } else if cr(i) {
                        list[i].push('\r')
                    } else {
                        list[i]
                    },
            );
            joined(pieces.take(n).push(Seq::empty()), seq!['\n']) == ended(list.take(n), cr)
        }),
        n == list.len() ==> {
            let pieces = Seq::new(
                list.len() + 1,
                |i: int|
                    if i == list.len() {
                        Seq::empty()
                    } else if cr(i) {
                        list[i].push('\r')
                    } else {
                        list[i]
                    },
            );
            joined(pieces, seq!['\n']) == ended(list, cr)
        },
    decreases n,
{
    let pieces = Seq::new(
        list.len() + 1,
        |i: int|
            if i == list.len() {
                Seq::empty()
            } else if cr(i) {
                list[i].push('\r')
            } else {
                list[i]
            },
    );
    let all = |m: int|
        Seq::new(
            list.take(m).len(),
            |i: int|
                if cr(i) {
                    list.take(m)[i].push('\r').push('\n')
                } else {
                    list.take(m)[i].push('\n')
                },
        );
    let empty = Seq::<char>::empty();
    let sep = seq!['\n'];
    if n == 0 {
        assert(pieces.take(0).push(empty) == seq![empty]);
        assert(all(0) == Seq::<Seq<char>>::empty());
    } else {
        ended_is_joined(list, cr, n - 1);
        let shorter = pieces.take(n - 1).push(empty);
        let longer = pieces.take(n).push(empty);
        let piece = pieces[n - 1];
        let front = joined(shorter, sep);
        assert(longer.drop_last() == pieces.take(n));
        assert(all(n).drop_last() == all(n - 1));
        assert(all(n).last() == piece + sep);
        flatten_last(all(n));
        assert(ended(list.take(n), cr) == front + (piece + sep));
        assert(joined(pieces.take(n), sep) == front + piece) by {
            if n == 1 {
                assert(pieces.take(1) == seq![piece]);
                assert(shorter == seq![empty]);
                assert(empty + piece == piece);
            } else {
                assert(pieces.take(n).drop_last() == pieces.take(n - 1));
                assert(shorter.drop_last() == pieces.take(n - 1));
                let head = joined(pieces.take(n - 1), sep);
                assert(front == head + sep + empty);
                assert(head + sep + empty + piece == head + sep + piece);
            }
        }
        assert(front + piece + sep + empty == front + (piece + sep));
    }
    if n == list.len() {
        assert(pieces.take(n).push(empty) == pieces);
        assert(list.take(n) == list);
    }
}

/// The last line of a text may lack its ending.
pub proof fn unended_line_counts(s: Seq<char>, line: Seq<char>)
    requires
        s.len() == 0 || s.last() == '\n',
        line.len() > 0,
        !line.contains('\n'),
    ensures
        lines(s + line) == lines(s).push(line),
{
    if s.len() == 0 {
        assert(s + line == line);
        split_of_piece(line, '\n');
        assert(split_on(s, '\n') == seq![Seq::<char>::empty()]);
        assert(lines(s + line) =~= lines(s).push(line));
    } else {
        let t = s.drop_last();
        assert(t + seq!['\n'] == s);
        split_of_appended(t, '\n', line);
        split_of_appended(t, '\n', Seq::empty());
        assert(t + seq!['\n'] + Seq::<char>::empty() == s);
        split_on_has_pieces(t, '\n');
        assert(lines(s + line) =~= lines(s).push(line));
    }
}

/// One text comes before another exactly if it is a proper start of it, or has
/// the smaller character where the two first differ.
pub proof fn before_by_first_difference(a: Seq<char>, b: Seq<char>, n: int)
    requires
        0 <= n <= a.len(),
        n <= b.len(),
        a.take(n) == b.take(n),
        n < a.len() && n < b.len() ==> a[n] != b[n],
    ensures
        text_before(a, b) <==> n < b.len() && (n == a.len() || a[n] < b[n]),
    decreases n,
{
    if n > 0 {
        assert(a[0] == a.take(n)[0] && b[0] == b.take(n)[0]);
        assert(a.skip(1).take(n - 1) == a.take(n).skip(1));
        assert(b.skip(1).take(n - 1) == b.take(n).skip(1));
        before_by_first_difference(a.skip(1), b.skip(1), n - 1);
    }
}

/// The first word stands behind white space and in front of white space or the
/// end.
pub proof fn first_word_is_first(front: Seq<char>, word: Seq<char>, rest: Seq<char>)
    requires
        forall|i: int| 0 <= i < front.len() ==> is_space(#[trigger] front[i]),
        word.len() > 0,
        forall|i: int| 0 <= i < word.len() ==> !is_space(#[trigger] word[i]),
        rest.len() > 0 ==> is_space(rest[0]),
    ensures
        first_word(front + word + rest) == word,
    decreases front.len(),
{
    let s = front + word + rest;
    if front.len() > 0 {
        let shorter = front.skip(1);
        assert forall|i: int| 0 <= i < shorter.len() implies is_space(#[trigger] shorter[i]) by {
            assert(shorter[i] == front[i + 1]);
        }
        assert(s[0] == front[0]);
        assert(s.skip(1) == shorter + word + rest);
        first_word_is_first(shorter, word, rest);
    } else {
        assert(s == word + rest);
        assert(s[0] == word[0]);
        leading_word_ends(word, rest);
    }
}

proof fn leading_word_ends(word: Seq<char>, rest: Seq<char>)
    requires
        forall|i: int| 0 <= i < word.len() ==> !is_space(#[trigger] word[i]),
        rest.len() > 0 ==> is_space(rest[0]),
    ensures
        leading_word(word + rest) == word,
    decreases word.len(),
{
    let s = word + rest;
    if word.len() == 0 {
        assert(s == rest);
        assert(word == Seq::<char>::empty());
    } else {
        let shorter = word.skip(1);
        assert forall|i: int| 0 <= i < shorter.len() implies !is_space(#[trigger] shorter[i]) by {
            assert(shorter[i] == word[i + 1]);
        }
        leading_word_ends(shorter, rest);
        assert(s.skip(1) == shorter + rest);
        assert(s[0] == word[0]);
        assert(seq![word[0]] + shorter == word);
    }
}

/// A text ends with another exactly if something can stand in front of it.
pub proof fn ending_has_front(s: Seq<char>, suffix: Seq<char>)
    ensures
        ends_with(s, suffix) <==> exists|front: Seq<char>| s == #[trigger] (front + suffix),
{
    if ends_with(s, suffix) {
        let front = s.take(s.len() - suffix.len());
        assert(s == front + suffix);
    }
    if exists|front: Seq<char>| s == #[trigger] (front + suffix) {
        let front = choose|front: Seq<char>| s == #[trigger] (front + suffix);
        assert(s.skip(s.len() - suffix.len()) == suffix);
    }
}

/// Making letters small keeps the length, turns ASCII capitals into the letters
/// 32 places further and leaves all else as it is.
pub proof fn lower_by_character(s: Seq<char>, i: int)
    requires
        0 <= i < s.len(),
    ensures
        lower(s).len() == s.len(),
        65 <= s[i] as u32 <= 90 ==> lower(s)[i] as u32 == s[i] as u32 + 32,
        !(65 <= s[i] as u32 <= 90) ==> lower(s)[i] == s[i],
{
}

/// The pieces that are kept are those that are not empty, in their order.
pub proof fn nonempty_is_a_filter(pieces: Seq<Seq<char>>)
    ensures
        nonempty(pieces) == pieces.filter(|p: Seq<char>| p.len() > 0),
    decreases pieces.len(),
{
    let full = |p: Seq<char>| p.len() > 0;
    reveal(Seq::filter);
    if pieces.len() > 0 {
        nonempty_is_a_filter(pieces.drop_last());
        assert(pieces.drop_last().filter(full) == nonempty(pieces.drop_last()));
    }
}

} // verus!
