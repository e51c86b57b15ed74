//! Sizes, times and comparisons as text.

use vstd::prelude::*;

use crate::binary64;
use crate::binary64::{
    count_percent, count_units, divide, no_more, round_half_even, round_int, round_seconds,
    round_whole, truncate, Double,
};
use crate::text;

verus! {

/// A span of time.
#[derive(Debug, Clone, Copy, PartialEq, Eq)]
pub struct Elapsed {
    /// Whole seconds.
    pub secs: u64,
    /// Nanoseconds besides, less than a second.
    pub nanos: u32,
}

/// Whether the nanoseconds are less than a second.
pub open spec fn proper(e: Elapsed) -> bool {
    e.nanos < 1_000_000_000
}

/// A time as a double number of seconds.
pub open spec fn seconds_of(e: Elapsed) -> binary64::DoubleModel {
    binary64::seconds(e.secs, e.nanos)
}

/// `n` hundredths.
pub open spec fn hundredths(n: nat) -> Seq<char> {
    text::decimal(n / 100) + "."@ + text::padded(n % 100, 2)
}

/// `n` hundredths.
fn hundredths_text(n: u128) -> (out: String)
    ensures
        out@ == hundredths(n as nat),
{
    text::wide_decimal_text(n / 100).concat(".").concat(
        text::padded_text((n % 100) as u64, 2).as_str(),
    )
}

/// `n` thousandths.
pub open spec fn thousandths(n: nat) -> Seq<char> {
    text::decimal(n / 1000) + "."@ + text::padded(n % 1000, 3)
}

/// `n` thousandths.
fn thousandths_text(n: u128) -> (out: String)
    ensures
        out@ == thousandths(n as nat),
{
    text::wide_decimal_text(n / 1000).concat(".").concat(
        text::padded_text((n % 1000) as u64, 3).as_str(),
    )
}

/// A duration in a human-readable form.
pub open spec fn duration_text(e: Elapsed) -> Seq<char> {
    if e.secs == 0 && e.nanos == 0 {
        "0s"@
    } else if e.secs == 0 && e.nanos < 1_000_000 {
        text::decimal(
            if e.nanos < 1000 {
                1
            } else {
                e.nanos as nat / 1000
            },
        ) + "µs"@
    } else if e.secs < 60 {
        seconds_shown(e) + "s"@
    } else if e.secs < 3600 {
        text::decimal(e.secs as nat / 60) + "m "@ + text::padded(e.secs as nat % 60, 2) + "s"@
    } else {
        text::decimal(e.secs as nat / 3600) + "h "@ + text::padded(
            e.secs as nat % 3600 / 60,
            2,
        ) + "m "@ + text::padded(e.secs as nat % 60, 2) + "s"@
    }
}

/// Format a duration in a human-readable form (`1.234s`, `2m 03s`,
/// `1h 02m 03s`).
pub fn format_duration(e: Elapsed) -> (out: String)
    requires
        proper(e),
    ensures
        out@ == duration_text(e),
{
    if e.secs == 0 && e.nanos == 0 {
        return "0s".to_owned();
    }
    if e.secs == 0 && e.nanos < 1_000_000 {
        let micros: u64 = if e.nanos < 1000 {
            1
        } else {
            (e.nanos / 1000) as u64
        };
        return text::decimal_text(micros).concat("µs");
    }
    if e.secs < 60 {
        return seconds_text(e).concat("s");
    }
    if e.secs < 3600 {
        return text::decimal_text(e.secs / 60).concat("m ").concat(
            text::padded_text(e.secs % 60, 2).as_str(),
        ).concat("s");
    }
    text::decimal_text(e.secs / 3600).concat("h ").concat(
        text::padded_text(e.secs % 3600 / 60, 2).as_str(),
    ).concat("m ").concat(text::padded_text(e.secs % 60, 2).as_str()).concat("s")
}

/// The binary unit for a size: its name, and how many bytes it is.
pub open spec fn unit_for(size: nat) -> (Seq<char>, nat) {
    if size < 0x400 {
        ("B"@, 1)
    } else if size < 0x10_0000 {
        ("KiB"@, 0x400)
    } else if size < 0x4000_0000 {
        ("MiB"@, 0x10_0000)
    } else if size < 0x100_0000_0000 {
        ("GiB"@, 0x4000_0000)
    } else {
        ("TiB"@, 0x100_0000_0000)
    }
}

/// A size in binary units: bytes exactly, larger units with two decimals.
pub open spec fn bytes_text(bytes: nat) -> Seq<char> {
    let size = binary64::whole(bytes);
    let (name, unit) = unit_for(size);
    if unit == 1 {
        text::decimal(bytes) + " "@ + name
    } else {
        hundredths(binary64::half_even(100 * size, unit)) + " "@ + name
    }
}

/// Human-readable byte size (binary units).
pub fn display_bytes(bytes: u64) -> (out: String)
    ensures
        out@ == bytes_text(bytes as nat),
{
    let size: u128 = round_whole(bytes as u128);
    if size < 0x400 {
        return text::decimal_text(bytes).concat(" ").concat("B");
    }
    let (name, unit): (&str, u128) = if size < 0x10_0000 {
        ("KiB", 0x400)
    } else if size < 0x4000_0000 {
        ("MiB", 0x10_0000)
    } else if size < 0x100_0000_0000 {
        ("GiB", 0x4000_0000)
    } else {
        ("TiB", 0x100_0000_0000)
    };
    hundredths_text(round_half_even(100 * size, unit)).concat(" ").concat(name)
}

/// Bytes per second in double arithmetic, without the fraction.
pub open spec fn rate(bytes: u64, e: Elapsed) -> nat {
    if e.secs == 0 && e.nanos == 0 {
        bytes as nat
    } else {
        binary64::truncated(binary64::quotient(binary64::double_of(bytes), seconds_of(e)))
    }
}

/// Bytes per second given elapsed time.
pub fn bytes_per_second(bytes: u64, elapsed: Elapsed) -> (out: u64)
    requires
        proper(elapsed),
    ensures
        out == rate(bytes, elapsed),
{
    if elapsed.secs == 0 && elapsed.nanos == 0 {
        return bytes;
    }
    truncate(divide(round_int(bytes), round_seconds(elapsed.secs, elapsed.nanos)))
}

/// A compressed size in percent of the original, in units of one `k`th; 0 where
/// the original is empty.
pub open spec fn ratio_units(compressed: nat, original: nat, k: nat) -> nat {
    if original == 0 {
        0
    } else {
        binary64::percent_units(binary64::whole(compressed), binary64::whole(original), k)
    }
}

/// A compressed size in percent of the original, with two decimals.
pub fn ratio_text(compressed: u64, original: u64) -> (out: String)
    ensures
        out@ == hundredths(ratio_units(compressed as nat, original as nat, 100)),
{
    if original == 0 {
        return hundredths_text(0);
    }
    hundredths_text(
        count_percent(round_whole(compressed as u128), round_whole(original as u128), 100),
    )
}

/// `n` tenths.
pub open spec fn tenths(n: nat) -> Seq<char> {
    text::decimal(n / 10) + "."@ + text::padded(n % 10, 1)
}

/// A compressed size in percent of the original, with one decimal.
pub fn short_ratio_text(compressed: u64, original: u64) -> (out: String)
    ensures
        out@ == tenths(ratio_units(compressed as nat, original as nat, 10)),
{
    let n: u128 = if original == 0 {
        0
    } else {
        count_percent(round_whole(compressed as u128), round_whole(original as u128), 10)
    };
    text::wide_decimal_text(n / 10).concat(".").concat(
        text::padded_text((n % 10) as u64, 1).as_str(),
    )
}

/// A time in seconds, with three decimals.
pub open spec fn seconds_shown(e: Elapsed) -> Seq<char> {
    thousandths(binary64::units(seconds_of(e), 1000))
}

/// A time in seconds, with three decimals.
pub fn seconds_text(e: Elapsed) -> (out: String)
    requires
        proper(e),
    ensures
        out@ == seconds_shown(e),
{
    thousandths_text(count_units(round_seconds(e.secs, e.nanos), 1000))
}

/// How `measured` bytes compare with `baseline` bytes: the difference of the
/// two as doubles, in percent of the baseline.
pub open spec fn size_delta(baseline: nat, measured: nat) -> Seq<char> {
    if baseline == 0 {
        "0.00% different"@
    } else {
        let b = binary64::whole(baseline);
        let m = binary64::whole(measured);
        if b >= m {
            hundredths(
                binary64::percent_units(binary64::whole((b - m) as nat), b, 100),
            ) + "% smaller"@
        } else {
            hundredths(
                binary64::percent_units(binary64::whole((m - b) as nat), b, 100),
            ) + "% larger"@
        }
    }
}

/// How `measured` bytes compare with `baseline` bytes.
pub fn describe_size_delta(baseline: u64, measured: u64) -> (out: String)
    ensures
        out@ == size_delta(baseline as nat, measured as nat),
{
    if baseline == 0 {
        return "0.00% different".to_owned();
    }
    let b: u128 = round_whole(baseline as u128);
    let m: u128 = round_whole(measured as u128);
    if b >= m {
        hundredths_text(count_percent(round_whole(b - m), b, 100)).concat("% smaller")
    } else {
        hundredths_text(count_percent(round_whole(m - b), b, 100)).concat("% larger")
    }
}

/// How a measured time compares with a baseline: the double quotient.
pub open spec fn speed_delta(baseline: Elapsed, measured: Elapsed) -> Seq<char> {
    let b = seconds_of(baseline);
    let m = seconds_of(measured);
    if b is Zero || m is Zero {
        "timing difference was too small to compare"@
    } else if binary64::at_most(m, b) {
        hundredths(binary64::units(binary64::quotient(b, m), 100)) + "x faster"@
    } else {
        hundredths(binary64::units(binary64::quotient(m, b), 100)) + "x slower"@
    }
}

/// How a measured time compares with a baseline.
pub fn describe_speed_delta(baseline: Elapsed, measured: Elapsed) -> (out: String)
    requires
        proper(baseline),
        proper(measured),
    ensures
        out@ == speed_delta(baseline, measured),
{
    let b: Double = round_seconds(baseline.secs, baseline.nanos);
    let m: Double = round_seconds(measured.secs, measured.nanos);
    if (baseline.secs == 0 && baseline.nanos == 0) || (measured.secs == 0 && measured.nanos == 0) {
        return "timing difference was too small to compare".to_owned();
    }
    if no_more(m, b) {
        hundredths_text(count_units(divide(b, m), 100)).concat("x faster")
    } else {
        hundredths_text(count_units(divide(m, b), 100)).concat("x slower")
    }
}

/// Whether any time passed at all.
pub open spec fn passed(e: Elapsed) -> bool {
    e.secs > 0 || e.nanos > 0
}

/// The factor between two times, in hundredths.
pub open spec fn factor(longer: Elapsed, shorter: Elapsed) -> nat {
    binary64::units(binary64::quotient(seconds_of(longer), seconds_of(shorter)), 100)
}

/// Swapping two different times turns "faster" into "slower" with the same
/// factor, which is never below 1.00.
pub proof fn swapped_times(shorter: Elapsed, longer: Elapsed)
    requires
        passed(shorter),
        passed(longer),
        binary64::at_most(seconds_of(shorter), seconds_of(longer)),
        seconds_of(shorter) != seconds_of(longer),
    ensures
        speed_delta(longer, shorter) == hundredths(factor(longer, shorter)) + "x faster"@,
        speed_delta(shorter, longer) == hundredths(factor(longer, shorter)) + "x slower"@,
        factor(longer, shorter) >= 100,
{
    binary64::seconds_are_double(shorter.secs, shorter.nanos);
    binary64::seconds_are_double(longer.secs, longer.nanos);
    binary64::quotient_of_larger(seconds_of(longer), seconds_of(shorter), 100);
}

/// The factor that a comparison of two times shows is never below 1.00.
pub proof fn factor_is_at_least_one(baseline: Elapsed, measured: Elapsed)
    requires
        passed(baseline),
        passed(measured),
    ensures
        exists|n: nat|
            n >= 100 && (speed_delta(baseline, measured) == #[trigger] hundredths(n) + "x faster"@
                || speed_delta(baseline, measured) == hundredths(n) + "x slower"@),
{
    let b = seconds_of(baseline);
    let m = seconds_of(measured);
    binary64::seconds_are_double(baseline.secs, baseline.nanos);
    binary64::seconds_are_double(measured.secs, measured.nanos);
    if binary64::at_most(m, b) {
        binary64::quotient_of_larger(b, m, 100);
        let n = factor(baseline, measured);
        assert(speed_delta(baseline, measured) == hundredths(n) + "x faster"@);
    } else {
        binary64::quotient_of_larger(m, b, 100);
        let n = factor(measured, baseline);
        assert(speed_delta(baseline, measured) == hundredths(n) + "x slower"@);
    }
}

/// `s` in at most `max` characters; what is cut off is shown by an ellipsis.
pub open spec fn shortened(s: Seq<char>, max: nat) -> Seq<char> {
    if s.len() <= max {
        s
    } else {
        s.take(
            if max == 0 {
                0
            } else {
                max - 1
            },
        ).push('…')
    }
}

/// `s` in at most `max` characters, with an ellipsis for what is cut off.
pub fn truncate_display(s: &str, max: usize) -> (out: String)
    ensures
        out@ == shortened(s@, max as nat),
{
    let chars: Vec<char> = text::chars_of(s);
    if chars.len() <= max {
        return s.to_owned();
    }
    let keep: usize = if max == 0 {
        0
    } else {
        max - 1
    };
    let mut out: String = text::text_between(chars.as_slice(), 0, keep);
    assert(out@ == s@.take(keep as int));
    out.push('…');
    out
}

/// A shortened text never takes more room than asked for, except that an
/// ellipsis needs one place.
pub proof fn shortened_fits(s: Seq<char>, max: nat)
    ensures
        shortened(s, max).len() <= if max == 0 {
            1
        } else {
            max
        },
        s.len() <= max ==> shortened(s, max) == s,
{
}

/// A ratio is the compressed size in percent of the original, and nothing of an
/// empty original. It is at most 100% where the compressed size is no larger,
/// and at least 100% where it is no smaller.
pub proof fn ratio_is_percentage(compressed: nat, original: nat, k: nat)
    requires
        k <= 1000,
    ensures
        original == 0 ==> ratio_units(compressed, original, k) == 0,
        original > 0 ==> binary64::is_percentage(
            ratio_units(compressed, original, k),
            compressed,
            original,
            k,
        ),
        compressed <= original ==> ratio_units(compressed, original, k) <= 100 * k,
        compressed >= original > 0 ==> ratio_units(compressed, original, k) >= 100 * k,
{
    if original > 0 {
        binary64::percent_is_percentage(compressed, original, k);
        let n = ratio_units(compressed, original, k);
        let b: int = binary64::BOUND as int;
        let full = 100 * k;
        let exact = full * compressed;
        if compressed <= original {
            assert(n < full + 1) by (nonlinear_arith)
                requires
                    2 * b * (n * original) <= 2 * b * exact + b * original + 16 * exact,
                    exact == full * compressed,
                    compressed <= original,
                    original > 0,
                    0 <= full <= 100_000,
                    b >= 1_600_001,
            ;
        }
        if compressed >= original {
            assert(n > full - 1) by (nonlinear_arith)
                requires
                    2 * b * exact <= 2 * b * (n * original) + b * original + 16 * exact,
                    exact == full * compressed,
                    compressed >= original,
                    original > 0,
                    0 <= full <= 100_000,
                    b >= 1_600_001,
            ;
        }
    }
}

/// Whether `shown` is `n` with a point in front of its last digits.
pub open spec fn shows_fraction(shown: Seq<char>, n: nat, places: nat) -> bool {
    exists|front: Seq<char>, back: Seq<char>|
        {
            &&& shown == #[trigger] (front + "."@ + back)
            &&& front.len() > 0
            &&& back.len() == places
            &&& text::all_digits(front + back)
            &&& text::value_of(front + back) == n
        }
}

/// Hundredths, tenths and thousandths read back: all digits together are the
/// number, and the point stands in front of the last two, one or three.
pub proof fn fractions_read_back(n: nat)
    ensures
        shows_fraction(hundredths(n), n, 2),
        shows_fraction(tenths(n), n, 1),
        shows_fraction(thousandths(n), n, 3),
{
    reveal_with_fuel(text::ten_to, 4);
    fraction_reads_back(n, 100, 2);
    fraction_reads_back(n, 10, 1);
    fraction_reads_back(n, 1000, 3);
}

proof fn fraction_reads_back(n: nat, unit: nat, places: nat)
    requires
        unit == text::ten_to(places),
        unit > 0,
    ensures
        shows_fraction(
            text::decimal(n / unit) + "."@ + text::padded(n % unit, places),
            n,
            places,
        ),
{
    let front = text::decimal(n / unit);
    let back = text::padded(n % unit, places);
    text::decimal_reads_back(n / unit);
    text::padded_reads_back(n % unit, places);
    digits_appended(front, back);
    vstd::arithmetic::div_mod::lemma_fundamental_div_mod(n as int, unit as int);
    assert(n / unit * unit == unit * (n / unit)) by (nonlinear_arith);
    assert(text::all_digits(front + back)) by {
        assert forall|i: int| 0 <= i < (front + back).len() implies '0' <= #[trigger] (front
            + back)[i] && (front + back)[i] <= '9' by {
            if i < front.len() {
                assert((front + back)[i] == front[i]);
            } else {
                assert((front + back)[i] == back[i - front.len()]);
            }
        }
    }
    assert(text::decimal(n / unit) + "."@ + text::padded(n % unit, places) == front + "."@ + back);
}

/// The value of digits one behind the other.
proof fn digits_appended(a: Seq<char>, b: Seq<char>)
    requires
        text::all_digits(b),
    ensures
        text::value_of(a + b) == text::value_of(a) * text::ten_to(b.len()) + text::value_of(b),
    decreases b.len(),
{
    if b.len() == 0 {
        assert(a + b == a);
        assert(text::value_of(a) * 1 == text::value_of(a));
    } else {
        let c = b.drop_last();
        assert(text::all_digits(c)) by {
            assert forall|i: int| 0 <= i < c.len() implies '0' <= #[trigger] c[i] && c[i]
                <= '9' by {
                assert(c[i] == b[i]);
            }
        }
        digits_appended(a, c);
        assert((a + b).drop_last() == a + c);
        assert((a + b).last() == b.last());
        assert('0' <= b[b.len() - 1]);
        let x = text::value_of(a);
        let t = text::ten_to(c.len());
        assert(10 * (x * t) == x * (10 * t)) by (nonlinear_arith);
    }
}

/// Whether `shown` is `bytes` in hundredths of a unit, to the nearest.
pub open spec fn shows_size(shown: Seq<char>, bytes: nat, unit: nat, name: Seq<char>) -> bool {
    exists|n: nat|
        shown == #[trigger] hundredths(n) + " "@ + name && 2 * (n * unit) <= 200 * bytes + unit
            && 200 * bytes <= 2 * (n * unit) + unit
}

proof fn half_even_shows(bytes: nat, unit: nat, name: Seq<char>)
    requires
        unit > 0,
    ensures
        shows_size(
            hundredths(binary64::half_even(100 * bytes, unit)) + " "@ + name,
            bytes,
            unit,
            name,
        ),
{
    let n = binary64::half_even(100 * bytes, unit);
    binary64::half_even_is_near(100 * bytes, unit);
    assert(hundredths(n) + " "@ + name == hundredths(n) + " "@ + name);
}

/// A size is shown in the largest binary unit that it fills: bytes as they are,
/// larger units rounded to hundredths.
pub proof fn sizes_are_in_units(bytes: nat)
    requires
        bytes < binary64::BOUND,
    ensures
        bytes < 1024 ==> bytes_text(bytes) == text::decimal(bytes) + " B"@,
        1024 <= bytes < 1024 * 1024 ==> shows_size(bytes_text(bytes), bytes, 1024, "KiB"@),
        1024 * 1024 <= bytes < 1024 * 1024 * 1024 ==> shows_size(
            bytes_text(bytes),
            bytes,
            1024 * 1024,
            "MiB"@,
        ),
        1024 * 1024 * 1024 <= bytes < 1024 * 1024 * 1024 * 1024 ==> shows_size(
            bytes_text(bytes),
            bytes,
            1024 * 1024 * 1024,
            "GiB"@,
        ),
        1024 * 1024 * 1024 * 1024 <= bytes ==> shows_size(
            bytes_text(bytes),
            bytes,
            1024 * 1024 * 1024 * 1024,
            "TiB"@,
        ),
{
    if bytes < 1024 {
        reveal_strlit(" ");
        reveal_strlit("B");
        reveal_strlit(" B");
        assert(" "@ + "B"@ == " B"@);
        assert(text::decimal(bytes) + " "@ + "B"@ == text::decimal(bytes) + (" "@ + "B"@));
    } else if bytes < 1024 * 1024 {
        half_even_shows(bytes, 0x400, "KiB"@);
    } else if bytes < 1024 * 1024 * 1024 {
        half_even_shows(bytes, 0x10_0000, "MiB"@);
    } else if bytes < 1024 * 1024 * 1024 * 1024 {
        half_even_shows(bytes, 0x4000_0000, "GiB"@);
    } else {
        half_even_shows(bytes, 0x100_0000_0000, "TiB"@);
    }
}

/// A time in seconds shows thousandths, to the nearest.
pub proof fn seconds_are_shown(e: Elapsed)
    requires
        proper(e),
    ensures
        exists|n: nat|
            seconds_shown(e) == #[trigger] thousandths(n) && binary64::is_time_in_units(
                n,
                e.secs,
                e.nanos,
                1000,
            ),
{
    let n = binary64::units(seconds_of(e), 1000);
    binary64::time_units_are_right(e.secs, e.nanos, 1000);
    assert(seconds_shown(e) == thousandths(n));
}

/// Whether `shown` is a time in hours, minutes and seconds.
pub open spec fn shows_clock(shown: Seq<char>, secs: nat) -> bool {
    exists|h: nat, m: nat, s: nat|
        {
            &&& shown == #[trigger] text::decimal(h) + "h "@ + #[trigger] text::padded(m, 2)
                + "m "@ + #[trigger] text::padded(s, 2) + "s"@
            &&& h * 3600 + m * 60 + s == secs
            &&& m < 60
            &&& s < 60
            &&& h > 0
        }
}

/// Whether `shown` is a time in minutes and seconds.
pub open spec fn shows_minutes(shown: Seq<char>, secs: nat) -> bool {
    exists|m: nat, s: nat|
        {
            &&& shown == #[trigger] text::decimal(m) + "m "@ + #[trigger] text::padded(s, 2)
                + "s"@
            &&& m * 60 + s == secs
            &&& 0 < m < 60
            &&& s < 60
        }
}

/// A duration is shown in hours, minutes and seconds from an hour on, in
/// minutes and seconds from a minute on, and below that in seconds with
/// thousandths, or in whole microseconds where it is less than a millisecond.
pub proof fn durations_add_up(e: Elapsed)
    requires
        proper(e),
    ensures
        e.secs >= 3600 ==> shows_clock(duration_text(e), e.secs as nat),
        60 <= e.secs < 3600 ==> shows_minutes(duration_text(e), e.secs as nat),
        e.secs < 60 && (e.secs > 0 || e.nanos >= 1_000_000) ==> duration_text(e) == seconds_shown(
            e,
        ) + "s"@,
        e.secs == 0 && 0 < e.nanos < 1_000_000 ==> exists|n: nat|
            duration_text(e) == #[trigger] text::decimal(n) + "µs"@ && n >= 1 && (n == 1 || n * 1000
                <= e.nanos) && e.nanos < (n + 1) * 1000,
        e.secs == 0 && e.nanos == 0 ==> duration_text(e) == "0s"@,
{
    let secs = e.secs as nat;
    if secs >= 3600 {
        let h = secs / 3600;
        let m = secs % 3600 / 60;
        let s = secs % 60;
        assert(h * 3600 + m * 60 + s == secs);
        assert(duration_text(e) == text::decimal(h) + "h "@ + text::padded(m, 2) + "m "@
            + text::padded(s, 2) + "s"@);
    } else if secs >= 60 {
        let m = secs / 60;
        let s = secs % 60;
        assert(m * 60 + s == secs);
        assert(duration_text(e) == text::decimal(m) + "m "@ + text::padded(s, 2) + "s"@);
    } else if secs == 0 && 0 < e.nanos < 1_000_000 {
        let n: nat = if e.nanos < 1000 {
            1
        } else {
            e.nanos as nat / 1000
        };
        assert(duration_text(e) == text::decimal(n) + "µs"@);
    }
}

/// The rate of a transfer is the bytes per second, without the fraction; of a
/// transfer that took no time it is all the bytes.
pub proof fn rate_is_bytes_per_second(bytes: u64, e: Elapsed)
    requires
        proper(e),
        rate(bytes, e) < u64::MAX,
    ensures
        !passed(e) ==> rate(bytes, e) == bytes,
        passed(e) ==> {
            let exact = bytes as nat * 1_000_000_000;
            let time = binary64::billionths(e.secs, e.nanos);
            &&& binary64::BOUND * (rate(bytes, e) * time) <= (binary64::BOUND + 12) * exact
            &&& (binary64::BOUND - 12) * exact < binary64::BOUND * ((rate(bytes, e) + 1) * time)
        },
{
    if passed(e) {
        let time = binary64::billionths(e.secs, e.nanos);
        if bytes > 0 {
            binary64::bytes_per_time_are_right(bytes, e.secs, e.nanos);
        } else {
            assert(rate(bytes, e) == 0);
            assert(0 * time == 0 && (0 + 1) * time == time) by (nonlinear_arith);
        }
    }
}

/// Where a measured size is no larger than the baseline, it is called smaller by
/// the difference in percent of the baseline, else larger by it.
pub proof fn size_delta_is_percentage(baseline: nat, measured: nat)
    requires
        0 < baseline < binary64::BOUND,
        measured < binary64::BOUND,
    ensures
        measured <= baseline ==> exists|n: nat|
            size_delta(baseline, measured) == #[trigger] hundredths(n) + "% smaller"@
                && binary64::is_percentage(n, (baseline - measured) as nat, baseline, 100),
        measured > baseline ==> exists|n: nat|
            size_delta(baseline, measured) == #[trigger] hundredths(n) + "% larger"@
                && binary64::is_percentage(n, (measured - baseline) as nat, baseline, 100),
{
    if measured <= baseline {
        let d = (baseline - measured) as nat;
        binary64::percent_is_percentage(d, baseline, 100);
        let n = binary64::percent_units(binary64::whole(d), baseline, 100);
        assert(size_delta(baseline, measured) == hundredths(n) + "% smaller"@);
    } else {
        let d = (measured - baseline) as nat;
        binary64::percent_is_percentage(d, baseline, 100);
        let n = binary64::percent_units(binary64::whole(d), baseline, 100);
        assert(size_delta(baseline, measured) == hundredths(n) + "% larger"@);
    }
}

/// A measured time that is clearly shorter than the baseline is called faster, a
/// clearly longer one slower, by the quotient of the longer and the shorter
/// time. Clearly means by more than 16 parts in 2^53.
pub proof fn speed_delta_is_quotient(baseline: Elapsed, measured: Elapsed)
    requires
        proper(baseline),
        proper(measured),
        passed(baseline),
        passed(measured),
    ensures
        ({
            let b = binary64::billionths(baseline.secs, baseline.nanos);
            let m = binary64::billionths(measured.secs, measured.nanos);
            &&& binary64::BOUND * m + 16 * b < binary64::BOUND * b ==> exists|n: nat|
                speed_delta(baseline, measured) == #[trigger] hundredths(n) + "x faster"@
                    && binary64::is_quotient(n, b, m, 100)
            &&& binary64::BOUND * b + 16 * m < binary64::BOUND * m ==> exists|n: nat|
                speed_delta(baseline, measured) == #[trigger] hundredths(n) + "x slower"@
                    && binary64::is_quotient(n, m, b, 100)
        }),
{
    let b = binary64::billionths(baseline.secs, baseline.nanos);
    let m = binary64::billionths(measured.secs, measured.nanos);
    binary64::seconds_are_double(baseline.secs, baseline.nanos);
    binary64::seconds_are_double(measured.secs, measured.nanos);
    if binary64::BOUND * m + 16 * b < binary64::BOUND * b {
        binary64::shorter_time_is_less(
            measured.secs,
            measured.nanos,
            baseline.secs,
            baseline.nanos,
        );
        binary64::time_quotient_is_right(
            baseline.secs,
            baseline.nanos,
            measured.secs,
            measured.nanos,
            100,
        );
        let n = factor(baseline, measured);
        assert(speed_delta(baseline, measured) == hundredths(n) + "x faster"@);
    }
    if binary64::BOUND * b + 16 * m < binary64::BOUND * m {
        binary64::shorter_time_is_less(
            baseline.secs,
            baseline.nanos,
            measured.secs,
            measured.nanos,
        );
        binary64::time_quotient_is_right(
            measured.secs,
            measured.nanos,
            baseline.secs,
            baseline.nanos,
            100,
        );
        let n = factor(measured, baseline);
        assert(speed_delta(baseline, measured) == hundredths(n) + "x slower"@);
    }
}

/// A text that is too long keeps its start, as much of it as fits in front of
/// the ellipsis.
pub proof fn shortened_keeps_the_start(s: Seq<char>, max: nat)
    requires
        s.len() > max > 0,
    ensures
        shortened(s, max).len() == max,
        shortened(s, max).last() == '…',
        forall|i: int| 0 <= i < max - 1 ==> #[trigger] shortened(s, max)[i] == s[i],
{
}

/// A size of a tebibyte or more is shown in tebibytes, to half a hundredth and
/// to one part in 2^53 besides.
pub proof fn huge_sizes_are_in_tebibytes(bytes: nat)
    requires
        bytes >= 1024 * 1024 * 1024 * 1024,
    ensures
        exists|n: nat|
            {
                let unit: nat = 1024 * 1024 * 1024 * 1024;
                let b: int = binary64::BOUND as int;
                &&& bytes_text(bytes) == #[trigger] hundredths(n) + " TiB"@
                &&& 2 * b * (n * unit) <= 200 * (b + 1) * bytes + b * unit
                &&& 200 * (b - 1) * bytes <= 2 * b * (n * unit) + b * unit
            },
{
    let unit: nat = 0x100_0000_0000;
    let size = binary64::whole(bytes);
    let b: int = binary64::BOUND as int;
    binary64::whole_is_near(bytes);
    let n = binary64::half_even(100 * size, unit);
    binary64::half_even_is_near(100 * size, unit);
    assert(size >= unit) by {
        if bytes >= binary64::BOUND && size < unit {
            assert((b - 1) * bytes > b * size) by (nonlinear_arith)
                requires
                    bytes >= b,
                    size < 0x100_0000_0000,
                    b == 0x20_0000_0000_0000,
            ;
        }
    }
    reveal_strlit(" ");
    reveal_strlit("TiB");
    reveal_strlit(" TiB");
    assert(" "@ + "TiB"@ == " TiB"@);
    assert(hundredths(n) + " "@ + "TiB"@ == hundredths(n) + (" "@ + "TiB"@));
    assert(bytes_text(bytes) == hundredths(n) + " TiB"@);
    assert(2 * b * (n * unit) <= 200 * (b + 1) * bytes + b * unit) by (nonlinear_arith)
        requires
            2 * (n * unit) <= 2 * (100 * size) + unit,
            b * size <= (b + 1) * bytes,
            b > 0,
    ;
    assert(200 * (b - 1) * bytes <= 2 * b * (n * unit) + b * unit) by (nonlinear_arith)
        requires
            2 * (100 * size) <= 2 * (n * unit) + unit,
            (b - 1) * bytes <= b * size,
            b > 0,
    ;
}

/// For the same original, a larger compressed size is no smaller ratio.
pub proof fn ratio_grows(small: nat, large: nat, original: nat, k: nat)
    requires
        small <= large,
    ensures
        ratio_units(small, original, k) <= ratio_units(large, original, k),
{
    if original > 0 {
        binary64::percent_grows(small, large, original, k);
    }
}

} // verus!
