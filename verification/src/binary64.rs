//! Non-negative double-precision numbers as integers: a mantissa of 53 bits and
//! a power of two. Sizes and times are shown with the rounding of IEEE 754.

use vstd::prelude::*;

verus! {

/// 2 to the power of `n`.
pub open spec fn two_to(n: nat) -> nat
    decreases n,
{
    if n == 0 {
        1
    } else {
        2 * two_to((n - 1) as nat)
    }
}

/// Powers of the same base multiply by adding exponents.
pub proof fn two_to_sum(a: nat, b: nat)
    ensures
        two_to(a + b) == two_to(a) * two_to(b),
    decreases a,
{
    if a == 0 {
        assert(1 * two_to(b) == two_to(b)) by (nonlinear_arith);
    } else {
        two_to_sum((a - 1) as nat, b);
        let x = two_to((a - 1) as nat);
        let y = two_to(b);
        assert((2 * x) * y == 2 * (x * y)) by (nonlinear_arith);
        assert(a + b > 0 && (a + b - 1) as nat == (a - 1) as nat + b);
    }
}

/// Larger exponents give larger powers.
pub proof fn two_to_grows(a: nat, b: nat)
    requires
        a <= b,
    ensures
        two_to(a) <= two_to(b),
        two_to(a) > 0,
    decreases b,
{
    if a < b {
        two_to_grows(a, (b - 1) as nat);
    } else if a > 0 {
        two_to_grows((a - 1) as nat, (a - 1) as nat);
    }
}

/// Some powers of two.
pub proof fn two_to_values()
    ensures
        two_to(20) == 0x10_0000,
        two_to(32) == 0x1_0000_0000,
        two_to(52) == 0x10_0000_0000_0000,
        two_to(64) == 0x1_0000_0000_0000_0000,
        two_to(75) == 0x800_0000_0000_0000_0000,
        two_to(116) == 0x10_0000_0000_0000_0000_0000_0000_0000,
        two_to(117) == 0x20_0000_0000_0000_0000_0000_0000_0000,
        two_to(127) == 0x8000_0000_0000_0000_0000_0000_0000_0000,
{
    reveal_with_fuel(two_to, 21);
    assert(two_to(20) == 0x10_0000);
    assert(two_to(11) == 0x800);
    assert(two_to(12) == 0x1000);
    two_to_sum(20, 12);
    two_to_sum(20, 32);
    two_to_sum(32, 32);
    two_to_sum(64, 11);
    two_to_sum(52, 64);
    assert(two_to(52) * two_to(64) == 0x10_0000_0000_0000_0000_0000_0000_0000) by (nonlinear_arith)
        requires
            two_to(52) == 0x10_0000_0000_0000,
            two_to(64) == 0x1_0000_0000_0000_0000,
    ;
    two_to_sum(116, 11);
}

proof fn scale_bound(scale: nat, a: nat)
    requires
        two_to(scale) <= a,
        a < 0x20_0000_0000_0000_0000_0000_0000_0000,
    ensures
        scale < 117,
{
    two_to_values();
    if scale >= 117 {
        two_to_grows(117, scale);
    }
}

proof fn down_bound(scale: nat, b: nat, a: nat)
    requires
        two_to(scale) <= b,
        BOUND * b <= a,
        a < 0x8000_0000_0000_0000_0000_0000_0000_0000,
    ensures
        scale < 75,
        b < 0x800_0000_0000_0000_0000,
{
    two_to_values();
    if scale >= 75 {
        two_to_grows(75, scale);
    }
}

/// 2 to the power of 52, the least mantissa.
pub const LEAST: u128 = 0x10_0000_0000_0000;

/// 2 to the power of 53, the bound of mantissas.
pub const BOUND: u128 = 0x20_0000_0000_0000;

/// `a / b` to the nearest integer, and to the even one of two that are equally
/// near.
pub open spec fn half_even(a: nat, b: nat) -> nat {
    let q = a / b;
    let r = a % b;
    if 2 * r < b || (2 * r == b && q % 2 == 0) {
        q
    } else {
        q + 1
    }
}

/// A non-negative double: zero, or `mantissa / 2^scale` with a mantissa from
/// 2^52 up to but not including 2^53.
#[derive(Debug, Clone, Copy)]
pub enum Double {
    Zero,
    Normal { mantissa: u64, scale: i32 },
}

/// The view of a [`Double`].
pub enum DoubleModel {
    Zero,
    Normal { mantissa: nat, scale: int },
}

impl View for Double {
    type V = DoubleModel;

    open spec fn view(&self) -> DoubleModel {
        match self {
            Double::Zero => DoubleModel::Zero,
            Double::Normal { mantissa, scale } => DoubleModel::Normal {
                mantissa: *mantissa as nat,
                scale: *scale as int,
            },
        }
    }
}

/// `x` times `2^scale`, for a scale that is not negative.
pub open spec fn raised(x: nat, scale: int) -> nat {
    if scale > 0 {
        x * two_to(scale as nat)
    } else {
        x
    }
}

/// Whether `num / den` times `2^scale` is at least 2^52.
pub open spec fn reaches(num: nat, den: nat, scale: int) -> bool {
    raised(num, scale) >= LEAST * raised(den, -scale)
}

/// Whether `num / den` times `2^scale` lies from 2^52 up to 2^53.
pub open spec fn fits(num: nat, den: nat, scale: int) -> bool {
    reaches(num, den, scale) && raised(num, scale) < BOUND * raised(den, -scale)
}

/// The double nearest to `num / den`.
pub open spec fn nearest(num: nat, den: nat) -> DoubleModel {
    if num == 0 {
        DoubleModel::Zero
    } else {
        let scale = choose|scale: int| fits(num, den, scale);
        let mantissa = half_even(raised(num, scale), raised(den, -scale));
        if mantissa == BOUND {
            DoubleModel::Normal { mantissa: LEAST as nat, scale: scale - 1 }
        } else {
            DoubleModel::Normal { mantissa, scale }
        }
    }
}

/// One step further up, twice as much is reached.
proof fn reaches_step(num: nat, den: nat, scale: int)
    requires
        reaches(num, den, scale),
    ensures
        reaches(num, den, scale + 1),
        raised(num, scale + 1) >= BOUND * raised(den, -(scale + 1)),
{
    let least: nat = LEAST as nat;
    if scale >= 0 {
        assert(two_to((scale + 1) as nat) == 2 * two_to(scale as nat));
        let t = two_to(scale as nat);
        assert(num * (2 * t) == 2 * (num * t)) by (nonlinear_arith);
        if scale == 0 {
            assert(num * 1 == num) by (nonlinear_arith);
            assert(t == 1);
        }
    } else {
        let d = raised(den, -(scale + 1));
        assert(two_to((-scale) as nat) == 2 * two_to((-scale - 1) as nat));
        let t = two_to((-scale - 1) as nat);
        assert(den * (2 * t) == 2 * (den * t)) by (nonlinear_arith);
        if scale == -1 {
            assert(den * 1 == den) by (nonlinear_arith);
            assert(t == 1);
        }
        assert(raised(den, -scale) == 2 * d);
        let bound: nat = BOUND as nat;
        assert(least * (2 * d) == bound * d) by (nonlinear_arith)
            requires
                bound == 2 * least,
        ;
    }
}

/// Further up, more is reached.
proof fn reaches_further(num: nat, den: nat, low: int, high: int)
    requires
        reaches(num, den, low),
        low < high,
    ensures
        raised(num, high) >= BOUND * raised(den, -high),
    decreases high - low,
{
    reaches_step(num, den, low);
    if low + 1 < high {
        reaches_further(num, den, low + 1, high);
    }
}

/// There is one scale at which a number fits.
pub proof fn scale_is_unique(num: nat, den: nat, a: int, b: int)
    requires
        fits(num, den, a),
        fits(num, den, b),
    ensures
        a == b,
{
    if a < b {
        reaches_further(num, den, a, b);
    } else if b < a {
        reaches_further(num, den, b, a);
    }
}

/// `a / b` to the nearest integer, and to the even one of two that are equally
/// near.
pub fn round_half_even(a: u128, b: u128) -> (q: u128)
    requires
        b > 0,
        a < u128::MAX,
    ensures
        q == half_even(a as nat, b as nat),
        q <= a + 1,
{
    let q: u128 = a / b;
    let r: u128 = a % b;
    assert(q <= a) by (nonlinear_arith)
        requires
            q == a / b,
            b > 0,
    ;
    assert(r < b);
    if r < b - r || (r == b - r && q % 2 == 0) {
        q
    } else {
        q + 1
    }
}

/// A quotient that fits rounds to 53 bits.
proof fn fitting_quotient(a: nat, b: nat)
    requires
        b > 0,
        LEAST * b <= a,
        a < BOUND * b,
    ensures
        LEAST <= half_even(a, b) <= BOUND,
{
    let least: nat = LEAST as nat;
    assert(least <= a / b) by (nonlinear_arith)
        requires
            b > 0,
            least * b <= a,
    ;
    let bound: nat = BOUND as nat;
    assert(a / b < bound) by (nonlinear_arith)
        requires
            b > 0,
            a < bound * b,
    ;
}

/// The scale at which a large number fits: `den` doubled until `num` is less
/// than 2^53 times as much.
fn fit_down(num: u128, den: u128) -> (r: (u128, i32))
    requires
        num < 0x8000_0000_0000_0000_0000_0000_0000_0000,
        den > 0,
        LEAST * den <= num,
    ensures
        -75 <= r.1 <= 0,
        r.0 == raised(den as nat, -r.1 as int),
        r.0 > 0,
        fits(num as nat, den as nat, r.1 as int),
{
    let mut b: u128 = den;
    let mut scale: i32 = 0;
    assert(den * two_to(0) == den) by (nonlinear_arith)
        requires
            two_to(0) == 1,
    ;
    while num / BOUND >= b
        invariant
            num < 0x8000_0000_0000_0000_0000_0000_0000_0000,
            0 < den,
            -75 <= scale <= 0,
            b == den * two_to((-scale) as nat),
            two_to((-scale) as nat) <= b,
            b > 0,
            LEAST * b <= num,
            BOUND == 0x20_0000_0000_0000,
            LEAST == 0x10_0000_0000_0000,
        decreases num - b,
    {
        let ghost t = two_to((-scale) as nat);
        assert(two_to((-scale + 1) as nat) == 2 * t);
        assert(den * (2 * t) == 2 * (den * t)) by (nonlinear_arith);
        assert(BOUND * b <= num) by (nonlinear_arith)
            requires
                num / BOUND >= b,
                BOUND == 0x20_0000_0000_0000,
        ;
        proof {
            down_bound((-scale) as nat, b as nat, num as nat);
        }
        b = b * 2;
        scale = scale - 1;
    }
    assert(num < BOUND * b) by (nonlinear_arith)
        requires
            num / BOUND < b,
            BOUND == 0x20_0000_0000_0000,
    ;
    assert(raised(num as nat, scale as int) == num);
    assert(raised(den as nat, -scale as int) == b);
    (b, scale)
}

/// The double nearest to `num / den`.
pub fn round_ratio(num: u128, den: u128) -> (d: Double)
    requires
        num < 0x8000_0000_0000_0000_0000_0000_0000_0000,
        0 < den <= 0x2_0000_0000_0000_0000,
    ensures
        d@ == nearest(num as nat, den as nat),
        d is Zero <==> num == 0,
        d matches Double::Normal { mantissa, scale } ==> {
            &&& LEAST <= mantissa < BOUND
            &&& -76 <= scale <= 117
            &&& scale < 0 ==> LEAST * raised(den as nat, -scale - 1) <= num
            &&& scale > 0 ==> raised(num as nat, scale as int) < BOUND * den
            &&& reaches(num as nat, den as nat, scale + 1)
        },
{
    if num == 0 {
        return Double::Zero;
    }
    let mut a: u128 = num;
    let mut b: u128 = den;
    let mut scale: i32 = 0;
    if a / LEAST < b {
        let limit: u128 = LEAST * b;
        assert(a < limit) by (nonlinear_arith)
            requires
                a / LEAST < b,
                limit == LEAST * b,
                LEAST == 0x10_0000_0000_0000,
        ;
        assert(num * two_to(0) == num) by (nonlinear_arith)
            requires
                two_to(0) == 1,
        ;
        while a < limit
            invariant
                limit <= 0x20_0000_0000_0000_0000_0000_0000_0000,
                0 <= scale <= 117,
                a == num * two_to(scale as nat),
                two_to(scale as nat) <= a,
                0 < a < 2 * limit,
            decreases 2 * limit - a,
        {
            let ghost t = two_to(scale as nat);
            assert(two_to((scale + 1) as nat) == 2 * t);
            assert(num * (2 * t) == 2 * (num * t)) by (nonlinear_arith);
            proof {
                scale_bound(scale as nat, a as nat);
            }
            a = a * 2;
            scale = scale + 1;
        }
        assert(raised(num as nat, scale as int) == a);
        assert(raised(den as nat, -scale as int) == b);
        assert(BOUND * b == 2 * limit) by (nonlinear_arith)
            requires
                limit == LEAST * b,
                BOUND == 2 * LEAST,
        ;
    } else {
        assert(LEAST * b <= a) by (nonlinear_arith)
            requires
                a / LEAST >= b,
                LEAST == 0x10_0000_0000_0000,
        ;
        let (fitted, down): (u128, i32) = fit_down(num, den);
        b = fitted;
        scale = down;
        assert(raised(num as nat, scale as int) == a);
    }
    assert(fits(num as nat, den as nat, scale as int));
    proof {
        scale_is_unique(
            num as nat,
            den as nat,
            scale as int,
            choose|scale: int| fits(num as nat, den as nat, scale),
        );
        fitting_quotient(a as nat, b as nat);
        reaches_step(num as nat, den as nat, scale as int);
        if scale > 0 {
            raised_grows(num as nat, scale - 1, scale as int);
        }
        if scale < 0 {
            raised_step(den as nat, -scale - 1);
            let x = raised(den as nat, -scale - 1);
            assert(LEAST * x <= LEAST * (2 * x)) by (nonlinear_arith)
                requires
                    x >= 0,
                    LEAST == 0x10_0000_0000_0000,
            ;
        }
    }
    let mantissa: u128 = round_half_even(a, b);
    if mantissa == BOUND {
        Double::Normal { mantissa: LEAST as u64, scale: scale - 1 }
    } else {
        Double::Normal { mantissa: mantissa as u64, scale }
    }
}

/// One step more doubles.
proof fn raised_step(x: nat, scale: int)
    requires
        scale >= 0,
    ensures
        raised(x, scale + 1) == 2 * raised(x, scale),
{
    assert(two_to((scale + 1) as nat) == 2 * two_to(scale as nat));
    let t = two_to(scale as nat);
    assert(x * (2 * t) == 2 * (x * t)) by (nonlinear_arith);
    if scale == 0 {
        assert(x * 1 == x) by (nonlinear_arith);
        assert(t == 1);
    }
}

/// `x` times `2^scale`, for a scale that is not negative.
pub fn raise(x: u128, scale: i32) -> (out: u128)
    requires
        raised(x as nat, scale as int) <= u128::MAX,
        scale < 1000,
    ensures
        out == raised(x as nat, scale as int),
{
    let mut out: u128 = x;
    let mut i: i32 = 0;
    while i < scale
        invariant
            0 <= i,
            scale < 1000,
            i <= scale || scale < 0 && i == 0,
            out == raised(x as nat, i as int),
            raised(x as nat, scale as int) <= u128::MAX,
        decreases scale - i,
    {
        proof {
            raised_step(x as nat, i as int);
            raised_grows(x as nat, i + 1, scale as int);
        }
        out = out * 2;
        i = i + 1;
    }
    out
}

/// A larger scale gives a larger result.
pub proof fn raised_grows(x: nat, a: int, b: int)
    requires
        0 <= a <= b,
    ensures
        raised(x, a) <= raised(x, b),
    decreases b - a,
{
    if a < b {
        raised_step(x, b - 1);
        raised_grows(x, a, b - 1);
    }
}

/// The integer nearest to `x` among the doubles. Integers below 2^53 are
/// doubles.
pub open spec fn whole(x: nat) -> nat {
    if x < BOUND {
        x
    } else {
        match nearest(x, 1) {
            DoubleModel::Zero => 0,
            DoubleModel::Normal { mantissa, scale } => raised(mantissa, -scale),
        }
    }
}

/// A number bounds the scale down to which it is brought.
proof fn small_scale(x: nat, den: nat, k: int, most: nat)
    requires
        k > 0,
        den > 0,
        LEAST * raised(den, k - 1) <= x,
        x < LEAST * two_to(most),
    ensures
        k <= most,
{
    if k > most {
        let t = two_to((k - 1) as nat);
        two_to_grows(most, (k - 1) as nat);
        assert(den * t >= t) by (nonlinear_arith)
            requires
                den > 0,
                t >= 0,
        ;
        assert(raised(den, k - 1) >= t) by {
            if k == 1 {
                assert(t == 1);
            }
        }
    }
}

/// A number bounds the scale up to which it is brought.
proof fn large_scale(x: nat, k: int, limit: nat, most: nat)
    requires
        k > 0,
        x > 0,
        raised(x, k) < limit,
        limit <= two_to(most + 1),
    ensures
        k <= most,
{
    if k > most {
        let t = two_to(k as nat);
        two_to_grows(most + 1, k as nat);
        assert(x * t >= t) by (nonlinear_arith)
            requires
                x > 0,
                t >= 0,
        ;
    }
}

/// An integer as a double, which is an integer again.
pub fn round_whole(x: u128) -> (out: u128)
    requires
        x <= 0x2_0000_0000_0000_0000,
    ensures
        out == whole(x as nat),
        out <= 0x8_0000_0000_0000_0000,
        x <= u64::MAX ==> out <= 0x2_0000_0000_0000_0000,
        x > 0 ==> out > 0,
{
    if x < BOUND {
        return x;
    }
    match round_ratio(x, 1) {
        Double::Zero => 0,
        Double::Normal { mantissa, scale } => {
            proof {
                if scale < 0 {
                    reveal_with_fuel(two_to, 15);
                    assert(two_to(12) == 0x1000);
                    assert(two_to(14) == 0x4000);
                    small_scale(x as nat, 1, -scale as int, 14);
                    raised_grows(mantissa as nat, 0, -scale as int);
                    raised_grows(mantissa as nat, -scale as int, 14);
                    assert(raised(mantissa as nat, 14) == mantissa * 0x4000);
                    if x <= u64::MAX {
                        small_scale(x as nat, 1, -scale as int, 12);
                        raised_grows(mantissa as nat, -scale as int, 12);
                        assert(raised(mantissa as nat, 12) == mantissa * 0x1000);
                    }
                }
            }
            raise(mantissa as u128, -scale)
        },
    }
}

/// `d` divided by `2^k`.
pub open spec fn lowered(d: DoubleModel, k: int) -> DoubleModel {
    match d {
        DoubleModel::Zero => DoubleModel::Zero,
        DoubleModel::Normal { mantissa, scale } => DoubleModel::Normal {
            mantissa,
            scale: scale + k,
        },
    }
}

/// A 64-bit integer as a double.
pub open spec fn double_of(x: u64) -> DoubleModel {
    nearest(whole(x as nat), 1)
}

/// A time as a double number of seconds: the whole seconds as a double, plus
/// the fraction as a double, rounded.
pub open spec fn seconds(secs: u64, nanos: u32) -> DoubleModel {
    match nearest(nanos as nat, 1_000_000_000) {
        DoubleModel::Zero => double_of(secs),
        DoubleModel::Normal { mantissa, scale } => lowered(
            nearest(raised(whole(secs as nat), scale) + mantissa, 1),
            scale,
        ),
    }
}

/// A number that is `a` and a bit more, the bit being `rest / 2^low`, rounds as
/// `a` does but for ties, which the bit decides.
proof fn rest_breaks_ties(a: nat, d: nat, low: nat, rest: nat)
    requires
        d > 0,
        d % 2 == 0,
        rest < two_to(low),
    ensures
        half_even(a * two_to(low) + rest, d * two_to(low)) == {
            let q = a / d;
            let r = a % d;
            if 2 * r < d || (2 * r == d && rest == 0 && q % 2 == 0) {
                q
            } else {
                q + 1
            }
        },
{
    let t = two_to(low);
    two_to_grows(low, low);
    let q = a / d;
    let r = a % d;
    let num = a * t + rest;
    let den = d * t;
    let over = r * t + rest;
    assert(a == q * d + r) by (nonlinear_arith)
        requires
            q == a / d,
            r == a % d,
            d > 0,
    ;
    assert(num == q * den + over) by (nonlinear_arith)
        requires
            num == a * t + rest,
            a == q * d + r,
            den == d * t,
            over == r * t + rest,
    ;
    assert(over < den) by (nonlinear_arith)
        requires
            over == r * t + rest,
            rest < t,
            r + 1 <= d,
            den == d * t,
    ;
    assert(den > 0) by (nonlinear_arith)
        requires
            d > 0,
            t > 0,
            den == d * t,
    ;
    assert(num / den == q && num % den == over) by {
        vstd::arithmetic::div_mod::lemma_fundamental_div_mod_converse(
            num as int,
            den as int,
            q as int,
            over as int,
        );
    }
    let h = d / 2;
    assert(d == 2 * h);
    if 2 * r < d {
        assert(2 * over < den) by (nonlinear_arith)
            requires
                over == r * t + rest,
                rest < t,
                r + 1 <= h,
                d == 2 * h,
                den == d * t,
        ;
    } else if 2 * r > d {
        assert(2 * over > den) by (nonlinear_arith)
            requires
                over == r * t + rest,
                r >= h + 1,
                d == 2 * h,
                den == d * t,
                t > 0,
                rest >= 0,
        ;
    } else {
        assert(2 * over == den + 2 * rest) by (nonlinear_arith)
            requires
                over == r * t + rest,
                r == h,
                d == 2 * h,
                den == d * t,
        ;
    }
}

/// A number that is `a` and a bit more fits at a scale that is lower by as many
/// places as the bit has.
proof fn rest_fits(a: nat, scale: int, low: nat, rest: nat)
    requires
        fits(a, 1, scale),
        scale <= 0,
        rest < two_to(low),
    ensures
        fits(a * two_to(low) + rest, 1, scale - low),
        raised(1, low - scale) == raised(1, -scale) * two_to(low),
{
    let t = two_to(low);
    let d = raised(1, -scale);
    let least: nat = LEAST as nat;
    let bound: nat = BOUND as nat;
    two_to_grows(low, low);
    two_to_sum((-scale) as nat, low);
    assert(1 * two_to((-scale) as nat) == two_to((-scale) as nat)) by (nonlinear_arith);
    assert(1 * two_to((-scale + low) as nat) == two_to((-scale + low) as nat))
        by (nonlinear_arith);
    assert(d == two_to((-scale) as nat));
    assert(raised(1, low - scale) == d * t);
    let num = a * t + rest;
    assert(least * (d * t) <= num) by (nonlinear_arith)
        requires
            least * d <= a,
            num == a * t + rest,
            t > 0,
            rest >= 0,
    ;
    assert(num < bound * (d * t)) by (nonlinear_arith)
        requires
            a + 1 <= bound * d,
            num == a * t + rest,
            rest < t,
    ;
}

/// The double nearest to a number that is `a` and a bit more, where `more` says
/// whether there is a bit at all.
fn round_with_rest(a: u128, more: bool, Ghost(low): Ghost<nat>, Ghost(rest): Ghost<nat>) -> (d:
    Double)
    requires
        BOUND <= a < 0x8000_0000_0000_0000_0000_0000_0000_0000,
        rest < two_to(low),
        more == (rest > 0),
    ensures
        d@ == lowered(nearest(a as nat * two_to(low) + rest, 1), low as int),
        d matches Double::Normal { mantissa, scale } && LEAST <= mantissa < BOUND && scale <= 0
            && (scale < 0 ==> LEAST * raised(1, -scale - 1) <= a),
{
    let (b, scale): (u128, i32) = fit_down(a, 1);
    let ghost num = a as nat * two_to(low) + rest;
    let q: u128 = a / b;
    let r: u128 = a % b;
    proof {
        rest_fits(a as nat, scale as int, low, rest);
        scale_is_unique(
            num,
            1,
            scale - low,
            choose|s: int| fits(num, 1, s),
        );
        fitting_quotient(num, raised(1, low - scale));
        assert(scale < 0) by {
            if scale == 0 {
                assert(b == 1);
            }
        }
        raised_step(1, -scale - 1);
        assert(LEAST * raised(1, -scale - 1) <= LEAST * b);
        rest_breaks_ties(a as nat, b as nat, low, rest);
        assert(a > 0);
        assert(num > 0) by (nonlinear_arith)
            requires
                num == a as nat * two_to(low) + rest,
                rest >= 0,
                two_to(low) > 0,
                a > 0,
        ;
        assert(q < BOUND && q >= LEAST) by (nonlinear_arith)
            requires
                q == a / b,
                b > 0,
                LEAST * b <= a,
                a < BOUND * b,
        ;
    }
    let mantissa: u128 = if r < b - r || (r == b - r && !more && q % 2 == 0) {
        q
    } else {
        q + 1
    };
    if mantissa == BOUND {
        Double::Normal { mantissa: LEAST as u64, scale: scale - 1 }
    } else {
        Double::Normal { mantissa: mantissa as u64, scale }
    }
}

/// What holds of the doubles that times are turned into.
pub open spec fn is_time(d: Double) -> bool {
    d matches Double::Normal { mantissa, scale } ==> LEAST <= mantissa < BOUND && -24 <= scale
        <= 83
}

/// Whole seconds and a fraction, where the fraction is `mantissa / 2^scale`.
#[verifier::spinoff_prover]
fn add_fraction(whole_secs: u128, mantissa: u64, scale: i32) -> (d: Double)
    requires
        whole_secs <= 0x2_0000_0000_0000_0000,
        LEAST <= mantissa < BOUND,
        52 <= scale <= 83,
    ensures
        d@ == lowered(
            nearest(raised(whole_secs as nat, scale as int) + mantissa as nat, 1),
            scale as int,
        ),
        d is Normal,
        is_time(d),
{
    proof {
        two_to_values();
        reveal_with_fuel(two_to, 12);
        assert(two_to(11) == 0x800);
        two_to_sum(32, 11);
        two_to_sum(64, 20);
        assert(two_to(43) == 0x800_0000_0000);
        assert(two_to(84) == 0x10_0000_0000_0000_0000_0000);
    }
    if whole_secs < 0x800_0000_0000 {
        proof {
            raised_grows(whole_secs as nat, 0, scale as int);
            raised_grows(whole_secs as nat, scale as int, 84);
            assert(raised(whole_secs as nat, 84) == whole_secs * 0x10_0000_0000_0000_0000_0000);
        }
        let sum: u128 = raise(whole_secs, scale) + mantissa as u128;
        match round_ratio(sum, 1) {
            Double::Zero => Double::Zero,
            Double::Normal { mantissa: m, scale: k } => {
                proof {
                    if k > 0 {
                        raised_grows(sum as nat, 1, k as int);
                        raised_step(sum as nat, 0);
                    }
                }
                Double::Normal { mantissa: m, scale: k + scale }
            },
        }
    } else {
        let low: i32 = scale - 22;
        let unit: u128 = raise_one(low);
        let fraction: u128 = mantissa as u128;
        let top: u128 = fraction / unit;
        let rest: u128 = fraction % unit;
        let a: u128 = whole_secs * 0x40_0000 + top;
        proof {
            let t = two_to(low as nat);
            assert(two_to(22) == 0x40_0000) by {
                two_to_sum(20, 2);
                reveal_with_fuel(two_to, 3);
            }
            two_to_sum(22, low as nat);
            assert(fraction == top * unit + rest && rest < unit && top <= fraction)
                by (nonlinear_arith)
                requires
                    top == fraction / unit,
                    rest == fraction % unit,
                    unit > 0,
            ;
            assert(raised(whole_secs as nat, scale as int) == whole_secs * two_to(scale as nat));
            assert(whole_secs * (0x40_0000 * t) + (top * t + rest) == (whole_secs * 0x40_0000
                + top) * t + rest) by (nonlinear_arith);
            assert(raised(whole_secs as nat, scale as int) + mantissa as nat == a as nat * t
                + rest);
            assert(a < LEAST * two_to(43)) by {
                assert(two_to(43) == 0x800_0000_0000);
            }
        }
        match round_with_rest(a, rest > 0, Ghost(low as nat), Ghost(rest as nat)) {
            Double::Zero => Double::Zero,
            Double::Normal { mantissa: m, scale: k } => {
                proof {
                    if k < 0 {
                        small_scale(a as nat, 1, -k as int, 43);
                    }
                }
                Double::Normal { mantissa: m, scale: k + 22 }
            },
        }
    }
}

/// 2 to the power of `k`.
fn raise_one(k: i32) -> (out: u128)
    requires
        0 <= k <= 120,
    ensures
        out == two_to(k as nat),
        out > 0,
{
    proof {
        two_to_values();
        two_to_grows(k as nat, 127);
        assert(1 * two_to(k as nat) == two_to(k as nat)) by (nonlinear_arith);
        assert(raised(1, k as int) == two_to(k as nat));
    }
    raise(1, k)
}

/// A 64-bit integer as a double.
pub fn round_int(x: u64) -> (d: Double)
    ensures
        d@ == double_of(x),
        d is Zero <==> x == 0,
        is_time(d),
{
    let rounded: u128 = round_whole(x as u128);
    let d: Double = round_ratio(rounded, 1);
    proof {
        two_to_values();
        reveal_with_fuel(two_to, 15);
        assert(two_to(14) == 0x4000);
        if let Double::Normal { mantissa, scale } = d {
            if scale < 0 {
                small_scale(rounded as nat, 1, -scale as int, 14);
            }
            if scale > 0 {
                two_to_sum(52, 1);
                large_scale(rounded as nat, scale as int, BOUND as nat, 52);
            }
        }
    }
    d
}

/// A time as a double number of seconds.
pub fn round_seconds(secs: u64, nanos: u32) -> (d: Double)
    requires
        nanos < 1_000_000_000,
    ensures
        d@ == seconds(secs, nanos),
        d is Zero <==> secs == 0 && nanos == 0,
        is_time(d),
{
    match round_ratio(nanos as u128, 1_000_000_000) {
        Double::Zero => round_int(secs),
        Double::Normal { mantissa, scale } => {
            proof {
                if scale < 52 {
                    fraction_scale(nanos as nat, 1_000_000_000, scale as int);
                }
                if scale > 0 {
                    two_to_values();
                    two_to_sum(64, 20);
                    large_scale(
                        nanos as nat,
                        scale as int,
                        (BOUND * 1_000_000_000) as nat,
                        83,
                    );
                }
            }
            add_fraction(round_whole(secs as u128), mantissa, scale)
        },
    }
}

/// A fraction is brought up by at least 52 places.
proof fn fraction_scale(num: nat, den: nat, scale: int)
    requires
        num < den,
        reaches(num, den, scale + 1),
    ensures
        scale >= 52,
{
    if scale < 52 {
        two_to_values();
        if scale + 1 > 0 {
            two_to_grows((scale + 1) as nat, 52);
            let t = two_to((scale + 1) as nat);
            let least: nat = LEAST as nat;
            assert(num * t < least * den) by (nonlinear_arith)
                requires
                    num < den,
                    t <= least,
                    least > 0,
            ;
        } else {
            raised_grows(den, 0, -(scale + 1));
            let d = raised(den, -(scale + 1));
            let least: nat = LEAST as nat;
            assert(num < least * d) by (nonlinear_arith)
                requires
                    num < den,
                    den <= d,
                    least >= 1,
            ;
        }
    }
}

/// Whether `x` is at most `y`: doubles are ordered by scale and then by
/// mantissa.
pub open spec fn at_most(x: DoubleModel, y: DoubleModel) -> bool {
    match (x, y) {
        (DoubleModel::Zero, _) => true,
        (DoubleModel::Normal { .. }, DoubleModel::Zero) => false,
        (
            DoubleModel::Normal { mantissa: m, scale: s },
            DoubleModel::Normal { mantissa: n, scale: t },
        ) => s > t || (s == t && m <= n),
    }
}

/// Whether `x` is at most `y`.
pub fn no_more(x: Double, y: Double) -> (yes: bool)
    ensures
        yes == at_most(x@, y@),
{
    match (x, y) {
        (Double::Zero, _) => true,
        (Double::Normal { .. }, Double::Zero) => false,
        (
            Double::Normal { mantissa: m, scale: s },
            Double::Normal { mantissa: n, scale: t },
        ) => s > t || (s == t && m <= n),
    }
}

/// The double nearest to `x / y`, where `y` is not zero: the mantissas are
/// divided, the powers of two subtracted.
pub open spec fn quotient(x: DoubleModel, y: DoubleModel) -> DoubleModel {
    match (x, y) {
        (
            DoubleModel::Normal { mantissa: m, scale: s },
            DoubleModel::Normal { mantissa: n, scale: t },
        ) => lowered(nearest(m, n), s - t),
        _ => DoubleModel::Zero,
    }
}

/// The double nearest to `x / y`.
pub fn divide(x: Double, y: Double) -> (d: Double)
    requires
        is_time(x),
        is_time(y),
    ensures
        d@ == quotient(x@, y@),
        d matches Double::Normal { mantissa, scale } ==> LEAST <= mantissa < BOUND && -60 <= scale
            <= 162,
        at_most(y@, x@) ==> (d matches Double::Normal { mantissa, scale } ==> scale <= 54),
{
    match (x, y) {
        (
            Double::Normal { mantissa: m, scale: s },
            Double::Normal { mantissa: n, scale: t },
        ) => match round_ratio(m as u128, n as u128) {
            Double::Zero => Double::Zero,
            Double::Normal { mantissa, scale } => {
                proof {
                    mantissa_scale(m as nat, n as nat, scale as int);
                }
                Double::Normal { mantissa, scale: scale + (s - t) }
            },
        },
        _ => Double::Zero,
    }
}

/// The scale of a quotient of mantissas.
proof fn mantissa_scale(m: nat, n: nat, scale: int)
    requires
        LEAST <= m < BOUND,
        LEAST <= n < BOUND,
        scale > 0 ==> raised(m, scale) < BOUND * n,
        reaches(m, n, scale + 1),
    ensures
        50 <= scale <= 54,
{
    two_to_values();
    two_to_sum(52, 1);
    two_to_sum(52, 2);
    reveal_with_fuel(two_to, 3);
    if scale >= 55 {
        raised_grows(m, 54, scale);
        let t = two_to(54);
        assert(m * t >= BOUND * n) by (nonlinear_arith)
            requires
                LEAST <= m,
                n < BOUND,
                BOUND == 2 * LEAST,
                t == 4 * LEAST,
        ;
    }
    if scale < 50 {
        if scale + 1 > 0 {
            raised_grows(m, scale + 1, 50);
            two_to_sum(20, 30);
            two_to_sum(30, 22);
            two_to_sum(20, 2);
            two_to_sum(50, 2);
            let t = two_to(50);
            assert(m * t < LEAST * n) by (nonlinear_arith)
                requires
                    m < BOUND,
                    LEAST <= n,
                    BOUND == 2 * LEAST,
                    4 * t == LEAST,
            ;
        } else {
            raised_grows(n, 0, -(scale + 1));
            let d = raised(n, -(scale + 1));
            assert(m < LEAST * d) by (nonlinear_arith)
                requires
                    m < BOUND,
                    LEAST <= n,
                    n <= d,
                    LEAST == 0x10_0000_0000_0000,
                    BOUND == 2 * LEAST,
            ;
        }
    }
}

/// `d` times `k`, to the nearest integer.
pub open spec fn units(d: DoubleModel, k: nat) -> nat {
    match d {
        DoubleModel::Zero => 0,
        DoubleModel::Normal { mantissa, scale } => half_even(
            raised(k * mantissa, -scale),
            raised(1, scale),
        ),
    }
}

/// `d` times `k`, to the nearest integer.
pub fn count_units(d: Double, k: u64) -> (n: u128)
    requires
        k <= 1000,
        d matches Double::Normal { mantissa, scale } ==> mantissa < BOUND && -60 <= scale <= 120,
    ensures
        n == units(d@, k as nat),
{
    match d {
        Double::Zero => 0,
        Double::Normal { mantissa, scale } => {
            assert(k * mantissa < 0x8000_0000_0000_0000) by (nonlinear_arith)
                requires
                    k <= 1000,
                    mantissa < BOUND,
                    BOUND == 0x20_0000_0000_0000,
            ;
            let product: u128 = k as u128 * mantissa as u128;
            proof {
                two_to_values();
                two_to_sum(20, 40);
                two_to_sum(20, 20);
                assert(two_to(60) == 0x1000_0000_0000_0000);
                assert(product < 0x8000_0000_0000_0000);
                if scale < 0 {
                    raised_grows(product as nat, -scale as int, 60);
                    assert(raised(product as nat, 60) == product * 0x1000_0000_0000_0000);
                }
                if scale > 0 {
                    two_to_grows(scale as nat, 127);
                    assert(1 * two_to(scale as nat) == two_to(scale as nat)) by (nonlinear_arith);
                    two_to_grows(scale as nat, scale as nat);
                }
            }
            round_half_even(raise(product, -scale), raise(1, scale))
        },
    }
}

/// `d` times `k`, as a double.
pub open spec fn multiplied(d: DoubleModel, k: nat) -> DoubleModel {
    match d {
        DoubleModel::Zero => DoubleModel::Zero,
        DoubleModel::Normal { mantissa, scale } => lowered(nearest(k * mantissa, 1), scale),
    }
}

/// `d` without its fraction, and at most 2^64 - 1.
pub open spec fn truncated(d: DoubleModel) -> nat {
    match d {
        DoubleModel::Zero => 0,
        DoubleModel::Normal { mantissa, scale } => {
            let n = raised(mantissa, -scale) / raised(1, scale);
            if n > u64::MAX {
                u64::MAX as nat
            } else {
                n
            }
        },
    }
}

/// `d` without its fraction, and at most 2^64 - 1.
pub fn truncate(d: Double) -> (n: u64)
    requires
        d matches Double::Normal { mantissa, scale } ==> LEAST <= mantissa < BOUND && -60 <= scale
            <= 162,
    ensures
        n == truncated(d@),
{
    match d {
        Double::Zero => 0,
        Double::Normal { mantissa, scale } => {
            if scale > 100 {
                proof {
                    two_to_values();
                    two_to_grows(75, scale as nat);
                    assert(1 * two_to(scale as nat) == two_to(scale as nat)) by (nonlinear_arith);
                    let t = raised(1, scale as int);
                    assert(mantissa as nat / t == 0) by (nonlinear_arith)
                        requires
                            mantissa < t,
                    ;
                }
                return 0;
            }
            proof {
                two_to_values();
                two_to_sum(20, 40);
                two_to_sum(20, 20);
                if scale < 0 {
                    raised_grows(mantissa as nat, -scale as int, 60);
                    assert(raised(mantissa as nat, 60) == mantissa * 0x1000_0000_0000_0000);
                }
                if scale > 0 {
                    two_to_grows(scale as nat, 127);
                    assert(1 * two_to(scale as nat) == two_to(scale as nat)) by (nonlinear_arith);
                    two_to_grows(scale as nat, scale as nat);
                }
            }
            let n: u128 = raise(mantissa as u128, -scale) / raise(1, scale);
            if n > u64::MAX as u128 {
                u64::MAX
            } else {
                n as u64
            }
        },
    }
}

/// `num / den` as a percentage, which is the double quotient times 100, in
/// units of one `k`th.
pub open spec fn percent_units(num: nat, den: nat, k: nat) -> nat {
    units(multiplied(nearest(num, den), 100), k)
}

/// `num / den` as a percentage, in units of one `k`th.
pub fn count_percent(num: u128, den: u128, k: u64) -> (n: u128)
    requires
        num <= 0x8_0000_0000_0000_0000,
        0 < den <= 0x2_0000_0000_0000_0000,
        k <= 1000,
    ensures
        n == percent_units(num as nat, den as nat, k as nat),
{
    match round_ratio(num, den) {
        Double::Zero => 0,
        Double::Normal { mantissa, scale } => {
            proof {
                two_to_values();
                reveal_with_fuel(two_to, 17);
                assert(two_to(14) == 0x4000);
                assert(two_to(16) == 0x1_0000);
                if scale < 0 {
                    small_scale(num as nat, den as nat, -scale as int, 16);
                }
            }
            let product: u128 = 100 * (mantissa as u128);
            match round_ratio(product, 1) {
                Double::Zero => 0,
                Double::Normal { mantissa: m, scale: j } => {
                    proof {
                        if j < 0 {
                            small_scale(product as nat, 1, -j as int, 14);
                        }
                        if j > 0 {
                            raised_grows(product as nat, 1, j as int);
                            raised_step(product as nat, 0);
                        }
                    }
                    count_units(Double::Normal { mantissa: m, scale: j + scale }, k)
                },
            }
        },
    }
}

/// A power of two exceeds its exponent.
proof fn two_to_exceeds(n: nat)
    ensures
        two_to(n) > n,
    decreases n,
{
    if n > 0 {
        two_to_exceeds((n - 1) as nat);
    }
}

/// Where a number is twice as large as it need be, one step less reaches too.
proof fn reaches_before(num: nat, den: nat, scale: int)
    requires
        raised(num, scale) >= BOUND * raised(den, -scale),
    ensures
        reaches(num, den, scale - 1),
{
    let least: nat = LEAST as nat;
    let bound: nat = BOUND as nat;
    if scale > 0 {
        raised_step(num, scale - 1);
        assert(bound * den == 2 * (least * den)) by (nonlinear_arith)
            requires
                bound == 2 * least,
        ;
    } else {
        let d = raised(den, -scale);
        raised_step(den, -scale);
        assert(least * (2 * d) == bound * d) by (nonlinear_arith)
            requires
                bound == 2 * least,
        ;
    }
}

/// Between a scale that does not reach and one that does lies one that fits.
proof fn scale_between(num: nat, den: nat, low: int, high: int) -> (scale: int)
    requires
        low < high,
        !reaches(num, den, low),
        reaches(num, den, high),
    ensures
        fits(num, den, scale),
    decreases high - low,
{
    if fits(num, den, high) {
        high
    } else {
        reaches_before(num, den, high);
        scale_between(num, den, low, high - 1)
    }
}

/// Every positive fraction fits at some scale.
proof fn scale_exists(num: nat, den: nat)
    requires
        num > 0,
        den > 0,
    ensures
        exists|scale: int| fits(num, den, scale),
{
    let least: nat = LEAST as nat;
    let high: int = 52 + den as int;
    let low: int = -(num as int);
    two_to_values();
    two_to_sum(52, den);
    two_to_exceeds(den);
    two_to_exceeds(num);
    let t = two_to(den);
    assert(num * (least * t) >= least * den) by (nonlinear_arith)
        requires
            num > 0,
            t > den,
    ;
    assert(reaches(num, den, high));
    let u = two_to(num);
    assert(num < least * (den * u)) by (nonlinear_arith)
        requires
            u > num,
            den > 0,
            least >= 1,
    ;
    assert(!reaches(num, den, low));
    let scale = scale_between(num, den, low, high);
    assert(fits(num, den, scale));
}

/// The nearest double to a fraction that is not zero has a mantissa of 53 bits
/// and a scale that fits, or one less.
proof fn nearest_is_normal(num: nat, den: nat) -> (fitting: int)
    requires
        num > 0,
        den > 0,
    ensures
        fits(num, den, fitting),
        nearest(num, den) matches DoubleModel::Normal { mantissa, scale } && LEAST <= mantissa
            < BOUND && fitting - 1 <= scale <= fitting,
{
    scale_exists(num, den);
    let fitting = choose|scale: int| fits(num, den, scale);
    if -fitting > 0 {
        raised_grows(den, 0, -fitting);
    }
    fitting_quotient(raised(num, fitting), raised(den, -fitting));
    fitting
}

/// Whether a double has a mantissa of 53 bits, where it is not zero.
pub open spec fn is_double(d: DoubleModel) -> bool {
    d matches DoubleModel::Normal { mantissa, .. } ==> LEAST <= mantissa < BOUND
}

/// An integer that is not zero stays so.
proof fn whole_is_positive(x: nat)
    requires
        x > 0,
    ensures
        whole(x) > 0,
{
    nearest_is_normal(x, 1);
    if let DoubleModel::Normal { mantissa, scale } = nearest(x, 1) {
        if scale < 0 {
            raised_grows(mantissa, 0, -scale);
        }
    }
}

/// Times are doubles, and only no time at all is zero.
pub proof fn seconds_are_double(secs: u64, nanos: u32)
    ensures
        is_double(seconds(secs, nanos)),
        seconds(secs, nanos) is Zero <==> secs == 0 && nanos == 0,
{
    if secs > 0 {
        whole_is_positive(secs as nat);
    }
    if nanos > 0 {
        nearest_is_normal(nanos as nat, 1_000_000_000);
    }
    match nearest(nanos as nat, 1_000_000_000) {
        DoubleModel::Zero => {
            if whole(secs as nat) > 0 {
                nearest_is_normal(whole(secs as nat), 1);
            }
        },
        DoubleModel::Normal { mantissa, scale } => {
            let num = raised(whole(secs as nat), scale) + mantissa;
            if num > 0 {
                nearest_is_normal(num, 1);
            }
        },
    }
}

/// A double of at least 1 makes at least `k` units of one `k`th.
proof fn units_of_scale(mantissa: nat, scale: int, k: nat)
    requires
        mantissa >= LEAST,
        scale <= 52,
    ensures
        units(DoubleModel::Normal { mantissa, scale }, k) >= k,
{
    let a = raised(k * mantissa, -scale);
    let b = raised(1, scale);
    if scale > 0 {
        two_to_values();
        two_to_grows(scale as nat, 52);
        let t = two_to(scale as nat);
        assert(b == t) by (nonlinear_arith)
            requires
                b == 1 * t,
        ;
        assert((k * mantissa) / t >= k) by (nonlinear_arith)
            requires
                mantissa >= t,
                t > 0,
        ;
    } else {
        if scale < 0 {
            raised_grows(k * mantissa, 0, -scale);
        }
        assert(a >= k) by (nonlinear_arith)
            requires
                a >= k * mantissa,
                mantissa >= 1,
        ;
        assert(a / 1 == a);
    }
}

/// A quotient of a larger double by a smaller one is at least 1: it makes at
/// least `k` units of one `k`th.
pub proof fn quotient_of_larger(x: DoubleModel, y: DoubleModel, k: nat)
    requires
        x is Normal,
        y is Normal,
        is_double(x),
        is_double(y),
        at_most(y, x),
    ensures
        units(quotient(x, y), k) >= k,
{
    if let DoubleModel::Normal { mantissa: m, scale: s } = x {
        if let DoubleModel::Normal { mantissa: n, scale: t } = y {
            let fitting = nearest_is_normal(m, n);
            two_to_values();
            two_to_sum(52, 1);
            two_to_sum(52, 2);
            reveal_with_fuel(two_to, 3);
            if s == t {
                if fitting >= 53 {
                    raised_grows(m, 53, fitting);
                    let p = two_to(53);
                    assert(m * p >= BOUND * n) by (nonlinear_arith)
                        requires
                            m >= n,
                            p == BOUND,
                    ;
                }
            } else if fitting >= 54 {
                raised_grows(m, 54, fitting);
                let p = two_to(54);
                assert(m * p >= BOUND * n) by (nonlinear_arith)
                    requires
                        m >= LEAST,
                        n < BOUND,
                        BOUND == 2 * LEAST,
                        p == 4 * LEAST,
                ;
            }
            if let DoubleModel::Normal { mantissa, scale } = nearest(m, n) {
                units_of_scale(mantissa, scale + (s - t), k);
            }
        }
    }
}

/// Whether `x` and `y` differ by no more than `e` parts in 2^53 of `y`.
pub open spec fn near(x: nat, y: nat, e: nat) -> bool {
    BOUND * x <= (BOUND + e) * y && (BOUND - e) * y <= BOUND * x
}

proof fn near_itself(x: nat, e: nat)
    ensures
        near(x, x, e),
{
    assert(BOUND * x <= (BOUND + e) * x && (BOUND - e) * x <= BOUND * x) by (nonlinear_arith);
}

proof fn near_times(x: nat, y: nat, e: nat, t: nat)
    requires
        near(x, y, e),
    ensures
        near(x * t, y * t, e),
{
    let b: int = BOUND as int;
    let ee: int = e as int;
    assert(b * (x * t) <= (b + ee) * (y * t)) by (nonlinear_arith)
        requires
            b * x <= (b + ee) * y,
            t >= 0,
    ;
    assert((b - ee) * (y * t) <= b * (x * t)) by (nonlinear_arith)
        requires
            (b - ee) * y <= b * x,
            t >= 0,
    ;
}

proof fn near_chain(x: nat, y: nat, z: nat, e: nat, f: nat)
    requires
        near(x, y, e),
        near(y, z, f),
        e <= 8,
        f <= 8,
    ensures
        near(x, z, e + f + 1),
{
    let b: int = BOUND as int;
    let ee: int = e as int;
    let ff: int = f as int;
    let g: int = ee + ff + 1;
    assert(b * (b * x) <= (b + ee) * ((b + ff) * z)) by (nonlinear_arith)
        requires
            b * x <= (b + ee) * y,
            b * y <= (b + ff) * z,
            b >= 64,
            ee >= 0,
    ;
    assert((b + ee) * (b + ff) <= b * (b + g)) by (nonlinear_arith)
        requires
            0 <= ee <= 8,
            0 <= ff <= 8,
            b >= 64,
            g == ee + ff + 1,
    ;
    assert(b * x <= (b + g) * z) by (nonlinear_arith)
        requires
            b * (b * x) <= (b + ee) * ((b + ff) * z),
            (b + ee) * (b + ff) <= b * (b + g),
            b >= 64,
            z >= 0,
    ;
    assert((b - ee) * ((b - ff) * z) <= b * (b * x)) by (nonlinear_arith)
        requires
            (b - ee) * y <= b * x,
            (b - ff) * z <= b * y,
            b >= 64,
            ee <= 8,
    ;
    assert((b - ee) * (b - ff) >= b * (b - g)) by (nonlinear_arith)
        requires
            0 <= ee <= 8,
            0 <= ff <= 8,
            b >= 64,
            g == ee + ff + 1,
    ;
    assert((b - g) * z <= b * x) by (nonlinear_arith)
        requires
            (b - ee) * ((b - ff) * z) <= b * (b * x),
            (b - ee) * (b - ff) >= b * (b - g),
            b >= 64,
            z >= 0,
    ;
}

proof fn near_back(x: nat, y: nat)
    requires
        near(x, y, 1),
    ensures
        near(y, x, 2),
{
    let b: int = BOUND as int;
    assert(b * y <= (b + 2) * x) by (nonlinear_arith)
        requires
            (b - 1) * y <= b * x,
            b >= 64,
            x >= 0,
            y >= 0,
    ;
    assert((b - 2) * x <= b * y) by (nonlinear_arith)
        requires
            b * x <= (b + 1) * y,
            b >= 64,
            x >= 0,
            y >= 0,
    ;
}

/// Rounding to the nearest integer is off by at most a half.
pub proof fn half_even_is_near(a: nat, b: nat)
    requires
        b > 0,
    ensures
        2 * (half_even(a, b) * b) <= 2 * a + b,
        2 * a <= 2 * (half_even(a, b) * b) + b,
{
    let q = a / b;
    let r = a % b;
    vstd::arithmetic::div_mod::lemma_fundamental_div_mod(a as int, b as int);
    assert((q + 1) * b == q * b + b) by (nonlinear_arith);
    assert(q * b == b * q) by (nonlinear_arith);
}

/// The nearest double is near: brought to a common power of two, it differs
/// from the fraction by no more than one part in 2^53.
proof fn nearest_is_near(num: nat, den: nat, top: int) -> (r: (nat, int))
    requires
        num > 0,
        den > 0,
        top >= 0,
        nearest(num, den) matches DoubleModel::Normal { mantissa, scale } ==> top > scale,
    ensures
        nearest(num, den) == (DoubleModel::Normal { mantissa: r.0, scale: r.1 }),
        near(r.0 * two_to((top - r.1) as nat) * den, num * two_to(top as nat), 1),
{
    nearest_is_normal(num, den);
    let f = choose|scale: int| fits(num, den, scale);
    scale_exists(num, den);
    let a = raised(num, f);
    let b = raised(den, -f);
    let most = half_even(a, b);
    if f < 0 {
        raised_grows(den, 0, -f);
    }
    half_even_is_near(a, b);
    let least: int = LEAST as int;
    let bound: int = BOUND as int;
    let w = most * b;
    assert(near(w, a, 1)) by {
        assert(bound * w <= (bound + 1) * a && (bound - 1) * a <= bound * w) by (nonlinear_arith)
            requires
                2 * w <= 2 * a + b,
                2 * a <= 2 * w + b,
                least * b <= a,
                bound == 2 * least,
                least > 0,
        ;
    }
    let t = two_to((top - f) as nat);
    let x = num * two_to(top as nat);
    if f > 0 {
        two_to_sum(f as nat, (top - f) as nat);
        let u = two_to(f as nat);
        near_times(w, a, 1, t);
        assert(a * t == x) by (nonlinear_arith)
            requires
                a == num * u,
                x == num * (u * t),
        ;
        assert(w * t == most * t * den) by (nonlinear_arith)
            requires
                w == most * den,
        ;
    } else {
        let u = two_to(top as nat);
        let v = two_to((-f) as nat);
        two_to_sum((-f) as nat, top as nat);
        near_times(w, a, 1, u);
        assert(b == den * v) by {
            if f == 0 {
                assert(v == 1);
                assert(den * 1 == den);
            }
        }
        assert(w * u == most * t * den) by (nonlinear_arith)
            requires
                w == most * b,
                b == den * v,
                t == v * u,
        ;
    }
    assert(near(most * t * den, x, 1));
    if most == BOUND {
        let s = f - 1;
        two_to_sum(1, (top - f) as nat);
        reveal_with_fuel(two_to, 2);
        assert(two_to((top - s) as nat) == 2 * t);
        assert(LEAST as nat * (2 * t) == most * t) by (nonlinear_arith)
            requires
                most == 2 * LEAST,
        ;
        (LEAST as nat, s)
    } else {
        (most, f)
    }
}

/// An integer among the doubles is near the one that it stands for.
pub proof fn whole_is_near(x: nat)
    ensures
        near(whole(x), x, 1),
{
    if x < BOUND {
        near_itself(x, 1);
    } else {
        let f = nearest_is_normal(x, 1);
        if f > 0 {
            raised_grows(x, 0, f);
        }
        let r = nearest_is_near(x, 1, 0);
        assert(two_to(0) == 1);
        assert(r.0 * two_to((-r.1) as nat) * 1 == whole(x));
        assert(x * 1 == x);
    }
}

/// Units of one `k`th are rounded by at most half a unit.
proof fn units_are_near(m: nat, s: int, k: nat, top: int)
    requires
        top >= 0,
        top >= s,
    ensures
        ({
            let n = units(DoubleModel::Normal { mantissa: m, scale: s }, k);
            let x = two_to(top as nat);
            let v = k * (m * two_to((top - s) as nat));
            2 * (n * x) <= 2 * v + x && 2 * v <= 2 * (n * x) + x
        }),
{
    let n = units(DoubleModel::Normal { mantissa: m, scale: s }, k);
    let x = two_to(top as nat);
    let t = two_to((top - s) as nat);
    let v = k * (m * t);
    if s > 0 {
        let u = two_to(s as nat);
        two_to_grows(0, s as nat);
        two_to_sum(s as nat, (top - s) as nat);
        assert(raised(1, s) == u) by (nonlinear_arith)
            requires
                raised(1, s) == 1 * u,
        ;
        half_even_is_near(k * m, u);
        assert(2 * (n * x) <= 2 * v + x && 2 * v <= 2 * (n * x) + x) by (nonlinear_arith)
            requires
                2 * (n * u) <= 2 * (k * m) + u,
                2 * (k * m) <= 2 * (n * u) + u,
                x == u * t,
                v == k * (m * t),
                t >= 0,
        ;
    } else {
        let u = two_to((-s) as nat);
        two_to_sum((-s) as nat, top as nat);
        let a = raised(k * m, -s);
        assert(a == k * m * u) by {
            if s == 0 {
                assert(u == 1);
                assert(k * m * 1 == k * m);
            }
        }
        half_even_is_near(a, 1);
        assert(n == a) by {
            assert(a / 1 == a && a % 1 == 0);
        }
        assert(n * x == v) by (nonlinear_arith)
            requires
                n == k * m * u,
                t == u * x,
                v == k * (m * t),
        ;
    }
}

/// A percentage is right to half a unit, and to 8 parts in 2^53 besides.
pub open spec fn is_percentage(n: nat, num: nat, den: nat, k: nat) -> bool {
    let exact = 100 * k * num;
    &&& 2 * BOUND * (n * den) <= 2 * BOUND * exact + BOUND * den + 16 * exact
    &&& 2 * BOUND * exact <= 2 * BOUND * (n * den) + BOUND * den + 16 * exact
}

proof fn percent_of_parts(n: nat, k: nat, num: nat, den: nat, x: nat, p: nat, q: nat, part: nat, all: nat)
    requires
        x > 0,
        2 * (n * x) <= 2 * (k * p) + x,
        2 * (k * p) <= 2 * (n * x) + x,
        near(p, 100 * q, 1),
        near(q * all, part * x, 1),
        near(part, num, 1),
        near(all, den, 1),
    ensures
        is_percentage(n, num, den, k),
{
    let b: int = BOUND as int;
    // q * den is near num * x.
    near_times(part, num, 1, x);
    near_chain(q * all, part * x, num * x, 1, 1);
    near_back(all, den);
    near_times(den, all, 2, q);
    assert(den * q == q * den && all * q == q * all) by (nonlinear_arith);
    near_chain(q * den, q * all, num * x, 2, 3);
    // So is p * den near 100 * num * x.
    near_times(p, 100 * q, 1, den);
    near_times(q * den, num * x, 6, 100);
    assert(100 * q * den == q * den * 100) by (nonlinear_arith);
    near_chain(p * den, q * den * 100, num * x * 100, 1, 6);
    near_times(p * den, num * x * 100, 8, k);
    let v = p * den * k;
    let exact = 100 * k * num;
    let y = num * x * 100 * k;
    assert(y == exact * x) by (nonlinear_arith)
        requires
            y == num * x * 100 * k,
            exact == 100 * k * num,
    ;
    let nd = n * den;
    assert(2 * (nd * x) <= 2 * v + x * den && 2 * v <= 2 * (nd * x) + x * den) by (nonlinear_arith)
        requires
            2 * (n * x) <= 2 * (k * p) + x,
            2 * (k * p) <= 2 * (n * x) + x,
            v == p * den * k,
            nd == n * den,
            den >= 0,
    ;
    assert(2 * b * nd <= 2 * b * exact + b * den + 16 * exact) by (nonlinear_arith)
        requires
            2 * (nd * x) <= 2 * v + x * den,
            b * v <= (b + 8) * (exact * x),
            x > 0,
            b >= 64,
    ;
    assert(2 * b * exact <= 2 * b * nd + b * den + 16 * exact) by (nonlinear_arith)
        requires
            2 * v <= 2 * (nd * x) + x * den,
            (b - 8) * (exact * x) <= b * v,
            x > 0,
            b >= 64,
    ;
}

/// The percentage of two sizes is what it is called.
pub proof fn percent_is_percentage(num: nat, den: nat, k: nat)
    requires
        den > 0,
    ensures
        is_percentage(percent_units(whole(num), whole(den), k), num, den, k),
{
    let part = whole(num);
    let all = whole(den);
    let n = percent_units(part, all, k);
    whole_is_near(num);
    whole_is_near(den);
    whole_is_positive(den);
    if num == 0 {
        assert(n == 0);
        assert(0 * den == 0);
        assert(100 * k * num == 0) by (nonlinear_arith)
            requires
                num == 0,
        ;
    } else {
        whole_is_positive(num);
        nearest_is_normal(part, all);
        if let DoubleModel::Normal { mantissa: m, scale: s } = nearest(part, all) {
            nearest_is_normal(100 * m, 1);
            if let DoubleModel::Normal { mantissa: h, scale: j } = nearest(100 * m, 1) {
                let size = |x: int|
                    if x < 0 {
                        -x
                    } else {
                        x
                    };
                let top: int = size(s) + size(j) + 1;
                let x = two_to(top as nat);
                two_to_grows(0, top as nat);
                let q = m * two_to((top - s) as nat);
                let p = h * two_to((top - (s + j)) as nat);
                nearest_is_near(part, all, top);
                nearest_is_near(100 * m, 1, top - s);
                assert(p * 1 == p);
                assert(100 * m * two_to((top - s) as nat) == 100 * q) by (nonlinear_arith)
                    requires
                        q == m * two_to((top - s) as nat),
                ;
                assert(top - s - j == top - (s + j));
                units_are_near(h, s + j, k, top);
                percent_of_parts(n, k, num, den, x, p, q, part, all);
            }
        }
    }
}

/// A double brought to a power of two that is no less than its own.
pub open spec fn scaled(d: DoubleModel, top: int) -> nat {
    match d {
        DoubleModel::Zero => 0,
        DoubleModel::Normal { mantissa, scale } => mantissa * two_to((top - scale) as nat),
    }
}

/// The power of two that a double has.
pub open spec fn scale_of(d: DoubleModel) -> int {
    match d {
        DoubleModel::Zero => 0,
        DoubleModel::Normal { scale, .. } => scale,
    }
}

/// Bringing a double to a larger power multiplies.
proof fn scaled_further(d: DoubleModel, top: int, more: nat)
    requires
        top >= scale_of(d),
    ensures
        scaled(d, top + more) == scaled(d, top) * two_to(more),
{
    if let DoubleModel::Normal { mantissa, scale } = d {
        two_to_sum((top - scale) as nat, more);
        let t = two_to((top - scale) as nat);
        let u = two_to(more);
        assert(mantissa * (t * u) == mantissa * t * u) by (nonlinear_arith);
        assert(top + more - scale == top - scale + more);
    } else {
        assert(0 * two_to(more) == 0) by (nonlinear_arith);
    }
}

proof fn near_sum(a: nat, b: nat, c: nat, d: nat, e: nat)
    requires
        near(a, c, e),
        near(b, d, e),
    ensures
        near(a + b, c + d, e),
{
    let n: int = BOUND as int;
    let ee: int = e as int;
    assert(n * (a + b) <= (n + ee) * (c + d)) by (nonlinear_arith)
        requires
            n * a <= (n + ee) * c,
            n * b <= (n + ee) * d,
    ;
    assert((n - ee) * (c + d) <= n * (a + b)) by (nonlinear_arith)
        requires
            (n - ee) * c <= n * a,
            (n - ee) * d <= n * b,
    ;
}

proof fn near_without(x: nat, y: nat, e: nat, t: nat)
    requires
        near(x * t, y * t, e),
        t > 0,
    ensures
        near(x, y, e),
{
    let b: int = BOUND as int;
    let ee: int = e as int;
    assert(b * x <= (b + ee) * y) by (nonlinear_arith)
        requires
            b * (x * t) <= (b + ee) * (y * t),
            t > 0,
    ;
    assert((b - ee) * y <= b * x) by (nonlinear_arith)
        requires
            (b - ee) * (y * t) <= b * (x * t),
            t > 0,
    ;
}

proof fn near_weaker(x: nat, y: nat, e: nat, f: nat)
    requires
        near(x, y, e),
        e <= f,
    ensures
        near(x, y, f),
{
    let b: int = BOUND as int;
    let ee: int = e as int;
    let ff: int = f as int;
    assert((b + ee) * y <= (b + ff) * y && (b - ff) * y <= (b - ee) * y) by (nonlinear_arith)
        requires
            ee <= ff,
            y >= 0,
    ;
}

/// A time as a double is near the time: in billionths of a second, it differs
/// by no more than three parts in 2^53.
pub proof fn seconds_are_near(secs: u64, nanos: u32, top: int)
    requires
        nanos < 1_000_000_000,
        top >= 0,
        top > scale_of(seconds(secs, nanos)),
    ensures
        near(
            scaled(seconds(secs, nanos), top) * 1_000_000_000,
            (secs * 1_000_000_000 + nanos) as nat * two_to(top as nat),
            3,
        ),
{
    let d = seconds(secs, nanos);
    let w = whole(secs as nat);
    let billion: nat = 1_000_000_000;
    whole_is_near(secs as nat);
    seconds_are_double(secs, nanos);
    if nanos == 0 {
        let x = two_to(top as nat);
        near_times(w, secs as nat, 1, x);
        if secs > 0 {
            whole_is_positive(secs as nat);
            let r = nearest_is_near(w, 1, top);
            assert(scaled(d, top) * 1 == scaled(d, top));
            near_chain(scaled(d, top), w * x, secs as nat * x, 1, 1);
        } else {
            assert(w == 0);
            assert(scaled(d, top) == 0);
            assert(secs as nat * x == 0) by (nonlinear_arith)
                requires
                    secs == 0,
            ;
            near_itself(0, 3);
        }
        near_times(scaled(d, top), secs as nat * x, 3, billion);
        assert(secs as nat * x * billion == (secs * billion + nanos) as nat * x) by (nonlinear_arith)
            requires
                nanos == 0,
        ;
    } else {
        nearest_is_normal(nanos as nat, billion);
        if let DoubleModel::Normal { mantissa, scale } = nearest(nanos as nat, billion) {
            let f = nearest_is_normal(nanos as nat, billion);
            // The fraction is less than one, so it is raised.
            if f <= 52 {
                two_to_values();
                if f > 0 {
                    two_to_grows(f as nat, 52);
                    let u = two_to(f as nat);
                    assert(nanos as nat * u < billion * LEAST) by (nonlinear_arith)
                        requires
                            nanos < billion,
                            u <= LEAST,
                            u > 0,
                    ;
                } else {
                    if f < 0 {
                        raised_grows(billion, 0, -f);
                    }
                    let b = raised(billion, -f);
                    assert(LEAST * b > nanos) by (nonlinear_arith)
                        requires
                            b >= billion,
                            nanos < billion,
                            LEAST >= 1,
                    ;
                }
                assert(false);
            }
            assert(scale > 0);
            let num = raised(w, scale) + mantissa;
            nearest_is_normal(num, 1);
            if let DoubleModel::Normal { mantissa: h, scale: j } = nearest(num, 1) {
                assert(d == (DoubleModel::Normal { mantissa: h, scale: scale + j }));
                // A power large enough for both.
                let more: nat = if top > scale {
                    0
                } else {
                    (scale - top + 1) as nat
                };
                let high: int = top + more;
                let x = two_to(high as nat);
                let u = two_to((high - scale) as nat);
                let v = scaled(d, high);
                let part = mantissa * u;
                nearest_is_near(nanos as nat, billion, high);
                nearest_is_near(num, 1, high - scale);
                assert(high - scale - j == high - (scale + j));
                assert(v * 1 == v);
                two_to_sum(scale as nat, (high - scale) as nat);
                let t = two_to(scale as nat);
                assert(num * u == w * x + part) by (nonlinear_arith)
                    requires
                        num == w * t + mantissa,
                        x == t * u,
                        part == mantissa * u,
                ;
                near_times(w, secs as nat, 1, x * billion);
                assert(part * billion == mantissa * u * billion);
                near_sum(
                    w * (x * billion),
                    part * billion,
                    secs as nat * (x * billion),
                    nanos as nat * x,
                    1,
                );
                let exact = (secs * billion + nanos) as nat;
                assert(w * (x * billion) + part * billion == (w * x + part) * billion)
                    by (nonlinear_arith);
                assert(secs as nat * (x * billion) + nanos as nat * x == exact * x)
                    by (nonlinear_arith)
                    requires
                        exact == secs * billion + nanos,
                ;
                near_times(v, w * x + part, 1, billion);
                near_chain(v * billion, (w * x + part) * billion, exact * x, 1, 1);
                // Back to the power that was asked for.
                scaled_further(d, top, more);
                two_to_sum(top as nat, more);
                two_to_grows(0, more);
                let z = two_to(more);
                let y = two_to(top as nat);
                let low = scaled(d, top);
                assert(v * billion == low * billion * z) by (nonlinear_arith)
                    requires
                        v == low * z,
                ;
                assert(exact * x == exact * y * z) by (nonlinear_arith)
                    requires
                        x == y * z,
                ;
                near_without(low * billion, exact * y, 3, z);
            }
        }
    }
}

/// Whether `n` units of one `k`th of a second are the given time: right to half
/// a unit, and to three parts in 2^53 besides.
pub open spec fn is_time_in_units(n: nat, secs: u64, nanos: u32, k: nat) -> bool {
    let exact = (k * (secs * 1_000_000_000 + nanos)) as nat;
    &&& 2 * BOUND * (n * 1_000_000_000) <= 2 * BOUND * exact + BOUND * 1_000_000_000 + 6 * exact
    &&& 2 * BOUND * exact <= 2 * BOUND * (n * 1_000_000_000) + BOUND * 1_000_000_000 + 6 * exact
}

/// A time in units of one `k`th of a second is what it is called.
pub proof fn time_units_are_right(secs: u64, nanos: u32, k: nat)
    requires
        nanos < 1_000_000_000,
    ensures
        is_time_in_units(units(seconds(secs, nanos), k), secs, nanos, k),
{
    let d = seconds(secs, nanos);
    let n = units(d, k);
    let billion: nat = 1_000_000_000;
    let total = (secs * billion + nanos) as nat;
    seconds_are_double(secs, nanos);
    if let DoubleModel::Normal { mantissa, scale } = d {
        let top: int = if scale < 0 {
            0
        } else {
            scale + 1
        };
        let x = two_to(top as nat);
        two_to_grows(0, top as nat);
        let v = scaled(d, top);
        seconds_are_near(secs, nanos, top);
        units_are_near(mantissa, scale, k, top);
        near_times(v * billion, total * x, 3, k);
        let b: int = BOUND as int;
        let exact = (k * total) as nat;
        let kv = k * v;
        assert(v * billion * k == kv * billion) by (nonlinear_arith)
            requires
                kv == k * v,
        ;
        assert(total * x * k == exact * x) by (nonlinear_arith)
            requires
                exact == k * total,
        ;
        assert(2 * b * (n * billion) <= 2 * b * exact + b * billion + 6 * exact)
            by (nonlinear_arith)
            requires
                2 * (n * x) <= 2 * kv + x,
                b * (kv * billion) <= (b + 3) * (exact * x),
                x > 0,
                b >= 64,
        ;
        assert(2 * b * exact <= 2 * b * (n * billion) + b * billion + 6 * exact)
            by (nonlinear_arith)
            requires
                2 * kv <= 2 * (n * x) + x,
                (b - 3) * (exact * x) <= b * (kv * billion),
                x > 0,
                b >= 64,
        ;
    } else {
        assert(total == 0);
        assert(k * total == 0) by (nonlinear_arith)
            requires
                total == 0,
        ;
    }
}

/// A quotient of doubles is near the quotient.
proof fn quotient_is_near(x: DoubleModel, y: DoubleModel, top: int, low: int)
    requires
        x is Normal,
        y is Normal,
        is_double(x),
        is_double(y),
        top >= 0,
        low >= 0,
        top > scale_of(quotient(x, y)),
        top >= scale_of(x),
        low >= scale_of(y),
    ensures
        near(scaled(quotient(x, y), top) * scaled(y, low), scaled(x, top) * two_to(low as nat), 1),
{
    if let DoubleModel::Normal { mantissa: m, scale: s } = x {
        if let DoubleModel::Normal { mantissa: n, scale: t } = y {
            nearest_is_normal(m, n);
            if let DoubleModel::Normal { mantissa: h, scale: j } = nearest(m, n) {
                let q = quotient(x, y);
                assert(q == (DoubleModel::Normal { mantissa: h, scale: j + (s - t) }));
                // Up to a power at which all of them are integers.
                let gap: int = top - (s - t);
                let more: nat = if gap > 0 {
                    0
                } else {
                    (1 - gap) as nat
                };
                let high: int = top + more;
                let r = nearest_is_near(m, n, high - (s - t));
                assert(high - (s - t) - j == high - (j + (s - t)));
                let v = scaled(q, high);
                let a = two_to((high - (s - t)) as nat);
                assert(near(v * n, m * a, 1));
                let u = two_to((low - t) as nat);
                near_times(v * n, m * a, 1, u);
                let ny = scaled(y, low);
                assert(v * n * u == v * ny) by (nonlinear_arith)
                    requires
                        ny == n * u,
                ;
                two_to_sum((high - (s - t)) as nat, (low - t) as nat);
                two_to_sum((high - s) as nat, low as nat);
                assert(high - (s - t) + (low - t) == high - s + low);
                let c = two_to((high - s) as nat);
                let e = two_to(low as nat);
                let mx = scaled(x, high);
                assert(m * a * u == mx * e) by (nonlinear_arith)
                    requires
                        a * u == c * e,
                        mx == m * c,
                ;
                scaled_further(q, top, more);
                scaled_further(x, top, more);
                two_to_grows(0, more);
                let z = two_to(more);
                let vq = scaled(q, top);
                let vx = scaled(x, top);
                assert(v * ny == vq * ny * z) by (nonlinear_arith)
                    requires
                        v == vq * z,
                ;
                assert(mx * e == vx * e * z) by (nonlinear_arith)
                    requires
                        mx == vx * z,
                ;
                near_without(vq * ny, vx * e, 1, z);
            }
        }
    }
}

/// Whether `n` units of one `k`th are the quotient of two times: right to half a
/// unit, and to twelve parts in 2^53 besides. The times are in billionths of a
/// second.
pub open spec fn is_quotient(n: nat, longer: nat, shorter: nat, k: nat) -> bool {
    let exact = k * longer;
    &&& 2 * BOUND * (n * shorter) <= 2 * BOUND * exact + BOUND * shorter + 24 * exact
    &&& 2 * BOUND * exact <= 2 * BOUND * (n * shorter) + BOUND * shorter + 24 * exact
}

/// A time in billionths of a second.
pub open spec fn billionths(secs: u64, nanos: u32) -> nat {
    (secs * 1_000_000_000 + nanos) as nat
}

proof fn near_back_three(x: nat, y: nat)
    requires
        near(x, y, 3),
    ensures
        near(y, x, 4),
{
    let b: int = BOUND as int;
    assert(b * y <= (b + 4) * x) by (nonlinear_arith)
        requires
            (b - 3) * y <= b * x,
            b >= 64,
            x >= 0,
            y >= 0,
    ;
    assert((b - 4) * x <= b * y) by (nonlinear_arith)
        requires
            b * x <= (b + 3) * y,
            b >= 64,
            x >= 0,
            y >= 0,
    ;
}

/// The quotient of two times is what it is called.
pub proof fn time_quotient_is_right(a_secs: u64, a_nanos: u32, b_secs: u64, b_nanos: u32, k: nat)
    requires
        a_nanos < 1_000_000_000,
        b_nanos < 1_000_000_000,
        billionths(a_secs, a_nanos) > 0,
        billionths(b_secs, b_nanos) > 0,
    ensures
        is_quotient(
            units(quotient(seconds(a_secs, a_nanos), seconds(b_secs, b_nanos)), k),
            billionths(a_secs, a_nanos),
            billionths(b_secs, b_nanos),
            k,
        ),
{
    let x = seconds(a_secs, a_nanos);
    let y = seconds(b_secs, b_nanos);
    let q = quotient(x, y);
    let n = units(q, k);
    let billion: nat = 1_000_000_000;
    seconds_are_double(a_secs, a_nanos);
    seconds_are_double(b_secs, b_nanos);
    let longer = billionths(a_secs, a_nanos);
    let shorter = billionths(b_secs, b_nanos);
    if let DoubleModel::Normal { mantissa: m, scale: s } = x {
        if let DoubleModel::Normal { mantissa: l, scale: t } = y {
            nearest_is_normal(m, l);
            let size = |i: int|
                if i < 0 {
                    -i
                } else {
                    i
                };
            let top: int = size(s) + size(scale_of(q)) + 1;
            let low: int = size(t) + 1;
            let tx = two_to(top as nat);
            let ty = two_to(low as nat);
            two_to_grows(0, top as nat);
            two_to_grows(0, low as nat);
            let vq = scaled(q, top);
            let vx = scaled(x, top);
            let vy = scaled(y, low);
            quotient_is_near(x, y, top, low);
            seconds_are_near(a_secs, a_nanos, top);
            seconds_are_near(b_secs, b_nanos, low);
            // vq * vy is near vx * ty, and vq * shorter near longer * tx.
            near_times(vx * billion, longer * tx, 3, ty);
            near_times(vq * vy, vx * ty, 1, billion);
            assert(vx * ty * billion == vx * billion * ty) by (nonlinear_arith);
            near_chain(vq * vy * billion, vx * billion * ty, longer * tx * ty, 1, 3);
            near_back_three(vy * billion, shorter * ty);
            near_times(shorter * ty, vy * billion, 4, vq);
            assert(vy * billion * vq == vq * vy * billion) by (nonlinear_arith);
            near_chain(shorter * ty * vq, vq * vy * billion, longer * tx * ty, 4, 5);
            near_weaker(shorter * ty * vq, longer * tx * ty, 10, 12);
            assert(shorter * ty * vq == vq * shorter * ty) by (nonlinear_arith);
            near_without(vq * shorter, longer * tx, 12, ty);
            units_are_near(q->mantissa, q->Normal_scale, k, top);
            near_times(vq * shorter, longer * tx, 12, k);
            let b: int = BOUND as int;
            let exact = k * longer;
            let kv = k * vq;
            assert(vq * shorter * k == kv * shorter) by (nonlinear_arith)
                requires
                    kv == k * vq,
            ;
            assert(longer * tx * k == exact * tx) by (nonlinear_arith)
                requires
                    exact == k * longer,
            ;
            assert(2 * b * (n * shorter) <= 2 * b * exact + b * shorter + 24 * exact)
                by (nonlinear_arith)
                requires
                    2 * (n * tx) <= 2 * kv + tx,
                    b * (kv * shorter) <= (b + 12) * (exact * tx),
                    tx > 0,
                    b >= 64,
                    shorter >= 0,
            ;
            assert(2 * b * exact <= 2 * b * (n * shorter) + b * shorter + 24 * exact)
                by (nonlinear_arith)
                requires
                    2 * kv <= 2 * (n * tx) + tx,
                    (b - 12) * (exact * tx) <= b * (kv * shorter),
                    tx > 0,
                    b >= 64,
                    shorter >= 0,
            ;
        }
    }
}

/// Of two doubles, the one that is not at most the other is the larger number.
proof fn order_is_by_value(x: DoubleModel, y: DoubleModel, top: int)
    requires
        x is Normal,
        y is Normal,
        is_double(x),
        is_double(y),
        top >= scale_of(x),
        top >= scale_of(y),
    ensures
        at_most(x, y) ==> scaled(x, top) <= scaled(y, top),
        !at_most(x, y) ==> scaled(x, top) > scaled(y, top),
{
    if let DoubleModel::Normal { mantissa: m, scale: s } = x {
        if let DoubleModel::Normal { mantissa: n, scale: t } = y {
            let a = two_to((top - s) as nat);
            let b = two_to((top - t) as nat);
            two_to_grows(0, (top - s) as nat);
            two_to_grows(0, (top - t) as nat);
            if s == t {
                assert(m <= n ==> m * a <= n * a) by (nonlinear_arith)
                    requires
                        a > 0,
                ;
                assert(m > n ==> m * a > n * a) by (nonlinear_arith)
                    requires
                        a > 0,
                ;
            } else if s < t {
                two_to_grows((top - t + 1) as nat, (top - s) as nat);
                assert(two_to((top - t + 1) as nat) == 2 * b);
                assert(m * a > n * b) by (nonlinear_arith)
                    requires
                        a >= 2 * b,
                        b > 0,
                        2 * m >= BOUND,
                        n < BOUND,
                ;
            } else {
                two_to_grows((top - s + 1) as nat, (top - t) as nat);
                assert(two_to((top - s + 1) as nat) == 2 * a);
                assert(m * a <= n * b) by (nonlinear_arith)
                    requires
                        b >= 2 * a,
                        a > 0,
                        2 * n >= BOUND,
                        m < BOUND,
                ;
            }
        }
    }
}

/// Of two times that differ by more than 16 parts in 2^53, the shorter one is
/// the smaller double.
pub proof fn shorter_time_is_less(a_secs: u64, a_nanos: u32, b_secs: u64, b_nanos: u32)
    requires
        a_nanos < 1_000_000_000,
        b_nanos < 1_000_000_000,
        billionths(a_secs, a_nanos) > 0,
        BOUND * billionths(a_secs, a_nanos) + 16 * billionths(b_secs, b_nanos) < BOUND * billionths(
            b_secs,
            b_nanos,
        ),
    ensures
        at_most(seconds(a_secs, a_nanos), seconds(b_secs, b_nanos)),
        !at_most(seconds(b_secs, b_nanos), seconds(a_secs, a_nanos)),
{
    let x = seconds(a_secs, a_nanos);
    let y = seconds(b_secs, b_nanos);
    let p = billionths(a_secs, a_nanos);
    let q = billionths(b_secs, b_nanos);
    let billion: nat = 1_000_000_000;
    assert(q > 0) by {
        if q == 0 {
            assert(BOUND * p >= 0) by (nonlinear_arith);
        }
    }
    seconds_are_double(a_secs, a_nanos);
    seconds_are_double(b_secs, b_nanos);
    let size = |i: int|
        if i < 0 {
            -i
        } else {
            i
        };
    let top: int = size(scale_of(x)) + size(scale_of(y)) + 1;
    let t = two_to(top as nat);
    two_to_grows(0, top as nat);
    seconds_are_near(a_secs, a_nanos, top);
    seconds_are_near(b_secs, b_nanos, top);
    order_is_by_value(x, y, top);
    order_is_by_value(y, x, top);
    let u = scaled(x, top);
    let v = scaled(y, top);
    let b: int = BOUND as int;
    assert(u < v) by (nonlinear_arith)
        requires
            b * (u * billion) <= (b + 3) * (p * t),
            (b - 3) * (q * t) <= b * (v * billion),
            b * p + 16 * q < b * q,
            p <= q,
            t > 0,
            billion > 0,
            b >= 64,
    ;
}

/// Without its fraction, a double is the next integer below.
proof fn truncated_is_below(m: nat, s: int, top: int)
    requires
        top >= 0,
        top >= s,
        raised(m, -s) / raised(1, s) <= u64::MAX,
    ensures
        ({
            let d = DoubleModel::Normal { mantissa: m, scale: s };
            let x = two_to(top as nat);
            truncated(d) * x <= scaled(d, top) < (truncated(d) + 1) * x
        }),
{
    let d = DoubleModel::Normal { mantissa: m, scale: s };
    let x = two_to(top as nat);
    let t = two_to((top - s) as nat);
    let n = truncated(d);
    two_to_grows(0, top as nat);
    two_to_grows(0, (top - s) as nat);
    if s > 0 {
        let u = two_to(s as nat);
        two_to_grows(0, s as nat);
        two_to_sum(s as nat, (top - s) as nat);
        assert(raised(1, s) == u) by (nonlinear_arith)
            requires
                raised(1, s) == 1 * u,
        ;
        vstd::arithmetic::div_mod::lemma_fundamental_div_mod(m as int, u as int);
        assert(n * u <= m < (n + 1) * u) by (nonlinear_arith)
            requires
                m == u * (m as int / u as int) + (m as int % u as int),
                n == m as int / u as int,
                0 <= m as int % u as int,
                (m as int % u as int) < u,
        ;
        assert(n * x <= m * t < (n + 1) * x) by (nonlinear_arith)
            requires
                n * u <= m,
                m + 1 <= (n + 1) * u,
                x == u * t,
                t > 0,
        ;
    } else {
        let u = two_to((-s) as nat);
        two_to_sum((-s) as nat, top as nat);
        assert(n == m * u) by {
            if s == 0 {
                assert(u == 1);
                assert(m * 1 == m);
            }
            assert(raised(m, -s) / 1 == raised(m, -s));
        }
        assert(n * x == m * t) by (nonlinear_arith)
            requires
                n == m * u,
                t == u * x,
        ;
        assert((n + 1) * x > n * x) by (nonlinear_arith)
            requires
                x > 0,
        ;
    }
}

/// An integer as a double is near the integer.
proof fn double_of_is_near(x: u64, top: int)
    requires
        x > 0,
        top >= 0,
        top > scale_of(double_of(x)),
    ensures
        near(scaled(double_of(x), top), x as nat * two_to(top as nat), 3),
{
    let w = whole(x as nat);
    whole_is_near(x as nat);
    whole_is_positive(x as nat);
    nearest_is_near(w, 1, top);
    let t = two_to(top as nat);
    let v = scaled(double_of(x), top);
    assert(v * 1 == v);
    near_times(w, x as nat, 1, t);
    near_chain(v, w * t, x as nat * t, 1, 1);
}

/// The number of bytes per second, without its fraction and to twelve parts in
/// 2^53, where it fits.
pub proof fn bytes_per_time_are_right(bytes: u64, secs: u64, nanos: u32)
    requires
        bytes > 0,
        nanos < 1_000_000_000,
        billionths(secs, nanos) > 0,
        truncated(quotient(double_of(bytes), seconds(secs, nanos))) < u64::MAX,
    ensures
        ({
            let n = truncated(quotient(double_of(bytes), seconds(secs, nanos)));
            let exact = bytes as nat * 1_000_000_000;
            let time = billionths(secs, nanos);
            &&& BOUND * (n * time) <= (BOUND + 12) * exact
            &&& (BOUND - 12) * exact < BOUND * ((n + 1) * time)
        }),
{
    let x = double_of(bytes);
    let y = seconds(secs, nanos);
    let q = quotient(x, y);
    let n = truncated(q);
    let billion: nat = 1_000_000_000;
    let time = billionths(secs, nanos);
    let exact = bytes as nat * billion;
    whole_is_positive(bytes as nat);
    nearest_is_normal(whole(bytes as nat), 1);
    seconds_are_double(secs, nanos);
    if let DoubleModel::Normal { mantissa: m, scale: s } = x {
        if let DoubleModel::Normal { mantissa: l, scale: t } = y {
            nearest_is_normal(m, l);
            let size = |i: int|
                if i < 0 {
                    -i
                } else {
                    i
                };
            let top: int = size(s) + size(scale_of(q)) + 1;
            let low: int = size(t) + 1;
            let tx = two_to(top as nat);
            let ty = two_to(low as nat);
            two_to_grows(0, top as nat);
            two_to_grows(0, low as nat);
            let vq = scaled(q, top);
            let vx = scaled(x, top);
            let vy = scaled(y, low);
            quotient_is_near(x, y, top, low);
            double_of_is_near(bytes, top);
            seconds_are_near(secs, nanos, low);
            let bx = bytes as nat * tx;
            near_times(vx, bx, 3, ty * billion);
            near_times(vq * vy, vx * ty, 1, billion);
            assert(vx * ty * billion == vx * (ty * billion)) by (nonlinear_arith);
            near_chain(vq * vy * billion, vx * (ty * billion), bx * (ty * billion), 1, 3);
            near_back_three(vy * billion, time * ty);
            near_times(time * ty, vy * billion, 4, vq);
            assert(vy * billion * vq == vq * vy * billion) by (nonlinear_arith);
            near_chain(time * ty * vq, vq * vy * billion, bx * (ty * billion), 4, 5);
            near_weaker(time * ty * vq, bx * (ty * billion), 10, 12);
            assert(time * ty * vq == vq * time * ty) by (nonlinear_arith);
            assert(bx * (ty * billion) == exact * tx * ty) by (nonlinear_arith)
                requires
                    bx == bytes as nat * tx,
                    exact == bytes as nat * billion,
            ;
            near_without(vq * time, exact * tx, 12, ty);
            truncated_is_below(q->mantissa, q->Normal_scale, top);
            let b: int = BOUND as int;
            assert(b * (n * time) <= (b + 12) * exact) by (nonlinear_arith)
                requires
                    n * tx <= vq,
                    b * (vq * time) <= (b + 12) * (exact * tx),
                    tx > 0,
                    b >= 64,
                    time > 0,
            ;
            assert((b - 12) * exact < b * ((n + 1) * time)) by (nonlinear_arith)
                requires
                    vq < (n + 1) * tx,
                    (b - 12) * (exact * tx) <= b * (vq * time),
                    tx > 0,
                    b >= 64,
                    time > 0,
            ;
        }
    }
}

/// Rounding keeps the order.
proof fn half_even_grows(a: nat, c: nat, b: nat)
    requires
        b > 0,
        a <= c,
    ensures
        half_even(a, b) <= half_even(c, b),
{
    vstd::arithmetic::div_mod::lemma_fundamental_div_mod(a as int, b as int);
    vstd::arithmetic::div_mod::lemma_fundamental_div_mod(c as int, b as int);
    vstd::arithmetic::div_mod::lemma_div_is_ordered(a as int, c as int, b as int);
}

/// Rounding a fraction does not depend on how far it is cancelled.
proof fn half_even_cancels(a: nat, b: nat, t: nat)
    requires
        b > 0,
        t > 0,
    ensures
        half_even(a * t, b * t) == half_even(a, b),
{
    let q = a / b;
    let r = a % b;
    vstd::arithmetic::div_mod::lemma_fundamental_div_mod(a as int, b as int);
    let x = a * t;
    let y = b * t;
    assert(y > 0) by (nonlinear_arith)
        requires
            b > 0,
            t > 0,
            y == b * t,
    ;
    assert(x == q * y + r * t && r * t < y) by (nonlinear_arith)
        requires
            a == b * q + r,
            r < b,
            t > 0,
            x == a * t,
            y == b * t,
    ;
    vstd::arithmetic::div_mod::lemma_fundamental_div_mod_converse(
        x as int,
        y as int,
        q as int,
        (r * t) as int,
    );
    assert(2 * r < b <==> 2 * (r * t) < y) by (nonlinear_arith)
        requires
            t > 0,
            y == b * t,
    ;
    assert(2 * r == b <==> 2 * (r * t) == y) by (nonlinear_arith)
        requires
            t > 0,
            y == b * t,
    ;
}

/// The scale that a fraction fits, and the mantissa before it is brought below
/// its bound.
proof fn nearest_parts(num: nat, den: nat, top: int) -> (r: (nat, int))
    requires
        num > 0,
        den > 0,
        top > scale_of(nearest(num, den)),
    ensures
        fits(num, den, r.1),
        r.0 == half_even(raised(num, r.1), raised(den, -r.1)),
        LEAST <= r.0 <= BOUND,
        top >= r.1,
        scaled(nearest(num, den), top) == r.0 * two_to((top - r.1) as nat),
{
    nearest_is_normal(num, den);
    scale_exists(num, den);
    let f = choose|scale: int| fits(num, den, scale);
    if f < 0 {
        raised_grows(den, 0, -f);
    }
    fitting_quotient(raised(num, f), raised(den, -f));
    let m = half_even(raised(num, f), raised(den, -f));
    if m == BOUND {
        let t = two_to((top - f) as nat);
        two_to_sum(1, (top - f) as nat);
        reveal_with_fuel(two_to, 2);
        assert(two_to((top - (f - 1)) as nat) == 2 * t);
        assert(LEAST as nat * (2 * t) == m * t) by (nonlinear_arith)
            requires
                m == 2 * LEAST,
        ;
    }
    (m, f)
}

/// A larger fraction does not fit a larger scale.
proof fn larger_fits_lower(small: nat, large: nat, den: nat, s: int, l: int)
    requires
        0 < small <= large,
        den > 0,
        fits(small, den, s),
        fits(large, den, l),
    ensures
        l <= s,
{
    if l > s {
        assert(reaches(large, den, s)) by {
            if s > 0 {
                let t = two_to(s as nat);
                assert(small * t <= large * t) by (nonlinear_arith)
                    requires
                        small <= large,
                        t >= 0,
                ;
            }
        }
        reaches_further(large, den, s, l);
    }
}

/// Of two fractions with one denominator, the larger one has the larger nearest
/// double.
proof fn nearest_grows(small: nat, large: nat, den: nat, top: int)
    requires
        0 < small <= large,
        den > 0,
        top > scale_of(nearest(small, den)),
        top > scale_of(nearest(large, den)),
    ensures
        scaled(nearest(small, den), top) <= scaled(nearest(large, den), top),
{
    let (m, s) = nearest_parts(small, den, top);
    let (n, l) = nearest_parts(large, den, top);
    larger_fits_lower(small, large, den, s, l);
    let a = two_to((top - s) as nat);
    let b = two_to((top - l) as nat);
    two_to_grows(0, (top - s) as nat);
    if l == s {
        if s > 0 {
            let t = two_to(s as nat);
            assert(small * t <= large * t) by (nonlinear_arith)
                requires
                    small <= large,
                    t >= 0,
            ;
        }
        if s < 0 {
            raised_grows(den, 0, -s);
        }
        half_even_grows(raised(small, s), raised(large, s), raised(den, -s));
        assert(m * a <= n * a) by (nonlinear_arith)
            requires
                m <= n,
                a >= 0,
        ;
    } else {
        two_to_grows((top - s + 1) as nat, (top - l) as nat);
        assert(two_to((top - s + 1) as nat) == 2 * a);
        assert(m * a <= n * b) by (nonlinear_arith)
            requires
                m <= 2 * LEAST,
                n >= LEAST,
                b >= 2 * a,
                a >= 0,
        ;
    }
}

/// A larger integer is no smaller among the doubles.
proof fn whole_grows(small: nat, large: nat)
    requires
        small <= large,
    ensures
        whole(small) <= whole(large),
{
    if large >= BOUND {
        let f = nearest_is_normal(large, 1);
        if f > 0 {
            raised_grows(large, 0, f);
        }
        assert(f < 0);
        let l = nearest_is_near(large, 1, 0);
        if small >= BOUND {
            let g = nearest_is_normal(small, 1);
            if g > 0 {
                raised_grows(small, 0, g);
            }
            assert(g < 0);
            let s = nearest_is_near(small, 1, 0);
            nearest_grows(small, large, 1, 0);
        } else {
            let (n, k) = nearest_parts(large, 1, 0);
            scale_is_unique(large, 1, f, k);
            let t = two_to((-k) as nat);
            two_to_grows(1, (-k) as nat);
            reveal_with_fuel(two_to, 2);
            assert(n * t >= BOUND) by (nonlinear_arith)
                requires
                    n >= LEAST,
                    t >= 2,
                    BOUND == 2 * LEAST,
            ;
        }
    }
}

/// Multiplying by a power of two before rounding only moves the scale.
proof fn nearest_shifts(x: nat, t: nat)
    requires
        x > 0,
    ensures
        x * two_to(t) > 0,
        nearest(x * two_to(t), 1) == lowered(nearest(x, 1), -(t as int)),
{
    let p = two_to(t);
    two_to_grows(0, t);
    let y = x * p;
    assert(y > 0) by (nonlinear_arith)
        requires
            x > 0,
            p > 0,
            y == x * p,
    ;
    scale_exists(x, 1);
    let f = choose|scale: int| fits(x, 1, scale);
    let g = f - t;
    let a = raised(x, f);
    let b = raised(1, -f);
    let c = raised(y, g);
    let d = raised(1, -g);
    // The two fractions are the same but for a power of two.
    let z = shifted(x, f, t);
    assert(c == a * z && d == b * z && z > 0);
    if f < 0 {
        raised_grows(1, 0, -f);
    }
    let least: nat = LEAST as nat;
    let bound: nat = BOUND as nat;
    assert(fits(y, 1, g)) by {
        assert(c >= least * d && c < bound * d) by (nonlinear_arith)
            requires
                a >= least * b,
                a < bound * b,
                c == a * z,
                d == b * z,
                z > 0,
        ;
    }
    half_even_cancels(a, b, z);
    let h = choose|scale: int| fits(y, 1, scale);
    scale_is_unique(y, 1, g, h);
}

/// The power of two by which a fraction and the same fraction shifted differ.
proof fn shifted(x: nat, f: int, t: nat) -> (z: nat)
    ensures
        z > 0,
        raised(x * two_to(t), f - t) == raised(x, f) * z,
        raised(1, -(f - t)) == raised(1, -f) * z,
{
    let p = two_to(t);
    let g = f - t;
    two_to_grows(0, t);
    if g >= 0 {
        // Both are raised.
        if f > 0 {
            two_to_sum(t, g as nat);
            let u = two_to(g as nat);
            let v = two_to(f as nat);
            assert(v == p * u);
            assert(x * p * u == x * v) by (nonlinear_arith)
                requires
                    v == p * u,
            ;
            if g == 0 {
                assert(u == 1);
                assert(x * p * 1 == x * p);
            }
        } else {
            assert(t == 0 && p == 1);
            assert(x * 1 == x);
        }
        assert(raised(x, f) * 1 == raised(x, f));
        1
    } else if f > 0 {
        // One is raised, the other lowered.
        let z = two_to((-g) as nat);
        let v = two_to(f as nat);
        two_to_sum(f as nat, (-g) as nat);
        two_to_grows(0, (-g) as nat);
        assert(f as nat + (-g) as nat == t);
        assert(x * p == x * v * z) by (nonlinear_arith)
            requires
                p == v * z,
        ;
        assert(1 * z == z);
        z
    } else {
        // Both are lowered.
        let u = two_to((-g) as nat);
        two_to_sum((-f) as nat, t);
        assert((-f) as nat + t == (-g) as nat);
        let v = two_to((-f) as nat);
        assert(u == v * p);
        assert(1 * u == 1 * v * p) by (nonlinear_arith)
            requires
                u == v * p,
        ;
        if f == 0 {
            assert(v == 1);
        }
        p
    }
}

/// Units of one `k`th from a double at a larger power of two.
proof fn units_of_scaled(d: DoubleModel, k: nat, top: int)
    requires
        d is Normal,
        top >= 0,
        top >= scale_of(d),
    ensures
        units(d, k) == half_even(k * scaled(d, top), two_to(top as nat)),
{
    if let DoubleModel::Normal { mantissa: m, scale: s } = d {
        let t = two_to((top - s) as nat);
        let x = two_to(top as nat);
        two_to_grows(0, top as nat);
        two_to_grows(0, (top - s) as nat);
        assert(k * (m * t) == k * m * t) by (nonlinear_arith);
        if s > 0 {
            let u = two_to(s as nat);
            two_to_grows(0, s as nat);
            two_to_sum(s as nat, (top - s) as nat);
            assert(raised(1, s) == u) by (nonlinear_arith)
                requires
                    raised(1, s) == 1 * u,
            ;
            half_even_cancels(k * m, u, t);
        } else {
            let u = two_to((-s) as nat);
            two_to_sum((-s) as nat, top as nat);
            let a = raised(k * m, -s);
            assert(a == k * m * u) by {
                if s == 0 {
                    assert(u == 1);
                    assert(k * m * 1 == k * m);
                }
            }
            half_even_cancels(a, 1, x);
            assert(a * x == k * m * t) by (nonlinear_arith)
                requires
                    a == k * m * u,
                    t == u * x,
            ;
            assert(1 * x == x);
        }
    }
}

/// A larger part of the same whole is no smaller percentage.
pub proof fn percent_grows(small: nat, large: nat, den: nat, k: nat)
    requires
        small <= large,
        den > 0,
    ensures
        percent_units(whole(small), whole(den), k) <= percent_units(whole(large), whole(den), k),
{
    whole_grows(small, large);
    whole_is_positive(den);
    let a = whole(small);
    let b = whole(large);
    let all = whole(den);
    if a > 0 {
        let p = nearest(a, all);
        let q = nearest(b, all);
        nearest_is_normal(a, all);
        nearest_is_normal(b, all);
        let size = |i: int|
            if i < 0 {
                -i
            } else {
                i
            };
        let mid: int = size(scale_of(p)) + size(scale_of(q)) + 1;
        nearest_grows(a, b, all, mid);
        let x = scaled(p, mid);
        let y = scaled(q, mid);
        let u = multiplied(p, 100);
        let v = multiplied(q, 100);
        times_hundred(p, mid);
        times_hundred(q, mid);
        assert(u == lowered(nearest(100 * x, 1), mid));
        assert(v == lowered(nearest(100 * y, 1), mid));
        nearest_is_normal(100 * x, 1);
        nearest_is_normal(100 * y, 1);
        let high: int = size(scale_of(nearest(100 * x, 1))) + size(scale_of(nearest(100 * y, 1)))
            + 1;
        let top: int = high + mid;
        nearest_grows(100 * x, 100 * y, 1, high);
        assert(scaled(u, top) == scaled(nearest(100 * x, 1), high));
        assert(scaled(v, top) == scaled(nearest(100 * y, 1), high));
        units_of_scaled(u, k, top);
        units_of_scaled(v, k, top);
        two_to_grows(0, top as nat);
        let su = scaled(u, top);
        let sv = scaled(v, top);
        assert(k * su <= k * sv) by (nonlinear_arith)
            requires
                su <= sv,
        ;
        half_even_grows(k * su, k * sv, two_to(top as nat));
    }
}

/// A hundred times a double, from the double at a larger power of two.
proof fn times_hundred(d: DoubleModel, mid: int)
    requires
        d is Normal,
        is_double(d),
        mid >= scale_of(d),
    ensures
        multiplied(d, 100) == lowered(nearest(100 * scaled(d, mid), 1), mid),
        scaled(d, mid) > 0,
{
    if let DoubleModel::Normal { mantissa: m, scale: s } = d {
        let t = (mid - s) as nat;
        nearest_shifts(100 * m, t);
        nearest_is_normal(100 * m, 1);
        two_to_grows(0, t);
        let p = two_to(t);
        assert(100 * m * p == 100 * (m * p)) by (nonlinear_arith);
        assert(m * p > 0) by (nonlinear_arith)
            requires
                m > 0,
                p > 0,
        ;
    }
}

} // verus!
