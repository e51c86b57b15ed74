//! Little-endian integers in byte sequences.

use vstd::prelude::*;

verus! {

/// The number whose little-endian bytes are `s`.
pub open spec fn le_value(s: Seq<u8>) -> nat
    decreases s.len(),
{
    if s.len() == 0 {
        0
    } else {
        s[0] as nat + 256 * le_value(s.skip(1))
    }
}

/// The `n` lowest little-endian bytes of `x`.
pub open spec fn le_bytes(x: nat, n: nat) -> Seq<u8>
    decreases n,
{
    if n == 0 {
        Seq::empty()
    } else {
        seq![(x % 256) as u8] + le_bytes(x / 256, (n - 1) as nat)
    }
}

/// `256` to the power of `n`.
pub open spec fn pow256(n: nat) -> nat
    decreases n,
{
    if n == 0 {
        1
    } else {
        256 * pow256((n - 1) as nat)
    }
}

/// A signed 32-bit number as the unsigned number with the same bits.
pub open spec fn bits32(x: i32) -> nat {
    if x >= 0 {
        x as nat
    } else {
        (x + 0x1_0000_0000) as nat
    }
}

/// The signed 32-bit number with the bits of `x`.
pub open spec fn signed32(x: nat) -> i32 {
    if x < 0x8000_0000 {
        x as i32
    } else {
        (x - 0x1_0000_0000) as i32
    }
}

/// `n` bytes come out.
pub proof fn le_bytes_len(x: nat, n: nat)
    ensures
        le_bytes(x, n).len() == n,
    decreases n,
{
    if n > 0 {
        le_bytes_len(x / 256, (n - 1) as nat);
    }
}

/// Reading back what was written gives the same number.
pub proof fn le_round_trip(x: nat, n: nat)
    requires
        x < pow256(n),
    ensures
        le_bytes(x, n).len() == n,
        le_value(le_bytes(x, n)) == x,
    decreases n,
{
    if n > 0 {
        le_round_trip(x / 256, (n - 1) as nat);
        assert(le_bytes(x, n).skip(1) == le_bytes(x / 256, (n - 1) as nat));
    }
}

/// The powers that the format uses.
pub proof fn pow256_values()
    ensures
        pow256(4) == 0x1_0000_0000,
        pow256(8) == 0x1_0000_0000_0000_0000,
{
    reveal_with_fuel(pow256, 9);
}

/// Signed and unsigned readings of the same bits go back and forth.
pub proof fn signed32_round_trip(x: i32)
    ensures
        signed32(bits32(x)) == x,
        bits32(x) < pow256(4),
{
    pow256_values();
}

/// Reads the unsigned 32-bit number at `data[at..at + 4]`.
pub fn read_u32(data: &[u8], at: usize) -> (x: u32)
    requires
        at + 4 <= data@.len(),
    ensures
        x == le_value(data@.subrange(at as int, at + 4)),
{
    let ghost s = data@.subrange(at as int, at + 4);
    proof {
        reveal_with_fuel(le_value, 5);
        assert(s.skip(1).skip(1) == data@.subrange(at + 2, at + 4));
        assert(s.skip(1).skip(1).skip(1) == data@.subrange(at + 3, at + 4));
        assert(s[1] == s.skip(1)[0]);
        assert(s[2] == s.skip(1).skip(1)[0]);
        assert(s[3] == s.skip(1).skip(1).skip(1)[0]);
    }
    data[at] as u32 + 256 * (data[at + 1] as u32 + 256 * (data[at + 2] as u32 + 256 * (data[at
        + 3] as u32)))
}

/// Reads the unsigned 64-bit number at `data[at..at + 8]`.
pub fn read_u64(data: &[u8], at: usize) -> (x: u64)
    requires
        at + 8 <= data@.len(),
    ensures
        x == le_value(data@.subrange(at as int, at + 8)),
{
    let total: usize = data.len();
    assert(at + 8 <= total);
    let low: u32 = read_u32(data, at);
    let high: u32 = read_u32(data, at + 4);
    proof {
        let s = data@.subrange(at as int, at + 8);
        le_value_split(s, 4);
        assert(s.take(4) == data@.subrange(at as int, at + 4));
        assert(s.skip(4) == data@.subrange(at + 4, at + 8));
        pow256_values();
    }
    low as u64 + 0x1_0000_0000u64 * (high as u64)
}

/// The value of a sequence is made of the values of its two parts.
proof fn le_value_split(s: Seq<u8>, k: nat)
    requires
        k <= s.len(),
    ensures
        le_value(s) == le_value(s.take(k as int)) + pow256(k) * le_value(s.skip(k as int)),
    decreases k,
{
    if k == 0 {
        assert(s.take(0) == Seq::<u8>::empty());
        assert(s.skip(0) == s);
        let one = pow256(0);
        let v = le_value(s);
        assert(one * v == v) by (nonlinear_arith)
            requires
                one == 1,
        ;
    } else {
        le_value_split(s.skip(1), (k - 1) as nat);
        assert(s.take(k as int).skip(1) == s.skip(1).take(k - 1));
        assert(s.skip(1).skip(k - 1) == s.skip(k as int));
        let p = pow256((k - 1) as nat);
        let v = le_value(s.skip(k as int));
        assert(256 * (p * v) == (256 * p) * v) by (nonlinear_arith);
        assert(pow256(k) == 256 * p);
        assert(pow256(k) * v == 256 * (p * v));
        assert(le_value(s.take(k as int)) == s[0] + 256 * le_value(s.skip(1).take(k - 1)));
    }
}

/// Appends the four little-endian bytes of `x`.
pub fn push_u32(out: &mut Vec<u8>, x: u32)
    ensures
        final(out)@ == old(out)@ + le_bytes(x as nat, 4),
{
    proof {
        reveal_with_fuel(le_bytes, 5);
    }
    out.push((x % 256) as u8);
    out.push((x / 256 % 256) as u8);
    out.push((x / 256 / 256 % 256) as u8);
    out.push((x / 256 / 256 / 256 % 256) as u8);
    assert(out@ == old(out)@ + le_bytes(x as nat, 4));
}

/// Appends the eight little-endian bytes of `x`.
pub fn push_u64(out: &mut Vec<u8>, x: u64)
    ensures
        final(out)@ == old(out)@ + le_bytes(x as nat, 8),
{
    let ghost start = out@;
    let mut rest: u64 = x;
    let mut i: u32 = 0;
    assert(start + le_bytes(x as nat, 8) == out@ + le_bytes(rest as nat, 8));
    while i < 8
        invariant
            i <= 8,
            start + le_bytes(x as nat, 8) == out@ + le_bytes(rest as nat, (8 - i) as nat),
        decreases 8 - i,
    {
        let ghost before = out@;
        let low: u8 = (rest % 256) as u8;
        out.push(low);
        assert(before + le_bytes(rest as nat, (8 - i) as nat) == out@ + le_bytes(
            (rest / 256) as nat,
            (7 - i) as nat,
        ));
        rest = rest / 256;
        i = i + 1;
    }
    assert(le_bytes(rest as nat, 0) == Seq::<u8>::empty());
    assert(out@ + Seq::<u8>::empty() == out@);
}

/// The bits of a signed 32-bit number as an unsigned one.
pub fn to_bits32(x: i32) -> (out: u32)
    ensures
        out == bits32(x),
{
    if x >= 0 {
        x as u32
    } else {
        (x as i64 + 0x1_0000_0000i64) as u32
    }
}

/// The signed 32-bit number with the bits of `x`.
pub fn from_bits32(x: u32) -> (out: i32)
    ensures
        out == signed32(x as nat),
{
    if x < 0x8000_0000 {
        x as i32
    } else {
        (x as i64 - 0x1_0000_0000i64) as i32
    }
}

/// Appends a copy of `data`.
pub fn push_all(out: &mut Vec<u8>, data: &[u8])
    ensures
        final(out)@ == old(out)@ + data@,
{
    let mut copy: Vec<u8> = vstd::slice::slice_to_vec(data);
    out.append(&mut copy);
}

/// Whether two byte sequences are equal.
pub fn same_bytes(a: &[u8], b: &[u8]) -> (same: bool)
    ensures
        same == (a@ == b@),
{
    if a.len() != b.len() {
        return false;
    }
    let mut i: usize = 0;
    while i < a.len()
        invariant
            i <= a@.len(),
            a@.len() == b@.len(),
            forall|k: int| 0 <= k < i ==> a@[k] == b@[k],
        decreases a@.len() - i,
    {
        if a[i] != b[i] {
            return false;
        }
        i = i + 1;
    }
    assert(a@ == b@);
    true
}

/// A sum of sizes as far as it can be shown: where it is larger than any
/// `u64`, the largest.
pub open spec fn capped(sum: nat) -> nat {
    if sum <= u64::MAX {
        sum
    } else {
        u64::MAX as nat
    }
}

/// `total` and `len` together, as far as that can be shown.
pub fn add_size(total: u64, len: u64) -> (sum: u64)
    ensures
        sum == capped((total + len) as nat),
{
    total.saturating_add(len)
}

/// The bytes of a number are its digits to the base of 256, the lowest first.
pub proof fn bytes_are_digits(x: nat, n: nat, i: nat)
    requires
        i < n,
    ensures
        le_bytes(x, n).len() == n,
        le_bytes(x, n)[i as int] as nat == x / pow256(i) % 256,
    decreases n,
{
    le_bytes_len(x, n);
    if i > 0 {
        let y = x / 256;
        bytes_are_digits(y, (n - 1) as nat, (i - 1) as nat);
        le_bytes_len(y, (n - 1) as nat);
        let p = pow256((i - 1) as nat);
        pow256_positive((i - 1) as nat);
        vstd::arithmetic::div_mod::lemma_div_denominator(x as int, 256, p as int);
        assert(le_bytes(x, n)[i as int] == le_bytes(y, (n - 1) as nat)[i - 1]);
    } else {
        assert(x / 1 == x);
    }
}

proof fn pow256_positive(n: nat)
    ensures
        pow256(n) > 0,
    decreases n,
{
    if n > 0 {
        pow256_positive((n - 1) as nat);
    }
}

/// A signed number and the bits that stand for it differ by a multiple of 2^32.
pub proof fn bits_are_twos_complement(x: i32)
    ensures
        bits32(x) < 0x1_0000_0000,
        bits32(x) as int % 0x1_0000_0000 == x as int % 0x1_0000_0000,
{
}

/// A sum is shown as it is where it fits, and else as the largest number.
pub proof fn capped_is_least(sum: nat)
    ensures
        capped(sum) <= sum,
        capped(sum) <= u64::MAX,
        capped(sum) == sum || capped(sum) == u64::MAX,
{
}

} // verus!
