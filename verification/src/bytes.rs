//! Little-endian numbers and padding, the two ways in which a TIFF file turns values into bytes.

use vstd::arithmetic::div_mod::lemma_fundamental_div_mod;
use vstd::arithmetic::power::{lemma_pow_positive, pow};
use vstd::prelude::*;

verus! {

/// The `width` low-order bytes of `value`, the least significant one first.
pub open spec fn le_bytes(value: nat, width: nat) -> Seq<u8>
    decreases width,
{
    if width == 0 {
        Seq::empty()
    } else {
        seq![(value % 256) as u8] + le_bytes(value / 256, (width - 1) as nat)
    }
}

/// The number that `bytes` stand for, the least significant one first.
pub open spec fn le_value(bytes: Seq<u8>) -> nat
    decreases bytes.len(),
{
    if bytes.len() == 0 {
        0
    } else {
        bytes[0] as nat + 256 * le_value(bytes.skip(1))
    }
}

/// Whether `value` can be told from its `width` low-order bytes.
pub open spec fn fits(value: nat, width: nat) -> bool {
    value < pow(256, width)
}

/// What remains of a number in 64 bits.
#[verifier::opaque]
pub open spec fn low_bits(value: nat) -> nat {
    value % 0x1_0000_0000_0000_0000
}

/// `count` zero bytes.
pub open spec fn zeros(count: nat) -> Seq<u8> {
    Seq::new(count, |i: int| 0u8)
}

/// The smallest multiple of `unit` that is not less than `n`.
pub open spec fn round_up(n: nat, unit: nat) -> nat
    recommends
        unit > 0,
{
    (n + (unit - n % unit) % unit as int) as nat
}

/// `data`, filled up with zero bytes to a multiple of `unit` bytes.
pub open spec fn padded(data: Seq<u8>, unit: nat) -> Seq<u8> {
    data + zeros((round_up(data.len(), unit) - data.len()) as nat)
}

/// The elements of all of `parts`, one part after the other.
pub open spec fn concat(parts: Seq<Seq<u8>>) -> Seq<u8>
    decreases parts.len(),
{
    if parts.len() == 0 {
        Seq::empty()
    } else {
        concat(parts.drop_last()) + parts.last()
    }
}

pub proof fn lemma_le_bytes_len(value: nat, width: nat)
    ensures
        le_bytes(value, width).len() == width,
    decreases width,
{
    if width > 0 {
        lemma_le_bytes_len(value / 256, (width - 1) as nat);
    }
}

/// A number that fits in a field is read back from it.
pub proof fn lemma_le_round_trip(value: nat, width: nat)
    requires
        fits(value, width),
    ensures
        le_value(le_bytes(value, width)) == value,
    decreases width,
{
    reveal_with_fuel(pow, 1);
    if width > 0 {
        let rest = le_bytes(value / 256, (width - 1) as nat);
        assert(pow(256, width) == 256 * pow(256, (width - 1) as nat));
        assert(value / 256 < pow(256, (width - 1) as nat)) by (nonlinear_arith)
            requires
                value < 256 * pow(256, (width - 1) as nat),
        ;
        lemma_le_round_trip(value / 256, (width - 1) as nat);
        assert(le_bytes(value, width).skip(1) =~= rest);
        assert(le_bytes(value, width)[0] == (value % 256) as u8);
    }
}

/// What lies above 64 bits does not show in a field of at most 8 bytes.
pub proof fn lemma_le_bytes_of_low_bits(value: nat, width: nat)
    requires
        width <= 8,
    ensures
        le_bytes(low_bits(value), width) == le_bytes(value, width),
{
    reveal(low_bits);
    assert(0x1_0000_0000_0000_0000 == pow(256, 8)) by {
        reveal_with_fuel(pow, 9);
    }
    lemma_le_bytes_of_low_digits(value, width, 8);
}

pub proof fn lemma_low_bits_small(value: nat)
    requires
        value <= u64::MAX,
    ensures
        low_bits(value) == value,
{
    reveal(low_bits);
}

pub proof fn lemma_low_bits_sum(a: nat, b: nat)
    ensures
        low_bits(low_bits(a) + b) == low_bits(a + b),
{
    reveal(low_bits);
}

/// Adds up, without the bits that do not fit.
pub fn wrapping_sum(a: u64, b: u64) -> (total: u64)
    ensures
        total == low_bits(a as nat + b as nat),
{
    proof {
        reveal(low_bits);
    }
    a.wrapping_add(b)
}

proof fn lemma_le_bytes_of_low_digits(value: nat, width: nat, digits: nat)
    requires
        width <= digits,
    ensures
        pow(256, digits) > 0,
        le_bytes((value as int % pow(256, digits)) as nat, width) == le_bytes(value, width),
    decreases width,
{
    lemma_pow_positive(256, digits);
    if width > 0 {
        let fewer = (digits - 1) as nat;
        lemma_pow_positive(256, fewer);
        let high = pow(256, fewer);
        assert(pow(256, digits) == 256 * high) by {
            reveal_with_fuel(pow, 1);
        }
        lemma_low_digits_shift(value, high as nat);
        lemma_le_bytes_of_low_digits(value / 256, (width - 1) as nat, fewer);
    }
}

/// Dropping the last digit and cutting off high digits can be done in either order.
proof fn lemma_low_digits_shift(value: nat, high: nat)
    requires
        high > 0,
    ensures
        (value % (256 * high)) / 256 == (value / 256) % high,
        (value % (256 * high)) % 256 == value % 256,
{
    vstd::arithmetic::div_mod::lemma_mod_breakdown(value as int, 256, high as int);
    let a = (value / 256) % high;
    assert(value % (256 * high) == 256 * a + value % 256);
}

pub proof fn lemma_round_up(n: nat, unit: nat)
    requires
        unit > 0,
    ensures
        n <= round_up(n, unit) < n + unit,
        round_up(n, unit) % unit == 0,
{
    let r = n % unit;
    let gap = (unit - r) % unit as int;
    lemma_fundamental_div_mod(n as int, unit as int);
    if r == 0 {
        vstd::arithmetic::div_mod::lemma_mod_self_0(unit as int);
    } else {
        vstd::arithmetic::div_mod::lemma_small_mod((unit - r) as nat, unit);
        assert(n + gap == unit * (n / unit) + unit);
        assert(unit * (n / unit) + unit == unit * (n / unit + 1)) by (nonlinear_arith);
        vstd::arithmetic::div_mod::lemma_mod_multiples_basic((n / unit + 1) as int, unit as int);
        vstd::arithmetic::mul::lemma_mul_is_commutative((n / unit + 1) as int, unit as int);
    }
}

pub proof fn lemma_padded_len(data: Seq<u8>, unit: nat)
    requires
        unit > 0,
    ensures
        padded(data, unit).len() == round_up(data.len(), unit),
        padded(data, unit).take(data.len() as int) == data,
{
    lemma_round_up(data.len(), unit);
    assert(padded(data, unit).take(data.len() as int) =~= data);
}

/// Appends the `width` low-order bytes of `value`, the least significant one first.
pub fn push_le(out: &mut Vec<u8>, value: u64, width: usize)
    ensures
        final(out)@ == old(out)@ + le_bytes(value as nat, width as nat),
{
    let mut rest: u64 = value;
    let mut left: usize = width;
    assert(out@ + le_bytes(rest as nat, left as nat) =~= old(out)@ + le_bytes(
        value as nat,
        width as nat,
    ));
    while left > 0
        invariant
            out@ + le_bytes(rest as nat, left as nat) == old(out)@ + le_bytes(
                value as nat,
                width as nat,
            ),
        decreases left,
    {
        let ghost before = out@;
        let ghost tail = le_bytes(rest as nat / 256, (left - 1) as nat);
        out.push((rest % 256) as u8);
        assert(out@ + tail =~= before + le_bytes(rest as nat, left as nat));
        rest = rest / 256;
        left = left - 1;
    }
    assert(out@ =~= out@ + le_bytes(rest as nat, 0));
}

/// Appends `count` zero bytes.
pub fn push_zeros(out: &mut Vec<u8>, count: usize)
    ensures
        final(out)@ == old(out)@ + zeros(count as nat),
{
    let mut done: usize = 0;
    assert(out@ =~= old(out)@ + zeros(0));
    while done < count
        invariant
            done <= count,
            out@ == old(out)@ + zeros(done as nat),
        decreases count - done,
    {
        out.push(0);
        done = done + 1;
        assert(out@ =~= old(out)@ + zeros(done as nat));
    }
}

/// Appends `data` and fills it up with zero bytes to a multiple of `unit` bytes.
pub fn push_padded(out: &mut Vec<u8>, data: &[u8], unit: usize)
    requires
        unit > 0,
    ensures
        final(out)@ == old(out)@ + padded(data@, unit as nat),
{
    let gap: usize = (unit - data.len() % unit) % unit;
    out.extend_from_slice(data);
    push_zeros(out, gap);
    proof {
        lemma_round_up(data@.len(), unit as nat);
        assert(out@ =~= old(out)@ + padded(data@, unit as nat));
    }
}

} // verus!
