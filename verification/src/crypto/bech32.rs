//! The text form of addresses: a prefix, a separator, and data in groups of
//! five bits, closed by a checksum of six groups.

use vstd::arithmetic::div_mod::lemma_fundamental_div_mod_converse;
use vstd::prelude::*;
use vstd::string::StringSliceAdditionalSpecFns;

verus! {

/// Why a text is no address, or why data cannot be made into one.
#[derive(Clone, Copy, Debug, PartialEq, Eq, Structural)]
pub enum Bech32Error {
    /// A value does not fit in the number of bits stated for it.
    InvalidDataRange(u8, u16),
    /// The data ends in a whole group of padding.
    IllegalZeroPadding,
    /// The padding holds a bit that is set.
    NonZeroPadding,
    /// The prefix is empty.
    HrpEmpty,
    /// The prefix holds a byte outside the printable characters.
    HrpInvalidCharacter(u8),
    /// The text mixes upper and lower case.
    MixedCase,
    /// A value to encode is no group of five bits.
    InvalidValue(u8),
    /// The text holds no separator.
    SeparatorNotFound,
    /// The separator stands at the start, or leaves no room for a checksum.
    SeparatorInvalidPosition(usize),
    /// The character at this place is not one of the 32 of the alphabet.
    InvalidCharacter(usize),
    /// The checksum does not fit the rest.
    InvalidChecksum,
    /// The prefix is none that is known, or not that of the network that the
    /// address names.
    InvalidPrefix,
}

/// 2 to the power `n`.
pub open spec fn pow2(n: nat) -> nat
    decreases n,
{
    if n == 0 {
        1
    } else {
        2 * pow2((n - 1) as nat)
    }
}

/// The number that `digits` spell in base `2^width`, most significant first.
pub open spec fn digits_value(digits: Seq<u8>, width: nat) -> nat
    decreases digits.len(),
{
    if digits.len() == 0 {
        0
    } else {
        digits_value(digits.drop_last(), width) * pow2(width) + digits.last() as nat
    }
}

/// The `n` low-order digits of `x` in base `2^width`, most significant first.
pub open spec fn digits_of(x: nat, width: nat, n: nat) -> Seq<u8>
    decreases n,
{
    if n == 0 {
        Seq::empty()
    } else {
        digits_of(x / pow2(width), width, (n - 1) as nat).push((x % pow2(width)) as u8)
    }
}

/// Whether every value of `data` fits in `width` bits.
pub open spec fn in_range(data: Seq<u8>, width: nat) -> bool {
    forall|i: int| 0 <= i < data.len() ==> (#[trigger] data[i] as nat) < pow2(width)
}

/// The first value of `data` that does not fit in `width` bits.
pub open spec fn first_out_of_range(data: Seq<u8>, width: nat) -> u8
    decreases data.len(),
{
    if data.len() == 0 {
        0
    } else if data[0] as nat >= pow2(width) {
        data[0]
    } else {
        first_out_of_range(data.drop_first(), width)
    }
}

/// The bits of `data`, taken `from` at a time, regrouped `to` at a time.
///
/// The values of `data` spell one number in base `2^from`; the result spells
/// the same number in base `2^to`. With padding, zero bits are added behind
/// until the bits make whole groups. Without, the bits left over must be
/// fewer than `from` and all zero, and are dropped.
pub open spec fn regroup(data: Seq<u8>, from: nat, to: nat, pad: bool) -> Result<
    Seq<u8>,
    Bech32Error,
> {
    let total = data.len() * from;
    let left = total % to;
    let value = digits_value(data, from);
    if !in_range(data, from) {
        Err(Bech32Error::InvalidDataRange(first_out_of_range(data, from), from as u16))
    } else if pad {
        if left == 0 {
            Ok(digits_of(value, to, total / to))
        } else {
            Ok(digits_of(value * pow2((to - left) as nat), to, total / to + 1))
        }
    } else if left >= from {
        Err(Bech32Error::IllegalZeroPadding)
    } else if value % pow2(left) != 0 {
        Err(Bech32Error::NonZeroPadding)
    } else {
        Ok(digits_of(value / pow2(left), to, total / to))
    }
}

/// The powers of two up to the sixteenth.
pub proof fn lemma_pow2_values()
    ensures
        pow2(0) == 1,
        pow2(1) == 2,
        pow2(2) == 4,
        pow2(3) == 8,
        pow2(4) == 16,
        pow2(5) == 32,
        pow2(6) == 64,
        pow2(7) == 128,
        pow2(8) == 256,
        pow2(16) == 65536,
{
    reveal_with_fuel(pow2, 17);
}

/// Powers of two are positive.
pub proof fn lemma_pow2_positive(n: nat)
    ensures
        pow2(n) > 0,
    decreases n,
{
    if n > 0 {
        lemma_pow2_positive((n - 1) as nat);
    }
}

/// Powers of two grow with the exponent.
pub proof fn lemma_pow2_mono(a: nat, b: nat)
    requires
        a <= b,
    ensures
        pow2(a) <= pow2(b),
    decreases b,
{
    if a < b {
        lemma_pow2_mono(a, (b - 1) as nat);
        lemma_pow2_positive((b - 1) as nat);
    }
}

/// The power of a sum is the product of the powers.
pub proof fn lemma_pow2_add(a: nat, b: nat)
    ensures
        pow2(a + b) == pow2(a) * pow2(b),
    decreases b,
{
    if b == 0 {
        assert(pow2(a) * 1 == pow2(a));
    } else {
        lemma_pow2_add(a, (b - 1) as nat);
        assert(pow2(a + b) == 2 * pow2((a + b - 1) as nat));
        assert(2 * (pow2(a) * pow2((b - 1) as nat)) == pow2(a) * (2 * pow2((b - 1) as nat)))
            by (nonlinear_arith);
    }
}

/// `digits_of(x, width, n)` has `n` digits, each within `width` bits.
pub proof fn lemma_digits_of_shape(x: nat, width: nat, n: nat)
    requires
        width <= 8,
    ensures
        digits_of(x, width, n).len() == n,
        in_range(digits_of(x, width, n), width),
    decreases n,
{
    if n > 0 {
        lemma_pow2_values();
        lemma_pow2_positive(width);
        lemma_pow2_mono(width, 8);
        lemma_digits_of_shape(x / pow2(width), width, (n - 1) as nat);
        let init = digits_of(x / pow2(width), width, (n - 1) as nat);
        let all = digits_of(x, width, n);
        assert(x % pow2(width) < pow2(width)) by (nonlinear_arith)
            requires
                pow2(width) > 0,
        ;
        assert forall|i: int| 0 <= i < all.len() implies (#[trigger] all[i] as nat) < pow2(
            width,
        ) by {
            if i < init.len() {
                assert(all[i] == init[i]);
            }
        }
    }
}

/// Writing out the number that digits within range spell gives the digits.
pub proof fn lemma_digits_of_value(digits: Seq<u8>, width: nat)
    requires
        in_range(digits, width),
    ensures
        digits_of(digits_value(digits, width), width, digits.len()) == digits,
    decreases digits.len(),
{
    if digits.len() > 0 {
        let init = digits.drop_last();
        let hi = digits_value(init, width);
        let lo = digits.last() as nat;
        let p = pow2(width);
        assert(in_range(init, width)) by {
            assert forall|i: int| 0 <= i < init.len() implies (#[trigger] init[i] as nat) < pow2(
                width,
            ) by {
                assert(init[i] == digits[i]);
            }
        }
        lemma_digits_of_value(init, width);
        assert(lo < p) by {
            assert((digits[digits.len() - 1] as nat) < pow2(width));
        }
        assert((hi * p + lo) / p == hi && (hi * p + lo) % p == lo) by (nonlinear_arith)
            requires
                lo < p,
        ;
        assert(digits_of(digits_value(digits, width), width, digits.len()) =~= digits);
    } else {
        assert(digits_of(digits_value(digits, width), width, digits.len()) =~= digits);
    }
}

/// Reading back the digits of `x` gives `x`, when `x` fits in `n` digits.
pub proof fn lemma_digits_value_of(x: nat, width: nat, n: nat)
    requires
        width <= 8,
        x < pow2(width * n),
    ensures
        digits_value(digits_of(x, width, n), width) == x,
    decreases n,
{
    if n > 0 {
        let m = (n - 1) as nat;
        let p = pow2(width);
        let s = digits_of(x, width, n);
        lemma_pow2_values();
        lemma_pow2_positive(width);
        lemma_pow2_mono(width, 8);
        lemma_digits_of_shape(x / p, width, m);
        assert(s.drop_last() =~= digits_of(x / p, width, m));
        assert(width * n == width * m + width) by (nonlinear_arith)
            requires
                n == m + 1,
        ;
        lemma_pow2_add(width * m, width);
        assert(x / p < pow2(width * m)) by (nonlinear_arith)
            requires
                x < pow2(width * m) * p,
                p > 0,
        ;
        lemma_digits_value_of(x / p, width, m);
        assert(x % p < 256) by (nonlinear_arith)
            requires
                0 < p <= 256,
        ;
        assert(s.last() == (x % p) as u8);
        assert((x / p) * p + x % p == x) by (nonlinear_arith)
            requires
                p > 0,
        ;
    } else {
        assert(width * n == 0) by (nonlinear_arith)
            requires
                n == 0,
        ;
    }
}

/// Digits within range spell a number below `2^(width * count)`.
pub proof fn lemma_digits_value_bound(digits: Seq<u8>, width: nat)
    requires
        in_range(digits, width),
    ensures
        digits_value(digits, width) < pow2(width * digits.len()),
    decreases digits.len(),
{
    let n = digits.len();
    if n > 0 {
        let init = digits.drop_last();
        let p = pow2(width);
        assert(in_range(init, width)) by {
            assert forall|i: int| 0 <= i < init.len() implies (#[trigger] init[i] as nat) < pow2(
                width,
            ) by {
                assert(init[i] == digits[i]);
            }
        }
        lemma_digits_value_bound(init, width);
        assert((digits[n - 1] as nat) < pow2(width));
        assert(width * n == width * init.len() + width) by (nonlinear_arith)
            requires
                n == init.len() + 1,
        ;
        lemma_pow2_add(width * init.len(), width);
        let hi = digits_value(init, width);
        let q = pow2(width * init.len());
        assert(hi * p + p <= q * p) by (nonlinear_arith)
            requires
                hi + 1 <= q,
        ;
    } else {
        assert(width * n == 0) by (nonlinear_arith)
            requires
                n == 0,
        ;
    }
}

/// The first value out of range is the one behind a run of values in range.
pub proof fn lemma_first_out_of_range(data: Seq<u8>, width: nat, i: int)
    requires
        0 <= i < data.len(),
        in_range(data.take(i), width),
        data[i] as nat >= pow2(width),
    ensures
        !in_range(data, width),
        first_out_of_range(data, width) == data[i],
    decreases i,
{
    if i > 0 {
        let rest = data.drop_first();
        assert((data.take(i)[0] as nat) < pow2(width));
        assert(in_range(rest.take(i - 1), width)) by {
            assert forall|j: int| 0 <= j < i - 1 implies (#[trigger] rest.take(i - 1)[j] as nat)
                < pow2(width) by {
                assert(rest.take(i - 1)[j] == data.take(i)[j + 1]);
            }
        }
        lemma_first_out_of_range(rest, width, i - 1);
    }
}

/// 2 to the power `n`, for the exponents that bit groups need.
fn power_of_two(n: u16) -> (r: u32)
    requires
        n <= 16,
    ensures
        r == pow2(n as nat),
        0 < r <= 65536,
{
    let mut r: u32 = 1;
    let mut i: u16 = 0;
    proof {
        lemma_pow2_values();
    }
    while i < n
        invariant
            i <= n <= 16,
            r == pow2(i as nat),
            0 < r <= 65536,
        decreases n - i,
    {
        proof {
            lemma_pow2_values();
            lemma_pow2_mono((i + 1) as nat, 16);
        }
        r = r * 2;
        i += 1;
    }
    r
}

/// Regroups the bits of `data` from groups of `from` bits into groups of `to`
/// bits. Both widths lie between one and eight.
pub fn convert_bits(data: &[u8], from: u16, to: u16, pad: bool) -> (r: Result<
    Vec<u8>,
    Bech32Error,
>)
    requires
        1 <= from <= 8,
        1 <= to <= 8,
    ensures
        match regroup(data@, from as nat, to as nat, pad) {
            Ok(groups) => r matches Ok(v) && v@ == groups,
            Err(e) => r == Err::<Vec<u8>, Bech32Error>(e),
        },
{
    let n = data.len();
    let from_unit = power_of_two(from);
    let mut acc: u32 = 0;
    let mut bits: u16 = 0;
    let mut result: Vec<u8> = Vec::new();
    let mut i: usize = 0;
    proof {
        lemma_pow2_values();
        assert(data@.take(0) =~= Seq::<u8>::empty());
        assert(0 * to == 0 && 0 * from == 0) by (nonlinear_arith);
    }
    while i < n
        invariant
            i <= n,
            n == data@.len(),
            1 <= from <= 8,
            1 <= to <= 8,
            from_unit == pow2(from as nat),
            bits < to,
            acc < pow2(bits as nat),
            in_range(data@.take(i as int), from as nat),
            in_range(result@, to as nat),
            result@.len() * to + bits == i * from,
            digits_value(result@, to as nat) * pow2(bits as nat) + acc == digits_value(
                data@.take(i as int),
                from as nat,
            ),
        decreases n - i,
    {
        let value = data[i];
        if value as u32 >= from_unit {
            proof {
                lemma_first_out_of_range(data@, from as nat, i as int);
            }
            return Err(Bech32Error::InvalidDataRange(value, from));
        }
        let ghost before = data@.take(i as int);
        let ghost after = data@.take(i + 1);
        proof {
            lemma_pow2_values();
            lemma_pow2_mono(bits as nat, 7);
            lemma_pow2_mono(from as nat, 8);
            lemma_pow2_add(bits as nat, from as nat);
            assert(after.drop_last() =~= before);
            assert(after.last() == value);
            assert(in_range(after, from as nat)) by {
                assert forall|j: int| 0 <= j < after.len() implies (#[trigger] after[j] as nat)
                    < pow2(from as nat) by {
                    if j < i {
                        assert(after[j] == before[j]);
                    }
                }
            }
            let hi = digits_value(result@, to as nat);
            let pb = pow2(bits as nat);
            let pf = pow2(from as nat);
            assert((hi * pb + acc) * pf + value == hi * (pb * pf) + (acc * pf + value))
                by (nonlinear_arith);
            assert(acc * pf + value < pb * pf) by (nonlinear_arith)
                requires
                    acc + 1 <= pb,
                    (value as nat) < pf,
            ;
            assert(pb * pf <= 128 * 256) by (nonlinear_arith)
                requires
                    0 < pb <= 128,
                    0 < pf <= 256,
            ;
            assert((i + 1) * from == i * from + from) by (nonlinear_arith);
        }
        acc = acc * from_unit + value as u32;
        bits = bits + from;
        while bits >= to
            invariant
                1 <= to <= 8,
                bits < 16,
                acc < pow2(bits as nat),
                in_range(result@, to as nat),
                result@.len() * to + bits == (i + 1) * from,
                digits_value(result@, to as nat) * pow2(bits as nat) + acc == digits_value(
                    after,
                    from as nat,
                ),
            decreases bits,
        {
            let ghost all = bits;
            let ghost hi = digits_value(result@, to as nat);
            let ghost whole = acc;
            let ghost groups = result@;
            bits = bits - to;
            let unit = power_of_two(bits);
            let digit = acc / unit;
            proof {
                lemma_pow2_values();
                lemma_pow2_add(bits as nat, to as nat);
                lemma_pow2_mono(to as nat, 8);
                let pt = pow2(to as nat);
                let pb = pow2(bits as nat);
                assert(whole / (pb as u32) < pt) by (nonlinear_arith)
                    requires
                        whole < pb * pt,
                        0 < pb <= 65536,
                        pb == (pb as u32),
                ;
                assert((whole / (pb as u32)) * pb + whole % (pb as u32) == whole)
                    by (nonlinear_arith)
                    requires
                        0 < pb <= 65536,
                        pb == (pb as u32),
                ;
                assert(whole % (pb as u32) < pb) by (nonlinear_arith)
                    requires
                        0 < pb <= 65536,
                        pb == (pb as u32),
                ;
            }
            acc = acc % unit;
            result.push(digit as u8);
            proof {
                let pt = pow2(to as nat);
                let pb = pow2(bits as nat);
                assert(result@.drop_last() =~= groups);
                assert(result@.last() == digit as u8);
                assert(digits_value(result@, to as nat) == hi * pt + digit);
                assert((hi * pt + digit) * pb + acc == hi * (pb * pt) + (digit * pb + acc))
                    by (nonlinear_arith);
                assert(in_range(result@, to as nat)) by {
                    assert forall|j: int| 0 <= j < result@.len() implies (
                    #[trigger] result@[j] as nat) < pow2(to as nat) by {
                        if j < groups.len() {
                            assert(result@[j] == groups[j]);
                        }
                    }
                }
                assert((groups.len() + 1) * to == groups.len() * to + to) by (nonlinear_arith);
            }
        }
        i += 1;
    }
    proof {
        assert(data@.take(n as int) =~= data@);
        lemma_pow2_values();
        lemma_fundamental_div_mod_converse(
            (n * from) as int,
            to as int,
            result@.len() as int,
            bits as int,
        );
        lemma_digits_of_value(result@, to as nat);
        assert(in_range(data@, from as nat));
        assert((data@.len() * (from as nat)) / (to as nat) == result@.len());
        assert((data@.len() * (from as nat)) % (to as nat) == bits);
    }
    let ghost value = digits_value(data@, from as nat);
    let ghost total = data@.len() * (from as nat);
    assert(value == digits_value(result@, to as nat) * pow2(bits as nat) + acc);
    if pad {
        if bits > 0 {
            let unit = power_of_two(to - bits);
            let ghost groups = result@;
            let ghost hi = digits_value(result@, to as nat);
            proof {
                lemma_pow2_add(bits as nat, (to - bits) as nat);
                lemma_pow2_mono(to as nat, 8);
                let pb = pow2(bits as nat);
                let pu = pow2((to - bits) as nat);
                assert(acc * pu < pb * pu) by (nonlinear_arith)
                    requires
                        acc < pb,
                        pu > 0,
                ;
            }
            result.push((acc * unit) as u8);
            proof {
                let pb = pow2(bits as nat);
                let pu = pow2((to - bits) as nat);
                let pt = pow2(to as nat);
                assert(result@.drop_last() =~= groups);
                assert(digits_value(result@, to as nat) == hi * pt + acc * pu);
                assert(hi * (pb * pu) + acc * pu == (hi * pb + acc) * pu) by (nonlinear_arith);
                assert(in_range(result@, to as nat)) by {
                    assert forall|j: int| 0 <= j < result@.len() implies (
                    #[trigger] result@[j] as nat) < pow2(to as nat) by {
                        if j < groups.len() {
                            assert(result@[j] == groups[j]);
                        }
                    }
                }
                lemma_digits_of_value(result@, to as nat);
                assert(pt == pb * pu);
                assert(digits_value(result@, to as nat) == value * pu);
                assert(result@ == digits_of(value * pu, to as nat, total / (to as nat) + 1));
            }
        } else {
            assert(acc == 0);
            assert(digits_value(result@, to as nat) * 1 == value);
            assert(result@ == digits_of(value, to as nat, total / (to as nat)));
        }
        Ok(result)
    } else if bits >= from {
        Err(Bech32Error::IllegalZeroPadding)
    } else if acc != 0 {
        proof {
            lemma_pow2_positive(bits as nat);
            let hi = digits_value(result@, to as nat);
            let pb = pow2(bits as nat);
            assert(((hi * pb + acc) as nat) % pb == acc) by (nonlinear_arith)
                requires
                    acc < pb,
            ;
        }
        Err(Bech32Error::NonZeroPadding)
    } else {
        proof {
            lemma_pow2_positive(bits as nat);
            let hi = digits_value(result@, to as nat);
            let pb = pow2(bits as nat);
            assert(((hi * pb) as nat) % pb == 0 && ((hi * pb) as nat) / pb == hi)
                by (nonlinear_arith)
                requires
                    pb > 0,
            ;
        }
        Ok(result)
    }
}

/// Regrouping bytes into groups of five bits with padding, and the groups
/// back into bytes without, gives the bytes back.
pub proof fn lemma_regroup_round_trip(data: Seq<u8>)
    ensures
        regroup(data, 8, 5, true) matches Ok(groups) && regroup(groups, 5, 8, false) == Ok::<
            Seq<u8>,
            Bech32Error,
        >(data),
{
    lemma_pow2_values();
    let count = data.len();
    let total = count * 8;
    let left = total % 5;
    let value = digits_value(data, 8);
    assert(in_range(data, 8));
    lemma_digits_value_bound(data, 8);
    lemma_digits_of_value(data, 8);
    let pad = if left == 0 {
        0nat
    } else {
        (5 - left) as nat
    };
    let groups_count = if left == 0 {
        total / 5
    } else {
        total / 5 + 1
    };
    let shifted = value * pow2(pad);
    let groups = digits_of(shifted, 5, groups_count);
    assert(data.len() * 8 == total);
    if left == 0 {
        assert(shifted == value) by (nonlinear_arith)
            requires
                shifted == value * pow2(pad),
                pow2(pad) == 1,
        ;
        assert(regroup(data, 8, 5, true) == Ok::<Seq<u8>, Bech32Error>(
            digits_of(value, 5, total / 5),
        ));
    } else {
        assert(regroup(data, 8, 5, true) == Ok::<Seq<u8>, Bech32Error>(
            digits_of(value * pow2((5 - left) as nat), 5, total / 5 + 1),
        ));
    }
    assert(regroup(data, 8, 5, true) == Ok::<Seq<u8>, Bech32Error>(groups));
    lemma_digits_of_shape(shifted, 5, groups_count);
    assert(5 * groups_count == 8 * count + pad);
    lemma_pow2_add(8 * count, pad);
    assert(shifted < pow2(5 * groups_count)) by (nonlinear_arith)
        requires
            value < pow2(8 * count),
            shifted == value * pow2(pad),
            pow2(5 * groups_count) == pow2(8 * count) * pow2(pad),
            pow2(pad) > 0,
    ;
    lemma_digits_value_of(shifted, 5, groups_count);
    assert((groups.len() * 5) % 8 == pad);
    assert((groups.len() * 5) / 8 == count);
    assert(shifted % pow2(pad) == 0 && shifted / pow2(pad) == value) by (nonlinear_arith)
        requires
            shifted == value * pow2(pad),
            pow2(pad) > 0,
    ;
}

/// The separator between the prefix and the data.
pub const SEPARATOR: u8 = 58;

/// The 32 characters that stand for the groups of five bits, in the order of
/// the values they stand for: `qpzry9x8gf2tvdw0s3jn54khce6mua7l`.
pub const CHARSET: [u8; 32] = [
    113, 112, 122, 114, 121, 57, 120, 56, 103, 102, 50, 116, 118, 100, 119, 48,
    115, 51, 106, 110, 53, 52, 107, 104, 99, 101, 54, 109, 117, 97, 55, 108,
];

/// One step of the checksum: the state after taking in one more value.
pub open spec fn polymod_step(chk: u32, value: u8) -> u32 {
    let top = chk >> 25;
    let moved = ((chk & 0x1ffffff) << 5) ^ (value as u32);
    let g0: u32 = if top & 1 == 1 {
        0x3b6a57b2
    } else {
        0
    };
    let g1: u32 = if (top >> 1) & 1 == 1 {
        0x26508e6d
    } else {
        0
    };
    let g2: u32 = if (top >> 2) & 1 == 1 {
        0x1ea119fa
    } else {
        0
    };
    let g3: u32 = if (top >> 3) & 1 == 1 {
        0x3d4233dd
    } else {
        0
    };
    let g4: u32 = if (top >> 4) & 1 == 1 {
        0x2a1462b3
    } else {
        0
    };
    moved ^ g0 ^ g1 ^ g2 ^ g3 ^ g4
}

/// The state of the checksum after taking in `values`, one by one, from the
/// state `chk`.
pub open spec fn polymod_from(chk: u32, values: Seq<u8>) -> u32
    decreases values.len(),
{
    if values.len() == 0 {
        chk
    } else {
        polymod_step(polymod_from(chk, values.drop_last()), values.last())
    }
}

/// The checksum state of `values`, which starts from one.
pub open spec fn polymod(values: Seq<u8>) -> u32 {
    polymod_from(1, values)
}

/// The prefix as the checksum takes it in: the high bits of each byte, a
/// zero, and the low five bits of each byte.
pub open spec fn hrp_expand(hrp: Seq<u8>) -> Seq<u8> {
    Seq::new(hrp.len(), |i: int| hrp[i] >> 5) + seq![0u8] + Seq::new(
        hrp.len(),
        |i: int| hrp[i] & 31,
    )
}

/// The six groups that close the data of a text with this prefix.
pub open spec fn checksum(hrp: Seq<u8>, data: Seq<u8>) -> Seq<u8> {
    let state = polymod(hrp_expand(hrp) + data + Seq::new(6, |i: int| 0u8)) ^ 1;
    Seq::new(6, |i: int| ((state >> ((5 * (5 - i)) as u32)) & 31) as u8)
}

/// Whether data that ends in six groups of checksum fits the prefix.
pub open spec fn checksum_holds(hrp: Seq<u8>, data: Seq<u8>) -> bool {
    polymod(hrp_expand(hrp) + data) == 1
}

/// Takes one more value into the checksum.
fn step(chk: u32, value: u8) -> (r: u32)
    ensures
        r == polymod_step(chk, value),
{
    let top = chk >> 25;
    let mut r = ((chk & 0x1ffffff) << 5) ^ (value as u32);
    if top & 1 == 1 {
        r = r ^ 0x3b6a57b2;
    }
    if (top >> 1) & 1 == 1 {
        r = r ^ 0x26508e6d;
    }
    if (top >> 2) & 1 == 1 {
        r = r ^ 0x1ea119fa;
    }
    if (top >> 3) & 1 == 1 {
        r = r ^ 0x3d4233dd;
    }
    if (top >> 4) & 1 == 1 {
        r = r ^ 0x2a1462b3;
    }
    proof {
        let moved = ((chk & 0x1ffffff) << 5) ^ (value as u32);
        assert(forall|x: u32| x ^ 0 == x) by (bit_vector);
    }
    r
}

/// Takes `values` into the checksum, one by one.
fn absorb(chk: u32, values: &[u8]) -> (r: u32)
    ensures
        r == polymod_from(chk, values@),
{
    let n = values.len();
    let mut state = chk;
    let mut i: usize = 0;
    assert(values@.take(0) =~= Seq::<u8>::empty());
    while i < n
        invariant
            i <= n,
            n == values@.len(),
            state == polymod_from(chk, values@.take(i as int)),
        decreases n - i,
    {
        state = step(state, values[i]);
        proof {
            assert(values@.take(i + 1).drop_last() =~= values@.take(i as int));
        }
        i += 1;
    }
    assert(values@.take(n as int) =~= values@);
    state
}

/// Taking in one run of values and then another is taking in both.
pub proof fn lemma_polymod_concat(chk: u32, a: Seq<u8>, b: Seq<u8>)
    ensures
        polymod_from(chk, a + b) == polymod_from(polymod_from(chk, a), b),
    decreases b.len(),
{
    if b.len() == 0 {
        assert(a + b =~= a);
    } else {
        lemma_polymod_concat(chk, a, b.drop_last());
        assert((a + b).drop_last() =~= a + b.drop_last());
    }
}

/// Whether a byte is an upper-case letter.
pub open spec fn is_upper(b: u8) -> bool {
    65 <= b <= 90
}

/// Whether a byte is a lower-case letter.
pub open spec fn is_lower(b: u8) -> bool {
    97 <= b <= 122
}

/// Whether a byte is a printable character other than the space.
pub open spec fn printable(b: u8) -> bool {
    33 <= b <= 126
}

/// The lower-case form of a byte.
pub open spec fn to_lower(b: u8) -> u8 {
    if is_upper(b) {
        (b + 32) as u8
    } else {
        b
    }
}

/// The lower-case form of a text.
pub open spec fn lowered(text: Seq<u8>) -> Seq<u8> {
    Seq::new(text.len(), |i: int| to_lower(text[i]))
}

/// Whether a text holds an upper-case letter.
pub open spec fn has_upper(text: Seq<u8>) -> bool
    decreases text.len(),
{
    text.len() > 0 && (is_upper(text.last()) || has_upper(text.drop_last()))
}

/// Whether a text holds a lower-case letter.
pub open spec fn has_lower(text: Seq<u8>) -> bool
    decreases text.len(),
{
    text.len() > 0 && (is_lower(text.last()) || has_lower(text.drop_last()))
}

/// The place of the first byte of `text` that is not printable, or the
/// length of `text` if every byte is.
pub open spec fn first_unprintable(text: Seq<u8>) -> int
    decreases text.len(),
{
    if text.len() == 0 {
        0
    } else if !printable(text[0]) {
        0
    } else {
        1 + first_unprintable(text.drop_first())
    }
}

/// The place of the last separator in `text`, or -1 if it holds none.
pub open spec fn last_separator(text: Seq<u8>) -> int
    decreases text.len(),
{
    if text.len() == 0 {
        -1
    } else if text.last() == SEPARATOR {
        text.len() - 1
    } else {
        last_separator(text.drop_last())
    }
}

/// The value that a character of the alphabet stands for, or -1 for a byte
/// that is none.
pub open spec fn symbol_value(b: u8) -> int {
    symbol_value_in(CHARSET@, b)
}

/// The last place of `b` in `symbols`, or -1.
pub open spec fn symbol_value_in(symbols: Seq<u8>, b: u8) -> int
    decreases symbols.len(),
{
    if symbols.len() == 0 {
        -1
    } else if symbols.last() == b {
        symbols.len() - 1
    } else {
        symbol_value_in(symbols.drop_last(), b)
    }
}

/// The place of the first byte of `text` that is no character of the
/// alphabet, or the length of `text` if every byte is one.
pub open spec fn first_foreign(text: Seq<u8>) -> int
    decreases text.len(),
{
    if text.len() == 0 {
        0
    } else if symbol_value(text[0]) < 0 {
        0
    } else {
        1 + first_foreign(text.drop_first())
    }
}

/// The characters that stand for `values`.
pub open spec fn symbols(values: Seq<u8>) -> Seq<u8> {
    Seq::new(values.len(), |i: int| CHARSET@[values[i] as int])
}

/// The values that the characters of `text` stand for.
pub open spec fn values_of(text: Seq<u8>) -> Seq<u8> {
    Seq::new(text.len(), |i: int| symbol_value(text[i]) as u8)
}

/// The text form of `data` under the prefix `hrp`: the prefix, the separator,
/// and a character for each group of the data and of its checksum.
///
/// The prefix must not be empty, must hold printable characters only and no
/// upper-case letter; each value of the data must be a group of five bits.
pub open spec fn encode_text(hrp: Seq<u8>, data: Seq<u8>) -> Result<Seq<u8>, Bech32Error> {
    if hrp.len() == 0 {
        Err(Bech32Error::HrpEmpty)
    } else if first_unprintable(hrp) < hrp.len() {
        Err(Bech32Error::HrpInvalidCharacter(hrp[first_unprintable(hrp)]))
    } else if has_upper(hrp) {
        Err(Bech32Error::MixedCase)
    } else if !in_range(data, 5) {
        Err(Bech32Error::InvalidValue(first_out_of_range(data, 5)))
    } else {
        Ok(hrp + seq![SEPARATOR] + symbols(data + checksum(hrp, data)))
    }
}

/// The prefix and the data that a text stands for.
///
/// A text in upper case stands for what its lower-case form stands for; one
/// that mixes cases is refused. The last separator parts the prefix from the
/// data, which ends in six groups of checksum that are not given back.
pub open spec fn decode_text(text: Seq<u8>) -> Result<(Seq<u8>, Seq<u8>), Bech32Error> {
    let pos = last_separator(text);
    let hrp = lowered(text.take(pos));
    let body = lowered(text.skip(pos + 1));
    if has_upper(text) && has_lower(text) {
        Err(Bech32Error::MixedCase)
    } else if pos < 0 {
        Err(Bech32Error::SeparatorNotFound)
    } else if pos < 1 || pos + 7 > text.len() {
        Err(Bech32Error::SeparatorInvalidPosition(pos as usize))
    } else if first_unprintable(hrp) < hrp.len() {
        Err(Bech32Error::HrpInvalidCharacter(hrp[first_unprintable(hrp)]))
    } else if first_foreign(body) < body.len() {
        Err(Bech32Error::InvalidCharacter((pos + 1 + first_foreign(body)) as usize))
    } else if !checksum_holds(hrp, values_of(body)) {
        Err(Bech32Error::InvalidChecksum)
    } else {
        Ok((hrp, values_of(body).take(body.len() - 6)))
    }
}

/// The characters with the codes of `bytes`.
pub open spec fn ascii_chars(bytes: Seq<u8>) -> Seq<char> {
    Seq::new(bytes.len(), |i: int| bytes[i] as char)
}

/// Calls `String::from_utf8`. Trusted: bytes below 128 are valid UTF-8, and
/// the text holds, for each byte, the character with that code.
#[verifier::external_body]
pub(crate) fn ascii_string(bytes: Vec<u8>) -> (r: String)
    requires
        forall|i: int| 0 <= i < bytes@.len() ==> bytes@[i] < 128,
    ensures
        r@ == ascii_chars(bytes@),
{
    String::from_utf8(bytes).unwrap()
}

/// The first unprintable byte stands behind a run of printable ones.
pub proof fn lemma_first_unprintable(text: Seq<u8>, i: int)
    requires
        0 <= i <= text.len(),
        forall|j: int| 0 <= j < i ==> printable(#[trigger] text[j]),
        i < text.len() ==> !printable(text[i]),
    ensures
        first_unprintable(text) == i,
    decreases i,
{
    if i > 0 {
        let rest = text.drop_first();
        assert(printable(text[0]));
        assert forall|j: int| 0 <= j < i - 1 implies printable(#[trigger] rest[j]) by {
            assert(rest[j] == text[j + 1]);
        }
        lemma_first_unprintable(rest, i - 1);
    }
}

/// The first byte that is no character of the alphabet stands behind a run
/// of bytes that are.
pub proof fn lemma_first_foreign(text: Seq<u8>, i: int)
    requires
        0 <= i <= text.len(),
        forall|j: int| 0 <= j < i ==> symbol_value(#[trigger] text[j]) >= 0,
        i < text.len() ==> symbol_value(text[i]) < 0,
    ensures
        first_foreign(text) == i,
    decreases i,
{
    if i > 0 {
        let rest = text.drop_first();
        assert(symbol_value(text[0]) >= 0);
        assert forall|j: int| 0 <= j < i - 1 implies symbol_value(#[trigger] rest[j]) >= 0 by {
            assert(rest[j] == text[j + 1]);
        }
        lemma_first_foreign(rest, i - 1);
    }
}

/// The value that a byte stands for, if it is a character of the alphabet.
fn symbol_index(b: u8) -> (r: Option<u8>)
    ensures
        match r {
            Some(v) => symbol_value(b) == v && v < 32,
            None => symbol_value(b) < 0,
        },
{
    let mut i: usize = 32;
    assert(CHARSET@.take(32) =~= CHARSET@);
    while i > 0
        invariant
            i <= 32,
            symbol_value(b) == symbol_value_in(CHARSET@.take(i as int), b),
        decreases i,
    {
        if CHARSET[i - 1] == b {
            return Some((i - 1) as u8);
        }
        proof {
            assert(CHARSET@.take(i as int).drop_last() =~= CHARSET@.take(i - 1));
        }
        i -= 1;
    }
    None
}

/// Whether `text` holds an upper-case letter, and whether it holds a
/// lower-case one.
fn cases(text: &[u8]) -> (r: (bool, bool))
    ensures
        r.0 == has_upper(text@),
        r.1 == has_lower(text@),
{
    let n = text.len();
    let mut upper = false;
    let mut lower = false;
    let mut i: usize = 0;
    assert(text@.take(0) =~= Seq::<u8>::empty());
    while i < n
        invariant
            i <= n,
            n == text@.len(),
            upper == has_upper(text@.take(i as int)),
            lower == has_lower(text@.take(i as int)),
        decreases n - i,
    {
        let b = text[i];
        proof {
            assert(text@.take(i + 1).drop_last() =~= text@.take(i as int));
            assert(text@.take(i + 1).last() == b);
        }
        if 65 <= b && b <= 90 {
            upper = true;
        }
        if 97 <= b && b <= 122 {
            lower = true;
        }
        i += 1;
    }
    assert(text@.take(n as int) =~= text@);
    (upper, lower)
}

/// The prefix as the checksum takes it in.
fn expand(hrp: &[u8]) -> (r: Vec<u8>)
    ensures
        r@ == hrp_expand(hrp@),
{
    let n = hrp.len();
    let mut out: Vec<u8> = Vec::new();
    let mut i: usize = 0;
    while i < n
        invariant
            i <= n,
            n == hrp@.len(),
            out@ == Seq::new(i as nat, |k: int| hrp@[k] >> 5),
        decreases n - i,
    {
        out.push(hrp[i] >> 5);
        i += 1;
        assert(out@ =~= Seq::new(i as nat, |k: int| hrp@[k] >> 5));
    }
    out.push(0);
    let ghost head = out@;
    let mut i: usize = 0;
    while i < n
        invariant
            i <= n,
            n == hrp@.len(),
            head == Seq::new(n as nat, |k: int| hrp@[k] >> 5) + seq![0u8],
            out@ == head + Seq::new(i as nat, |k: int| hrp@[k] & 31),
        decreases n - i,
    {
        out.push(hrp[i] & 31);
        i += 1;
        assert(out@ =~= head + Seq::new(i as nat, |k: int| hrp@[k] & 31));
    }
    out
}

/// The six groups of checksum for `data` under the prefix `hrp`.
fn create_checksum(hrp: &[u8], data: &[u8]) -> (r: [u8; 6])
    ensures
        r@ == checksum(hrp@, data@),
        in_range(r@, 5),
{
    let expanded = expand(hrp);
    let zeros: [u8; 6] = [0u8; 6];
    let first = absorb(1, expanded.as_slice());
    let second = absorb(first, data);
    let third = absorb(second, zeros.as_slice());
    let state = third ^ 1;
    proof {
        lemma_polymod_concat(1, hrp_expand(hrp@), data@);
        lemma_polymod_concat(1, hrp_expand(hrp@) + data@, zeros@);
        assert(zeros@ =~= Seq::new(6, |i: int| 0u8));
    }
    let mut out: [u8; 6] = [0u8; 6];
    let mut i: usize = 0;
    while i < 6
        invariant
            i <= 6,
            forall|k: int|
                0 <= k < i ==> out@[k] == ((state >> ((5 * (5 - k)) as u32)) & 31) as u8,
        decreases 6 - i,
    {
        let shift: u32 = 5 * (5 - i as u32);
        let group = (state >> shift) & 31;
        assert(group < 32) by (bit_vector)
            requires
                group == (state >> shift) & 31,
        ;
        out[i] = group as u8;
        i += 1;
    }
    proof {
        lemma_pow2_values();
        assert(out@ =~= checksum(hrp@, data@));
        assert forall|k: int| 0 <= k < 6 implies (#[trigger] out@[k] as nat) < pow2(5) by {
            let shift = (5 * (5 - k)) as u32;
            assert((state >> shift) & 31 < 32) by (bit_vector);
        }
    }
    out
}

/// The text form of `data` under the prefix `hrp`.
pub fn encode(hrp: &[u8], data: &[u8]) -> (r: Result<String, Bech32Error>)
    ensures
        match encode_text(hrp@, data@) {
            Ok(text) => r matches Ok(s) && s@ == ascii_chars(text),
            Err(e) => r == Err::<String, Bech32Error>(e),
        },
{
    let n = hrp.len();
    if n == 0 {
        return Err(Bech32Error::HrpEmpty);
    }
    let mut i: usize = 0;
    while i < n
        invariant
            i <= n,
            n == hrp@.len(),
            forall|j: int| 0 <= j < i ==> printable(#[trigger] hrp@[j]),
        decreases n - i,
    {
        let b = hrp[i];
        if b < 33 || b > 126 {
            proof {
                lemma_first_unprintable(hrp@, i as int);
            }
            return Err(Bech32Error::HrpInvalidCharacter(b));
        }
        i += 1;
    }
    proof {
        lemma_first_unprintable(hrp@, n as int);
    }
    let (upper, _) = cases(hrp);
    if upper {
        return Err(Bech32Error::MixedCase);
    }
    let m = data.len();
    let mut i: usize = 0;
    proof {
        lemma_pow2_values();
    }
    while i < m
        invariant
            i <= m,
            m == data@.len(),
            hrp@.len() > 0,
            first_unprintable(hrp@) == hrp@.len(),
            !has_upper(hrp@),
            in_range(data@.take(i as int), 5),
        decreases m - i,
    {
        let value = data[i];
        if value >= 32 {
            proof {
                lemma_pow2_values();
                lemma_first_out_of_range(data@, 5, i as int);
            }
            return Err(Bech32Error::InvalidValue(value));
        }
        proof {
            lemma_pow2_values();
            let before = data@.take(i as int);
            let after = data@.take(i + 1);
            assert forall|j: int| 0 <= j < after.len() implies (#[trigger] after[j] as nat)
                < pow2(5) by {
                if j < i {
                    assert(after[j] == before[j]);
                }
            }
        }
        i += 1;
    }
    assert(data@.take(m as int) =~= data@);
    let check = create_checksum(hrp, data);
    let ghost all = data@ + check@;
    let mut out: Vec<u8> = Vec::new();
    let mut i: usize = 0;
    while i < n
        invariant
            i <= n,
            n == hrp@.len(),
            forall|j: int| 0 <= j < n ==> printable(#[trigger] hrp@[j]),
            out@ == hrp@.take(i as int),
        decreases n - i,
    {
        out.push(hrp[i]);
        i += 1;
        assert(out@ =~= hrp@.take(i as int));
    }
    assert(hrp@.take(n as int) =~= hrp@);
    out.push(SEPARATOR);
    let ghost head = out@;
    let mut i: usize = 0;
    while i < m
        invariant
            i <= m,
            m == data@.len(),
            in_range(data@, 5),
            head == hrp@ + seq![SEPARATOR],
            out@ == head + symbols(data@.take(i as int)),
        decreases m - i,
    {
        proof {
            lemma_pow2_values();
            assert((data@[i as int] as nat) < pow2(5));
        }
        out.push(CHARSET[data[i] as usize]);
        i += 1;
        assert(out@ =~= head + symbols(data@.take(i as int)));
    }
    assert(data@.take(m as int) =~= data@);
    let mut i: usize = 0;
    while i < 6
        invariant
            i <= 6,
            check@.len() == 6,
            in_range(check@, 5),
            head == hrp@ + seq![SEPARATOR],
            out@ == head + symbols(data@ + check@.take(i as int)),
        decreases 6 - i,
    {
        proof {
            lemma_pow2_values();
            assert((check@[i as int] as nat) < pow2(5));
        }
        out.push(CHARSET[check[i] as usize]);
        i += 1;
        assert(out@ =~= head + symbols(data@ + check@.take(i as int)));
    }
    proof {
        assert(check@.take(6) =~= check@);
        assert(out@ =~= hrp@ + seq![SEPARATOR] + symbols(data@ + checksum(hrp@, data@)));
        lemma_charset_ascii();
        assert forall|j: int| 0 <= j < out@.len() implies out@[j] < 128 by {
            if j < n {
                assert(printable(hrp@[j]));
            } else if j > n {
                let v = (data@ + check@)[j - n - 1];
                assert(out@[j] == CHARSET@[v as int]);
            }
        }
    }
    Ok(ascii_string(out))
}

/// Every character of the alphabet is a lower-case letter or a digit.
pub proof fn lemma_charset_ascii()
    ensures
        forall|v: int|
            0 <= v < 32 ==> {
                let c = #[trigger] CHARSET@[v];
                &&& printable(c)
                &&& !is_upper(c)
                &&& c != SEPARATOR
                &&& c < 128
            },
{
    assert forall|v: int| 0 <= v < 32 implies {
        let c = #[trigger] CHARSET@[v];
        &&& printable(c)
        &&& !is_upper(c)
        &&& c != SEPARATOR
        &&& c < 128
    } by {
        let c = CHARSET@[v];
        assert(CHARSET@[v] == CHARSET[v]);
    }
}

/// The lower-case form of a byte.
fn lower(b: u8) -> (r: u8)
    ensures
        r == to_lower(b),
{
    if 65 <= b && b <= 90 {
        b + 32
    } else {
        b
    }
}

/// The prefix and the data that a text stands for.
pub fn decode(text: &str) -> (r: Result<(Vec<u8>, Vec<u8>), Bech32Error>)
    ensures
        match decode_text(text.spec_bytes()) {
            Ok((hrp, data)) => r matches Ok(parts) && parts.0@ == hrp && parts.1@ == data,
            Err(e) => r == Err::<(Vec<u8>, Vec<u8>), Bech32Error>(e),
        },
{
    decode_bytes(text.as_bytes())
}

/// The prefix and the data that the bytes of a text stand for.
pub fn decode_bytes(text: &[u8]) -> (r: Result<(Vec<u8>, Vec<u8>), Bech32Error>)
    ensures
        match decode_text(text@) {
            Ok((hrp, data)) => r matches Ok(parts) && parts.0@ == hrp && parts.1@ == data,
            Err(e) => r == Err::<(Vec<u8>, Vec<u8>), Bech32Error>(e),
        },
{
    let n = text.len();
    let (upper, lower_case) = cases(text);
    if upper && lower_case {
        return Err(Bech32Error::MixedCase);
    }
    let mut found: Option<usize> = None;
    let mut i: usize = n;
    assert(text@.take(n as int) =~= text@);
    while i > 0 && found.is_none()
        invariant
            i <= n,
            n == text@.len(),
            match found {
                Some(pos) => pos < n && last_separator(text@) == pos,
                None => last_separator(text@) == last_separator(text@.take(i as int)),
            },
        decreases i + (if found is None { 1int } else { 0int }),
    {
        proof {
            assert(text@.take(i as int).drop_last() =~= text@.take(i - 1));
            assert(text@.take(i as int).last() == text@[i - 1]);
        }
        if text[i - 1] == SEPARATOR {
            found = Some(i - 1);
        } else {
            i -= 1;
        }
    }
    let pos = match found {
        Some(pos) => pos,
        None => {
            return Err(Bech32Error::SeparatorNotFound);
        },
    };
    if pos < 1 || n - pos < 7 {
        return Err(Bech32Error::SeparatorInvalidPosition(pos));
    }
    let ghost prefix = lowered(text@.take(pos as int));
    let ghost body = lowered(text@.skip(pos + 1));
    let mut hrp: Vec<u8> = Vec::new();
    let mut j: usize = 0;
    while j < pos
        invariant
            j <= pos < n,
            n == text@.len(),
            !(has_upper(text@) && has_lower(text@)),
            last_separator(text@) == pos,
            pos >= 1,
            n - pos >= 7,
            prefix == lowered(text@.take(pos as int)),
            hrp@ == prefix.take(j as int),
            forall|k: int| 0 <= k < j ==> printable(#[trigger] prefix[k]),
        decreases pos - j,
    {
        let b = lower(text[j]);
        assert(prefix[j as int] == b);
        if b < 33 || b > 126 {
            proof {
                lemma_first_unprintable(prefix, j as int);
            }
            return Err(Bech32Error::HrpInvalidCharacter(b));
        }
        hrp.push(b);
        j += 1;
        assert(hrp@ =~= prefix.take(j as int));
    }
    proof {
        assert(prefix.take(pos as int) =~= prefix);
        lemma_first_unprintable(prefix, pos as int);
    }
    let mut values: Vec<u8> = Vec::new();
    let count = n - pos - 1;
    let mut k: usize = 0;
    while k < count
        invariant
            k <= count,
            count == n - pos - 1,
            pos < n,
            n == text@.len(),
            !(has_upper(text@) && has_lower(text@)),
            last_separator(text@) == pos,
            pos >= 1,
            n - pos >= 7,
            prefix == lowered(text@.take(pos as int)),
            first_unprintable(prefix) == prefix.len(),
            body == lowered(text@.skip(pos + 1)),
            body.len() == count,
            values@ == values_of(body).take(k as int),
            forall|q: int| 0 <= q < k ==> symbol_value(#[trigger] body[q]) >= 0,
        decreases count - k,
    {
        let b = lower(text[pos + 1 + k]);
        assert(body[k as int] == b);
        match symbol_index(b) {
            Some(v) => {
                values.push(v);
            },
            None => {
                proof {
                    lemma_first_foreign(body, k as int);
                }
                return Err(Bech32Error::InvalidCharacter(pos + 1 + k));
            },
        }
        k += 1;
        assert(values@ =~= values_of(body).take(k as int));
    }
    proof {
        assert(values_of(body).take(count as int) =~= values_of(body));
        lemma_first_foreign(body, count as int);
    }
    let expanded = expand(hrp.as_slice());
    let first = absorb(1, expanded.as_slice());
    let state = absorb(first, values.as_slice());
    proof {
        lemma_polymod_concat(1, hrp_expand(prefix), values_of(body));
    }
    if state != 1 {
        return Err(Bech32Error::InvalidChecksum);
    }
    values.truncate(count - 6);
    proof {
        assert(values@ =~= values_of(body).take(body.len() - 6));
    }
    Ok((hrp, values))
}

/// A checksum step is linear over exclusive or, in the state and in the
/// value taken in.
pub proof fn lemma_step_linear(a: u32, b: u32, v: u8, w: u8)
    ensures
        polymod_step(a ^ b, v ^ w) == polymod_step(a, v) ^ polymod_step(b, w),
{
    let x = v as u32;
    let y = w as u32;
    let z = (v ^ w) as u32;
    assert(z == x ^ y) by (bit_vector)
        requires
            x == v as u32,
            y == w as u32,
            z == (v ^ w) as u32,
    ;
    let ra = polymod_step(a, v);
    let rb = polymod_step(b, w);
    let rc = polymod_step(a ^ b, v ^ w);
    assert(rc == ra ^ rb) by (bit_vector)
        requires
            ra == (((a & 0x1ffffff) << 5) ^ x) ^ (if (a >> 25) & 1 == 1 {
                0x3b6a57b2u32
            } else {
                0u32
            }) ^ (if ((a >> 25) >> 1) & 1 == 1 {
                0x26508e6du32
            } else {
                0u32
            }) ^ (if ((a >> 25) >> 2) & 1 == 1 {
                0x1ea119fau32
            } else {
                0u32
            }) ^ (if ((a >> 25) >> 3) & 1 == 1 {
                0x3d4233ddu32
            } else {
                0u32
            }) ^ (if ((a >> 25) >> 4) & 1 == 1 {
                0x2a1462b3u32
            } else {
                0u32
            }),
            rb == (((b & 0x1ffffff) << 5) ^ y) ^ (if (b >> 25) & 1 == 1 {
                0x3b6a57b2u32
            } else {
                0u32
            }) ^ (if ((b >> 25) >> 1) & 1 == 1 {
                0x26508e6du32
            } else {
                0u32
            }) ^ (if ((b >> 25) >> 2) & 1 == 1 {
                0x1ea119fau32
            } else {
                0u32
            }) ^ (if ((b >> 25) >> 3) & 1 == 1 {
                0x3d4233ddu32
            } else {
                0u32
            }) ^ (if ((b >> 25) >> 4) & 1 == 1 {
                0x2a1462b3u32
            } else {
                0u32
            }),
            rc == ((((a ^ b) & 0x1ffffff) << 5) ^ z) ^ (if ((a ^ b) >> 25) & 1 == 1 {
                0x3b6a57b2u32
            } else {
                0u32
            }) ^ (if (((a ^ b) >> 25) >> 1) & 1 == 1 {
                0x26508e6du32
            } else {
                0u32
            }) ^ (if (((a ^ b) >> 25) >> 2) & 1 == 1 {
                0x1ea119fau32
            } else {
                0u32
            }) ^ (if (((a ^ b) >> 25) >> 3) & 1 == 1 {
                0x3d4233ddu32
            } else {
                0u32
            }) ^ (if (((a ^ b) >> 25) >> 4) & 1 == 1 {
                0x2a1462b3u32
            } else {
                0u32
            }),
            z == x ^ y,
    ;
}

/// The exclusive or of two runs of values, place by place.
pub open spec fn xor_seq(s: Seq<u8>, t: Seq<u8>) -> Seq<u8> {
    Seq::new(s.len(), |i: int| s[i] ^ t[i])
}

/// The checksum is linear over exclusive or: taking in the exclusive or of
/// two runs from the exclusive or of two states gives the exclusive or of
/// what each run gives from its state.
pub proof fn lemma_polymod_linear(a: u32, b: u32, s: Seq<u8>, t: Seq<u8>)
    requires
        s.len() == t.len(),
    ensures
        polymod_from(a ^ b, xor_seq(s, t)) == polymod_from(a, s) ^ polymod_from(b, t),
    decreases s.len(),
{
    if s.len() > 0 {
        lemma_polymod_linear(a, b, s.drop_last(), t.drop_last());
        assert(xor_seq(s, t).drop_last() =~= xor_seq(s.drop_last(), t.drop_last()));
        assert(xor_seq(s, t).last() == s.last() ^ t.last());
        lemma_step_linear(
            polymod_from(a, s.drop_last()),
            polymod_from(b, t.drop_last()),
            s.last(),
            t.last(),
        );
    }
}

/// A checksum step from a state below `2^25` moves the state up by five bits
/// and puts the value in their place.
pub proof fn lemma_step_small(x: u32, v: u8)
    requires
        x < 0x2000000,
    ensures
        polymod_step(x, v) == (x << 5) ^ (v as u32),
{
    let y = v as u32;
    assert((x >> 25) == 0 && (x & 0x1ffffff) == x) by (bit_vector)
        requires
            x < 0x2000000,
    ;
    assert(0u32 & 1 == 0 && (0u32 >> 1) & 1 == 0 && (0u32 >> 2) & 1 == 0 && (0u32 >> 3) & 1 == 0
        && (0u32 >> 4) & 1 == 0) by (bit_vector);
    let m = (x << 5) ^ y;
    assert(m ^ 0 ^ 0 ^ 0 ^ 0 ^ 0 == m) by (bit_vector);
}

/// Every state that a checksum step gives lies below `2^30`.
pub proof fn lemma_step_bound(chk: u32, v: u8)
    ensures
        polymod_step(chk, v) < 0x40000000,
{
    let y = v as u32;
    let r = polymod_step(chk, v);
    let top = chk >> 25;
    let moved = ((chk & 0x1ffffff) << 5) ^ y;
    let g0: u32 = if top & 1 == 1 {
        0x3b6a57b2
    } else {
        0
    };
    let g1: u32 = if (top >> 1) & 1 == 1 {
        0x26508e6d
    } else {
        0
    };
    let g2: u32 = if (top >> 2) & 1 == 1 {
        0x1ea119fa
    } else {
        0
    };
    let g3: u32 = if (top >> 3) & 1 == 1 {
        0x3d4233dd
    } else {
        0
    };
    let g4: u32 = if (top >> 4) & 1 == 1 {
        0x2a1462b3
    } else {
        0
    };
    assert(moved ^ g0 ^ g1 ^ g2 ^ g3 ^ g4 < 0x40000000) by (bit_vector)
        requires
            moved == ((chk & 0x1ffffff) << 5) ^ y,
            y < 256,
            g0 == 0 || g0 == 0x3b6a57b2,
            g1 == 0 || g1 == 0x26508e6d,
            g2 == 0 || g2 == 0x1ea119fa,
            g3 == 0 || g3 == 0x3d4233dd,
            g4 == 0 || g4 == 0x2a1462b3,
    ;
}

/// Taking in the six groups of a state below `2^30`, from the state zero,
/// gives that state.
pub proof fn lemma_polymod_of_groups(state: u32, groups: Seq<u8>)
    requires
        state < 0x40000000,
        groups == Seq::new(6, |i: int| ((state >> ((5 * (5 - i)) as u32)) & 31) as u8),
    ensures
        polymod_from(0, groups) == state,
{
    let c0 = groups[0] as u32;
    let c1 = groups[1] as u32;
    let c2 = groups[2] as u32;
    let c3 = groups[3] as u32;
    let c4 = groups[4] as u32;
    let c5 = groups[5] as u32;
    assert((state >> 25) & 31 < 32 && (state >> 20) & 31 < 32 && (state >> 15) & 31 < 32 && (state
        >> 10) & 31 < 32 && (state >> 5) & 31 < 32 && (state >> 0) & 31 < 32) by (bit_vector);
    assert(c0 == (state >> 25) & 31 && c1 == (state >> 20) & 31 && c2 == (state >> 15) & 31 && c3
        == (state >> 10) & 31 && c4 == (state >> 5) & 31 && c5 == (state >> 0) & 31);
    let s0: u32 = 0;
    let s1 = polymod_step(s0, groups[0]);
    let s2 = polymod_step(s1, groups[1]);
    let s3 = polymod_step(s2, groups[2]);
    let s4 = polymod_step(s3, groups[3]);
    let s5 = polymod_step(s4, groups[4]);
    let s6 = polymod_step(s5, groups[5]);
    lemma_step_small(s0, groups[0]);
    assert(s1 == c0) by (bit_vector)
        requires
            s1 == (0u32 << 5) ^ c0,
    ;
    lemma_step_small(s1, groups[1]);
    assert(s2 < 0x400) by (bit_vector)
        requires
            s2 == (s1 << 5) ^ c1,
            s1 < 32,
            c1 < 32,
    ;
    lemma_step_small(s2, groups[2]);
    assert(s3 < 0x8000) by (bit_vector)
        requires
            s3 == (s2 << 5) ^ c2,
            s2 < 0x400,
            c2 < 32,
    ;
    lemma_step_small(s3, groups[3]);
    assert(s4 < 0x100000) by (bit_vector)
        requires
            s4 == (s3 << 5) ^ c3,
            s3 < 0x8000,
            c3 < 32,
    ;
    lemma_step_small(s4, groups[4]);
    assert(s5 < 0x2000000) by (bit_vector)
        requires
            s5 == (s4 << 5) ^ c4,
            s4 < 0x100000,
            c4 < 32,
    ;
    lemma_step_small(s5, groups[5]);
    assert(s6 == state) by (bit_vector)
        requires
            state < 0x40000000,
            c0 == (state >> 25) & 31,
            c1 == (state >> 20) & 31,
            c2 == (state >> 15) & 31,
            c3 == (state >> 10) & 31,
            c4 == (state >> 5) & 31,
            c5 == (state >> 0) & 31,
            s1 == c0,
            s2 == (s1 << 5) ^ c1,
            s3 == (s2 << 5) ^ c2,
            s4 == (s3 << 5) ^ c3,
            s5 == (s4 << 5) ^ c4,
            s6 == (s5 << 5) ^ c5,
    ;
    assert(groups.take(0) =~= Seq::<u8>::empty());
    assert(groups.take(1).drop_last() =~= groups.take(0));
    assert(groups.take(2).drop_last() =~= groups.take(1));
    assert(groups.take(3).drop_last() =~= groups.take(2));
    assert(groups.take(4).drop_last() =~= groups.take(3));
    assert(groups.take(5).drop_last() =~= groups.take(4));
    assert(groups.take(6).drop_last() =~= groups.take(5));
    assert(groups.take(6) =~= groups);
    assert(polymod_from(0, groups.take(0)) == s0);
    assert(polymod_from(0, groups.take(1)) == s1);
    assert(polymod_from(0, groups.take(2)) == s2);
    assert(polymod_from(0, groups.take(3)) == s3);
    assert(polymod_from(0, groups.take(4)) == s4);
    assert(polymod_from(0, groups.take(5)) == s5);
    assert(polymod_from(0, groups.take(6)) == s6);
}

/// Data closed by its checksum passes the check.
pub proof fn lemma_checksum_holds(hrp: Seq<u8>, data: Seq<u8>)
    ensures
        checksum_holds(hrp, data + checksum(hrp, data)),
{
    let expanded = hrp_expand(hrp);
    let zeros = Seq::new(6, |i: int| 0u8);
    let groups = checksum(hrp, data);
    let before = polymod(expanded + data);
    let after = polymod_from(before, zeros);
    let state = after ^ 1;
    lemma_polymod_concat(1, expanded + data, zeros);
    assert(after == polymod(expanded + data + zeros));
    assert(expanded + (data + groups) =~= expanded + data + groups);
    lemma_polymod_concat(1, expanded + data, groups);
    assert(zeros.drop_last().len() == 5);
    lemma_step_bound(polymod_from(before, zeros.drop_last()), zeros.last());
    assert(state < 0x40000000) by (bit_vector)
        requires
            after < 0x40000000,
            state == after ^ 1,
    ;
    lemma_polymod_of_groups(state, groups);
    lemma_polymod_linear(before, 0, zeros, groups);
    assert(before ^ 0 == before) by (bit_vector);
    assert(xor_seq(zeros, groups) =~= groups) by {
        assert forall|i: int| 0 <= i < 6 implies #[trigger] xor_seq(zeros, groups)[i]
            == groups[i] by {
            let g = groups[i];
            assert(0u8 ^ g == g) by (bit_vector);
        }
    }
    assert(after ^ state == 1) by (bit_vector)
        requires
            state == after ^ 1,
    ;
}

/// No character of the alphabet stands for two values.
pub proof fn lemma_charset_distinct()
    ensures
        forall|i: int, j: int|
            0 <= i < 32 && 0 <= j < 32 && i != j ==> CHARSET@[i] != CHARSET@[j],
{
    assert forall|i: int, j: int| 0 <= i < 32 && 0 <= j < 32 && i != j implies CHARSET@[i]
        != CHARSET@[j] by {
        assert(CHARSET@[i] == CHARSET[i]);
        assert(CHARSET@[j] == CHARSET[j]);
    }
}

/// In a run of distinct symbols, the value of the symbol at a place is that
/// place.
pub proof fn lemma_symbol_value_at(symbols: Seq<u8>, v: int)
    requires
        0 <= v < symbols.len(),
        forall|i: int, j: int|
            0 <= i < symbols.len() && 0 <= j < symbols.len() && i != j ==> symbols[i]
                != symbols[j],
    ensures
        symbol_value_in(symbols, symbols[v]) == v,
    decreases symbols.len(),
{
    if v < symbols.len() - 1 {
        let init = symbols.drop_last();
        assert(symbols.last() == symbols[symbols.len() - 1]);
        assert forall|i: int, j: int|
            0 <= i < init.len() && 0 <= j < init.len() && i != j implies init[i] != init[j] by {
            assert(init[i] == symbols[i]);
            assert(init[j] == symbols[j]);
        }
        lemma_symbol_value_at(init, v);
        assert(init[v] == symbols[v]);
    }
}

/// The character of a value stands for that value.
pub proof fn lemma_symbol_of_value(v: int)
    requires
        0 <= v < 32,
    ensures
        symbol_value(CHARSET@[v]) == v,
{
    lemma_charset_distinct();
    lemma_symbol_value_at(CHARSET@, v);
}

/// A text holds an upper-case letter when one of its bytes is one.
pub proof fn lemma_has_upper(text: Seq<u8>)
    ensures
        has_upper(text) <==> exists|i: int| 0 <= i < text.len() && is_upper(#[trigger] text[i]),
    decreases text.len(),
{
    if text.len() > 0 {
        let init = text.drop_last();
        lemma_has_upper(init);
        if has_upper(init) {
            let i = choose|i: int| 0 <= i < init.len() && is_upper(#[trigger] init[i]);
            assert(is_upper(text[i]));
        }
        if exists|i: int| 0 <= i < text.len() && is_upper(#[trigger] text[i]) {
            let i = choose|i: int| 0 <= i < text.len() && is_upper(#[trigger] text[i]);
            if i < init.len() {
                assert(is_upper(init[i]));
            }
        }
    }
}

/// The last separator of a text whose tail holds none stands just before the
/// tail.
pub proof fn lemma_last_separator(head: Seq<u8>, tail: Seq<u8>)
    requires
        forall|i: int| 0 <= i < tail.len() ==> #[trigger] tail[i] != SEPARATOR,
    ensures
        last_separator(head + seq![SEPARATOR] + tail) == head.len(),
    decreases tail.len(),
{
    let text = head + seq![SEPARATOR] + tail;
    if tail.len() == 0 {
        assert(text.last() == SEPARATOR);
    } else {
        assert(text.last() == tail[tail.len() - 1]);
        assert(text.drop_last() =~= head + seq![SEPARATOR] + tail.drop_last());
        lemma_last_separator(head, tail.drop_last());
    }
}

/// Decoding the text form of data under a prefix gives the prefix and the
/// data back, whenever the text form exists.
pub proof fn lemma_text_round_trip(hrp: Seq<u8>, data: Seq<u8>)
    requires
        encode_text(hrp, data) is Ok,
    ensures
        encode_text(hrp, data) matches Ok(text) && decode_text(text) == Ok::<
            (Seq<u8>, Seq<u8>),
            Bech32Error,
        >((hrp, data)),
{
    lemma_pow2_values();
    lemma_charset_ascii();
    let check = checksum(hrp, data);
    let all = data + check;
    let tail = symbols(all);
    let text = hrp + seq![SEPARATOR] + tail;
    let pos = hrp.len() as int;
    assert forall|i: int| 0 <= i < all.len() implies 0 <= #[trigger] all[i] < 32 by {
        if i < data.len() {
            assert((data[i] as nat) < pow2(5));
        } else {
            let state = polymod(hrp_expand(hrp) + data + Seq::new(6, |k: int| 0u8)) ^ 1;
            let shift = (5 * (5 - (i - data.len()))) as u32;
            assert((state >> shift) & 31 < 32) by (bit_vector);
        }
    }
    assert forall|i: int| 0 <= i < tail.len() implies {
        &&& #[trigger] tail[i] != SEPARATOR
        &&& !is_upper(tail[i])
        &&& symbol_value(tail[i]) == all[i]
    } by {
        let c = CHARSET@[all[i] as int];
        assert(printable(c));
        lemma_symbol_of_value(all[i] as int);
    }
    lemma_last_separator(hrp, tail);
    lemma_has_upper(hrp);
    lemma_has_upper(text);
    assert(!has_upper(text)) by {
        if has_upper(text) {
            let i = choose|i: int| 0 <= i < text.len() && is_upper(#[trigger] text[i]);
            if i < pos {
                assert(is_upper(hrp[i]));
            } else if i > pos {
                assert(text[i] == tail[i - pos - 1]);
            }
        }
    }
    assert(text.take(pos) =~= hrp);
    assert(text.skip(pos + 1) =~= tail);
    assert(lowered(hrp) =~= hrp) by {
        assert forall|i: int| 0 <= i < hrp.len() implies #[trigger] lowered(hrp)[i] == hrp[i] by {
            if is_upper(hrp[i]) {
                assert(has_upper(hrp));
            }
        }
    }
    assert(lowered(tail) =~= tail);
    lemma_first_foreign(tail, tail.len() as int);
    assert(values_of(tail) =~= all);
    lemma_checksum_holds(hrp, data);
    assert(all.take(all.len() - 6) =~= data);
}

} // verus!
