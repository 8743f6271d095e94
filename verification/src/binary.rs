//! Binary numerals: the bit length of a number, its digits as a sequence of
//! bits, and the routines that write and read such digits on a bit stream.
use crate::bits::Bits;
use vstd::arithmetic::div_mod::lemma_div_denominator;
use vstd::arithmetic::power2::{lemma2_to64, lemma_pow2_pos, lemma_pow2_unfold, pow2};
use vstd::bits::{lemma_u64_pow2_no_overflow, lemma_u64_shl_is_mul, lemma_u64_shr_is_div};
use vstd::prelude::*;

verus! {

/// The number of binary digits of `n`: the place of its highest set bit,
/// counted from 1. The bit length of 0 is 0.
pub open spec fn bit_length(n: nat) -> nat
    decreases n,
{
    if n == 0 {
        0
    } else {
        1 + bit_length(n / 2)
    }
}

/// The `width` lowest binary digits of `n`, the most significant first.
pub open spec fn binary(n: nat, width: nat) -> Seq<bool>
    decreases width,
{
    if width == 0 {
        Seq::empty()
    } else {
        binary(n / 2, (width - 1) as nat).push(n % 2 == 1)
    }
}

/// The number that a sequence of binary digits denotes, the most significant
/// digit first.
pub open spec fn value(digits: Seq<bool>) -> nat
    decreases digits.len(),
{
    if digits.len() == 0 {
        0
    } else {
        2 * value(digits.drop_last()) + if digits.last() {
            1nat
        } else {
            0nat
        }
    }
}

/// `count` zero bits.
pub open spec fn zeros(count: nat) -> Seq<bool> {
    Seq::new(count, |i: int| false)
}

/// A number of bit length `b > 0` lies between `2^(b-1)` and `2^b`.
pub proof fn lemma_bit_length_bounds(n: nat)
    ensures
        n < pow2(bit_length(n)),
        n > 0 ==> bit_length(n) > 0 && pow2((bit_length(n) - 1) as nat) <= n,
    decreases n,
{
    lemma2_to64();
    if n > 0 {
        lemma_bit_length_bounds(n / 2);
        lemma_pow2_unfold(bit_length(n));
        if n / 2 > 0 {
            lemma_pow2_unfold(bit_length(n / 2));
        }
    }
}

/// The only bit length of a number between `2^(b-1)` and `2^b` is `b`.
pub proof fn lemma_bit_length_unique(n: nat, b: nat)
    requires
        b > 0,
        pow2((b - 1) as nat) <= n < pow2(b),
    ensures
        bit_length(n) == b,
    decreases b,
{
    lemma2_to64();
    lemma_pow2_pos((b - 1) as nat);
    lemma_pow2_unfold(b);
    if b > 1 {
        lemma_pow2_unfold((b - 1) as nat);
        lemma_bit_length_unique(n / 2, (b - 1) as nat);
    } else {
        assert(n == 1);
        assert(bit_length(n / 2) == 0);
    }
}

/// A number below `2^k` has at most `k` binary digits.
pub proof fn lemma_bit_length_le(n: nat, k: nat)
    requires
        n < pow2(k),
    ensures
        bit_length(n) <= k,
    decreases k,
{
    lemma2_to64();
    if n > 0 {
        lemma_pow2_unfold(k);
        lemma_bit_length_le(n / 2, (k - 1) as nat);
    }
}

/// `binary(n, width)` has `width` digits.
pub proof fn lemma_binary_len(n: nat, width: nat)
    ensures
        binary(n, width).len() == width,
    decreases width,
{
    if width > 0 {
        lemma_binary_len(n / 2, (width - 1) as nat);
    }
}

/// The digit of `binary(n, width)` at index `i` is the binary digit of `n`
/// of weight `2^(width - 1 - i)`.
pub proof fn lemma_binary_digit(n: nat, width: nat, i: int)
    requires
        0 <= i < width,
    ensures
        binary(n, width).len() == width,
        binary(n, width)[i] == ((n / pow2((width - 1 - i) as nat)) % 2 == 1),
    decreases width,
{
    lemma_binary_len(n, width);
    lemma_binary_len(n / 2, (width - 1) as nat);
    lemma2_to64();
    let rest = binary(n / 2, (width - 1) as nat);
    assert(binary(n, width) == rest.push(n % 2 == 1));
    if i < width - 1 {
        let k = (width - 2 - i) as nat;
        lemma_binary_digit(n / 2, (width - 1) as nat, i);
        lemma_pow2_pos(k);
        lemma_pow2_unfold(k + 1);
        lemma_div_denominator(n as int, 2, pow2(k) as int);
        assert(binary(n, width)[i] == rest[i]);
        assert((n / 2) / pow2(k) == n / pow2(k + 1));
    } else {
        assert(binary(n, width)[i] == (n % 2 == 1));
        assert(pow2((width - 1 - i) as nat) == 1);
    }
}

/// A sequence of digits denotes a number below `2^len`.
pub proof fn lemma_value_bound(digits: Seq<bool>)
    ensures
        value(digits) < pow2(digits.len()),
    decreases digits.len(),
{
    lemma2_to64();
    if digits.len() > 0 {
        lemma_value_bound(digits.drop_last());
        lemma_pow2_unfold(digits.len());
    }
}

/// Writing a number with enough digits and reading the digits gives the
/// number back.
pub proof fn lemma_value_binary(n: nat, width: nat)
    requires
        bit_length(n) <= width,
    ensures
        value(binary(n, width)) == n,
    decreases width,
{
    if width > 0 {
        let rest = binary(n / 2, (width - 1) as nat);
        lemma_value_binary(n / 2, (width - 1) as nat);
        assert(binary(n, width).drop_last() =~= rest);
    }
}

/// Reading digits and writing the number with as many digits gives the
/// digits back.
pub proof fn lemma_binary_value(digits: Seq<bool>)
    ensures
        binary(value(digits), digits.len()) == digits,
    decreases digits.len(),
{
    if digits.len() > 0 {
        lemma_binary_value(digits.drop_last());
        assert(value(digits) / 2 == value(digits.drop_last()));
        assert(binary(value(digits), digits.len()) =~= digits);
    }
}

/// The digits of a number up to its bit length start with a one.
pub proof fn lemma_leading_one(n: nat)
    requires
        n > 0,
    ensures
        binary(n, bit_length(n)).len() == bit_length(n),
        binary(n, bit_length(n))[0],
    decreases n,
{
    lemma_binary_len(n, bit_length(n));
    lemma_binary_len(n / 2, bit_length(n / 2));
    if n / 2 > 0 {
        lemma_leading_one(n / 2);
    }
}

/// Digits that start with a one denote a number whose bit length is the
/// number of digits.
pub proof fn lemma_leading_one_value(digits: Seq<bool>)
    requires
        digits.len() > 0,
        digits[0],
    ensures
        bit_length(value(digits)) == digits.len(),
    decreases digits.len(),
{
    if digits.len() > 1 {
        lemma_leading_one_value(digits.drop_last());
        assert(value(digits) / 2 == value(digits.drop_last()));
    } else {
        assert(digits.drop_last().len() == 0);
        assert(value(digits.drop_last()) == 0);
        assert(digits.last());
        assert(value(digits) == 1);
        assert(bit_length(0) == 0);
        assert(bit_length(1) == 1 + bit_length(0));
    }
}

/// The digits of a number split into the leading digit and the lower ones.
pub proof fn lemma_binary_split(n: nat, width: nat)
    ensures
        binary(n, width + 1) == seq![(n / pow2(width)) % 2 == 1] + binary(n, width),
    decreases width,
{
    lemma2_to64();
    if width == 0 {
        assert(binary(n / 2, 0) =~= Seq::<bool>::empty());
        assert(binary(n, 1) =~= seq![n % 2 == 1] + binary(n, 0));
    } else {
        lemma_binary_split(n / 2, (width - 1) as nat);
        lemma_pow2_pos((width - 1) as nat);
        lemma_pow2_unfold(width);
        lemma_div_denominator(n as int, 2, pow2((width - 1) as nat) as int);
        assert(binary(n, width + 1) =~= seq![(n / pow2(width)) % 2 == 1] + binary(n, width));
    }
}

/// A one in front of `digits` adds `2^len` to the number they denote.
pub proof fn lemma_value_leading_one(digits: Seq<bool>)
    ensures
        value(seq![true] + digits) == pow2(digits.len()) + value(digits),
    decreases digits.len(),
{
    lemma2_to64();
    let whole = seq![true] + digits;
    if digits.len() == 0 {
        assert(whole.drop_last() =~= Seq::<bool>::empty());
        assert(value(whole.drop_last()) == 0);
    } else {
        lemma_value_leading_one(digits.drop_last());
        assert(whole.drop_last() =~= seq![true] + digits.drop_last());
        lemma_pow2_unfold(digits.len());
    }
}

/// The number of binary digits of `a`, and 0 for 0.
pub fn number_size(a: u64) -> (res: u32)
    ensures
        res == bit_length(a as nat),
        res <= 64,
{
    let mut t: u64 = 0x8000_0000_0000_0000;
    let mut i: u32 = 64;
    proof {
        lemma2_to64();
        vstd::arithmetic::power2::lemma2_to64_rest();
    }
    while i >= 1
        invariant
            i <= 64,
            i > 0 ==> t == pow2((i - 1) as nat),
            a < pow2(i as nat),
        decreases i,
    {
        let ghost k = (i - 1) as u64;
        proof {
            lemma_u64_pow2_no_overflow(k as nat);
            lemma_u64_shl_is_mul(1, k);
            assert(t == 1u64 << k);
            if k < 63 {
                lemma_u64_pow2_no_overflow((k + 1) as nat);
                lemma_u64_shl_is_mul(1, (k + 1) as u64);
            }
        }
        if a & t != 0 {
            proof {
                assert(a & (1u64 << k) != 0 ==> a >= (1u64 << k)) by (bit_vector)
                    requires
                        k < 64,
                ;
                lemma_bit_length_unique(a as nat, i as nat);
            }
            return i;
        }
        proof {
            assert((a & (1u64 << k) == 0 && (k == 63 || a < (1u64 << ((k + 1) as u64)))) ==> a < (
            1u64 << k)) by (bit_vector)
                requires
                    k < 64,
            ;
            assert(t >> 1 == t / 2) by (bit_vector);
            if k > 0 {
                lemma_pow2_unfold(k as nat);
            }
        }
        t >>= 1;
        i -= 1;
    }
    proof {
        lemma2_to64();
    }
    0
}

/// Appends `count` zero bits to `bits`.
pub fn push_zeros(bits: &mut Bits, count: u32)
    requires
        old(bits).wf(),
        old(bits)@.len() + count <= usize::MAX,
    ensures
        final(bits).wf(),
        final(bits)@ == old(bits)@ + zeros(count as nat),
{
    let mut i: u32 = 0;
    while i < count
        invariant
            i <= count,
            bits.wf(),
            bits@ == old(bits)@ + zeros(i as nat),
            old(bits)@.len() + count <= usize::MAX,
        decreases count - i,
    {
        bits.push(false);
        i += 1;
        assert(bits@ =~= old(bits)@ + zeros(i as nat));
    }
}

/// Appends the `width` lowest binary digits of `number` to `bits`, the most
/// significant first.
pub fn push_binary(bits: &mut Bits, number: u64, width: u32)
    requires
        old(bits).wf(),
        width <= 64,
        old(bits)@.len() + width <= usize::MAX,
    ensures
        final(bits).wf(),
        final(bits)@ == old(bits)@ + binary(number as nat, width as nat),
{
    let mut i: u32 = width;
    proof {
        lemma_binary_len(number as nat, width as nat);
    }
    while i > 0
        invariant
            i <= width <= 64,
            bits.wf(),
            binary(number as nat, width as nat).len() == width,
            bits@ == old(bits)@ + binary(number as nat, width as nat).take(width - i),
            old(bits)@.len() + width <= usize::MAX,
        decreases i,
    {
        i -= 1;
        let shifted = number >> i;
        let digit = shifted & 1 == 1;
        proof {
            lemma_u64_shr_is_div(number, i as u64);
            assert((shifted & 1 == 1) == (shifted % 2 == 1)) by (bit_vector);
            lemma_binary_digit(number as nat, width as nat, width - 1 - i);
        }
        bits.push(digit);
        assert(bits@ =~= old(bits)@ + binary(number as nat, width as nat).take(width - i));
    }
    assert(binary(number as nat, width as nat).take(width as int) =~= binary(
        number as nat,
        width as nat,
    ));
}

/// Reads `width` binary digits of `bits` from index `pos` on, the most
/// significant first, and returns the number they denote; `None` where the
/// stream holds fewer than `width` bits from `pos` on.
pub fn read_binary(bits: &Bits, pos: usize, width: u32) -> (res: Option<u64>)
    requires
        bits.wf(),
        width <= 64,
    ensures
        res is Some <==> pos + width <= bits@.len(),
        res is Some ==> res->0 == value(bits@.subrange(pos as int, pos + width)),
{
    let len = bits.len();
    if pos > len || len - pos < width as usize {
        return None;
    }
    let mut number: u64 = 0;
    let mut i: u32 = 0;
    while i < width
        invariant
            i <= width <= 64,
            bits.wf(),
            pos + width <= bits@.len() == len,
            number == value(bits@.subrange(pos as int, pos + i)),
        decreases width - i,
    {
        let ghost read = bits@.subrange(pos as int, pos + i);
        let ghost next = bits@.subrange(pos as int, pos + i + 1);
        let digit = bits.get(pos + i as usize);
        proof {
            assert(next.drop_last() =~= read);
            lemma_value_bound(read);
            lemma_value_bound(next);
            if i + 1 < 64 {
                lemma_u64_pow2_no_overflow((i + 1) as nat);
            } else {
                lemma2_to64();
            }
        }
        number = 2 * number + if digit == Some(true) {
            1
        } else {
            0
        };
        i += 1;
    }
    Some(number)
}

} // verus!
