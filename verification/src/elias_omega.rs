//! The Elias omega code: the binary digits of a number, preceded by the
//! omega groups of its bit length less one, and closed by a zero bit.
use crate::binary::{
    binary, bit_length, lemma_binary_len, lemma_binary_value, lemma_bit_length_bounds,
    lemma_bit_length_le, lemma_leading_one, lemma_leading_one_value,
    lemma_value_binary, number_size, read_binary,
};
use crate::bits::{unpack, Bits};
use crate::universal_coding::{stands_at, Creatable, UniversalCode};
use vstd::arithmetic::power2::lemma2_to64;
use vstd::prelude::*;

verus! {

/// A number has fewer binary digits than its value, but for 0.
pub proof fn lemma_bit_length_small(n: nat)
    ensures
        bit_length(n) <= n,
    decreases n,
{
    if n > 0 {
        lemma_bit_length_small(n / 2);
    }
}

/// The groups of the omega codeword of `n`: none for 1; for a larger number
/// the groups of its bit length less one, then its binary digits.
pub open spec fn omega_groups(n: nat) -> Seq<bool>
    decreases n,
    via omega_groups_decreases
{
    if n <= 1 {
        Seq::empty()
    } else {
        omega_groups((bit_length(n) - 1) as nat) + binary(n, bit_length(n))
    }
}

#[via_fn]
proof fn omega_groups_decreases(n: nat) {
    lemma_bit_length_small(n);
}

/// The omega codeword of the number `n >= 1`.
pub open spec fn omega_code(n: nat) -> Seq<bool> {
    omega_groups(n).push(false)
}

/// `n` is one of the numbers whose groups make up the codeword of `m`: `m`
/// itself, its bit length less one, the bit length of that less one, and so
/// on down to 1.
pub open spec fn in_chain(m: nat, n: nat) -> bool
    decreases m,
    via in_chain_decreases
{
    m == n || (m >= 2 && in_chain((bit_length(m) - 1) as nat, n))
}

#[via_fn]
proof fn in_chain_decreases(m: nat, n: nat) {
    lemma_bit_length_small(m);
}

/// The number of the chain of `m` that follows `n` upwards: the one whose
/// bit length is `n + 1`.
pub open spec fn chain_above(m: nat, n: nat) -> nat
    decreases m,
    via chain_above_decreases
{
    if m < 2 || bit_length(m) - 1 == n {
        m
    } else {
        chain_above((bit_length(m) - 1) as nat, n)
    }
}

#[via_fn]
proof fn chain_above_decreases(m: nat, n: nat) {
    lemma_bit_length_small(m);
}

/// Every chain ends in 1.
pub proof fn lemma_chain_ends(m: nat)
    requires
        m >= 1,
    ensures
        in_chain(m, 1),
    decreases m,
{
    if m >= 2 {
        lemma_bit_length_small(m);
        lemma_bit_length_bounds(m);
        lemma_bit_length_bounds(m / 2);
        lemma_chain_ends((bit_length(m) - 1) as nat);
    }
}

/// The groups of a number of the chain of `m` are the first groups of `m`.
pub proof fn lemma_chain_prefix(m: nat, n: nat)
    requires
        n >= 1,
        in_chain(m, n),
    ensures
        omega_groups(n).is_prefix_of(omega_groups(m)),
    decreases m,
{
    if m != n {
        lemma_bit_length_small(m);
        lemma_chain_prefix((bit_length(m) - 1) as nat, n);
    }
}

/// What follows a number `n` of the chain of `m` that is not `m` itself: a
/// number `x` of bit length `n + 1`, whose digits stand behind the groups of
/// `n`.
pub proof fn lemma_chain_above(m: nat, n: nat)
    requires
        n >= 1,
        in_chain(m, n),
        m != n,
    ensures
        ({
            let x = chain_above(m, n);
            &&& in_chain(m, x)
            &&& n < x <= m
            &&& bit_length(x) == n + 1
            &&& omega_groups(x) == omega_groups(n) + binary(x, n + 1)
            &&& omega_groups(x).is_prefix_of(omega_groups(m))
        }),
    decreases m,
{
    lemma_bit_length_small(m);
    if bit_length(m) - 1 != n {
        let below = (bit_length(m) - 1) as nat;
        lemma_chain_above(below, n);
        lemma_chain_prefix(m, chain_above(m, n));
    }
}

/// How the codeword of `m` reads at a number `n` of its chain: the groups of
/// `n` stand first; behind them stands the closing zero if `n` is `m`, and
/// else the digits of the next number of the chain, which start with a one.
pub proof fn lemma_omega_step(m: nat, n: nat, bits: Seq<bool>, pos: int)
    requires
        m >= 1,
        n >= 1,
        in_chain(m, n),
        stands_at(omega_code(m), bits, pos),
    ensures
        stands_at(omega_groups(n), bits, pos),
        pos + omega_groups(n).len() < bits.len(),
        m == n ==> !bits[pos + omega_groups(n).len()],
        m != n ==> ({
            let x = chain_above(m, n);
            &&& bits[pos + omega_groups(n).len()]
            &&& in_chain(m, x)
            &&& n < x <= m
            &&& bit_length(x) == n + 1
            &&& omega_groups(x) == omega_groups(n) + binary(x, n + 1)
            &&& stands_at(binary(x, n + 1), bits, pos + omega_groups(n).len())
        }),
{
    let code = omega_code(m);
    let head = omega_groups(n);
    lemma_chain_prefix(m, n);
    assert forall|j: int| 0 <= j < code.len() implies code[j] == bits[pos + j] by {
        assert(code[j] == bits.subrange(pos, pos + code.len())[j]);
    }
    assert(bits.subrange(pos, pos + head.len()) =~= head);
    if m == n {
        assert(code[head.len() as int] == bits[pos + head.len()]);
    } else {
        let x = chain_above(m, n);
        lemma_chain_above(m, n);
        lemma_binary_len(x, n + 1);
        lemma_leading_one(x);
        let digits = binary(x, n + 1);
        assert(omega_groups(x)[head.len() as int] == digits[0]);
        assert(code[head.len() as int] == bits[pos + head.len()]);
        assert(bits.subrange(pos + head.len(), pos + head.len() + digits.len()) =~= digits) by {
            assert forall|j: int| 0 <= j < digits.len() implies bits[pos + head.len() + j]
                == digits[j] by {
                assert(omega_groups(x)[head.len() + j] == digits[j]);
                assert(code[head.len() + j] == bits[pos + head.len() + j]);
            }
        }
    }
}

/// Two numbers whose omega codewords stand at the same place are equal.
pub proof fn lemma_omega_unique(a: nat, b: nat, bits: Seq<bool>, pos: int)
    requires
        a >= 1,
        b >= 1,
        stands_at(omega_code(a), bits, pos),
        stands_at(omega_code(b), bits, pos),
    ensures
        a == b,
{
    lemma_chain_ends(a);
    lemma_chain_ends(b);
    lemma_omega_unique_from(a, b, 1, bits, pos);
}

proof fn lemma_omega_unique_from(a: nat, b: nat, n: nat, bits: Seq<bool>, pos: int)
    requires
        a >= 1,
        b >= 1,
        n >= 1,
        in_chain(a, n),
        in_chain(b, n),
        stands_at(omega_code(a), bits, pos),
        stands_at(omega_code(b), bits, pos),
    ensures
        a == b,
    decreases a - n,
{
    lemma_omega_step(a, n, bits, pos);
    lemma_omega_step(b, n, bits, pos);
    if a != n && b != n {
        let xa = chain_above(a, n);
        let xb = chain_above(b, n);
        lemma_binary_len(xa, n + 1);
        lemma_binary_len(xb, n + 1);
        lemma_value_binary(xa, n + 1);
        lemma_value_binary(xb, n + 1);
        lemma_omega_unique_from(a, b, xa, bits, pos);
    }
}

/// The omega codeword of a number up to `u64::MAX` has at most 76 bits.
pub proof fn lemma_omega_len(n: nat)
    requires
        1 <= n <= u64::MAX,
    ensures
        0 < omega_code(n).len() <= 76,
{
    lemma2_to64();
    let b1 = bit_length(n);
    lemma_bit_length_le(n, 64);
    lemma_binary_len(n, b1);
    if n >= 2 {
        let k1 = (b1 - 1) as nat;
        let b2 = bit_length(k1);
        lemma_bit_length_le(k1, 6);
        lemma_binary_len(k1, b2);
        assert(omega_groups(n) == omega_groups(k1) + binary(n, b1));
        if k1 >= 2 {
            let k2 = (b2 - 1) as nat;
            let b3 = bit_length(k2);
            lemma_bit_length_le(k2, 3);
            lemma_binary_len(k2, b3);
            assert(omega_groups(k1) == omega_groups(k2) + binary(k1, b2));
            if k2 >= 2 {
                let k3 = (b3 - 1) as nat;
                let b4 = bit_length(k3);
                lemma_bit_length_le(k3, 2);
                lemma_binary_len(k3, b4);
                assert(omega_groups(k2) == omega_groups(k3) + binary(k2, b3));
                if k3 >= 2 {
                    let k4 = (b4 - 1) as nat;
                    assert(omega_groups(k3) == omega_groups(k4) + binary(k3, b4));
                    assert(omega_groups(k4) =~= Seq::<bool>::empty());
                }
            }
        }
    }
}

/// Appends the omega codeword of `n` to `bits`.
pub fn push_omega(bits: &mut Bits, n: u64)
    requires
        old(bits).wf(),
        n >= 1,
        old(bits)@.len() + omega_code(n as nat).len() <= usize::MAX,
    ensures
        final(bits).wf(),
        final(bits)@ == old(bits)@ + omega_code(n as nat),
{
    let mut buffer: Vec<bool> = Vec::new();
    buffer.push(false);
    let mut k = n;
    assert(omega_groups(k as nat) + buffer@.reverse() =~= omega_code(n as nat));
    while k > 1
        invariant
            k >= 1,
            omega_groups(k as nat) + buffer@.reverse() == omega_code(n as nat),
        decreases k,
    {
        let size = number_size(k);
        let ghost group = k;
        let ghost tail = buffer@.reverse();
        proof {
            lemma_bit_length_small(k as nat);
            assert(bit_length(k as nat) == 1 + bit_length((k / 2) as nat));
            assert(bit_length((k / 2) as nat) >= 1);
        }
        while k > 0
            invariant
                size >= 2,
                binary(k as nat, bit_length(k as nat)) + buffer@.reverse() == binary(
                    group as nat,
                    size as nat,
                ) + tail,
            decreases k,
        {
            let ghost before = buffer@;
            buffer.push(k % 2 == 1);
            proof {
                assert(buffer@.reverse() =~= seq![k % 2 == 1] + before.reverse());
                assert(binary(k as nat, bit_length(k as nat)) + before.reverse() =~= binary(
                    (k / 2) as nat,
                    bit_length((k / 2) as nat),
                ) + buffer@.reverse());
                assert(k >> 1 == k / 2) by (bit_vector);
            }
            k >>= 1;
        }
        proof {
            assert(binary(0, 0) + buffer@.reverse() =~= buffer@.reverse());
            assert(omega_groups((size - 1) as nat) + (binary(group as nat, size as nat) + tail)
                =~= omega_groups(group as nat) + tail);
        }
        k = (size - 1) as u64;
    }
    proof {
        assert(omega_groups(k as nat) + buffer@.reverse() =~= buffer@.reverse());
    }
    bits.push_reversed(&buffer);
}

/// Reads the omega codeword that stands in `bits` at index `pos`: the number
/// it encodes and the index behind it. `None` where the codeword of no
/// number from 1 to `u64::MAX` stands whole at `pos`.
pub fn read_omega(bits: &Bits, pos: usize) -> (res: Option<(u64, usize)>)
    requires
        bits.wf(),
        pos <= bits@.len(),
    ensures
        match res {
            Some((n, next)) => {
                &&& n >= 1
                &&& stands_at(omega_code(n as nat), bits@, pos as int)
                &&& next == pos + omega_code(n as nat).len()
            },
            None => forall|m: nat|
                1 <= m <= u64::MAX ==> !stands_at(#[trigger] omega_code(m), bits@, pos as int),
        },
{
    let len = bits.len();
    let mut n: u64 = 1;
    let mut i = pos;
    proof {
        assert(bits@.subrange(pos as int, i as int) =~= omega_groups(1));
        assert forall|m: nat|
            1 <= m <= u64::MAX && stands_at(
                #[trigger] omega_code(m),
                bits@,
                pos as int,
            ) implies in_chain(m, n as nat) by {
            lemma_chain_ends(m);
        }
    }
    loop
        invariant
            bits.wf(),
            len == bits@.len(),
            pos <= i <= len,
            n >= 1,
            i == pos + omega_groups(n as nat).len(),
            bits@.subrange(pos as int, i as int) == omega_groups(n as nat),
            forall|m: nat|
                1 <= m <= u64::MAX && stands_at(#[trigger] omega_code(m), bits@, pos as int)
                    ==> in_chain(m, n as nat),
        decreases len - i,
    {
        proof {
            assert forall|m: nat|
                1 <= m <= u64::MAX && stands_at(
                    #[trigger] omega_code(m),
                    bits@,
                    pos as int,
                ) implies i < len && (m == n ==> !bits@[i as int]) && (m != n ==> bits@[i as int]
                && n < 64 && i + n + 1 <= len) by {
                lemma_omega_step(m, n as nat, bits@, pos as int);
                if m != n {
                    lemma2_to64();
                    let x = chain_above(m, n as nat);
                    lemma_bit_length_le(x, 64);
                    lemma_binary_len(x, (n + 1) as nat);
                }
            }
        }
        match bits.get(i) {
            None => {
                return None;
            },
            Some(false) => {
                proof {
                    assert(bits@.subrange(pos as int, i + 1) =~= omega_code(n as nat));
                }
                return Some((n, i + 1));
            },
            Some(true) => {
                if n >= 64 {
                    return None;
                }
                let width = (n + 1) as u32;
                match read_binary(bits, i, width) {
                    None => {
                        return None;
                    },
                    Some(next) => {
                        let ghost digits = bits@.subrange(i as int, i + width);
                        proof {
                            assert(digits[0] == bits@[i as int]);
                            lemma_leading_one_value(digits);
                            lemma_binary_value(digits);
                            lemma_bit_length_bounds(next as nat);
                            assert(bit_length(0) == 0);
                            assert(bit_length(1) == 1 + bit_length(0));
                            assert(next >= 2);
                            assert(bits@.subrange(pos as int, i + width) =~= omega_groups(
                                n as nat,
                            ) + digits);
                            assert forall|m: nat|
                                1 <= m <= u64::MAX && stands_at(
                                    #[trigger] omega_code(m),
                                    bits@,
                                    pos as int,
                                ) implies in_chain(m, next as nat) by {
                                lemma_omega_step(m, n as nat, bits@, pos as int);
                                let x = chain_above(m, n as nat);
                                lemma_binary_len(x, (n + 1) as nat);
                                lemma_value_binary(x, (n + 1) as nat);
                            }
                        }
                        i += width as usize;
                        n = next;
                    },
                }
            },
        }
    }
}

/// A stream of omega codewords with a read cursor.
#[derive(Debug)]
pub struct EliasOmega {
    data: Bits,
    index: usize,
}

impl EliasOmega {
    /// The codec that reads the codewords stored in `data`, from the first
    /// bit on.
    pub fn from_bytes(data: Vec<u8>) -> (res: Self)
        requires
            data@.len() * 8 <= usize::MAX,
        ensures
            res.wf(),
            res.stream() == unpack(data@),
            res.cursor() == 0,
    {
        Self { data: Bits::from_bytes(data), index: 0 }
    }
}

impl Creatable for EliasOmega {
    fn new() -> (res: Self) {
        Self { data: Bits::new(), index: 0 }
    }
}

impl UniversalCode for EliasOmega {
    closed spec fn wf(&self) -> bool {
        self.data.wf() && self.index <= self.data@.len()
    }

    closed spec fn stream(&self) -> Seq<bool> {
        self.data@
    }

    closed spec fn cursor(&self) -> nat {
        self.index as nat
    }

    open spec fn codeword(value: u64) -> Seq<bool> {
        omega_code((value + 1) as nat)
    }

    proof fn lemma_codeword_len(value: u64) {
        lemma_omega_len((value + 1) as nat);
    }

    proof fn lemma_cursor(&self) {
    }

    proof fn lemma_prefix_free(a: u64, b: u64) {
        let ca = Self::codeword(a);
        let cb = Self::codeword(b);
        assert(cb.subrange(0, ca.len() as int) =~= ca);
        assert(cb.subrange(0, cb.len() as int) =~= cb);
        lemma_omega_unique((a + 1) as nat, (b + 1) as nat, cb, 0);
    }

    fn get(&mut self) -> (res: Option<u64>) {
        match read_omega(&self.data, self.index) {
            Some((n, next)) => {
                self.index = next;
                Some(n - 1)
            },
            None => {
                self.index = self.data.len();
                None
            },
        }
    }

    fn add(&mut self, code: u64) {
        push_omega(&mut self.data, code + 1);
    }

    fn len(&self) -> (res: usize) {
        self.data.len()
    }

    fn index(&self) -> (res: usize) {
        self.index
    }

    fn as_bytes(&self) -> (res: &Vec<u8>) {
        self.data.as_bytes()
    }
}

} // verus!
