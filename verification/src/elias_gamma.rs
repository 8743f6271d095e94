//! The Elias gamma code: a number of bit length `b` is written as `b - 1`
//! zero bits followed by its `b` binary digits.
use crate::binary::{
    binary, bit_length, lemma_binary_len, lemma_binary_value, lemma_bit_length_bounds,
    lemma_bit_length_le, lemma_leading_one, lemma_leading_one_value, lemma_value_binary,
    number_size, push_binary, push_zeros, read_binary, zeros,
};
use crate::bits::{unpack, Bits};
use crate::universal_coding::{stands_at, Creatable, UniversalCode};
use vstd::arithmetic::power2::lemma2_to64;
use vstd::prelude::*;

verus! {

/// The gamma codeword of the number `n >= 1`.
pub open spec fn gamma_code(n: nat) -> Seq<bool> {
    zeros((bit_length(n) - 1) as nat) + binary(n, bit_length(n))
}

/// The shape of a gamma codeword: `2b - 1` bits for a number of bit length
/// `b`, of which the first `b - 1` are zero and the next is a one.
pub proof fn lemma_gamma_shape(n: nat)
    requires
        n >= 1,
    ensures
        bit_length(n) >= 1,
        gamma_code(n).len() == 2 * bit_length(n) - 1,
        forall|j: int| 0 <= j < bit_length(n) - 1 ==> !gamma_code(n)[j],
        gamma_code(n)[bit_length(n) - 1],
{
    lemma_bit_length_bounds(n);
    lemma_leading_one(n);
}

/// Two numbers whose gamma codewords stand at the same place are equal.
pub proof fn lemma_gamma_unique(n: nat, m: nat, bits: Seq<bool>, pos: int)
    requires
        n >= 1,
        m >= 1,
        stands_at(gamma_code(n), bits, pos),
        stands_at(gamma_code(m), bits, pos),
    ensures
        n == m,
{
    lemma_gamma_shape(n);
    lemma_gamma_shape(m);
    let bn = bit_length(n);
    let bm = bit_length(m);
    let cn = gamma_code(n);
    let cm = gamma_code(m);
    assert forall|j: int| 0 <= j < cn.len() implies cn[j] == bits[pos + j] by {
        assert(cn[j] == bits.subrange(pos, pos + cn.len())[j]);
    }
    assert forall|j: int| 0 <= j < cm.len() implies cm[j] == bits[pos + j] by {
        assert(cm[j] == bits.subrange(pos, pos + cm.len())[j]);
    }
    if bn < bm {
        assert(cn[bn - 1] == bits[pos + bn - 1]);
        assert(cm[bn - 1] == bits[pos + bn - 1]);
    } else if bm < bn {
        assert(cn[bm - 1] == bits[pos + bm - 1]);
        assert(cm[bm - 1] == bits[pos + bm - 1]);
    } else {
        assert(cn == cm);
        assert(binary(n, bn) =~= cn.subrange(bn - 1, 2 * bn - 1));
        assert(binary(m, bn) =~= cm.subrange(bn - 1, 2 * bn - 1));
        lemma_value_binary(n, bn);
        lemma_value_binary(m, bn);
    }
}

/// Appends the gamma codeword of `n` to `bits`.
pub fn push_gamma(bits: &mut Bits, n: u64)
    requires
        old(bits).wf(),
        n >= 1,
        old(bits)@.len() + gamma_code(n as nat).len() <= usize::MAX,
    ensures
        final(bits).wf(),
        final(bits)@ == old(bits)@ + gamma_code(n as nat),
{
    proof {
        lemma_gamma_shape(n as nat);
        lemma_binary_len(n as nat, bit_length(n as nat));
    }
    let size = number_size(n);
    push_zeros(bits, size - 1);
    push_binary(bits, n, size);
    assert(bits@ =~= old(bits)@ + gamma_code(n as nat));
}

/// Reads the gamma codeword that stands in `bits` at index `pos`: the number
/// it encodes and the index behind it. `None` where the codeword of no
/// number from 1 to `u64::MAX` stands whole at `pos`.
pub fn read_gamma(bits: &Bits, pos: usize) -> (res: Option<(u64, usize)>)
    requires
        bits.wf(),
        pos <= bits@.len(),
    ensures
        match res {
            Some((n, next)) => {
                &&& n >= 1
                &&& stands_at(gamma_code(n as nat), bits@, pos as int)
                &&& next == pos + gamma_code(n as nat).len()
            },
            None => forall|n: nat|
                1 <= n <= u64::MAX ==> !stands_at(#[trigger] gamma_code(n), bits@, pos as int),
        },
{
    let len = bits.len();
    let mut i = pos;
    loop
        invariant_except_break
            bits.wf(),
            pos <= i <= bits@.len() == len,
            forall|j: int| pos <= j < i ==> !bits@[j],
        ensures
            pos <= i < bits@.len(),
            forall|j: int| pos <= j < i ==> !bits@[j],
            bits@[i as int],
        decreases bits@.len() - i,
    {
        match bits.get(i) {
            Some(true) => {
                break ;
            },
            Some(false) => {
                i += 1;
            },
            None => {
                proof {
                    assert forall|n: nat| 1 <= n <= u64::MAX implies !stands_at(
                        #[trigger] gamma_code(n),
                        bits@,
                        pos as int,
                    ) by {
                        if stands_at(gamma_code(n), bits@, pos as int) {
                            lemma_no_gamma_in_zeros(n, bits@, pos as int, i as int);
                            lemma_gamma_shape(n);
                        }
                    }
                }
                return None;
            },
        }
    }
    let count = i - pos;
    if count >= 64 {
        proof {
            assert forall|n: nat| 1 <= n <= u64::MAX implies !stands_at(
                #[trigger] gamma_code(n),
                bits@,
                pos as int,
            ) by {
                lemma2_to64();
                lemma_bit_length_le(n, 64);
                if stands_at(gamma_code(n), bits@, pos as int) {
                    lemma_no_gamma_in_zeros(n, bits@, pos as int, i as int);
                    lemma_gamma_shape(n);
                }
            }
        }
        return None;
    }
    let width = (count + 1) as u32;
    match read_binary(bits, i, width) {
        None => {
            proof {
                assert forall|n: nat| 1 <= n <= u64::MAX implies !stands_at(
                    #[trigger] gamma_code(n),
                    bits@,
                    pos as int,
                ) by {
                    if stands_at(gamma_code(n), bits@, pos as int) {
                        lemma_gamma_after_zeros(n, bits@, pos as int, i as int);
                        lemma_gamma_shape(n);
                    }
                }
            }
            None
        },
        Some(n) => {
            proof {
                let digits = bits@.subrange(i as int, i + width);
                assert(digits[0] == bits@[i as int]);
                lemma_leading_one_value(digits);
                lemma_binary_value(digits);
                lemma_gamma_shape(n as nat);
                assert(bits@.subrange(pos as int, pos + 2 * width - 1) =~= gamma_code(n as nat));
            }
            Some((n, i + width as usize))
        },
    }
}

/// Where only zero bits stand from `pos` up to `end`, a gamma codeword at
/// `pos` has at least `end - pos` leading zeros.
proof fn lemma_no_gamma_in_zeros(n: nat, bits: Seq<bool>, pos: int, end: int)
    requires
        n >= 1,
        0 <= pos <= end <= bits.len(),
        forall|j: int| pos <= j < end ==> !bits[j],
        stands_at(gamma_code(n), bits, pos),
    ensures
        end - pos <= bit_length(n) - 1,
{
    lemma_gamma_shape(n);
    let code = gamma_code(n);
    let first_one = bit_length(n) - 1;
    assert(code[first_one] == bits.subrange(pos, pos + code.len())[first_one]);
}

/// Where `end - pos` zero bits and then a one stand at `pos`, a gamma
/// codeword at `pos` is that of a number of bit length `end - pos + 1`.
proof fn lemma_gamma_after_zeros(n: nat, bits: Seq<bool>, pos: int, end: int)
    requires
        n >= 1,
        0 <= pos <= end < bits.len(),
        forall|j: int| pos <= j < end ==> !bits[j],
        bits[end],
        stands_at(gamma_code(n), bits, pos),
    ensures
        bit_length(n) == end - pos + 1,
        pos + 2 * (end - pos) + 1 <= bits.len(),
{
    lemma_gamma_shape(n);
    let code = gamma_code(n);
    let first_one = bit_length(n) - 1;
    assert(code[first_one] == bits.subrange(pos, pos + code.len())[first_one]);
    if end - pos < first_one {
        assert(code[end - pos] == bits.subrange(pos, pos + code.len())[end - pos]);
    }
}

/// A stream of gamma codewords with a read cursor.
#[derive(Debug)]
pub struct EliasGamma {
    data: Bits,
    index: usize,
}

impl EliasGamma {
    /// The codec that reads the codewords stored in `data`, from the first
    /// bit on.
    pub fn from_bytes(data: Vec<u8>) -> (res: Self)
        requires
            data@.len() * 8 <= usize::MAX,
        ensures
            res.wf(),
            res.stream() == unpack(data@),
            res.cursor() == 0,
    {
        Self { data: Bits::from_bytes(data), index: 0 }
    }
}

impl Creatable for EliasGamma {
    fn new() -> (res: Self) {
        Self { data: Bits::new(), index: 0 }
    }
}

impl UniversalCode for EliasGamma {
    closed spec fn wf(&self) -> bool {
        self.data.wf() && self.index <= self.data@.len()
    }

    closed spec fn stream(&self) -> Seq<bool> {
        self.data@
    }

    closed spec fn cursor(&self) -> nat {
        self.index as nat
    }

    open spec fn codeword(value: u64) -> Seq<bool> {
        gamma_code((value + 1) as nat)
    }

    proof fn lemma_codeword_len(value: u64) {
        let n = (value + 1) as nat;
        lemma2_to64();
        lemma_bit_length_le(n, 64);
        lemma_gamma_shape(n);
    }

    proof fn lemma_cursor(&self) {
    }

    proof fn lemma_prefix_free(a: u64, b: u64) {
        let ca = Self::codeword(a);
        let cb = Self::codeword(b);
        assert(cb.subrange(0, ca.len() as int) =~= ca);
        assert(cb.subrange(0, cb.len() as int) =~= cb);
        lemma_gamma_unique((a + 1) as nat, (b + 1) as nat, cb, 0);
    }

    fn get(&mut self) -> (res: Option<u64>) {
        match read_gamma(&self.data, self.index) {
            Some((n, next)) => {
                self.index = next;
                Some(n - 1)
            },
            None => {
                self.index = self.data.len();
                None
            },
        }
    }

    fn add(&mut self, code: u64) {
        push_gamma(&mut self.data, code + 1);
    }

    fn len(&self) -> (res: usize) {
        self.data.len()
    }

    fn index(&self) -> (res: usize) {
        self.index
    }

    fn as_bytes(&self) -> (res: &Vec<u8>) {
        self.data.as_bytes()
    }
}

} // verus!
