//! The Elias delta code: the bit length of a number is written in the gamma
//! code, followed by the binary digits of the number below its leading one.
use crate::binary::{
    binary, bit_length, lemma_binary_len, lemma_binary_split, lemma_binary_value,
    lemma_bit_length_bounds, lemma_bit_length_le, lemma_leading_one, lemma_leading_one_value,
    lemma_value_binary, lemma_value_bound, lemma_value_leading_one, number_size, push_binary,
    read_binary, value,
};
use crate::bits::{unpack, Bits};
use crate::elias_gamma::{gamma_code, lemma_gamma_shape, lemma_gamma_unique, push_gamma, read_gamma};
use crate::universal_coding::{stands_at, Creatable, UniversalCode};
use vstd::arithmetic::power2::{lemma2_to64, lemma_pow2_unfold, pow2};
use vstd::bits::{lemma_u64_pow2_no_overflow, lemma_u64_shl_is_mul};
use vstd::prelude::*;

verus! {

/// The delta codeword of the number `n >= 1`.
pub open spec fn delta_code(n: nat) -> Seq<bool> {
    gamma_code(bit_length(n)) + binary(n, (bit_length(n) - 1) as nat)
}

/// The parts of a delta codeword: the gamma codeword of the bit length `b`,
/// then `b - 1` digits, which with a one in front are the digits of the
/// number.
pub proof fn lemma_delta_shape(n: nat)
    requires
        n >= 1,
    ensures
        bit_length(n) >= 1,
        delta_code(n).len() == gamma_code(bit_length(n)).len() + bit_length(n) - 1,
        gamma_code(bit_length(n)).is_prefix_of(delta_code(n)),
        binary(n, bit_length(n)) == seq![true] + binary(n, (bit_length(n) - 1) as nat),
{
    let b = bit_length(n);
    lemma_bit_length_bounds(n);
    lemma_binary_len(n, (b - 1) as nat);
    lemma_leading_one(n);
    lemma_binary_split(n, (b - 1) as nat);
    let split = seq![(n / pow2((b - 1) as nat)) % 2 == 1] + binary(n, (b - 1) as nat);
    assert(split[0] == binary(n, b)[0]);
    assert(split =~= seq![true] + binary(n, (b - 1) as nat));
}

/// Where the delta codeword of `n` stands, the gamma codeword of the bit
/// length of `n` stands, and the lower digits of `n` right behind it.
pub proof fn lemma_delta_parts(n: nat, bits: Seq<bool>, pos: int)
    requires
        n >= 1,
        stands_at(delta_code(n), bits, pos),
    ensures
        stands_at(gamma_code(bit_length(n)), bits, pos),
        stands_at(
            binary(n, (bit_length(n) - 1) as nat),
            bits,
            pos + gamma_code(bit_length(n)).len(),
        ),
{
    lemma_delta_shape(n);
    let b = bit_length(n);
    let head = gamma_code(b);
    let tail = binary(n, (b - 1) as nat);
    let code = delta_code(n);
    lemma_binary_len(n, (b - 1) as nat);
    assert(bits.subrange(pos, pos + head.len()) =~= code.subrange(0, head.len() as int));
    assert(code.subrange(0, head.len() as int) =~= head);
    assert(bits.subrange(pos + head.len(), pos + head.len() + tail.len()) =~= code.subrange(
        head.len() as int,
        code.len() as int,
    ));
    assert(code.subrange(head.len() as int, code.len() as int) =~= tail);
}

/// Two numbers whose delta codewords stand at the same place are equal.
pub proof fn lemma_delta_unique(n: nat, m: nat, bits: Seq<bool>, pos: int)
    requires
        n >= 1,
        m >= 1,
        stands_at(delta_code(n), bits, pos),
        stands_at(delta_code(m), bits, pos),
    ensures
        n == m,
{
    lemma_delta_parts(n, bits, pos);
    lemma_delta_parts(m, bits, pos);
    lemma_delta_shape(n);
    lemma_delta_shape(m);
    lemma_gamma_unique(bit_length(n), bit_length(m), bits, pos);
    let b = bit_length(n);
    assert(binary(n, b) == binary(m, b));
    lemma_value_binary(n, b);
    lemma_value_binary(m, b);
}

/// Appends the delta codeword of `n` to `bits`.
pub fn push_delta(bits: &mut Bits, n: u64)
    requires
        old(bits).wf(),
        n >= 1,
        old(bits)@.len() + delta_code(n as nat).len() <= usize::MAX,
    ensures
        final(bits).wf(),
        final(bits)@ == old(bits)@ + delta_code(n as nat),
{
    proof {
        lemma_delta_shape(n as nat);
    }
    let size = number_size(n);
    push_gamma(bits, size as u64);
    push_binary(bits, n, size - 1);
    assert(bits@ =~= old(bits)@ + delta_code(n as nat));
}

/// Reads the delta codeword that stands in `bits` at index `pos`: the number
/// it encodes and the index behind it. `None` where the codeword of no
/// number from 1 to `u64::MAX` stands whole at `pos`.
pub fn read_delta(bits: &Bits, pos: usize) -> (res: Option<(u64, usize)>)
    requires
        bits.wf(),
        pos <= bits@.len(),
    ensures
        match res {
            Some((n, next)) => {
                &&& n >= 1
                &&& stands_at(delta_code(n as nat), bits@, pos as int)
                &&& next == pos + delta_code(n as nat).len()
            },
            None => forall|n: nat|
                1 <= n <= u64::MAX ==> !stands_at(#[trigger] delta_code(n), bits@, pos as int),
        },
{
    let (size, mid) = match read_gamma(bits, pos) {
        Some(found) => found,
        None => {
            proof {
                assert forall|n: nat| 1 <= n <= u64::MAX implies !stands_at(
                    #[trigger] delta_code(n),
                    bits@,
                    pos as int,
                ) by {
                    if stands_at(delta_code(n), bits@, pos as int) {
                        lemma_delta_parts(n, bits@, pos as int);
                        lemma_bit_length_bounds(n);
                        lemma_in_range_size(n);
                        assert(!stands_at(gamma_code(bit_length(n)), bits@, pos as int));
                    }
                }
            }
            return None;
        },
    };
    if size > 64 {
        proof {
            assert forall|n: nat| 1 <= n <= u64::MAX implies !stands_at(
                #[trigger] delta_code(n),
                bits@,
                pos as int,
            ) by {
                if stands_at(delta_code(n), bits@, pos as int) {
                    lemma_delta_parts(n, bits@, pos as int);
                    lemma_in_range_size(n);
                    lemma_gamma_unique(bit_length(n), size as nat, bits@, pos as int);
                }
            }
        }
        return None;
    }
    let width = (size - 1) as u32;
    match read_binary(bits, mid, width) {
        None => {
            proof {
                assert forall|n: nat| 1 <= n <= u64::MAX implies !stands_at(
                    #[trigger] delta_code(n),
                    bits@,
                    pos as int,
                ) by {
                    if stands_at(delta_code(n), bits@, pos as int) {
                        lemma_delta_parts(n, bits@, pos as int);
                        lemma_delta_shape(n);
                        lemma_in_range_size(n);
                        lemma_gamma_unique(bit_length(n), size as nat, bits@, pos as int);
                    }
                }
            }
            None
        },
        Some(low) => {
            let ghost digits = bits@.subrange(mid as int, mid + width);
            proof {
                bits.lemma_len_fits();
                let whole = seq![true] + digits;
                lemma_value_bound(digits);
                lemma_value_leading_one(digits);
                lemma_leading_one_value(whole);
                lemma_binary_value(whole);
                lemma_u64_pow2_no_overflow(width as nat);
                lemma_u64_shl_is_mul(1, width as u64);
                lemma_pow2_unfold(size as nat);
                lemma2_to64();
                if size < 64 {
                    lemma_u64_pow2_no_overflow(size as nat);
                }
                let n = value(whole);
                lemma_delta_shape(n);
                assert(digits =~= whole.subrange(1, whole.len() as int));
                assert(binary(n, width as nat) =~= (seq![true] + binary(n, width as nat)).subrange(
                    1,
                    whole.len() as int,
                ));
                assert(bits@.subrange(pos as int, mid + width) =~= delta_code(n));
            }
            let n = (1u64 << width) + low;
            Some((n, mid + width as usize))
        },
    }
}

/// The bit length of a number up to `u64::MAX` lies between 1 and 64.
proof fn lemma_in_range_size(n: nat)
    requires
        1 <= n <= u64::MAX,
    ensures
        1 <= bit_length(n) <= 64,
{
    lemma2_to64();
    lemma_bit_length_le(n, 64);
    lemma_bit_length_bounds(n);
}

/// A stream of delta codewords with a read cursor.
#[derive(Debug)]
pub struct EliasDelta {
    data: Bits,
    index: usize,
}

impl EliasDelta {
    /// The codec that reads the codewords stored in `data`, from the first
    /// bit on.
    pub fn from_bytes(data: Vec<u8>) -> (res: Self)
        requires
            data@.len() * 8 <= usize::MAX,
        ensures
            res.wf(),
            res.stream() == unpack(data@),
            res.cursor() == 0,
    {
        Self { data: Bits::from_bytes(data), index: 0 }
    }
}

impl Creatable for EliasDelta {
    fn new() -> (res: Self) {
        Self { data: Bits::new(), index: 0 }
    }
}

impl UniversalCode for EliasDelta {
    closed spec fn wf(&self) -> bool {
        self.data.wf() && self.index <= self.data@.len()
    }

    closed spec fn stream(&self) -> Seq<bool> {
        self.data@
    }

    closed spec fn cursor(&self) -> nat {
        self.index as nat
    }

    open spec fn codeword(value: u64) -> Seq<bool> {
        delta_code((value + 1) as nat)
    }

    proof fn lemma_codeword_len(value: u64) {
        let n = (value + 1) as nat;
        lemma_in_range_size(n);
        lemma_delta_shape(n);
        lemma2_to64();
        lemma_bit_length_le(bit_length(n), 7);
        lemma_gamma_shape(bit_length(n));
    }

    proof fn lemma_cursor(&self) {
    }

    proof fn lemma_prefix_free(a: u64, b: u64) {
        let ca = Self::codeword(a);
        let cb = Self::codeword(b);
        assert(cb.subrange(0, ca.len() as int) =~= ca);
        assert(cb.subrange(0, cb.len() as int) =~= cb);
        lemma_delta_unique((a + 1) as nat, (b + 1) as nat, cb, 0);
    }

    fn get(&mut self) -> (res: Option<u64>) {
        match read_delta(&self.data, self.index) {
            Some((n, next)) => {
                self.index = next;
                Some(n - 1)
            },
            None => {
                self.index = self.data.len();
                None
            },
        }
    }

    fn add(&mut self, code: u64) {
        push_delta(&mut self.data, code + 1);
    }

    fn len(&self) -> (res: usize) {
        self.data.len()
    }

    fn index(&self) -> (res: usize) {
        self.index
    }

    fn as_bytes(&self) -> (res: &Vec<u8>) {
        self.data.as_bytes()
    }
}

} // verus!
