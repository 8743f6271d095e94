//! A growable sequence of bits, packed eight to a byte with the most
//! significant bit first.
use vstd::prelude::*;

verus! {

/// The bit that `byte` holds at place `k`, counted from the most significant
/// bit: place 0 is the bit of weight 128, place 7 the bit of weight 1.
pub open spec fn bit_of(byte: u8, k: int) -> bool {
    byte & (0x80u8 >> (k as u8)) != 0
}

/// The bits that a byte buffer holds: eight for each byte, in order.
pub open spec fn unpack(bytes: Seq<u8>) -> Seq<bool> {
    Seq::new(8 * bytes.len(), |i: int| bit_of(bytes[i / 8], i % 8))
}

/// `weight` if `bits` holds a set bit at index `i`, and 0 otherwise (also
/// where `i` lies beyond the end of `bits`).
pub open spec fn place(bits: Seq<bool>, i: int, weight: u8) -> u8 {
    if 0 <= i < bits.len() && bits[i] {
        weight
    } else {
        0
    }
}

/// The byte made of the eight bits that start at index `8 * j`; bits beyond
/// the end of `bits` count as zero.
#[verifier::opaque]
pub open spec fn packed_byte(bits: Seq<bool>, j: int) -> u8 {
    place(bits, 8 * j, 128) | place(bits, 8 * j + 1, 64) | place(bits, 8 * j + 2, 32) | place(
        bits,
        8 * j + 3,
        16,
    ) | place(bits, 8 * j + 4, 8) | place(bits, 8 * j + 5, 4) | place(bits, 8 * j + 6, 2) | place(
        bits,
        8 * j + 7,
        1,
    )
}

/// The byte buffer that stores `bits`: `ceil(len / 8)` bytes, the last one
/// filled up with zero bits.
pub open spec fn pack(bits: Seq<bool>) -> Seq<u8> {
    Seq::new(((bits.len() + 7) / 8) as nat, |j: int| packed_byte(bits, j))
}

/// The number of times that `value` occurs in `data`.
pub open spec fn occurrences(data: Seq<u8>, value: u8) -> nat
    decreases data.len(),
{
    if data.len() == 0 {
        0
    } else {
        occurrences(data.drop_last(), value) + if data.last() == value {
            1nat
        } else {
            0nat
        }
    }
}

proof fn lemma_set_bit(byte: u8, k: u8, j: u8)
    requires
        k < 8,
        j < 8,
    ensures
        bit_of(byte | (0x80u8 >> k), j as int) == (j == k || bit_of(byte, j as int)),
{
    assert(((byte | (0x80u8 >> k)) & (0x80u8 >> j) != 0) == (j == k || (byte & (0x80u8 >> j))
        != 0)) by (bit_vector)
        requires
            k < 8,
            j < 8,
    ;
}

proof fn lemma_zero_byte(j: u8)
    ensures
        !bit_of(0, j as int),
{
    assert(0u8 & (0x80u8 >> j) == 0) by (bit_vector);
}

proof fn lemma_byte_from_bits(
    byte: u8,
    w0: u8,
    w1: u8,
    w2: u8,
    w3: u8,
    w4: u8,
    w5: u8,
    w6: u8,
    w7: u8,
)
    requires
        w0 == if bit_of(byte, 0) { 128u8 } else { 0u8 },
        w1 == if bit_of(byte, 1) { 64u8 } else { 0u8 },
        w2 == if bit_of(byte, 2) { 32u8 } else { 0u8 },
        w3 == if bit_of(byte, 3) { 16u8 } else { 0u8 },
        w4 == if bit_of(byte, 4) { 8u8 } else { 0u8 },
        w5 == if bit_of(byte, 5) { 4u8 } else { 0u8 },
        w6 == if bit_of(byte, 6) { 2u8 } else { 0u8 },
        w7 == if bit_of(byte, 7) { 1u8 } else { 0u8 },
    ensures
        byte == w0 | w1 | w2 | w3 | w4 | w5 | w6 | w7,
{
    assert(byte == w0 | w1 | w2 | w3 | w4 | w5 | w6 | w7) by (bit_vector)
        requires
            w0 == if byte & (0x80u8 >> 0u8) != 0 { 128u8 } else { 0u8 },
            w1 == if byte & (0x80u8 >> 1u8) != 0 { 64u8 } else { 0u8 },
            w2 == if byte & (0x80u8 >> 2u8) != 0 { 32u8 } else { 0u8 },
            w3 == if byte & (0x80u8 >> 3u8) != 0 { 16u8 } else { 0u8 },
            w4 == if byte & (0x80u8 >> 4u8) != 0 { 8u8 } else { 0u8 },
            w5 == if byte & (0x80u8 >> 5u8) != 0 { 4u8 } else { 0u8 },
            w6 == if byte & (0x80u8 >> 6u8) != 0 { 2u8 } else { 0u8 },
            w7 == if byte & (0x80u8 >> 7u8) != 0 { 1u8 } else { 0u8 },
    ;
}

proof fn lemma_bits_from_byte(
    w0: u8,
    w1: u8,
    w2: u8,
    w3: u8,
    w4: u8,
    w5: u8,
    w6: u8,
    w7: u8,
)
    requires
        w0 == 0 || w0 == 128,
        w1 == 0 || w1 == 64,
        w2 == 0 || w2 == 32,
        w3 == 0 || w3 == 16,
        w4 == 0 || w4 == 8,
        w5 == 0 || w5 == 4,
        w6 == 0 || w6 == 2,
        w7 == 0 || w7 == 1,
    ensures
        ({
            let byte = w0 | w1 | w2 | w3 | w4 | w5 | w6 | w7;
            &&& bit_of(byte, 0) == (w0 != 0)
            &&& bit_of(byte, 1) == (w1 != 0)
            &&& bit_of(byte, 2) == (w2 != 0)
            &&& bit_of(byte, 3) == (w3 != 0)
            &&& bit_of(byte, 4) == (w4 != 0)
            &&& bit_of(byte, 5) == (w5 != 0)
            &&& bit_of(byte, 6) == (w6 != 0)
            &&& bit_of(byte, 7) == (w7 != 0)
        }),
{
    let byte = w0 | w1 | w2 | w3 | w4 | w5 | w6 | w7;
    assert({
        &&& (byte & (0x80u8 >> 0u8) != 0) == (w0 != 0)
        &&& (byte & (0x80u8 >> 1u8) != 0) == (w1 != 0)
        &&& (byte & (0x80u8 >> 2u8) != 0) == (w2 != 0)
        &&& (byte & (0x80u8 >> 3u8) != 0) == (w3 != 0)
        &&& (byte & (0x80u8 >> 4u8) != 0) == (w4 != 0)
        &&& (byte & (0x80u8 >> 5u8) != 0) == (w5 != 0)
        &&& (byte & (0x80u8 >> 6u8) != 0) == (w6 != 0)
        &&& (byte & (0x80u8 >> 7u8) != 0) == (w7 != 0)
    }) by (bit_vector)
        requires
            byte == w0 | w1 | w2 | w3 | w4 | w5 | w6 | w7,
            w0 == 0 || w0 == 128,
            w1 == 0 || w1 == 64,
            w2 == 0 || w2 == 32,
            w3 == 0 || w3 == 16,
            w4 == 0 || w4 == 8,
            w5 == 0 || w5 == 4,
            w6 == 0 || w6 == 2,
            w7 == 0 || w7 == 1,
    ;
}

/// The bit of `packed_byte(bits, j)` at place `k` is the bit of `bits` at
/// index `8 * j + k`, and zero beyond the end of `bits`.
pub proof fn lemma_packed_byte_bit(bits: Seq<bool>, j: int, k: int)
    requires
        0 <= j,
        0 <= k < 8,
    ensures
        bit_of(packed_byte(bits, j), k) == (8 * j + k < bits.len() && bits[8 * j + k]),
{
    reveal(packed_byte);
    lemma_bits_from_byte(
        place(bits, 8 * j, 128),
        place(bits, 8 * j + 1, 64),
        place(bits, 8 * j + 2, 32),
        place(bits, 8 * j + 3, 16),
        place(bits, 8 * j + 4, 8),
        place(bits, 8 * j + 5, 4),
        place(bits, 8 * j + 6, 2),
        place(bits, 8 * j + 7, 1),
    );
}

/// Storing bits and loading them again keeps every bit in its place and
/// fills the length up to the next multiple of eight with zero bits.
pub proof fn lemma_unpack_pack(bits: Seq<bool>)
    ensures
        unpack(pack(bits)).len() % 8 == 0,
        bits.len() <= unpack(pack(bits)).len() < bits.len() + 8,
        forall|i: int| 0 <= i < bits.len() ==> unpack(pack(bits))[i] == bits[i],
        forall|i: int| bits.len() <= i < unpack(pack(bits)).len() ==> !unpack(pack(bits))[i],
{
    let loaded = unpack(pack(bits));
    assert forall|i: int| 0 <= i < loaded.len() implies loaded[i] == (i < bits.len() && bits[i]) by {
        lemma_packed_byte_bit(bits, i / 8, i % 8);
    }
}

/// Loading bytes and storing the bits again gives the same bytes.
pub proof fn lemma_pack_unpack(bytes: Seq<u8>)
    ensures
        pack(unpack(bytes)) == bytes,
{
    let bits = unpack(bytes);
    assert forall|j: int| 0 <= j < bytes.len() implies packed_byte(bits, j) == bytes[j] by {
        assert forall|k: int| 0 <= k < 8 implies #[trigger] bits[8 * j + k] == bit_of(bytes[j], k) by {
            assert((8 * j + k) / 8 == j);
            assert((8 * j + k) % 8 == k);
        }
        reveal(packed_byte);
        assert(bits[8 * j + 0] == bit_of(bytes[j], 0));
        assert(bits[8 * j + 1] == bit_of(bytes[j], 1));
        assert(bits[8 * j + 2] == bit_of(bytes[j], 2));
        assert(bits[8 * j + 3] == bit_of(bytes[j], 3));
        assert(bits[8 * j + 4] == bit_of(bytes[j], 4));
        assert(bits[8 * j + 5] == bit_of(bytes[j], 5));
        assert(bits[8 * j + 6] == bit_of(bytes[j], 6));
        assert(bits[8 * j + 7] == bit_of(bytes[j], 7));
        lemma_byte_from_bits(
            bytes[j],
            place(bits, 8 * j, 128),
            place(bits, 8 * j + 1, 64),
            place(bits, 8 * j + 2, 32),
            place(bits, 8 * j + 3, 16),
            place(bits, 8 * j + 4, 8),
            place(bits, 8 * j + 5, 4),
            place(bits, 8 * j + 6, 2),
            place(bits, 8 * j + 7, 1),
        );
    }
    assert(pack(bits) =~= bytes);
}

/// An append-only sequence of bits.
///
/// Its view is the sequence of bits pushed so far. The bits are kept packed
/// in bytes; the unused low bits of the last byte are zero.
#[derive(Debug)]
pub struct Bits {
    data: Vec<u8>,
    size: usize,
}

impl View for Bits {
    type V = Seq<bool>;

    closed spec fn view(&self) -> Seq<bool> {
        Seq::new(self.size as nat, |i: int| bit_of(self.data@[i / 8], i % 8))
    }
}

impl Bits {
    /// The representation invariant: there are exactly as many bytes as the
    /// bits need, and the bits of the last byte that are not in use are zero.
    pub closed spec fn wf(&self) -> bool {
        &&& self.data@.len() == (self.size + 7) / 8
        &&& forall|i: int|
            self.size <= i < 8 * self.data@.len() ==> !#[trigger] bit_of(
                self.data@[i / 8],
                i % 8,
            )
    }

    /// The length of a stream is a `usize`.
    pub proof fn lemma_len_fits(&self)
        ensures
            self@.len() <= usize::MAX,
    {
    }

    /// A well-formed stream is stored as the packing of its bits.
    proof fn lemma_data_is_pack(&self)
        requires
            self.wf(),
        ensures
            self.data@ == pack(self@),
    {
        let bits = self@;
        assert forall|j: int| 0 <= j < self.data@.len() implies packed_byte(bits, j)
            == self.data@[j] by {
            let byte = self.data@[j];
            assert forall|k: int| 0 <= k < 8 implies (8 * j + k < bits.len() && bits[8 * j + k])
                == bit_of(byte, k) by {
                let i = 8 * j + k;
                assert(i / 8 == j);
                assert(i % 8 == k);
                if i >= bits.len() {
                    assert(!bit_of(self.data@[i / 8], i % 8));
                }
            }
            reveal(packed_byte);
            lemma_byte_from_bits(
                byte,
                place(bits, 8 * j, 128),
                place(bits, 8 * j + 1, 64),
                place(bits, 8 * j + 2, 32),
                place(bits, 8 * j + 3, 16),
                place(bits, 8 * j + 4, 8),
                place(bits, 8 * j + 5, 4),
                place(bits, 8 * j + 6, 2),
                place(bits, 8 * j + 7, 1),
            );
        }
        assert(self.data@ =~= pack(bits));
    }

    /// An empty stream.
    pub fn new() -> (res: Self)
        ensures
            res.wf(),
            res@ == Seq::<bool>::empty(),
    {
        let res = Self { data: Vec::new(), size: 0 };
        assert(res@ =~= Seq::<bool>::empty());
        res
    }

    /// The number of bits in the stream.
    pub fn len(&self) -> (res: usize)
        ensures
            res == self@.len(),
    {
        self.size
    }

    /// Appends one bit.
    pub fn push(&mut self, c: bool)
        requires
            old(self).wf(),
            old(self)@.len() < usize::MAX,
        ensures
            final(self).wf(),
            final(self)@ == old(self)@.push(c),
    {
        let sector = self.size % 8;
        let block = self.size / 8;
        if sector == 0 {
            self.data.push(0);
        }
        let byte = self.data[block];
        if c {
            self.data.set(block, byte | (0x80u8 >> (sector as u8)));
        }
        self.size += 1;
        proof {
            assert forall|i: int| 0 <= i < 8 * self.data@.len() implies #[trigger] bit_of(
                self.data@[i / 8],
                i % 8,
            ) == if i < old(self).size {
                bit_of(old(self).data@[i / 8], i % 8)
            } else {
                i == old(self).size && c
            } by {
                if i / 8 == block {
                    lemma_set_bit(byte, sector as u8, (i % 8) as u8);
                    if sector == 0 {
                        lemma_zero_byte((i % 8) as u8);
                    } else if i >= old(self).size {
                        assert(!bit_of(old(self).data@[i / 8], i % 8));
                    }
                } else if i >= old(self).size {
                    assert(!bit_of(old(self).data@[i / 8], i % 8));
                }
            }
            assert(self@ =~= old(self)@.push(c));
        }
    }

    /// The bit at index `i`, or `None` where the stream has no such bit.
    pub fn get(&self, i: usize) -> (res: Option<bool>)
        requires
            self.wf(),
        ensures
            res == if i < self@.len() {
                Some(self@[i as int])
            } else {
                None
            },
    {
        if i < self.size {
            let byte = self.data[i / 8];
            let mask = 0x80u8 >> ((i % 8) as u8);
            return Some(byte & mask != 0);
        }
        None
    }

    /// Appends the bits of `buffer` in reverse order, the last one first.
    pub fn push_reversed(&mut self, buffer: &Vec<bool>)
        requires
            old(self).wf(),
            old(self)@.len() + buffer@.len() <= usize::MAX,
        ensures
            final(self).wf(),
            final(self)@ == old(self)@ + buffer@.reverse(),
    {
        let mut i = buffer.len();
        while i > 0
            invariant
                i <= buffer@.len(),
                self.wf(),
                self@ == old(self)@ + buffer@.reverse().take(buffer@.len() - i),
                old(self)@.len() + buffer@.len() <= usize::MAX,
            decreases i,
        {
            i -= 1;
            self.push(buffer[i]);
            assert(self@ =~= old(self)@ + buffer@.reverse().take(buffer@.len() - i));
        }
        assert(buffer@.reverse().take(buffer@.len() as int) =~= buffer@.reverse());
    }

    /// The stream that a byte buffer holds: all the bits of all its bytes.
    ///
    /// A buffer that was written from a stream whose length was no multiple
    /// of eight comes back with the zero bits that filled its last byte.
    pub fn from_bytes(data: Vec<u8>) -> (res: Self)
        requires
            data@.len() * 8 <= usize::MAX,
        ensures
            res.wf(),
            res@ == unpack(data@),
    {
        let size = data.len() * 8;
        let res = Self { size, data };
        assert(res@ =~= unpack(data@));
        res
    }

    /// The bytes that store the stream, as they are written out.
    pub fn as_bytes(&self) -> (res: &Vec<u8>)
        requires
            self.wf(),
        ensures
            res@ == pack(self@),
    {
        proof {
            self.lemma_data_is_pack();
        }
        &self.data
    }
}

/// Counts how often each byte value occurs in `data`: the result has 256
/// entries, one for each value.
pub fn byte_counts(data: &Vec<u8>) -> (res: Vec<u64>)
    ensures
        res@.len() == 256,
        forall|v: u8| #[trigger] res@[v as int] == occurrences(data@, v),
{
    let mut counts: Vec<u64> = Vec::new();
    while counts.len() < 256
        invariant
            counts@.len() <= 256,
            forall|v: int| 0 <= v < counts@.len() ==> counts@[v] == 0,
        decreases 256 - counts@.len(),
    {
        counts.push(0);
    }
    let mut i: usize = 0;
    while i < data.len()
        invariant
            i <= data@.len(),
            counts@.len() == 256,
            forall|v: u8| #[trigger] counts@[v as int] == occurrences(data@.take(i as int), v),
            forall|v: u8| occurrences(data@.take(i as int), v) <= i,
        decreases data@.len() - i,
    {
        let d = data[i];
        let count = counts[d as usize];
        assert(count == occurrences(data@.take(i as int), d));
        counts.set(d as usize, count + 1);
        i += 1;
        proof {
            assert(data@.take(i as int).drop_last() =~= data@.take(i as int - 1));
            assert forall|v: u8| #[trigger]
                occurrences(data@.take(i as int), v) == occurrences(data@.take(i as int - 1), v)
                    + if d == v {
                    1nat
                } else {
                    0nat
                } by {}
        }
    }
    proof {
        assert(data@.take(i as int) =~= data@);
    }
    counts
}

} // verus!
