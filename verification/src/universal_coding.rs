//! The contract that the universal codes share: a stream of bits to which
//! codewords are appended, and a cursor from which they are read back.
use crate::bits::pack;
use vstd::prelude::*;

verus! {

/// No codeword of a value below `u64::MAX` is longer than this.
pub const MAX_CODEWORD_LEN: usize = 128;

/// The bits `code` stand in `bits` from index `pos` on.
pub open spec fn stands_at(code: Seq<bool>, bits: Seq<bool>, pos: int) -> bool {
    &&& 0 <= pos
    &&& pos + code.len() <= bits.len()
    &&& bits.subrange(pos, pos + code.len()) == code
}

/// The bit of `code` at index `j` is the bit of `bits` at index `pos + j`.
pub proof fn lemma_stands_at_index(code: Seq<bool>, bits: Seq<bool>, pos: int, j: int)
    requires
        stands_at(code, bits, pos),
        0 <= j < code.len(),
    ensures
        code[j] == bits[pos + j],
{
    assert(code[j] == bits.subrange(pos, pos + code.len())[j]);
}

/// The first bits of bits that stand at a place stand there too.
pub proof fn lemma_stands_at_prefix(code: Seq<bool>, bits: Seq<bool>, pos: int, k: int)
    requires
        stands_at(code, bits, pos),
        0 <= k <= code.len(),
    ensures
        stands_at(code.take(k), bits, pos),
{
    assert(bits.subrange(pos, pos + k) =~= bits.subrange(pos, pos + code.len()).take(k));
}

/// A prefix-free code for the integers `0 ..= u64::MAX - 1`, together with a
/// stream of its codewords and a read cursor into that stream.
pub trait UniversalCode: Sized {
    /// The representation invariant of the codec.
    spec fn wf(&self) -> bool;

    /// The bits of the stream.
    spec fn stream(&self) -> Seq<bool>;

    /// The index of the bit at which the next codeword is read.
    spec fn cursor(&self) -> nat;

    /// The codeword of `value`.
    spec fn codeword(value: u64) -> Seq<bool>;

    /// A codeword is not empty and not longer than `MAX_CODEWORD_LEN`.
    proof fn lemma_codeword_len(value: u64)
        requires
            value < u64::MAX,
        ensures
            0 < Self::codeword(value).len() <= MAX_CODEWORD_LEN,
    ;

    /// No codeword is the beginning of the codeword of another value.
    proof fn lemma_prefix_free(a: u64, b: u64)
        requires
            a < u64::MAX,
            b < u64::MAX,
            Self::codeword(a).is_prefix_of(Self::codeword(b)),
        ensures
            a == b,
    ;

    /// The cursor lies in the stream or at its end.
    proof fn lemma_cursor(&self)
        requires
            self.wf(),
        ensures
            self.cursor() <= self.stream().len(),
    ;

    /// Reads the codeword at the cursor and moves the cursor behind it.
    /// Where the codeword of no value below `u64::MAX` stands whole at the
    /// cursor, the stream is at its end: the result is `None` and the cursor
    /// moves to the end. As no codeword is the beginning of another, the
    /// result is `next_value` of the stream at the cursor
    /// (`lemma_get_is_next_value`).
    fn get(&mut self) -> (res: Option<u64>)
        requires
            old(self).wf(),
        ensures
            final(self).wf(),
            final(self).stream() == old(self).stream(),
            match res {
                Some(value) => {
                    &&& value < u64::MAX
                    &&& stands_at(
                        Self::codeword(value),
                        old(self).stream(),
                        old(self).cursor() as int,
                    )
                    &&& final(self).cursor() == old(self).cursor() + Self::codeword(value).len()
                },
                None => {
                    &&& final(self).cursor() == old(self).stream().len()
                    &&& forall|value: u64|
                        value < u64::MAX ==> !stands_at(
                            #[trigger] Self::codeword(value),
                            old(self).stream(),
                            old(self).cursor() as int,
                        )
                },
            },
    ;

    /// Appends the codeword of `code` to the stream.
    fn add(&mut self, code: u64)
        requires
            old(self).wf(),
            code < u64::MAX,
            old(self).stream().len() + Self::codeword(code).len() <= usize::MAX,
        ensures
            final(self).wf(),
            final(self).stream() == old(self).stream() + Self::codeword(code),
            final(self).cursor() == old(self).cursor(),
    ;

    /// The number of bits in the stream.
    fn len(&self) -> (res: usize)
        requires
            self.wf(),
        ensures
            res == self.stream().len(),
    ;

    /// The index of the bit at which the next codeword is read.
    fn index(&self) -> (res: usize)
        requires
            self.wf(),
        ensures
            res == self.cursor(),
    ;

    /// The bytes that store the stream, as they are written out: the last
    /// byte is filled up with zero bits.
    fn as_bytes(&self) -> (res: &Vec<u8>)
        requires
            self.wf(),
        ensures
            res@ == pack(self.stream()),
    ;
}

/// A codec that can be made with an empty stream.
pub trait Creatable: UniversalCode {
    /// A codec with an empty stream and the cursor at its start.
    fn new() -> (res: Self)
        ensures
            res.wf(),
            res.stream() == Seq::<bool>::empty(),
            res.cursor() == 0,
    ;
}

/// A codec from which the values are taken one after the other.
pub struct UniversalCodeIter<X: UniversalCode> {
    pub c: X,
}

impl<X: UniversalCode> UniversalCodeIter<X> {
    /// The next value of the codec, if its stream holds one more.
    pub fn next(&mut self) -> (res: Option<u64>)
        requires
            old(self).c.wf(),
        ensures
            final(self).c.wf(),
            final(self).c.stream() == old(self).c.stream(),
            res == next_value::<X>(old(self).c.stream(), old(self).c.cursor() as int),
            final(self).c.cursor() == match res {
                Some(value) => old(self).c.cursor() + X::codeword(value).len(),
                None => old(self).c.stream().len(),
            },
    {
        let res = self.c.get();
        proof {
            lemma_get_is_next_value::<X>(old(self).c.stream(), old(self).c.cursor() as int, res);
        }
        res
    }
}

/// The codeword of `value` stands in `bits` at index `pos`.
pub open spec fn holds_code<C: UniversalCode>(bits: Seq<bool>, pos: int, value: u64) -> bool {
    value < u64::MAX && stands_at(C::codeword(value), bits, pos)
}

/// The value whose codeword stands in `bits` at index `pos`, if there is one.
pub open spec fn next_value<C: UniversalCode>(bits: Seq<bool>, pos: int) -> Option<u64> {
    if exists|value: u64| holds_code::<C>(bits, pos, value) {
        Some(choose|value: u64| holds_code::<C>(bits, pos, value))
    } else {
        None
    }
}

/// At most one value has its codeword at a given place of a stream.
pub proof fn lemma_holds_code_unique<C: UniversalCode>(bits: Seq<bool>, pos: int, a: u64, b: u64)
    requires
        holds_code::<C>(bits, pos, a),
        holds_code::<C>(bits, pos, b),
    ensures
        a == b,
{
    let ca = C::codeword(a);
    let cb = C::codeword(b);
    if ca.len() <= cb.len() {
        assert(ca =~= cb.subrange(0, ca.len() as int));
        C::lemma_prefix_free(a, b);
    } else {
        assert(cb =~= ca.subrange(0, cb.len() as int));
        C::lemma_prefix_free(b, a);
    }
}

/// The value whose codeword stands at a place is the next value there.
pub proof fn lemma_next_value_some<C: UniversalCode>(bits: Seq<bool>, pos: int, value: u64)
    requires
        holds_code::<C>(bits, pos, value),
    ensures
        next_value::<C>(bits, pos) == Some(value),
{
    let chosen = choose|v: u64| holds_code::<C>(bits, pos, v);
    lemma_holds_code_unique::<C>(bits, pos, value, chosen);
}

/// What `get` returns is the next value at the cursor: its contract leaves
/// room for no other result.
pub proof fn lemma_get_is_next_value<C: UniversalCode>(bits: Seq<bool>, pos: int, res: Option<u64>)
    requires
        match res {
            Some(value) => value < u64::MAX && stands_at(C::codeword(value), bits, pos),
            None => forall|value: u64|
                value < u64::MAX ==> !stands_at(#[trigger] C::codeword(value), bits, pos),
        },
    ensures
        res == next_value::<C>(bits, pos),
{
    if let Some(value) = res {
        lemma_next_value_some::<C>(bits, pos, value);
    }
}

/// The values whose codewords stand in `bits` one behind the other from
/// index `pos` on, up to the first place at which no codeword stands.
pub open spec fn stream_values<C: UniversalCode>(bits: Seq<bool>, pos: int) -> Seq<u64>
    decreases bits.len() - pos,
    via stream_values_decreases::<C>
{
    match next_value::<C>(bits, pos) {
        Some(value) => seq![value] + stream_values::<C>(bits, pos + C::codeword(value).len()),
        None => Seq::empty(),
    }
}

#[via_fn]
proof fn stream_values_decreases<C: UniversalCode>(bits: Seq<bool>, pos: int) {
    if let Some(value) = next_value::<C>(bits, pos) {
        assert(holds_code::<C>(bits, pos, value));
        C::lemma_codeword_len(value);
    }
}

/// The codewords of `values`, one behind the other.
pub open spec fn code_stream<C: UniversalCode>(values: Seq<u64>) -> Seq<bool>
    decreases values.len(),
{
    if values.len() == 0 {
        Seq::empty()
    } else {
        code_stream::<C>(values.drop_last()) + C::codeword(values.last())
    }
}

/// The stream of a value followed by more values is the codeword of the
/// value followed by the stream of the others.
pub proof fn lemma_code_stream_first<C: UniversalCode>(first: u64, others: Seq<u64>)
    ensures
        code_stream::<C>(seq![first] + others) == C::codeword(first) + code_stream::<C>(others),
    decreases others.len(),
{
    let all = seq![first] + others;
    if others.len() == 0 {
        assert(all.drop_last() =~= Seq::<u64>::empty());
        assert(code_stream::<C>(all.drop_last()) =~= Seq::<bool>::empty());
        assert(code_stream::<C>(all) =~= C::codeword(first) + code_stream::<C>(others));
    } else {
        lemma_code_stream_first::<C>(first, others.drop_last());
        assert(all.drop_last() =~= seq![first] + others.drop_last());
        assert(code_stream::<C>(all) =~= C::codeword(first) + code_stream::<C>(others));
    }
}

/// The stream of the first values is the beginning of the stream of all:
/// a stream only grows as values are added.
pub proof fn lemma_code_stream_prefix<C: UniversalCode>(values: Seq<u64>, k: int)
    requires
        0 <= k <= values.len(),
    ensures
        code_stream::<C>(values.take(k)).is_prefix_of(code_stream::<C>(values)),
    decreases values.len(),
{
    if k < values.len() {
        lemma_code_stream_prefix::<C>(values.drop_last(), k);
        assert(values.drop_last().take(k) =~= values.take(k));
    } else {
        assert(values.take(k) =~= values);
    }
}

/// A stream of `n` values below `u64::MAX` has between `n` and
/// `n * MAX_CODEWORD_LEN` bits.
pub proof fn lemma_code_stream_len<C: UniversalCode>(values: Seq<u64>)
    requires
        forall|i: int| 0 <= i < values.len() ==> values[i] < u64::MAX,
    ensures
        values.len() <= code_stream::<C>(values).len() <= values.len() * MAX_CODEWORD_LEN,
    decreases values.len(),
{
    if values.len() > 0 {
        lemma_code_stream_len::<C>(values.drop_last());
        C::lemma_codeword_len(values.last());
    }
}

/// Reading a stream of codewords gives the values back, in their order, and
/// then the end of the stream: behind any bits, the values that stand in
/// the stream of `values` are `values`.
pub proof fn lemma_stream_round_trip<C: UniversalCode>(before: Seq<bool>, values: Seq<u64>)
    requires
        forall|i: int| 0 <= i < values.len() ==> values[i] < u64::MAX,
    ensures
        stream_values::<C>(before + code_stream::<C>(values), before.len() as int) == values,
    decreases values.len(),
{
    let bits = before + code_stream::<C>(values);
    if values.len() == 0 {
        assert forall|value: u64| !holds_code::<C>(bits, before.len() as int, value) by {
            if value < u64::MAX {
                C::lemma_codeword_len(value);
            }
        }
        assert(stream_values::<C>(bits, before.len() as int) =~= values);
    } else {
        let first = values[0];
        let others = values.drop_first();
        let code = C::codeword(first);
        assert(values =~= seq![first] + others);
        lemma_code_stream_first::<C>(first, others);
        assert(bits =~= before + code + code_stream::<C>(others));
        lemma_round_trip::<C>(before, first, code_stream::<C>(others));
        lemma_stream_round_trip::<C>(before + code, others);
        assert(bits =~= (before + code) + code_stream::<C>(others));
        assert((before + code).len() == before.len() + code.len());
    }
}

/// Decoding inverts encoding: behind any stream, the codeword of `value`
/// followed by anything reads back as `value`.
pub proof fn lemma_round_trip<C: UniversalCode>(before: Seq<bool>, value: u64, after: Seq<bool>)
    requires
        value < u64::MAX,
    ensures
        next_value::<C>(before + C::codeword(value) + after, before.len() as int) == Some(value),
{
    let code = C::codeword(value);
    let bits = before + code + after;
    assert(bits.subrange(before.len() as int, (before.len() + code.len()) as int) =~= code);
    lemma_next_value_some::<C>(bits, before.len() as int, value);
}

/// Two codewords written one behind the other read back as the two values:
/// the first at the start, the second right behind the first codeword.
pub proof fn lemma_back_to_back<C: UniversalCode>(first: u64, second: u64)
    requires
        first < u64::MAX,
        second < u64::MAX,
    ensures
        next_value::<C>(C::codeword(first) + C::codeword(second), 0) == Some(first),
        next_value::<C>(
            C::codeword(first) + C::codeword(second),
            C::codeword(first).len() as int,
        ) == Some(second),
        next_value::<C>(
            C::codeword(first) + C::codeword(second),
            (C::codeword(first).len() + C::codeword(second).len()) as int,
        ) is None,
{
    let bits = C::codeword(first) + C::codeword(second);
    let empty = Seq::<bool>::empty();
    assert(empty + C::codeword(first) + C::codeword(second) =~= bits);
    lemma_round_trip::<C>(empty, first, C::codeword(second));
    assert(C::codeword(first) + C::codeword(second) + empty =~= bits);
    lemma_round_trip::<C>(C::codeword(first), second, empty);
    assert forall|value: u64| !holds_code::<C>(bits, bits.len() as int, value) by {
        if value < u64::MAX {
            C::lemma_codeword_len(value);
        }
    }
}

} // verus!
