//! The LZW coder: it replaces the byte sequences of its input by their
//! indices in a dictionary that it builds on the way, and writes the indices
//! with a universal code. The decoder builds the same dictionary one step
//! behind and puts the sequences back.
use crate::dictionary::{position, seeds, with_word, Dictionary, MAX_SIZE};
use crate::universal_coding::{
    code_stream, lemma_code_stream_len, lemma_code_stream_prefix, lemma_get_is_next_value,
    lemma_stream_round_trip, stream_values, Creatable, UniversalCode, MAX_CODEWORD_LEN,
};
use vstd::prelude::*;

verus! {

/// What the encoder holds after a part of its input: the dictionary, the
/// sequence that it has read and not yet written, and the codes written.
pub struct Encoding {
    pub words: Seq<Seq<u8>>,
    pub prev: Seq<u8>,
    pub codes: Seq<u64>,
}

/// The code of `word` in the dictionary `words`.
pub open spec fn code_of(words: Seq<Seq<u8>>, word: Seq<u8>) -> u64 {
    position(words, word)->0 as u64
}

/// The encoder takes one byte: where the pending sequence with the byte is
/// in the dictionary, it goes on with that sequence; else it adds that
/// sequence to the dictionary, writes the code of the pending sequence and
/// goes on with the byte alone.
pub open spec fn encode_step(s: Encoding, byte: u8) -> Encoding {
    let longer = s.prev.push(byte);
    if s.words.contains(longer) {
        Encoding { words: s.words, prev: longer, codes: s.codes }
    } else {
        let words = with_word(s.words, longer);
        Encoding { words, prev: seq![byte], codes: s.codes.push(code_of(words, s.prev)) }
    }
}

/// What the encoder holds after it has taken `data`.
pub open spec fn encode_run(data: Seq<u8>) -> Encoding
    decreases data.len(),
{
    if data.len() == 0 {
        Encoding { words: seeds(), prev: Seq::empty(), codes: Seq::empty() }
    } else {
        encode_step(encode_run(data.drop_last()), data.last())
    }
}

/// The codes of `data`: those written while the encoder took `data`, and
/// at the end the code of the pending sequence, if there is one.
pub open spec fn lzw_codes(data: Seq<u8>) -> Seq<u64> {
    let s = encode_run(data);
    if s.prev.len() > 0 {
        s.codes.push(code_of(s.words, s.prev))
    } else {
        s.codes
    }
}

/// What the decoder holds after a part of the codes: the dictionary, the
/// sequence of the last code, and the bytes put out.
pub struct Decoding {
    pub words: Seq<Seq<u8>>,
    pub prev: Seq<u8>,
    pub output: Seq<u8>,
}

/// The dictionary in which the decoder looks up `code`: a code beyond the
/// dictionary stands for the sequence that the encoder had added just
/// before, which is the last sequence followed by its own first byte.
pub open spec fn words_for(s: Decoding, code: u64) -> Seq<Seq<u8>> {
    if code >= s.words.len() && s.prev.len() > 0 {
        with_word(s.words, s.prev.push(s.prev[0]))
    } else {
        s.words
    }
}

/// The decoder takes one code: it puts out the sequence of the code and adds
/// to the dictionary the last sequence followed by the first byte of this
/// one. `None` where the code is beyond the dictionary.
pub open spec fn decode_step(s: Decoding, code: u64) -> Option<Decoding> {
    let found = words_for(s, code);
    if code >= found.len() {
        None
    } else {
        let entry = found[code as int];
        let words = if s.prev.len() > 0 {
            with_word(found, s.prev.push(entry[0]))
        } else {
            found
        };
        Some(Decoding { words, prev: entry, output: s.output + entry })
    }
}

/// What the decoder holds after it has taken `codes`; `None` where one of
/// them was beyond the dictionary.
pub open spec fn decode_run(codes: Seq<u64>) -> Option<Decoding>
    decreases codes.len(),
{
    if codes.len() == 0 {
        Some(Decoding { words: seeds(), prev: Seq::empty(), output: Seq::empty() })
    } else {
        match decode_run(codes.drop_last()) {
            Some(s) => decode_step(s, codes.last()),
            None => None,
        }
    }
}

/// The bytes that `codes` stand for; `None` where one of the codes is
/// beyond the dictionary that the codes before it build.
pub open spec fn lzw_bytes(codes: Seq<u64>) -> Option<Seq<u8>> {
    match decode_run(codes) {
        Some(s) => Some(s.output),
        None => None,
    }
}

/// A dictionary as the coder keeps it: it starts with the single bytes,
/// holds no empty sequence and no sequence twice, and is not longer than
/// `MAX_SIZE`.
pub open spec fn valid_words(words: Seq<Seq<u8>>) -> bool {
    &&& 256 <= words.len() <= MAX_SIZE
    &&& words.take(256) == seeds()
    &&& forall|i: int| 0 <= i < words.len() ==> (#[trigger] words[i]).len() > 0
    &&& forall|i: int, j: int|
        0 <= i < words.len() && 0 <= j < words.len() && words[i] == words[j] ==> i == j
}

/// A word of a dictionary has its code: the code is the index at which the
/// word stands.
pub proof fn lemma_code_of(words: Seq<Seq<u8>>, word: Seq<u8>)
    requires
        words.len() <= MAX_SIZE,
        words.contains(word),
    ensures
        code_of(words, word) < words.len(),
        words[code_of(words, word) as int] == word,
{
}

/// The single bytes are in every dictionary.
pub proof fn lemma_single_byte(words: Seq<Seq<u8>>, byte: u8)
    requires
        valid_words(words),
    ensures
        words.contains(seq![byte]),
        words[byte as int] == seq![byte],
{
    assert(words[byte as int] == words.take(256)[byte as int]);
    assert(seeds()[byte as int] == seq![byte]);
}

/// The single bytes make a dictionary.
pub proof fn lemma_seeds_valid()
    ensures
        valid_words(seeds()),
{
    let words = seeds();
    assert(words.take(256) =~= words);
    assert forall|i: int, j: int|
        0 <= i < words.len() && 0 <= j < words.len() && words[i] == words[j] implies i == j by {
        assert(words[i][0] == i as u8);
        assert(words[j][0] == j as u8);
    }
}

/// A dictionary stays one when a sequence that is not empty is added.
pub proof fn lemma_with_word_valid(words: Seq<Seq<u8>>, word: Seq<u8>)
    requires
        valid_words(words),
        word.len() > 0,
    ensures
        valid_words(with_word(words, word)),
        forall|i: int| 0 <= i < words.len() ==> with_word(words, word)[i] == words[i],
        words.len() <= with_word(words, word).len() <= words.len() + 1,
        forall|other: Seq<u8>| words.contains(other) ==> with_word(words, word).contains(other),
{
    let added = with_word(words, word);
    assert(added.take(256) =~= words.take(256));
    assert forall|other: Seq<u8>| words.contains(other) implies added.contains(other) by {
        let i = choose|i: int| 0 <= i < words.len() && words[i] == other;
        assert(added[i] == other);
    }
}

/// What holds of the encoder at every step: its dictionary is valid; the
/// pending sequence is in the dictionary, and is empty only before the first
/// byte; every code written is the index of a word.
pub proof fn lemma_encode_run(data: Seq<u8>)
    ensures
        valid_words(encode_run(data).words),
        data.len() > 0 ==> encode_run(data).words.contains(encode_run(data).prev),
        (encode_run(data).prev.len() == 0) == (data.len() == 0),
        encode_run(data).codes.len() + 1 <= data.len() || data.len() == 0,
        forall|i: int|
            0 <= i < encode_run(data).codes.len() ==> encode_run(data).codes[i] < MAX_SIZE,
    decreases data.len(),
{
    lemma_seeds_valid();
    if data.len() > 0 {
        let before = encode_run(data.drop_last());
        let byte = data.last();
        lemma_encode_run(data.drop_last());
        let longer = before.prev.push(byte);
        lemma_single_byte(before.words, byte);
        if !before.words.contains(longer) {
            assert(before.prev.len() > 0) by {
                if before.prev.len() == 0 {
                    assert(longer =~= seq![byte]);
                }
            }
            let words = with_word(before.words, longer);
            lemma_with_word_valid(before.words, longer);
            lemma_code_of(words, before.prev);
        }
    }
}

/// The codes of `data` are at most as many as its bytes, and each is the
/// index of a word.
pub proof fn lemma_lzw_codes(data: Seq<u8>)
    ensures
        lzw_codes(data).len() <= data.len(),
        forall|i: int| 0 <= i < lzw_codes(data).len() ==> lzw_codes(data)[i] < MAX_SIZE,
{
    lemma_encode_run(data);
    let s = encode_run(data);
    if s.prev.len() > 0 {
        lemma_code_of(s.words, s.prev);
    }
}

/// The codes written after the first `k` bytes are the first codes of the
/// whole input.
pub proof fn lemma_codes_grow(data: Seq<u8>, k: int)
    requires
        0 <= k <= data.len(),
    ensures
        encode_run(data.take(k)).codes.is_prefix_of(lzw_codes(data)),
    decreases data.len() - k,
{
    if k < data.len() {
        lemma_codes_grow(data, k + 1);
        assert(data.take(k + 1).drop_last() =~= data.take(k));
    } else {
        assert(data.take(k) =~= data);
    }
}

/// An input of `n` bytes is encoded in at most `n * MAX_CODEWORD_LEN` bits.
pub proof fn lemma_encoded_len<C: UniversalCode>(data: Seq<u8>)
    ensures
        code_stream::<C>(lzw_codes(data)).len() <= data.len() * MAX_CODEWORD_LEN,
{
    lemma_lzw_codes(data);
    lemma_code_stream_len::<C>(lzw_codes(data));
    assert(lzw_codes(data).len() * MAX_CODEWORD_LEN <= data.len() * MAX_CODEWORD_LEN)
        by (nonlinear_arith)
        requires
            lzw_codes(data).len() <= data.len(),
    ;
}

/// The decoder is one step behind the encoder: after the codes that the
/// encoder `e` has written for `data`, the decoder `d` has put out `data`
/// but for the pending sequence, and its dictionary lacks only the sequence
/// that the encoder added last, which is the decoder's last sequence
/// followed by the first byte of the pending one.
pub open spec fn follows(e: Encoding, d: Decoding, data: Seq<u8>) -> bool {
    &&& d.output + e.prev == data
    &&& valid_words(e.words)
    &&& valid_words(d.words)
    &&& if e.codes.len() == 0 {
        d.words == e.words && d.prev.len() == 0
    } else {
        d.prev.len() > 0 && e.prev.len() > 0 && e.words == with_word(
            d.words,
            d.prev.push(e.prev[0]),
        )
    }
}

/// The decoder that follows the encoder takes the code of the pending
/// sequence: it puts out that sequence and has the encoder's dictionary.
pub proof fn lemma_decode_emitted(e: Encoding, d: Decoding, data: Seq<u8>, code: u64)
    requires
        follows(e, d, data),
        e.prev.len() > 0,
        code < e.words.len(),
        e.words[code as int] == e.prev,
    ensures
        decode_step(d, code) == Some(
            Decoding { words: e.words, prev: e.prev, output: d.output + e.prev },
        ),
{
    if e.codes.len() > 0 {
        let last = d.prev.push(e.prev[0]);
        lemma_with_word_valid(d.words, last);
        if code >= d.words.len() {
            assert(e.words == d.words.push(last));
            assert(e.prev == last);
            assert(last[0] == d.prev[0]);
            assert(d.prev.push(d.prev[0]) =~= last);
            assert(words_for(d, code) == e.words);
            assert(e.words.contains(last)) by {
                assert(e.words[code as int] == last);
            }
        } else {
            assert(words_for(d, code) == d.words);
            assert(d.words[code as int] == e.prev);
        }
    }
}

/// After the codes that the encoder has written for `data`, the decoder
/// follows the encoder.
pub proof fn lemma_decoder_follows(data: Seq<u8>)
    ensures
        decode_run(encode_run(data).codes) is Some,
        follows(encode_run(data), decode_run(encode_run(data).codes)->0, data),
    decreases data.len(),
{
    lemma_seeds_valid();
    lemma_encode_run(data);
    let e = encode_run(data);
    if data.len() == 0 {
        let d = decode_run(e.codes)->0;
        assert(d.output + e.prev =~= data);
    } else {
        let shorter = data.drop_last();
        let byte = data.last();
        let e0 = encode_run(shorter);
        lemma_decoder_follows(shorter);
        lemma_encode_run(shorter);
        let d0 = decode_run(e0.codes)->0;
        let longer = e0.prev.push(byte);
        assert(shorter.push(byte) =~= data);
        if e0.words.contains(longer) {
            assert(d0.output + longer =~= (d0.output + e0.prev).push(byte));
            if e0.prev.len() > 0 {
                assert(longer[0] == e0.prev[0]);
            }
        } else {
            assert(e0.prev.len() > 0) by {
                if e0.prev.len() == 0 {
                    lemma_single_byte(e0.words, byte);
                    assert(longer =~= seq![byte]);
                }
            }
            lemma_with_word_valid(e0.words, longer);
            lemma_code_of(e.words, e0.prev);
            let code = code_of(e.words, e0.prev);
            assert(code < e0.words.len()) by {
                if code >= e0.words.len() {
                    assert(e.words[code as int] == longer);
                    assert(longer.len() == e0.prev.len() + 1);
                }
            }
            lemma_decode_emitted(e0, d0, shorter, code);
            assert(e.codes.drop_last() =~= e0.codes);
            let d = Decoding { words: e0.words, prev: e0.prev, output: d0.output + e0.prev };
            assert(decode_run(e.codes) == Some(d));
            assert(d.output + e.prev =~= data);
            assert(e.prev[0] == byte);
            assert(d.prev.push(e.prev[0]) =~= longer);
        }
    }
}

/// Decoding inverts encoding: the codes of `data` stand for `data`.
pub proof fn lemma_lzw_round_trip(data: Seq<u8>)
    ensures
        lzw_bytes(lzw_codes(data)) == Some(data),
{
    lemma_decoder_follows(data);
    lemma_encode_run(data);
    let e = encode_run(data);
    let d = decode_run(e.codes)->0;
    if e.prev.len() > 0 {
        lemma_code_of(e.words, e.prev);
        let code = code_of(e.words, e.prev);
        lemma_decode_emitted(e, d, data, code);
        assert(lzw_codes(data).drop_last() =~= e.codes);
    } else {
        assert(d.output + e.prev =~= d.output);
    }
}

/// The whole way there and back: the bytes that stand in the stream that
/// `encode` writes for `data`, read from its start as `decode` reads it, are
/// `data`, whatever the universal code.
pub proof fn lemma_coded_round_trip<C: UniversalCode>(data: Seq<u8>)
    ensures
        lzw_bytes(stream_values::<C>(code_stream::<C>(lzw_codes(data)), 0)) == Some(data),
{
    lemma_lzw_codes(data);
    lemma_lzw_round_trip(data);
    lemma_stream_round_trip::<C>(Seq::<bool>::empty(), lzw_codes(data));
    assert(Seq::<bool>::empty() + code_stream::<C>(lzw_codes(data)) =~= code_stream::<C>(
        lzw_codes(data),
    ));
}

/// A copy of `bytes`.
fn copy_of(bytes: &Vec<u8>) -> (res: Vec<u8>)
    ensures
        res@ == bytes@,
{
    let mut res: Vec<u8> = Vec::new();
    let mut i: usize = 0;
    while i < bytes.len()
        invariant
            i <= bytes@.len(),
            res@ == bytes@.take(i as int),
        decreases bytes@.len() - i,
    {
        res.push(bytes[i]);
        i += 1;
        assert(res@ =~= bytes@.take(i as int));
    }
    assert(bytes@.take(i as int) =~= bytes@);
    res
}

/// Encodes `data`: a codec with the codewords of the LZW codes of `data` in
/// its stream.
pub fn encode<Y: UniversalCode + Creatable>(data: &[u8]) -> (res: Y)
    requires
        code_stream::<Y>(lzw_codes(data@)).len() <= usize::MAX,
    ensures
        res.wf(),
        res.stream() == code_stream::<Y>(lzw_codes(data@)),
        res.cursor() == 0,
{
    let mut prev: Vec<u8> = Vec::new();
    let mut res = Y::new();
    let mut dictionary = Dictionary::new();
    let mut i: usize = 0;
    proof {
        assert(data@.take(0) =~= Seq::<u8>::empty());
        assert(code_stream::<Y>(Seq::<u64>::empty()) =~= Seq::<bool>::empty());
    }
    while i < data.len()
        invariant
            i <= data@.len(),
            dictionary.wf(),
            res.wf(),
            res.cursor() == 0,
            dictionary@ == encode_run(data@.take(i as int)).words,
            prev@ == encode_run(data@.take(i as int)).prev,
            res.stream() == code_stream::<Y>(encode_run(data@.take(i as int)).codes),
            code_stream::<Y>(lzw_codes(data@)).len() <= usize::MAX,
        decreases data@.len() - i,
    {
        let ghost before = encode_run(data@.take(i as int));
        let ghost after = encode_run(data@.take(i + 1));
        let code = data[i];
        proof {
            assert(data@.take(i + 1).drop_last() =~= data@.take(i as int));
            assert(after == encode_step(before, code));
            lemma_encode_run(data@.take(i as int));
            lemma_encode_run(data@.take(i + 1));
        }
        prev.push(code);
        match dictionary.word_position(&prev) {
            None => {
                dictionary.add(copy_of(&prev));
                prev.pop();
                proof {
                    assert(prev@ =~= before.prev);
                    if before.prev.len() == 0 {
                        lemma_single_byte(before.words, code);
                        assert(before.prev.push(code) =~= seq![code]);
                    }
                    lemma_with_word_valid(before.words, before.prev.push(code));
                }
                let index = dictionary.word_position(&prev).unwrap();
                proof {
                    lemma_codes_grow(data@, i + 1);
                    lemma_code_stream_prefix::<Y>(lzw_codes(data@), after.codes.len() as int);
                    assert(lzw_codes(data@).take(after.codes.len() as int) =~= after.codes);
                    assert(after.codes.drop_last() =~= before.codes);
                }
                res.add(index as u64);
                prev = Vec::new();
                prev.push(code);
                assert(prev@ =~= seq![code]);
            },
            Some(_) => {},
        }
        i += 1;
    }
    proof {
        assert(data@.take(i as int) =~= data@);
        lemma_encode_run(data@);
    }
    if prev.len() > 0 {
        let index = dictionary.word_position(&prev).unwrap();
        proof {
            assert(lzw_codes(data@).drop_last() =~= encode_run(data@).codes);
        }
        res.add(index as u64);
    }
    res
}

/// Why the decoder stopped before the end of its input.
#[derive(Debug, PartialEq, Eq)]
pub enum DecodeError {
    /// A code was beyond the dictionary.
    InvalidCode,
}

/// Decodes the codes that `data` holds from its cursor on, up to the end of
/// the stream: the bytes that the codes stand for, or an error where a code
/// is beyond the dictionary.
pub fn decode<X: UniversalCode>(data: &mut X) -> (res: Result<Vec<u8>, DecodeError>)
    requires
        old(data).wf(),
    ensures
        final(data).wf(),
        final(data).stream() == old(data).stream(),
        match lzw_bytes(stream_values::<X>(old(data).stream(), old(data).cursor() as int)) {
            Some(bytes) => res matches Ok(out) && out@ == bytes && final(data).cursor() == old(
                data,
            ).stream().len(),
            None => res == Err::<Vec<u8>, DecodeError>(DecodeError::InvalidCode),
        },
{
    let ghost bits = data.stream();
    let ghost start = data.cursor() as int;
    let ghost all = stream_values::<X>(bits, start);
    let ghost mut seen: Seq<u64> = Seq::empty();
    let mut prev: Vec<u8> = Vec::new();
    let mut res: Vec<u8> = Vec::new();
    let mut dictionary = Dictionary::new();
    proof {
        lemma_seeds_valid();
        assert(seen + stream_values::<X>(bits, start) =~= all);
    }
    loop
        invariant
            data.wf(),
            data.stream() == bits,
            dictionary.wf(),
            valid_words(dictionary@),
            all == seen + stream_values::<X>(bits, data.cursor() as int),
            decode_run(seen) == Some(
                Decoding { words: dictionary@, prev: prev@, output: res@ },
            ),
            bits == old(data).stream(),
            all == stream_values::<X>(old(data).stream(), old(data).cursor() as int),
        decreases bits.len() - data.cursor(),
    {
        let ghost cursor = data.cursor() as int;
        let ghost state = Decoding { words: dictionary@, prev: prev@, output: res@ };
        let code = match data.get() {
            None => {
                proof {
                    lemma_get_is_next_value::<X>(bits, cursor, None);
                    assert(seen + Seq::<u64>::empty() =~= seen);
                }
                return Ok(res);
            },
            Some(code) => code,
        };
        proof {
            lemma_get_is_next_value::<X>(bits, cursor, Some(code));
            X::lemma_codeword_len(code);
            assert(seen.push(code) + stream_values::<X>(bits, data.cursor() as int) =~= seen + (
            seq![code] + stream_values::<X>(bits, data.cursor() as int)));
            assert(seen.push(code).drop_last() =~= seen);
            assert(decode_run(seen.push(code)) == decode_step(state, code));
        }
        if code >= dictionary.len() as u64 && prev.len() > 0 {
            let mut temp = copy_of(&prev);
            temp.push(prev[0]);
            proof {
                lemma_with_word_valid(dictionary@, temp@);
            }
            dictionary.add(temp);
        }
        assert(dictionary@ == words_for(state, code));
        if code >= dictionary.len() as u64 {
            proof {
                lemma_decode_fails(seen.push(code), all);
            }
            return Err(DecodeError::InvalidCode);
        }
        let entry = copy_of(dictionary.resolve(code as usize));
        let mut j: usize = 0;
        while j < entry.len()
            invariant
                j <= entry@.len(),
                res@ == state.output + entry@.take(j as int),
            decreases entry@.len() - j,
        {
            res.push(entry[j]);
            j += 1;
            assert(res@ =~= state.output + entry@.take(j as int));
        }
        assert(entry@.take(j as int) =~= entry@);
        if prev.len() != 0 {
            let mut temp = copy_of(&prev);
            temp.push(entry[0]);
            proof {
                lemma_with_word_valid(dictionary@, temp@);
            }
            dictionary.add(temp);
        }
        prev = entry;
        proof {
            seen = seen.push(code);
        }
    }
}

/// Once the decoder has failed on the first codes, it fails on all of them.
pub proof fn lemma_decode_fails(first: Seq<u64>, codes: Seq<u64>)
    requires
        first.is_prefix_of(codes),
        decode_run(first) is None,
    ensures
        decode_run(codes) is None,
    decreases codes.len(),
{
    if first.len() < codes.len() {
        assert(first.is_prefix_of(codes.drop_last())) by {
            assert(first =~= codes.drop_last().subrange(0, first.len() as int));
        }
        lemma_decode_fails(first, codes.drop_last());
    } else {
        assert(first =~= codes);
    }
}

} // verus!
