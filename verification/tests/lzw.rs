use lzw_with_universal_coder::elias_delta::EliasDelta;
use lzw_with_universal_coder::elias_gamma::EliasGamma;
use lzw_with_universal_coder::elias_omega::EliasOmega;
use lzw_with_universal_coder::fibonacci::Fibonacci;
use lzw_with_universal_coder::lzw::{decode, encode, DecodeError};
use lzw_with_universal_coder::universal_coding::{Creatable, UniversalCode};

fn inputs() -> Vec<Vec<u8>> {
    let mut noise = Vec::new();
    let mut x: u32 = 12345;
    for _ in 0..20000 {
        x = x.wrapping_mul(1103515245).wrapping_add(12345);
        noise.push((x >> 16) as u8);
    }
    let mut few = Vec::new();
    for i in 0..15000u32 {
        few.push(if (i / 7) % 3 == 0 { b'x' } else { b'y' + (i % 2) as u8 });
    }
    vec![
        vec![],
        vec![0],
        vec![200],
        b"AB".to_vec(),
        b"ABABABA".to_vec(),
        b"ABABABABA".repeat(1200),
        vec![0u8; 10001],
        vec![255u8; 3],
        noise,
        few,
    ]
}

fn there_and_back<C: UniversalCode + Creatable>() {
    for data in inputs() {
        let mut codec: C = encode(&data);
        assert_eq!(codec.index(), 0);
        assert_eq!(decode(&mut codec), Ok(data));
        assert_eq!(codec.index(), codec.len());
    }
}

#[test]
fn lzw_gamma() {
    there_and_back::<EliasGamma>();
}

#[test]
fn lzw_delta() {
    there_and_back::<EliasDelta>();
}

#[test]
fn lzw_omega() {
    there_and_back::<EliasOmega>();
}

#[test]
fn lzw_fibonacci() {
    there_and_back::<Fibonacci>();
}

#[test]
fn lzw_codes_of_a_short_input() {
    let mut codec: EliasGamma = encode(b"ABABABA");
    assert_eq!(codec.get(), Some(65));
    assert_eq!(codec.get(), Some(66));
    assert_eq!(codec.get(), Some(256));
    assert_eq!(codec.get(), Some(258));
    assert_eq!(codec.get(), None);
}

#[test]
fn lzw_empty_input_has_no_code() {
    let mut codec: EliasOmega = encode(&[]);
    assert_eq!(codec.len(), 0);
    assert_eq!(codec.get(), None);
    let mut other: Fibonacci = encode(&[]);
    assert_eq!(decode(&mut other), Ok(vec![]));
}

#[test]
fn lzw_compresses_repetition() {
    let data = vec![0u8; 10001];
    let codec: EliasDelta = encode(&data);
    assert!(codec.len() / 8 < 400);
}

#[test]
fn lzw_decodes_a_code_that_was_just_added() {
    let mut codec = EliasDelta::new();
    codec.add(65);
    codec.add(256);
    codec.add(257);
    assert_eq!(decode(&mut codec), Ok(b"AAAAAA".to_vec()));
}

#[test]
fn lzw_invalid_code() {
    let mut first = EliasGamma::new();
    first.add(256);
    assert_eq!(decode(&mut first), Err(DecodeError::InvalidCode));
    let mut later = EliasGamma::new();
    later.add(65);
    later.add(66);
    later.add(258);
    assert_eq!(decode(&mut later), Err(DecodeError::InvalidCode));
    let mut huge = Fibonacci::new();
    huge.add(65);
    huge.add(u64::MAX - 1);
    assert_eq!(decode(&mut huge), Err(DecodeError::InvalidCode));
}

#[test]
fn lzw_through_stored_bytes() {
    for data in inputs() {
        let gamma: EliasGamma = encode(&data);
        let mut loaded = EliasGamma::from_bytes(gamma.as_bytes().clone());
        assert_eq!(decode(&mut loaded), Ok(data.clone()));
        let delta: EliasDelta = encode(&data);
        let mut loaded = EliasDelta::from_bytes(delta.as_bytes().clone());
        assert_eq!(decode(&mut loaded), Ok(data.clone()));
        let fib: Fibonacci = encode(&data);
        let mut loaded = Fibonacci::from_bytes(fib.as_bytes().clone());
        assert_eq!(decode(&mut loaded), Ok(data.clone()));
    }
}

#[test]
fn lzw_omega_reads_the_padding_of_stored_bytes() {
    let data = b"ABABABA".to_vec();
    let omega: EliasOmega = encode(&data);
    let padding = (8 - omega.len() % 8) % 8;
    let mut loaded = EliasOmega::from_bytes(omega.as_bytes().clone());
    let mut expected = data.clone();
    expected.extend(vec![0u8; padding]);
    assert_eq!(decode(&mut loaded), Ok(expected));
}

#[test]
fn lzw_decode_starts_at_the_cursor() {
    let mut codec = EliasGamma::new();
    codec.add(300);
    codec.add(72);
    codec.add(105);
    assert_eq!(codec.get(), Some(300));
    assert_eq!(decode(&mut codec), Ok(b"Hi".to_vec()));
}
