use lzw_with_universal_coder::binary::number_size;
use lzw_with_universal_coder::elias_delta::EliasDelta;
use lzw_with_universal_coder::elias_gamma::EliasGamma;
use lzw_with_universal_coder::elias_omega::EliasOmega;
use lzw_with_universal_coder::fibonacci::Fibonacci;
use lzw_with_universal_coder::universal_coding::{Creatable, UniversalCode, UniversalCodeIter};

const VALUES: [u64; 14] = [
    0,
    1,
    2,
    6,
    7,
    14,
    15,
    31,
    (1 << 31) - 1,
    1 << 62,
    (1 << 63) - 1,
    1 << 63,
    (1 << 63) + 12345,
    u64::MAX - 1,
];

fn round_trip_each<C: UniversalCode + Creatable>() {
    for v in VALUES {
        let mut c = C::new();
        c.add(v);
        assert_eq!(c.index(), 0);
        assert_eq!(c.get(), Some(v));
        assert_eq!(c.index(), c.len());
        assert_eq!(c.get(), None);
    }
}

fn round_trip_all<C: UniversalCode + Creatable>() {
    let mut c = C::new();
    for v in VALUES {
        c.add(v);
    }
    for v in VALUES {
        assert_eq!(c.get(), Some(v));
    }
    assert_eq!(c.get(), None);
    assert_eq!(c.index(), c.len());
}

fn small_values<C: UniversalCode + Creatable>() {
    let mut c = C::new();
    for v in 0..3000u64 {
        c.add(v);
    }
    for v in 0..3000u64 {
        assert_eq!(c.get(), Some(v));
    }
    assert_eq!(c.get(), None);
}

fn sequential<C: UniversalCode + Creatable>() {
    let mut c = C::new();
    c.add(15);
    c.add(31);
    assert_eq!(c.get(), Some(15));
    assert_eq!(c.get(), Some(31));
    assert_eq!(c.get(), None);
}

#[test]
fn gamma_test() {
    let mut c = EliasGamma::new();
    c.add(7);
    assert_eq!(c.get(), Some(7));
    c.add(15);
    c.add(31);
    assert_eq!(c.get(), Some(15));
    assert_eq!(c.get(), Some(31));
    assert_eq!(c.get(), None);
    c.add(1323123213123);
    c.add(3312312345324423);
    assert_eq!(c.get(), Some(1323123213123));
    assert_eq!(c.get(), Some(3312312345324423));
}

#[test]
fn delta_test() {
    let mut c = EliasDelta::new();
    c.add(0);
    assert_eq!(c.get(), Some(0));
    c.add(15);
    c.add(31);
    assert_eq!(c.get(), Some(15));
    assert_eq!(c.get(), Some(31));
    assert_eq!(c.get(), None);
    c.add(1323123213123);
    c.add(3312312345324423);
    assert_eq!(c.get(), Some(1323123213123));
    assert_eq!(c.get(), Some(3312312345324423));
}

#[test]
fn omega_test() {
    let mut c = EliasOmega::new();
    c.add(14);
    assert_eq!(c.get(), Some(14));
    c.add(31);
    assert_eq!(c.get(), Some(31));
    assert_eq!(c.get(), None);
    c.add(1323123213123);
    c.add(3312312345324423);
    assert_eq!(c.get(), Some(1323123213123));
    assert_eq!(c.get(), Some(3312312345324423));
    c.add(0);
    assert_eq!(c.get(), Some(0));
}

#[test]
fn fib_test() {
    let mut c = Fibonacci::new();
    c.add(6);
    assert_eq!(c.get(), Some(6));
    c.add(15);
    c.add(31);
    assert_eq!(c.get(), Some(15));
    assert_eq!(c.get(), Some(31));
    assert_eq!(c.get(), None);
    c.add(1323123213123);
    c.add(3312312345324423);
    assert_eq!(c.get(), Some(1323123213123));
    assert_eq!(c.get(), Some(3312312345324423));
    c.add(0);
    assert_eq!(c.get(), Some(0));
}

#[test]
fn gamma_round_trip() {
    round_trip_each::<EliasGamma>();
    round_trip_all::<EliasGamma>();
    small_values::<EliasGamma>();
}

#[test]
fn delta_round_trip() {
    round_trip_each::<EliasDelta>();
    round_trip_all::<EliasDelta>();
    small_values::<EliasDelta>();
}

#[test]
fn omega_round_trip() {
    round_trip_each::<EliasOmega>();
    round_trip_all::<EliasOmega>();
    small_values::<EliasOmega>();
}

#[test]
fn fibonacci_round_trip() {
    round_trip_each::<Fibonacci>();
    round_trip_all::<Fibonacci>();
    small_values::<Fibonacci>();
}

#[test]
fn sequential_round_trip() {
    sequential::<EliasGamma>();
    sequential::<EliasDelta>();
    sequential::<EliasOmega>();
    sequential::<Fibonacci>();
}

#[test]
fn gamma_codewords() {
    let mut c = EliasGamma::new();
    c.add(0);
    assert_eq!(c.len(), 1);
    c.add(4);
    assert_eq!(c.len(), 6);
    assert_eq!(c.as_bytes(), &vec![0b1001_0100u8]);
    let mut big = EliasGamma::new();
    big.add(u64::MAX - 1);
    assert_eq!(big.len(), 127);
}

#[test]
fn delta_codewords() {
    let mut c = EliasDelta::new();
    c.add(0);
    assert_eq!(c.len(), 1);
    c.add(4);
    assert_eq!(c.len(), 6);
    assert_eq!(c.as_bytes(), &vec![0b1011_0100u8]);
    let mut big = EliasDelta::new();
    big.add(u64::MAX - 1);
    assert_eq!(big.len(), 76);
}

#[test]
fn omega_codewords() {
    let mut c = EliasOmega::new();
    c.add(0);
    assert_eq!(c.len(), 1);
    c.add(4);
    assert_eq!(c.len(), 7);
    assert_eq!(c.as_bytes(), &vec![0b0101_0100u8]);
    let mut big = EliasOmega::new();
    big.add(u64::MAX - 1);
    assert_eq!(big.len(), 76);
}

#[test]
fn fibonacci_codewords() {
    let mut c = Fibonacci::new();
    c.add(0);
    assert_eq!(c.len(), 2);
    c.add(4);
    assert_eq!(c.len(), 7);
    assert_eq!(c.as_bytes(), &vec![0b1100_0110u8]);
    let mut d = Fibonacci::new();
    d.add(3);
    assert_eq!(d.as_bytes(), &vec![0b1011_0000u8]);
    let mut big = Fibonacci::new();
    big.add(u64::MAX - 1);
    assert_eq!(big.get(), Some(u64::MAX - 1));
    assert!(big.len() <= 93);
}

#[test]
fn gamma_reads_bytes_and_stops_at_padding() {
    let mut c = EliasGamma::from_bytes(vec![0b0010_0000]);
    assert_eq!(c.len(), 8);
    assert_eq!(c.index(), 0);
    assert_eq!(c.get(), Some(3));
    assert_eq!(c.index(), 5);
    assert_eq!(c.get(), None);
    assert_eq!(c.index(), 8);
    assert_eq!(c.get(), None);
}

#[test]
fn gamma_stream_ending_inside_a_codeword() {
    let mut c = EliasGamma::from_bytes(vec![0b0000_0001]);
    assert_eq!(c.get(), None);
    assert_eq!(c.index(), 8);
}

#[test]
fn gamma_number_too_large() {
    let mut bytes = vec![0u8; 8];
    bytes.extend(vec![0xffu8; 9]);
    let mut c = EliasGamma::from_bytes(bytes);
    assert_eq!(c.get(), None);
    assert_eq!(c.index(), 136);
}

#[test]
fn delta_stream_ending_inside_a_codeword() {
    let mut c = EliasDelta::from_bytes(vec![0b0110_0000]);
    assert_eq!(c.get(), Some(3));
    assert_eq!(c.index(), 5);
    assert_eq!(c.get(), None);
    assert_eq!(c.index(), 8);
    let mut d = EliasDelta::from_bytes(vec![0b0001_0001]);
    assert_eq!(d.get(), None);
    assert_eq!(d.index(), 8);
}

#[test]
fn delta_length_too_large() {
    // The gamma codeword of 65 announces a number of 65 binary digits.
    let mut bytes = vec![0b0000_0010u8, 0b0000_1000];
    bytes.extend(vec![0xffu8; 9]);
    let mut c = EliasDelta::from_bytes(bytes);
    assert_eq!(c.get(), None);
    assert_eq!(c.index(), 88);
}

#[test]
fn omega_reads_padding_as_zeros() {
    let mut c = EliasOmega::from_bytes(vec![0]);
    for _ in 0..8 {
        assert_eq!(c.get(), Some(0));
    }
    assert_eq!(c.get(), None);
    assert_eq!(c.index(), 8);
}

#[test]
fn omega_stream_ending_inside_a_codeword() {
    let mut c = EliasOmega::from_bytes(vec![0b1010_1011]);
    assert_eq!(c.get(), Some(4));
    assert_eq!(c.index(), 6);
    assert_eq!(c.get(), None);
    assert_eq!(c.index(), 8);
}

#[test]
fn omega_number_too_large() {
    // The groups 11, 1111 and sixteen ones announce a number of 65536 binary digits.
    let mut bytes = vec![0b1111_1111u8, 0b1111_1111, 0b1111_1110];
    bytes.extend(vec![0u8; 20]);
    let mut c = EliasOmega::from_bytes(bytes);
    assert_eq!(c.get(), None);
    assert_eq!(c.index(), 23 * 8);
}

#[test]
fn fibonacci_reads_bytes_and_stops_at_padding() {
    let mut c = Fibonacci::from_bytes(vec![0b1100_0000]);
    assert_eq!(c.get(), Some(0));
    assert_eq!(c.index(), 2);
    assert_eq!(c.get(), None);
    assert_eq!(c.index(), 8);
}

#[test]
fn fibonacci_number_too_large() {
    // Ones at the places 1, 3, 5, ..., 93 and a closing one: more than u64::MAX.
    let mut c = Fibonacci::new();
    let mut bytes = vec![0b1010_1010u8; 11];
    bytes.push(0b1010_1100);
    bytes.push(0);
    let mut d = Fibonacci::from_bytes(bytes);
    assert_eq!(d.get(), None);
    assert_eq!(d.index(), 13 * 8);
    c.add(5);
    assert_eq!(c.get(), Some(5));
}

#[test]
fn fibonacci_long_run_of_zeros() {
    let mut bytes = vec![0u8; 40];
    bytes.push(0b0000_0011);
    let mut c = Fibonacci::from_bytes(bytes);
    assert_eq!(c.get(), None);
    assert_eq!(c.index(), 41 * 8);
}

#[test]
fn iterator_takes_values_in_order() {
    let mut c = EliasDelta::new();
    c.add(3);
    c.add(1000);
    let mut it = UniversalCodeIter { c };
    assert_eq!(it.next(), Some(3));
    assert_eq!(it.next(), Some(1000));
    assert_eq!(it.next(), None);
}

#[test]
fn number_size_values() {
    assert_eq!(number_size(0), 0);
    assert_eq!(number_size(1), 1);
    assert_eq!(number_size(2), 2);
    assert_eq!(number_size(3), 2);
    assert_eq!(number_size(255), 8);
    assert_eq!(number_size(256), 9);
    assert_eq!(number_size((1 << 63) - 1), 63);
    assert_eq!(number_size(1 << 63), 64);
    assert_eq!(number_size(u64::MAX), 64);
}
