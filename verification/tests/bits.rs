use lzw_with_universal_coder::bits::{byte_counts, Bits};

#[test]
fn bits_push_and_get() {
    let mut b = Bits::new();
    assert_eq!(b.len(), 0);
    assert_eq!(b.get(0), None);
    let pattern = [true, false, false, true, true, true, false, false, true, false];
    for bit in pattern {
        b.push(bit);
    }
    assert_eq!(b.len(), 10);
    for (i, bit) in pattern.iter().enumerate() {
        assert_eq!(b.get(i), Some(*bit));
    }
    assert_eq!(b.get(10), None);
    assert_eq!(b.get(usize::MAX), None);
    assert_eq!(b.as_bytes(), &vec![0b1001_1100u8, 0b1000_0000]);
}

#[test]
fn bits_most_significant_bit_first() {
    let mut b = Bits::new();
    b.push(true);
    assert_eq!(b.as_bytes(), &vec![128u8]);
    for _ in 0..6 {
        b.push(false);
    }
    b.push(true);
    assert_eq!(b.as_bytes(), &vec![129u8]);
    b.push(false);
    assert_eq!(b.as_bytes(), &vec![129u8, 0]);
}

#[test]
fn bits_from_bytes() {
    let b = Bits::from_bytes(vec![0b0100_0001, 0xff]);
    assert_eq!(b.len(), 16);
    assert_eq!(b.get(0), Some(false));
    assert_eq!(b.get(1), Some(true));
    assert_eq!(b.get(6), Some(false));
    assert_eq!(b.get(7), Some(true));
    assert_eq!(b.get(8), Some(true));
    assert_eq!(b.get(15), Some(true));
    assert_eq!(b.get(16), None);
    assert_eq!(b.as_bytes(), &vec![0b0100_0001u8, 0xff]);
    let empty = Bits::from_bytes(vec![]);
    assert_eq!(empty.len(), 0);
    assert_eq!(empty.get(0), None);
}

#[test]
fn bits_stored_and_loaded() {
    for count in 0..40usize {
        let mut b = Bits::new();
        for i in 0..count {
            b.push(i % 3 == 0 || i % 7 == 2);
        }
        let loaded = Bits::from_bytes(b.as_bytes().clone());
        assert_eq!(loaded.len(), (count + 7) / 8 * 8);
        for i in 0..count {
            assert_eq!(loaded.get(i), b.get(i));
        }
        for i in count..loaded.len() {
            assert_eq!(loaded.get(i), Some(false));
        }
    }
}

#[test]
fn bits_push_reversed() {
    let mut b = Bits::new();
    b.push(true);
    b.push_reversed(&vec![false, false, true]);
    assert_eq!(b.len(), 4);
    assert_eq!(b.as_bytes(), &vec![0b1100_0000u8]);
}

#[test]
fn byte_counts_of_a_buffer() {
    let counts = byte_counts(&vec![1, 2, 1, 255, 1, 0]);
    assert_eq!(counts.len(), 256);
    assert_eq!(counts[0], 1);
    assert_eq!(counts[1], 3);
    assert_eq!(counts[2], 1);
    assert_eq!(counts[3], 0);
    assert_eq!(counts[255], 1);
    assert_eq!(counts.iter().sum::<u64>(), 6);
    let none = byte_counts(&vec![]);
    assert_eq!(none, vec![0u64; 256]);
}

fn entropy_of(data: &Vec<u8>) -> f64 {
    let total = data.len() as f64;
    let mut sum = 0.0;
    for count in byte_counts(data) {
        if count > 0 {
            let p = count as f64 / total;
            sum -= p * p.log2();
        }
    }
    sum
}

#[test]
fn entropy_from_byte_counts() {
    assert_eq!(entropy_of(&vec![7u8; 1]), 0.0);
    assert_eq!(entropy_of(&vec![7u8; 1000]), 0.0);
    assert_eq!(entropy_of(&vec![0u8; 33]), 0.0);
    assert_eq!(entropy_of(&vec![1, 2]), 1.0);
    assert_eq!(entropy_of(&vec![9, 9, 200, 200, 9, 200]), 1.0);
    assert_eq!(entropy_of(&vec![0, 1, 2, 3]), 2.0);
    assert_eq!(entropy_of(&vec![]), 0.0);
}
