use lzw_with_universal_coder::dictionary::{Dictionary, WordsTree, MAX_SIZE};

#[test]
fn tree_test() {
    let mut tree = WordsTree::new();
    tree.add(&[0], 0);
    tree.add(&[1], 1);
    tree.add(&[0, 1], 2);
    assert_eq!(tree.get(&[0, 1]), Some(2))
}

#[test]
fn tree_holds_what_was_added() {
    let mut tree = WordsTree::new();
    assert_eq!(tree.get(&[]), None);
    assert_eq!(tree.get(&[7]), None);
    tree.add(&[7, 8, 9], 5);
    assert_eq!(tree.get(&[7, 8, 9]), Some(5));
    assert_eq!(tree.get(&[7, 8]), None);
    assert_eq!(tree.get(&[7]), None);
    assert_eq!(tree.get(&[7, 8, 9, 0]), None);
    assert_eq!(tree.get(&[]), None);
    tree.add(&[7, 8], 6);
    assert_eq!(tree.get(&[7, 8]), Some(6));
    assert_eq!(tree.get(&[7, 8, 9]), Some(5));
    tree.add(&[7, 8, 9], 10);
    assert_eq!(tree.get(&[7, 8, 9]), Some(10));
    tree.add(&[], 3);
    assert_eq!(tree.get(&[]), Some(3));
    assert_eq!(tree.get(&[7, 8]), Some(6));
}

#[test]
fn dictionary_is_seeded() {
    let d = Dictionary::new();
    assert_eq!(d.len(), 256);
    for k in 0..=255u8 {
        assert_eq!(d.word_position(&vec![k]), Some(k as usize));
        assert_eq!(d.resolve(k as usize), &vec![k]);
    }
    assert_eq!(d.word_position(&vec![0, 0]), None);
}

#[test]
fn dictionary_empty_sequence_has_no_index() {
    let d = Dictionary::new();
    assert_eq!(d.word_position(&vec![]), None);
}

#[test]
fn dictionary_add_is_idempotent() {
    let mut d = Dictionary::new();
    assert_eq!(d.add(vec![1, 2]), Some(256));
    assert_eq!(d.len(), 257);
    assert_eq!(d.add(vec![1, 2]), Some(256));
    assert_eq!(d.len(), 257);
    assert_eq!(d.word_position(&vec![1, 2]), Some(256));
    assert_eq!(d.resolve(256), &vec![1u8, 2]);
    assert_eq!(d[256], vec![1u8, 2]);
    assert_eq!(d[65][0], 65);
    assert_eq!(d.add(vec![65]), Some(65));
    assert_eq!(d.len(), 257);
    assert_eq!(d.add(vec![2, 1]), Some(257));
    assert_eq!(d.len(), 258);
}

#[test]
fn dictionary_add_without_the_shorter_sequence() {
    let mut d = Dictionary::new();
    assert_eq!(d.add(vec![1, 2, 3]), Some(256));
    assert_eq!(d.word_position(&vec![1, 2, 3]), Some(256));
    assert_eq!(d.word_position(&vec![1, 2]), None);
    assert_eq!(d.add(vec![1, 2]), Some(257));
    assert_eq!(d.word_position(&vec![1, 2, 3]), Some(256));
    assert_eq!(d.word_position(&vec![1]), Some(1));
}

#[test]
fn dictionary_full() {
    let mut d = Dictionary::new();
    let mut next = 256;
    'fill: for a in 0..=255u8 {
        for b in 0..=255u8 {
            for c in 0..=255u8 {
                if next == MAX_SIZE {
                    break 'fill;
                }
                assert_eq!(d.add(vec![a, b, c]), Some(next));
                next += 1;
            }
        }
    }
    assert_eq!(d.len(), MAX_SIZE);
    assert_eq!(d.add(vec![9, 9, 9, 9]), None);
    assert_eq!(d.len(), MAX_SIZE);
    assert_eq!(d.word_position(&vec![9, 9, 9, 9]), None);
    assert_eq!(d.add(vec![9, 9, 9, 9]), None);
    assert_eq!(d.add(vec![0, 0, 7]), Some(256 + 7));
    assert_eq!(d.add(vec![200]), Some(200));
    assert_eq!(d.len(), MAX_SIZE);
}

#[test]
fn vec_eq_compares_elements() {
    assert!(Dictionary::vec_eq(&vec![1u8, 2, 3], &vec![1u8, 2, 3]));
    assert!(!Dictionary::vec_eq(&vec![1u8, 2, 3], &vec![1u8, 2, 4]));
    assert!(!Dictionary::vec_eq(&vec![1u8, 2, 3], &vec![1u8, 2]));
    assert!(Dictionary::vec_eq(&Vec::<u32>::new(), &Vec::<u32>::new()));
    assert!(Dictionary::vec_eq(&vec!["a", "b"], &vec!["a", "b"]));
}
