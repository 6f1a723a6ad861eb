use hbbft::broadcast::Error;
use hbbft::shards::{cut_value, glue_shards, join_leaves, number_shards, open_leaves};
use hbbft::tree::same_bytes;

#[test]
fn value_is_framed_padded_and_cut() {
    assert_eq!(
        cut_value(vec![10, 20, 30], 2, 2),
        vec![vec![3, 10], vec![20, 30], vec![0, 0], vec![0, 0]]
    );
    assert_eq!(
        cut_value(vec![9, 8], 2, 1),
        vec![vec![2, 9], vec![8, 0], vec![0, 0]]
    );
    assert_eq!(cut_value(vec![], 3, 1), vec![vec![0], vec![0], vec![0], vec![0]]);
    assert_eq!(cut_value(vec![7], 1, 0), vec![vec![1, 7]]);
}

#[test]
fn last_byte_of_the_length_is_kept() {
    assert_eq!(cut_value(vec![1; 255], 1, 0)[0][0], 255);
    assert_eq!(cut_value(vec![1; 256], 1, 0)[0][0], 0);
    assert_eq!(cut_value(vec![1; 300], 1, 0)[0][0], 44);
}

#[test]
fn shards_are_numbered() {
    assert_eq!(
        number_shards(vec![vec![5, 6], vec![], vec![7]]),
        vec![vec![0, 5, 6], vec![1], vec![2, 7]]
    );
    let many = number_shards(vec![vec![]; 258]);
    assert_eq!(many[255], vec![255]);
    assert_eq!(many[256], vec![0]);
    assert_eq!(many[257], vec![1]);
}

#[test]
fn leaves_are_joined_without_their_numbers() {
    let leaves = vec![vec![0, 3, 10], vec![1, 20, 30], vec![2, 9, 9], vec![]];
    assert_eq!(join_leaves(&leaves, 2), vec![3, 10, 20, 30]);
    assert_eq!(join_leaves(&leaves, 4), vec![3, 10, 20, 30, 9, 9]);
    assert_eq!(join_leaves(&leaves, 9), vec![3, 10, 20, 30, 9, 9]);
    assert_eq!(join_leaves(&leaves, 0), Vec::<u8>::new());
}

#[test]
fn leaves_are_glued_up_to_the_length() {
    let leaves = vec![vec![0, 3, 10], vec![1, 20, 30], vec![2, 9, 9]];
    assert_eq!(glue_shards(&leaves, 2), vec![10, 20, 30]);
    assert_eq!(glue_shards(&vec![vec![0, 1, 10], vec![1, 20, 30]], 2), vec![10]);
    assert_eq!(glue_shards(&vec![vec![0, 0, 10]], 1), Vec::<u8>::new());
}

#[test]
fn cutting_and_gluing_gives_the_value_back() {
    for len in 0..256 {
        let value: Vec<u8> = (0..len).map(|i| (i * 7) as u8).collect();
        for data in 1..8 {
            let leaves = number_shards(cut_value(value.clone(), data, 2));
            assert_eq!(leaves.len(), data + 2);
            assert_eq!(glue_shards(&leaves, data), value);
        }
    }
}

#[test]
fn longer_values_come_back_whole() {
    for len in vec![256, 257, 300, 511, 512, 513, 1000] {
        let value: Vec<u8> = (0..len).map(|i| i as u8).collect();
        for data in vec![1, 2, 3, 50, 86, 255, 256] {
            let leaves = number_shards(cut_value(value.clone(), data, 2));
            assert_eq!(glue_shards(&leaves, data), value);
        }
    }
}

#[test]
fn leaves_are_opened_only_with_the_right_root() {
    let leaves = vec![vec![0, 1, 10], vec![1, 20, 30]];
    assert_eq!(open_leaves(&leaves, &[1, 2], &[1, 2], 2).expect("open"), vec![10]);
    assert!(matches!(
        open_leaves(&leaves, &[1, 2], &[1, 3], 2),
        Err(Error::RootHashMismatch)
    ));
}

#[test]
fn bytes_are_compared() {
    assert!(same_bytes(&[], &[]));
    assert!(same_bytes(&[1, 2], &[1, 2]));
    assert!(!same_bytes(&[1, 2], &[1, 3]));
    assert!(!same_bytes(&[1, 2], &[1]));
}

#[test]
fn padding_is_less_than_the_number_of_data_shards() {
    // One shard has no padding, so 300 bytes behind a length of one are no long value.
    let mut leaf = vec![0, 1];
    leaf.extend(vec![7; 300]);
    assert_eq!(glue_shards(&vec![leaf], 1), vec![7]);
    let mut leaf = vec![0, 1];
    leaf.extend(vec![7; 257]);
    assert_eq!(glue_shards(&vec![leaf], 1), vec![7; 257]);
    // Two shards can have one byte of padding, but not two.
    let mut leaf = vec![0, 1];
    leaf.extend(vec![7; 258]);
    assert_eq!(glue_shards(&vec![leaf.clone(), vec![1]], 2), vec![7; 257]);
    leaf.push(7);
    assert_eq!(glue_shards(&vec![leaf, vec![1]], 2), vec![7]);
}
