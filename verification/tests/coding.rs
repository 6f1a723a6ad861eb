use hbbft::broadcast::Error;
use hbbft::coding::Coding;
use reed_solomon_erasure as rse;

/// A code with two data shards and two parity shards.
fn two_and_two() -> Coding {
    Coding::new(2, 2).expect("codec")
}

fn encoded_four() -> Vec<Vec<u8>> {
    let mut shards = vec![vec![1, 2], vec![3, 4], vec![0, 0], vec![0, 0]];
    two_and_two().encode(&mut shards).expect("encode");
    shards
}

#[test]
fn coding_knows_its_numbers() {
    let coding = Coding::new(5, 4).expect("codec");
    assert_eq!(coding.data_shard_count(), 5);
    assert_eq!(coding.parity_shard_count(), 4);
    let trivial = Coding::new(3, 0).expect("codec");
    assert_eq!(trivial.data_shard_count(), 3);
    assert_eq!(trivial.parity_shard_count(), 0);
}

#[test]
fn coding_is_trivial_without_parity() {
    assert!(matches!(Coding::new(3, 0), Ok(Coding::Trivial(3))));
    assert!(matches!(Coding::new(300, 0), Ok(Coding::Trivial(300))));
    assert!(matches!(Coding::new(3, 2), Ok(Coding::ReedSolomon(_))));
}

#[test]
fn coding_needs_data_shards() {
    assert!(matches!(
        Coding::new(0, 2),
        Err(Error::ReedSolomon(rse::Error::TooFewDataShards))
    ));
}

#[test]
fn coding_takes_no_more_than_256_shards() {
    assert!(Coding::new(200, 56).is_ok());
    assert!(matches!(
        Coding::new(200, 57),
        Err(Error::ReedSolomon(rse::Error::TooManyShards))
    ));
}

#[test]
fn encode_overwrites_parity() {
    assert_eq!(
        encoded_four(),
        vec![vec![1, 2], vec![3, 4], vec![5, 14], vec![7, 8]]
    );
}

#[test]
fn encode_does_nothing_without_parity() {
    let coding = Coding::new(2, 0).expect("codec");
    let mut shards = vec![vec![1, 2], vec![], vec![3]];
    coding.encode(&mut shards).expect("encode");
    assert_eq!(shards, vec![vec![1, 2], vec![], vec![3]]);
}

#[test]
fn encode_rejects_what_does_not_fit() {
    let coding = two_and_two();
    let cases: Vec<(Vec<Vec<u8>>, rse::Error)> = vec![
        (vec![vec![1], vec![2], vec![3]], rse::Error::TooFewShards),
        (
            vec![vec![1], vec![2], vec![3], vec![4], vec![5]],
            rse::Error::TooManyShards,
        ),
        (
            vec![vec![], vec![], vec![], vec![]],
            rse::Error::EmptyShard,
        ),
        (
            vec![vec![1], vec![2, 3], vec![4], vec![5]],
            rse::Error::IncorrectShardSize,
        ),
    ];
    for (mut shards, expected) in cases {
        let before = shards.clone();
        match coding.encode(&mut shards) {
            Err(Error::ReedSolomon(err)) => assert_eq!(err, expected),
            other => panic!("{:?}", other),
        }
        assert_eq!(shards, before);
    }
}

#[test]
fn any_two_of_four_restore_the_others() {
    let whole = encoded_four();
    for i in 0..4 {
        for j in 0..i {
            let mut shards: Vec<Option<Vec<u8>>> = vec![None; 4];
            shards[i] = Some(whole[i].clone());
            shards[j] = Some(whole[j].clone());
            two_and_two().reconstruct_shards(&mut shards).expect("restore");
            let restored: Vec<Vec<u8>> = shards.into_iter().map(|s| s.unwrap()).collect();
            assert_eq!(restored, whole);
        }
    }
}

#[test]
fn one_data_shard_is_copied() {
    let coding = Coding::new(1, 2).expect("codec");
    let mut shards = vec![vec![7, 9], vec![0, 0], vec![0, 0]];
    coding.encode(&mut shards).expect("encode");
    assert_eq!(shards, vec![vec![7, 9]; 3]);
    let mut some = vec![None, None, Some(vec![7, 9])];
    coding.reconstruct_shards(&mut some).expect("restore");
    assert_eq!(some, vec![Some(vec![7, 9]); 3]);
}

#[test]
fn restore_rejects_what_does_not_fit() {
    let coding = two_and_two();
    let cases: Vec<(Vec<Option<Vec<u8>>>, rse::Error)> = vec![
        (vec![Some(vec![1]); 3], rse::Error::TooFewShards),
        (vec![Some(vec![1]); 5], rse::Error::TooManyShards),
        (vec![None; 4], rse::Error::TooFewShardsPresent),
        (
            vec![None, Some(vec![]), Some(vec![1]), None],
            rse::Error::EmptyShard,
        ),
        (
            vec![None, Some(vec![1, 2]), Some(vec![1]), None],
            rse::Error::IncorrectShardSize,
        ),
        (
            vec![None, None, Some(vec![1]), None],
            rse::Error::TooFewShardsPresent,
        ),
    ];
    for (mut shards, expected) in cases {
        let before = shards.clone();
        match coding.reconstruct_shards(&mut shards) {
            Err(Error::ReedSolomon(err)) => assert_eq!(err, expected),
            other => panic!("{:?}", other),
        }
        assert_eq!(shards, before);
    }
}

#[test]
fn restore_without_parity_needs_all() {
    let coding = Coding::new(2, 0).expect("codec");
    let mut whole = vec![Some(vec![1]), Some(vec![2])];
    assert!(coding.reconstruct_shards(&mut whole).is_ok());
    assert_eq!(whole, vec![Some(vec![1]), Some(vec![2])]);
    let mut partial = vec![Some(vec![1]), None];
    assert!(matches!(
        coding.reconstruct_shards(&mut partial),
        Err(Error::ReedSolomon(rse::Error::TooFewShardsPresent))
    ));
}

#[test]
fn codec_errors_are_wrapped() {
    assert!(matches!(
        Error::from(rse::Error::EmptyShard),
        Error::ReedSolomon(rse::Error::EmptyShard)
    ));
    assert!(matches!(
        Error::ReedSolomon(rse::Error::TooManyShards).clone(),
        Error::ReedSolomon(rse::Error::TooManyShards)
    ));
    assert!(matches!(Error::UnknownSender.clone(), Error::UnknownSender));
}
