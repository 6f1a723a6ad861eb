use std::collections::BTreeSet;

use hbbft::broadcast::Broadcast;
use hbbft::messaging::{DistAlgorithm, SourcedMessage, Target, TargetedMessage};

#[test]
fn message_keeps_target_and_payload() {
    let m = Target::Node(3u8).message("x");
    assert_eq!(m.target, Target::Node(3u8));
    assert_eq!(m.message, "x");
    assert_eq!(
        Target::<u8>::All.message(7),
        TargetedMessage { target: Target::All, message: 7 }
    );
}

#[test]
fn map_changes_the_payload_alone() {
    let m = Target::Node(3u8).message(20u32).map(|x| x + 1);
    assert_eq!(m, TargetedMessage { target: Target::Node(3u8), message: 21u32 });
    let all = Target::<u8>::All.message("abc").map(|s| s.len());
    assert_eq!(all, TargetedMessage { target: Target::All, message: 3 });
}

#[test]
fn sourced_message_names_its_source() {
    let m = SourcedMessage { source: 4u8, message: "x" }.clone();
    assert_eq!(m.source, 4);
    assert_eq!(m.message, "x");
}

#[test]
fn message_iter_takes_messages_in_order() {
    let ids: BTreeSet<usize> = (0..4).collect();
    let mut first = Broadcast::new(0, 0, ids.clone()).expect("instance");
    let mut second = Broadcast::new(0, 0, ids).expect("instance");
    first.input(b"abc".to_vec()).expect("propose");
    second.input(b"abc".to_vec()).expect("propose");
    let mut count = 0;
    {
        let mut iter = first.message_iter();
        while let Some(m) = iter.next() {
            assert_eq!(Some(m), second.next_message());
            count += 1;
        }
        assert!(iter.next().is_none());
    }
    assert_eq!(count, 4);
    assert!(first.next_message().is_none());
    assert!(second.next_message().is_none());
}

#[test]
fn all_messages_are_collected() {
    let ids: BTreeSet<usize> = (0..4).collect();
    let mut first = Broadcast::new(0, 0, ids.clone()).expect("instance");
    let mut second = Broadcast::new(0, 0, ids).expect("instance");
    first.input(b"abc".to_vec()).expect("propose");
    second.input(b"abc".to_vec()).expect("propose");
    let mut expected = Vec::new();
    while let Some(m) = second.next_message() {
        expected.push(m);
    }
    assert_eq!(first.message_iter().collect(), expected);
    assert!(first.next_message().is_none());
    assert_eq!(*first.our_id(), 0);
    assert!(!first.terminated());
}
