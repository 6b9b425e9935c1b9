use streamers::radix_tree::entry::KeyValue;
use streamers::radix_tree::key::{KeyMatchResult, KeyPrefix, KeyProbe};
use streamers::radix_tree::node::RadixNode;

#[test]
fn new_prefix() {
    let prefix = KeyPrefix::new(b"ABC");

    assert_eq!(prefix.len(), 3);
    assert_eq!(prefix.bytes(), b"ABC");
}

#[test]
fn split_prefix() {
    let prefix = KeyPrefix::new(b"ABCDEFG");
    assert_eq!(prefix.len(), 7);
    assert_eq!(prefix.bytes(), b"ABCDEFG");

    let (left, right) = prefix.split_at(3);
    assert_eq!(left.len(), 3);
    assert_eq!(left.bytes(), b"ABC");

    assert_eq!(right.len(), 4);
    assert_eq!(right.bytes(), b"DEFG");
}

#[test]
fn prefix_match_empty() {
    let prefix_a = KeyPrefix::new(b"");
    let probe_a = KeyProbe::new(b"ABC");

    let match_result = prefix_a.match_with(probe_a);
    assert_eq!(match_result, KeyMatchResult::Partial(KeyProbe::new(b"ABC")));
}

#[test]
fn prefix_match_partial() {
    let prefix_a = KeyPrefix::new(b"ABC");
    let probe_a = KeyProbe::new(b"ABCDEF");

    let match_result = prefix_a.match_with(probe_a);
    assert_eq!(match_result, KeyMatchResult::Partial(KeyProbe::new(b"DEF")));
}

#[test]
fn prefix_match_full() {
    let prefix_a = KeyPrefix::new(b"ABCDEF");
    let probe_a = KeyProbe::new(b"ABCDEF");

    let match_result = prefix_a.match_with(probe_a);
    assert_eq!(match_result, KeyMatchResult::Complete);
}

#[test]
fn prefix_match_longer_prefix() {
    let prefix_a = KeyPrefix::new(b"ABCDEFGHI");
    let probe_a = KeyProbe::new(b"ABCDEF");

    let match_result = prefix_a.match_with(probe_a);
    assert_eq!(match_result, KeyMatchResult::LongerPrefix(6));
}

#[test]
fn prefix_match_incomplete() {
    let prefix_a = KeyPrefix::new(b"ABZDEF");
    let probe_a = KeyProbe::new(b"ABCDEF");

    let match_result = prefix_a.match_with(probe_a);
    assert_eq!(
        match_result,
        KeyMatchResult::Incomplete(2, KeyProbe::new(b"CDEF"))
    );

    let prefix_b = KeyPrefix::new(b"ABCDEF");
    let probe_b = KeyProbe::new(b"GHIJKL");

    let match_result = prefix_b.match_with(probe_b);
    assert_eq!(
        match_result,
        KeyMatchResult::Incomplete(0, KeyProbe::new(b"GHIJKL"))
    );

    let prefix_c = KeyPrefix::new(b"ABCDEF");
    let probe_c = KeyProbe::new(b"ABZ");

    let match_result = prefix_c.match_with(probe_c);
    assert_eq!(
        match_result,
        KeyMatchResult::Incomplete(2, KeyProbe::new(b"Z"))
    );
}

#[test]
fn new_probe() {
    let probe = KeyProbe::new(b"ABC");
    assert_eq!(probe.len(), 3);
    assert_eq!(probe.bytes(), b"ABC");
}

#[test]
fn empty_probe() {
    let probe = KeyProbe::new(b"");

    assert!(probe.is_empty());
    assert_eq!(probe.len(), 0);
    assert_eq!(probe.bytes(), b"");
}

#[test]
fn probe_split() {
    let probe = KeyProbe::new(b"ABCDEFG");
    assert_eq!(probe.len(), 7);
    assert_eq!(probe.bytes(), b"ABCDEFG");

    let (left, right) = probe.split_at(3);
    assert_eq!(left.len(), 3);
    assert_eq!(left.bytes(), b"ABC");

    assert_eq!(right.len(), 4);
    assert_eq!(right.bytes(), b"DEFG");
}

#[test]
fn probe_split_extrema() {
    let probe_a = KeyProbe::new(b"ABCDEFG");
    let (left_a, right_a) = probe_a.split_at(0);
    assert!(left_a.is_empty());

    assert_eq!(right_a.len(), 7);
    assert_eq!(right_a.bytes(), b"ABCDEFG");

    let probe_b = KeyProbe::new(b"ABCDEFG");
    let (left_b, right_b) = probe_b.split_at(7);
    assert_eq!(left_b.len(), 7);
    assert_eq!(left_b.bytes(), b"ABCDEFG");

    assert!(right_b.is_empty());
}

#[test]
fn probe_pop() {
    let mut probe = KeyProbe::new(b"ABCDEFG");
    let mut reversed = Vec::new();
    while probe.len() > 0 {
        reversed.insert(0, probe.pop().unwrap() as char);
    }

    assert_eq!(reversed, ['G', 'F', 'E', 'D', 'C', 'B', 'A']);
}

#[test]
fn prefix_pop_takes_first_byte() {
    let mut prefix = KeyPrefix::new(b"XYZ");
    assert_eq!(prefix.pop(), Some(b'X'));
    assert_eq!(prefix.bytes(), b"YZ");
    assert_eq!(prefix.pop(), Some(b'Y'));
    assert_eq!(prefix.pop(), Some(b'Z'));
    assert_eq!(prefix.pop(), None);
    assert!(prefix.is_empty());
}

#[test]
fn prefix_from_probe_keeps_bytes() {
    let probe = KeyProbe::new(b"rest");
    let prefix = KeyPrefix::from_probe(probe);
    assert_eq!(prefix.bytes(), b"rest");
}

#[test]
fn entry_holds_key_and_value() {
    let mut entry = KeyValue::new(b"pair".to_vec(), 41);
    assert_eq!(entry.key().as_slice(), b"pair");
    assert_eq!(*entry.value(), 41);

    *entry.value_mut() += 1;
    assert_eq!(*entry.value(), 42);

    let prior = entry.swap_value(7);
    assert_eq!(prior, 42);
    assert_eq!(*entry.value(), 7);

    entry.key_mut().push(b's');
    assert_eq!(entry.key().as_slice(), b"pairs");

    let copy = KeyValue::new(entry.key().clone(), *entry.value());
    assert_eq!(copy.take_value(), 7);
    assert_eq!(entry.take_key(), b"pairs".to_vec());
}

#[test]
fn leaf_unwrap_round_trip() {
    let node = RadixNode::new_leaf(b"key".to_vec(), 5u32);
    let leaf = node.unwrap_leaf();
    assert_eq!(leaf.remaining_key().bytes(), b"key");
    assert_eq!(*leaf.entry().value(), 5);
}

#[test]
fn new_leaf() {
    let node = RadixNode::new_leaf(b"hello".to_vec(), 10);

    assert!(node.is_leaf());
    assert!(!node.is_interior());
    let leaf = node.get_leaf();
    assert_eq!(leaf.remaining_key().bytes(), b"hello");
    assert_eq!(leaf.entry().key().as_slice(), b"hello");
    assert_eq!(*leaf.entry().value(), 10);
}
