use streamers::radix_tree::RadixTree;

#[test]
fn create_tree() {
    let rax = RadixTree::<()>::new();

    assert!(rax.is_empty());
}

#[test]
fn insert_non_overlapping() {
    let mut rax = RadixTree::<()>::new();

    rax.insert(b"hello".to_vec(), ());
    rax.insert(b"goodbye".to_vec(), ());

    assert!(!rax.is_empty());
    assert_eq!(rax.len(), 2);
}

#[test]
fn insert_overlapping() {
    let mut rax = RadixTree::<()>::new();

    rax.insert(b"hello".to_vec(), ());
    rax.insert(b"hella".to_vec(), ());

    assert!(!rax.is_empty());
    assert_eq!(rax.len(), 2);
}

#[test]
fn insert_retrieve() {
    let mut rax = RadixTree::<usize>::new();

    rax.insert(b"hello".to_vec(), 1);

    assert!(!rax.is_empty());
    assert_eq!(rax.len(), 1);

    let value = rax.get(b"hello");

    assert!(value.is_some());
    assert_eq!(value.unwrap(), &1);
}

#[test]
fn retrieve_nonexistent() {
    let mut rax = RadixTree::<usize>::new();

    rax.insert(b"hello".to_vec(), 1);

    assert!(!rax.is_empty());
    assert_eq!(rax.len(), 1);

    let value = rax.get(b"goodbye");

    assert!(value.is_none());
}

#[test]
fn retrieve_overlapping() {
    let mut rax = RadixTree::<usize>::new();

    rax.insert(b"hello".to_vec(), 1);
    rax.insert(b"hel".to_vec(), 2);

    assert!(!rax.is_empty());
    assert_eq!(rax.len(), 2);

    let value = rax.get(b"hel");

    assert!(value.is_some());
    assert_eq!(value.unwrap(), &2);
}

#[test]
fn insert_retrieve_mutate() {
    let mut rax = RadixTree::<usize>::new();

    rax.insert(b"hello".to_vec(), 1);

    assert!(!rax.is_empty());
    assert_eq!(rax.len(), 1);

    {
        let value: Option<&mut usize> = rax.get_mut(b"hello");
        assert!(value.is_some());

        *value.unwrap() += 4;
    }

    let value = rax.get(b"hello");

    assert!(value.is_some());
    assert_eq!(value.unwrap(), &5);
}

#[test]
fn basic_insert_retrieve() {
    let mut rax: RadixTree<usize> = RadixTree::new();

    rax.insert(b"he".to_vec(), 10);
    rax.insert(b"ha".to_vec(), 11);
    rax.insert(b"hi".to_vec(), 12);
    rax.insert(b"hell".to_vec(), 20);
    rax.insert(b"hill".to_vec(), 21);
    rax.insert(b"hall".to_vec(), 22);
    rax.insert(b"hella".to_vec(), 30);
    rax.insert(b"hello".to_vec(), 31);

    assert_eq!(rax.get(b"he"), Some(&10));
    assert_eq!(rax.get(b"ha"), Some(&11));
    assert_eq!(rax.get(b"hi"), Some(&12));
    assert_eq!(rax.get(b"hell"), Some(&20));
    assert_eq!(rax.get(b"hill"), Some(&21));
    assert_eq!(rax.get(b"hall"), Some(&22));
    assert_eq!(rax.get(b"hella"), Some(&30));
    assert_eq!(rax.get(b"hello"), Some(&31));
}

#[test]
fn concrete_scenario_size() {
    let mut rax: RadixTree<usize> = RadixTree::new();

    rax.insert(b"he".to_vec(), 10);
    rax.insert(b"ha".to_vec(), 11);
    rax.insert(b"hi".to_vec(), 12);
    rax.insert(b"hell".to_vec(), 20);
    rax.insert(b"hill".to_vec(), 21);
    rax.insert(b"hall".to_vec(), 22);
    rax.insert(b"hella".to_vec(), 30);
    rax.insert(b"hello".to_vec(), 31);

    assert_eq!(rax.len(), 8);
}

#[test]
fn overwrite_returns_prior_value() {
    let mut rax = RadixTree::<usize>::new();

    assert_eq!(rax.insert(b"key".to_vec(), 1), None);
    assert_eq!(rax.len(), 1);
    assert_eq!(rax.insert(b"key".to_vec(), 2), Some(1));
    assert_eq!(rax.len(), 1);
    assert_eq!(rax.get(b"key"), Some(&2));
}

#[test]
fn prefix_independence() {
    let mut rax = RadixTree::<usize>::new();

    rax.insert(b"hello".to_vec(), 1);
    rax.insert(b"hell".to_vec(), 2);
    rax.insert(b"he".to_vec(), 3);
    rax.insert(b"h".to_vec(), 4);

    assert_eq!(rax.len(), 4);
    assert_eq!(rax.get(b"hello"), Some(&1));
    assert_eq!(rax.get(b"hell"), Some(&2));
    assert_eq!(rax.get(b"he"), Some(&3));
    assert_eq!(rax.get(b"h"), Some(&4));

    assert_eq!(rax.remove(b"hell"), Some(2));
    assert_eq!(rax.len(), 3);
    assert_eq!(rax.get(b"hello"), Some(&1));
    assert_eq!(rax.get(b"hell"), None);
    assert_eq!(rax.get(b"he"), Some(&3));
    assert_eq!(rax.get(b"h"), Some(&4));

    assert_eq!(rax.remove(b"h"), Some(4));
    assert_eq!(rax.len(), 2);
    assert_eq!(rax.get(b"hello"), Some(&1));
    assert_eq!(rax.get(b"he"), Some(&3));
}

#[test]
fn removing_any_nested_key_keeps_the_others() {
    let keys: [&[u8]; 4] = [b"hello", b"hell", b"he", b"h"];
    for removed in 0..keys.len() {
        let mut rax = RadixTree::<usize>::new();
        for (i, k) in keys.iter().enumerate() {
            rax.insert(k.to_vec(), i);
        }
        assert_eq!(rax.remove(keys[removed]), Some(removed));
        assert_eq!(rax.len(), 3);
        for (i, k) in keys.iter().enumerate() {
            if i == removed {
                assert_eq!(rax.get(k), None);
            } else {
                assert_eq!(rax.get(k), Some(&i));
            }
        }
    }
}

#[test]
fn miss_on_shared_prefix() {
    let mut rax = RadixTree::<usize>::new();

    rax.insert(b"hello".to_vec(), 1);

    assert_eq!(rax.get(b"hel"), None);
    assert_eq!(rax.get(b"helloo"), None);
    assert!(!rax.contains_key(b"hel"));
    assert!(!rax.contains_key(b"helloo"));
    assert!(rax.contains_key(b"hello"));
}

#[test]
fn divergence_past_shared_prefix() {
    let mut rax = RadixTree::<usize>::new();

    rax.insert(b"abcXY".to_vec(), 1);
    rax.insert(b"abcZW".to_vec(), 2);

    assert_eq!(rax.get(b"abcXY"), Some(&1));
    assert_eq!(rax.get(b"abcZW"), Some(&2));
    assert_eq!(rax.get(b"abc"), None);
    assert_eq!(rax.get(b"abcX"), None);
    assert_eq!(rax.len(), 2);
}

#[test]
fn remove_missing_key_keeps_size() {
    let mut rax = RadixTree::<usize>::new();

    rax.insert(b"alpha".to_vec(), 1);
    assert_eq!(rax.remove(b"beta"), None);
    assert_eq!(rax.remove(b"al"), None);
    assert_eq!(rax.len(), 1);
    assert_eq!(rax.get(b"alpha"), Some(&1));

    assert_eq!(rax.remove(b"alpha"), Some(1));
    assert_eq!(rax.len(), 0);
    assert!(rax.is_empty());
    assert_eq!(rax.remove(b"alpha"), None);
    assert_eq!(rax.len(), 0);
}

#[test]
fn empty_key_entry() {
    let mut rax = RadixTree::<usize>::new();

    rax.insert(b"".to_vec(), 7);
    rax.insert(b"a".to_vec(), 8);

    assert_eq!(rax.len(), 2);
    assert_eq!(rax.get(b""), Some(&7));
    assert_eq!(rax.get(b"a"), Some(&8));

    assert_eq!(rax.remove(b""), Some(7));
    assert_eq!(rax.len(), 1);
    assert_eq!(rax.get(b"a"), Some(&8));
}

#[test]
fn clear_resets_tree() {
    let mut rax = RadixTree::<usize>::new();

    rax.insert(b"one".to_vec(), 1);
    rax.insert(b"two".to_vec(), 2);
    assert_eq!(rax.len(), 2);

    rax.clear();
    assert!(rax.is_empty());
    assert_eq!(rax.len(), 0);
    assert_eq!(rax.get(b"one"), None);

    rax.insert(b"one".to_vec(), 3);
    assert_eq!(rax.get(b"one"), Some(&3));
    assert_eq!(rax.len(), 1);
}

#[test]
fn mutate_through_get_mut_on_branch() {
    let mut rax = RadixTree::<i64>::new();

    rax.insert(b"car".to_vec(), 100);
    rax.insert(b"cart".to_vec(), 200);
    rax.insert(b"care".to_vec(), 300);

    if let Some(v) = rax.get_mut(b"cart") {
        *v = -1;
    }
    assert_eq!(rax.get_mut(b"missing"), None);

    assert_eq!(rax.get(b"car"), Some(&100));
    assert_eq!(rax.get(b"cart"), Some(&-1));
    assert_eq!(rax.get(b"care"), Some(&300));
    assert_eq!(rax.len(), 3);
}

#[test]
fn round_trip_many_keys() {
    let words: Vec<&[u8]> = vec![
        b"a", b"ab", b"abc", b"b", b"ba", b"bab", b"z", b"zebra", b"zeal", b"zest",
        b"the", b"then", b"them", b"these", b"theirs",
    ];
    let mut rax = RadixTree::<usize>::new();
    for (i, w) in words.iter().enumerate() {
        rax.insert(w.to_vec(), i);
    }
    assert_eq!(rax.len(), words.len());
    for (i, w) in words.iter().enumerate() {
        assert_eq!(rax.get(w), Some(&i));
    }
    for (i, w) in words.iter().enumerate() {
        assert_eq!(rax.remove(w), Some(i));
        assert_eq!(rax.len(), words.len() - i - 1);
    }
}
