use marcharvgen::count_trie::{CountTrie, CountTrieError};

#[test]
fn test_insert() {
    // Create a test CountTrie
    let mut test_trie = CountTrie::new('^');
    // Insert some words into the trie
    test_trie.insert("cat$");
    test_trie.insert("car$");
    // Check that c is a child of the root, with count 2
    let c_node = test_trie.get_child('c').unwrap();
    assert_eq!(c_node.get_count(), 2);
    // Check that a is a child of this node with count 2
    let a_node = c_node.get_child('a').unwrap();
    assert_eq!(a_node.get_count(), 2);
    // Check that r and t are both children of this node, with counts 1
    let t_node = a_node.get_child('t').unwrap();
    assert_eq!(t_node.get_count(), 1);
    let r_node = a_node.get_child('r').unwrap();
    assert_eq!(r_node.get_count(), 1);
}

#[test]
fn test_counts() {
    // Create a test CountTrie
    let mut test_trie = CountTrie::new('^');
    // Insert some words into the trie
    test_trie.insert("cat$");
    test_trie.insert("car$");
    // Check next counts for ca
    let ncounts = test_trie.get_next_counts("ca").unwrap();
    assert_eq!(ncounts.get(&'t').unwrap().clone(), 1u32);
    assert_eq!(ncounts.get(&'r').unwrap().clone(), 1u32);
}

#[test]
fn new_trie_is_empty() {
    let trie = CountTrie::new('^');
    assert_eq!(trie.get_count(), 0);
    assert!(trie.get_child('a').is_none());
    assert_eq!(trie.get_child_counts().len(), 0);
    assert_eq!(trie.get_next_counts("").unwrap().len(), 0);
}

#[test]
fn insert_empty_sequence_counts_only_the_node() {
    let mut trie = CountTrie::new('^');
    trie.insert("");
    trie.insert("");
    assert_eq!(trie.get_count(), 2);
    assert_eq!(trie.get_child_counts().len(), 0);
}

#[test]
fn root_count_is_number_of_inserts() {
    let mut trie = CountTrie::new('^');
    let words = ["ab", "abc", "", "b", "ab", "xyz"];
    for word in words.iter() {
        trie.insert(word);
    }
    assert_eq!(trie.get_count(), 6);
    // every node on a path counts the inserts that passed through it
    let a = trie.get_child('a').unwrap();
    assert_eq!(a.get_count(), 3);
    let ab = a.get_child('b').unwrap();
    assert_eq!(ab.get_count(), 3);
    let abc = ab.get_child('c').unwrap();
    assert_eq!(abc.get_count(), 1);
    assert_eq!(trie.get_child('b').unwrap().get_count(), 1);
    assert_eq!(trie.get_child('x').unwrap().get_count(), 1);
    assert!(trie.get_child('y').is_none());
}

#[test]
fn children_counts_stay_within_the_count_of_the_node() {
    let mut trie = CountTrie::new('^');
    trie.insert("a");
    trie.insert("ab");
    trie.insert("ac");
    trie.insert("");
    // the root: four inserts, three of them went on to `a`
    let at_root: u32 = trie.get_child_counts().iter().map(|(_, v)| *v).sum();
    assert_eq!(at_root, 3);
    assert_eq!(trie.get_count(), 4);
    // `a`: three inserts, one of them ended there
    let a = trie.get_child('a').unwrap();
    let at_a: u32 = a.get_child_counts().iter().map(|(_, v)| *v).sum();
    assert_eq!(at_a, 2);
    assert_eq!(a.get_count(), 3);
    // `ab`: every insert through it ended there
    let ab = a.get_child('b').unwrap();
    assert_eq!(ab.get_count(), 1);
    assert_eq!(ab.get_child_counts().len(), 0);
}

#[test]
fn child_counts_keep_the_order_of_first_appearance() {
    let mut trie = CountTrie::new('^');
    trie.insert("zebra");
    trie.insert("apple");
    trie.insert("mango");
    trie.insert("zoo");
    trie.insert("apple");
    let counts = trie.get_child_counts();
    let listed: Vec<(char, u32)> = counts.iter().map(|(k, v)| (*k, *v)).collect();
    assert_eq!(listed, vec![('z', 2), ('a', 2), ('m', 1)]);
    let below_z = trie.get_next_counts("z").unwrap();
    let listed: Vec<(char, u32)> = below_z.iter().map(|(k, v)| (*k, *v)).collect();
    assert_eq!(listed, vec![('e', 1), ('o', 1)]);
}

#[test]
fn next_counts_after_cat_and_car_in_insertion_order() {
    let mut trie = CountTrie::new('^');
    trie.insert("cat$");
    trie.insert("car$");
    let counts = trie.get_next_counts("ca").unwrap();
    let listed: Vec<(char, u32)> = counts.iter().map(|(k, v)| (*k, *v)).collect();
    assert_eq!(listed, vec![('t', 1), ('r', 1)]);
    let counts = trie.get_next_counts("").unwrap();
    let listed: Vec<(char, u32)> = counts.iter().map(|(k, v)| (*k, *v)).collect();
    assert_eq!(listed, vec![('c', 2)]);
    let counts = trie.get_next_counts("cat").unwrap();
    let listed: Vec<(char, u32)> = counts.iter().map(|(k, v)| (*k, *v)).collect();
    assert_eq!(listed, vec![('$', 1)]);
    // the leaf is found, and nothing follows it
    assert_eq!(trie.get_next_counts("cat$").unwrap().len(), 0);
}

#[test]
fn prefix_too_long_carries_the_unread_rest() {
    let mut trie = CountTrie::new('^');
    trie.insert("cat$");
    match trie.get_next_counts("cat$xy") {
        Err(CountTrieError::PrefixTooLong(rest)) => assert_eq!(rest, "xy"),
        other => panic!("unexpected result: {:?}", other),
    }
    let empty = CountTrie::new('^');
    match empty.get_next_counts("a") {
        Err(CountTrieError::PrefixTooLong(rest)) => assert_eq!(rest, "a"),
        other => panic!("unexpected result: {:?}", other),
    }
}

#[test]
fn no_next_child_carries_the_unread_rest() {
    let mut trie = CountTrie::new('^');
    trie.insert("cat$");
    trie.insert("car$");
    match trie.get_next_counts("cab") {
        Err(CountTrieError::NoNextChild(rest)) => assert_eq!(rest, "b"),
        other => panic!("unexpected result: {:?}", other),
    }
    match trie.get_next_counts("zq") {
        Err(CountTrieError::NoNextChild(rest)) => assert_eq!(rest, "zq"),
        other => panic!("unexpected result: {:?}", other),
    }
}

#[test]
fn characters_are_not_bytes() {
    let mut trie = CountTrie::new('^');
    trie.insert("één");
    trie.insert("éé");
    let first = trie.get_child('é').unwrap();
    assert_eq!(first.get_count(), 2);
    let second = first.get_child('é').unwrap();
    assert_eq!(second.get_count(), 2);
    assert_eq!(second.get_child('n').unwrap().get_count(), 1);
    match trie.get_next_counts("éöü") {
        Err(CountTrieError::NoNextChild(rest)) => assert_eq!(rest, "öü"),
        other => panic!("unexpected result: {:?}", other),
    }
}

#[test]
fn two_insertions_commute_on_counts() {
    let mut one = CountTrie::new('^');
    one.insert("abc");
    one.insert("abd");
    let mut other = CountTrie::new('^');
    other.insert("abd");
    other.insert("abc");
    assert_eq!(one.get_count(), other.get_count());
    for path in ["a", "ab"].iter() {
        let mut left = &one;
        let mut right = &other;
        for c in path.chars() {
            left = left.get_child(c).unwrap();
            right = right.get_child(c).unwrap();
        }
        assert_eq!(left.get_count(), right.get_count());
        assert_eq!(left.get_count(), 2);
    }
    let ab_one = one.get_child('a').unwrap().get_child('b').unwrap();
    let ab_other = other.get_child('a').unwrap().get_child('b').unwrap();
    assert_eq!(ab_one.get_child('c').unwrap().get_count(), 1);
    assert_eq!(ab_other.get_child('c').unwrap().get_count(), 1);
    assert_eq!(ab_one.get_child('d').unwrap().get_count(), 1);
    assert_eq!(ab_other.get_child('d').unwrap().get_count(), 1);
}

#[test]
fn clone_copies_the_whole_trie() {
    let mut trie = CountTrie::new('^');
    trie.insert("cat$");
    trie.insert("car$");
    let copy = trie.clone();
    trie.insert("cow$");
    assert_eq!(copy.get_count(), 2);
    assert_eq!(trie.get_count(), 3);
    let listed: Vec<(char, u32)> =
        copy.get_next_counts("c").unwrap().iter().map(|(k, v)| (*k, *v)).collect();
    assert_eq!(listed, vec![('a', 2)]);
    let listed: Vec<(char, u32)> =
        trie.get_next_counts("c").unwrap().iter().map(|(k, v)| (*k, *v)).collect();
    assert_eq!(listed, vec![('a', 2), ('o', 1)]);
    assert_eq!(format!("{:?}", CountTrie::new('x')), format!("{:?}", CountTrie::new('x').clone()));
}
