use zipchord::trie::{key_len, GetOrDescendentExistsResult, Trie};

#[test]
fn empty_trie_reports_not_present() {
    let t = Trie::new();
    assert!(matches!(
        t.get_or_descendant_exists(&vec![]),
        GetOrDescendentExistsResult::NotInTrie
    ));
    assert!(matches!(
        t.get_or_descendant_exists(&vec![1]),
        GetOrDescendentExistsResult::NotInTrie
    ));
    assert!(matches!(
        t.get_or_descendant_exists(&vec![7, 9, 300]),
        GetOrDescendentExistsResult::NotInTrie
    ));
    assert!(!t.ancestor_exists(&vec![5]));
    assert!(!t.descendant_exists(&vec![5]));
    assert!(t.is_empty());
}

#[test]
fn ancestor_query_finds_stored_prefixes() {
    let mut t = Trie::new();
    t.insert(vec![1, 2], 10);
    t.insert(vec![1, 2, 3], 11);
    t.insert(vec![9], 12);
    // some stored key is a prefix of (or equal to) the query
    assert!(t.ancestor_exists(&vec![1, 2]));
    assert!(t.ancestor_exists(&vec![1, 2, 500]));
    assert!(t.ancestor_exists(&vec![9, 9, 9]));
    assert!(!t.ancestor_exists(&vec![1]));
    assert!(!t.ancestor_exists(&vec![2]));
    assert!(!t.ancestor_exists(&vec![8]));
}

#[test]
fn descendant_query_finds_stored_extensions() {
    let mut t = Trie::new();
    t.insert(vec![1, 2], 10);
    t.insert(vec![1, 2, 3], 11);
    t.insert(vec![9], 12);
    // the query is a prefix of some stored key
    assert!(t.descendant_exists(&vec![]));
    assert!(t.descendant_exists(&vec![1]));
    assert!(t.descendant_exists(&vec![1, 2]));
    assert!(t.descendant_exists(&vec![1, 2, 3]));
    assert!(t.descendant_exists(&vec![9]));
    assert!(!t.descendant_exists(&vec![2]));
    assert!(!t.descendant_exists(&vec![1, 3]));
    assert!(!t.descendant_exists(&vec![9, 1]));
}

#[test]
fn combined_query_distinguishes_the_three_cases() {
    let mut t = Trie::new();
    t.insert(vec![1, 2], 10);
    t.insert(vec![1, 2, 3], 11);
    t.insert(vec![9], 12);
    assert!(matches!(
        t.get_or_descendant_exists(&vec![1]),
        GetOrDescendentExistsResult::InTrie
    ));
    assert!(matches!(
        t.get_or_descendant_exists(&vec![1, 2]),
        GetOrDescendentExistsResult::HasValue(10)
    ));
    assert!(matches!(
        t.get_or_descendant_exists(&vec![1, 2, 3]),
        GetOrDescendentExistsResult::HasValue(11)
    ));
    assert!(matches!(
        t.get_or_descendant_exists(&vec![9]),
        GetOrDescendentExistsResult::HasValue(12)
    ));
    assert!(matches!(
        t.get_or_descendant_exists(&vec![4]),
        GetOrDescendentExistsResult::NotInTrie
    ));
    assert!(matches!(
        t.get_or_descendant_exists(&vec![1, 3]),
        GetOrDescendentExistsResult::NotInTrie
    ));
}

#[test]
fn replacing_a_value_under_the_same_key() {
    let mut t = Trie::new();
    t.insert(vec![4, 4], 1);
    t.insert(vec![4, 4], 2);
    assert!(matches!(
        t.get_or_descendant_exists(&vec![4, 4]),
        GetOrDescendentExistsResult::HasValue(2)
    ));
}

#[test]
fn multiple_descendants_means_a_longer_completion_remains() {
    let mut t = Trie::new();
    t.insert(vec![1, 2], 10);
    t.insert(vec![1, 2, 3], 11);
    t.insert(vec![9], 12);
    assert!(t.multiple_descendants_exist(&vec![1]));
    assert!(t.multiple_descendants_exist(&vec![1, 2]));
    assert!(!t.multiple_descendants_exist(&vec![1, 2, 3]));
    assert!(!t.multiple_descendants_exist(&vec![9]));
    assert!(!t.multiple_descendants_exist(&vec![5]));
}

#[test]
fn code_granularity_is_kept_under_byte_packing() {
    let mut t = Trie::new();
    // 258 packs into the two bytes (2, 1) on little-endian machines; the
    // one-code key 2 must still not count as its prefix.
    t.insert(vec![258], 1);
    assert!(!t.descendant_exists(&vec![2]));
    assert!(!t.ancestor_exists(&vec![2]));
    assert!(matches!(
        t.get_or_descendant_exists(&vec![2]),
        GetOrDescendentExistsResult::NotInTrie
    ));
    assert!(t.descendant_exists(&vec![258]));
}

#[test]
fn key_len_is_twice_the_code_count() {
    assert_eq!(key_len(&vec![]), 0);
    assert_eq!(key_len(&vec![1, 2, 3]), 6);
}
