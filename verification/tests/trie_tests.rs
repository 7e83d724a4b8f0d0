use lzw::Trie;
use lzw::TrieWalker;

#[test]
fn contains_one_char_strings() {
    let trie = Trie::new();
    for byte in 0..=255 {
        let slice = &[byte][..];
        assert!(trie.contains(slice));
    }
}

#[test]
fn contains_strings() {
    let mut trie = Trie::new();
    trie.add(b"Hello");
    trie.add(b"World");
    assert!(trie.contains(b"Hello"));
    assert!(!trie.contains(b"HelloWorld"));
}

#[test]
fn contains_prefix() {
    let mut trie = Trie::new();
    trie.add(b"Hello, world");
    assert!(trie.contains(b"Hello"));
    assert!(!trie.contains(b"world"));
}

#[test]
fn case_sensitive() {
    let mut trie = Trie::new();
    trie.add(b"Hello");
    assert!(!trie.contains(b"hello"))
}

#[test]
fn fresh_trie_has_all_single_bytes() {
    let trie = Trie::new();
    assert_eq!(trie.len(), 257);
    assert_eq!(trie.get_by_index(0), Some(vec![]));
    for byte in 0..=255u8 {
        assert_eq!(trie.get_by_index(byte as usize + 1), Some(vec![byte]));
    }
    assert_eq!(trie.get_by_index(257), None);
}

#[test]
fn same_adds_give_equal_tries() {
    let mut first = Trie::new();
    let mut second = Trie::new();
    for word in [&b"mississippi"[..], b"missive", b"miss", b"sip"] {
        first.add(word);
        second.add(word);
    }
    assert_eq!(first, second);
    assert_eq!(first.len(), second.len());
    for index in 0..first.len() {
        assert_eq!(first.get_by_index(index), second.get_by_index(index));
    }
}

#[test]
fn add_assigns_consecutive_indices() {
    let mut trie = Trie::new();
    assert_eq!(trie.len(), 257);
    trie.add(b"ab");
    // "a" and "b" are pre-seeded; only "ab" is new
    assert_eq!(trie.len(), 258);
    assert_eq!(trie.get_by_index(257), Some(b"ab".to_vec()));
    trie.add(b"abc");
    assert_eq!(trie.len(), 259);
    assert_eq!(trie.get_by_index(258), Some(b"abc".to_vec()));
}

#[test]
fn walker_emits_on_first_unseen_extension() {
    let mut walker = TrieWalker::new();
    assert_eq!(walker.len(), 257);
    // 'a' matches the pre-seeded single byte: nothing emitted
    assert_eq!(walker.add_byte(b'a'), None);
    // "ab" is unseen: the code of "a" (97 + 1) comes out and the trie grows
    assert_eq!(walker.add_byte(b'b'), Some(b'a' as usize + 1));
    assert_eq!(walker.len(), 258);
    // the walker restarted at "b"
    assert_eq!(walker.get_last(), b'b' as usize + 1);
}
