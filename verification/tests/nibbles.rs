use trie_nibbles::Nibbles;
use trie_nibbles::TrieError;

#[test]
fn test_nibble() {
    let n = Nibbles::from_bytes(b"key1", true);
    let compact = n.encode_compact();
    let n2 = Nibbles::from_compact(compact).unwrap();
    let (raw, is_leaf) = n2.encode_raw();
    assert!(is_leaf);
    assert_eq!(raw, b"key1");
}

#[test]
fn test_concrete_example() {
    // b"key1" with the leaf flag expands to these nibbles, and its compact
    // form is the leaf/even flag byte followed by the packed original bytes.
    let n = Nibbles::from_bytes(b"key1", true);
    assert_eq!(n.get_data(), &[6, 11, 6, 5, 7, 9, 3, 1, 16]);
    let compact = n.encode_compact();
    assert_eq!(compact, vec![0x20, 0x6b, 0x65, 0x79, 0x31]);
    let decoded = Nibbles::from_compact(compact).unwrap();
    let (raw, is_leaf) = decoded.encode_raw();
    assert_eq!(raw, vec![0x6b, 0x65, 0x79, 0x31]);
    assert!(is_leaf);
}

#[test]
fn test_leaf_detection() {
    assert!(Nibbles::from_bytes(b"abc", true).is_leaf());
    assert!(!Nibbles::from_bytes(b"abc", false).is_leaf());
    assert!(Nibbles::from_bytes(b"", true).is_leaf());
}

#[test]
fn test_parity_even_extension() {
    let n = Nibbles::from_bytes(&[0xab, 0xcd], false);
    assert_eq!(n.get_data(), &[0xa, 0xb, 0xc, 0xd]);
    let compact = n.encode_compact();
    assert_eq!(compact, vec![0x00, 0xab, 0xcd]);
    let decoded = Nibbles::from_compact(compact.clone()).unwrap();
    assert_eq!(decoded, n);
    assert_eq!(decoded.encode_compact(), compact);
    let (raw, is_leaf) = decoded.encode_raw();
    assert_eq!(raw, vec![0xab, 0xcd]);
    assert!(!is_leaf);
}

#[test]
fn test_parity_even_leaf() {
    let n = Nibbles::from_bytes(&[0xab, 0xcd], true);
    let compact = n.encode_compact();
    assert_eq!(compact, vec![0x20, 0xab, 0xcd]);
    let decoded = Nibbles::from_compact(compact.clone()).unwrap();
    assert_eq!(decoded, n);
    assert_eq!(decoded.encode_compact(), compact);
    let (raw, is_leaf) = decoded.encode_raw();
    assert_eq!(raw, vec![0xab, 0xcd]);
    assert!(is_leaf);
}

#[test]
fn test_parity_odd_extension() {
    // An odd nibble count arises from slicing; the first nibble is folded
    // into the flag byte.
    let n = Nibbles::from_bytes(&[0xab, 0xcd], false).offset(1);
    assert_eq!(n.get_data(), &[0xb, 0xc, 0xd]);
    let compact = n.encode_compact();
    assert_eq!(compact, vec![0x1b, 0xcd]);
    let decoded = Nibbles::from_compact(compact.clone()).unwrap();
    assert_eq!(decoded, n);
    assert_eq!(decoded.encode_compact(), compact);
}

#[test]
fn test_parity_odd_leaf() {
    let decoded = Nibbles::from_compact(vec![0x3a, 0xbc]).unwrap();
    assert_eq!(decoded.get_data(), &[0xa, 0xb, 0xc, 16]);
    assert!(decoded.is_leaf());
    assert_eq!(decoded.encode_compact(), vec![0x3a, 0xbc]);
}

#[test]
fn test_empty_content_leaf() {
    let n = Nibbles::from_bytes(b"", true);
    assert_eq!(n.get_data(), &[16]);
    let compact = n.encode_compact();
    assert_eq!(compact, vec![0x20]);
    let decoded = Nibbles::from_compact(compact).unwrap();
    assert_eq!(decoded, n);
    let (raw, is_leaf) = decoded.encode_raw();
    assert_eq!(raw, Vec::<u8>::new());
    assert!(is_leaf);
}

#[test]
fn test_empty_content_extension_decodes() {
    let decoded = Nibbles::from_compact(vec![0x00]).unwrap();
    assert!(decoded.is_empty());
    assert_eq!(decoded.len(), 0);
}

#[test]
fn test_from_compact_invalid_data() {
    assert_eq!(Nibbles::from_compact(vec![]), Err(TrieError::InvalidData));
    assert_eq!(
        Nibbles::from_compact(vec![0x45, 0x12]),
        Err(TrieError::InvalidData)
    );
    assert_eq!(Nibbles::from_compact(vec![0xff]), Err(TrieError::InvalidData));
}

#[test]
fn test_common_prefix() {
    let a = Nibbles::from_bytes(&[0x12, 0x34], false);
    let b = Nibbles::from_bytes(&[0x12, 0x56], false);
    // they agree on [1, 2] and differ at position 2
    assert_eq!(a.common_prefix(&b), 2);
    assert_eq!(b.common_prefix(&a), 2);
    assert_eq!(a.get_data()[..2], b.get_data()[..2]);
    assert_ne!(a.get_data()[2], b.get_data()[2]);

    // a prefix of the other: the count is the shorter length
    let short = Nibbles::from_bytes(&[0x12], false);
    assert_eq!(a.common_prefix(&short), 2);
    assert_eq!(short.common_prefix(&a), 2);

    // nothing shared
    let c = Nibbles::from_bytes(&[0xff], false);
    assert_eq!(a.common_prefix(&c), 0);

    // identical sequences
    assert_eq!(a.common_prefix(&a), a.len());

    // against an empty sequence
    let empty = Nibbles::from_bytes(&[], false);
    assert_eq!(a.common_prefix(&empty), 0);
    assert_eq!(empty.common_prefix(&a), 0);
}

#[test]
fn test_join_extend_equivalence() {
    let a = Nibbles::from_bytes(&[0x12], false);
    let b = Nibbles::from_bytes(&[0x34, 0x56], false);
    let joined = a.join(&b);
    let mut extended = a.clone();
    extended.extend(&b);
    assert_eq!(joined, extended);
    assert_eq!(joined.get_data(), &[1, 2, 3, 4, 5, 6]);
    // join leaves its receiver untouched
    assert_eq!(a.get_data(), &[1, 2]);
}

#[test]
fn test_slice_offset_boundaries() {
    let a = Nibbles::from_bytes(&[0x12, 0x34], false);
    assert_eq!(a.slice(0, a.len()), a);
    assert_eq!(a.offset(0), a);
    for i in 0..=a.len() {
        assert!(a.slice(i, i).is_empty());
    }
    assert_eq!(a.slice(1, 3).get_data(), &[2, 3]);
    assert_eq!(a.offset(2).get_data(), &[3, 4]);
    assert!(a.offset(a.len()).is_empty());
}

#[test]
fn test_push_pop_truncate() {
    let mut n = Nibbles::from_bytes(&[0x12], false);
    n.push(0xf);
    assert_eq!(n.get_data(), &[1, 2, 0xf]);
    n.push(16);
    assert!(n.is_leaf());
    assert_eq!(n.pop(), Some(16));
    assert_eq!(n.pop(), Some(0xf));
    assert_eq!(n.get_data(), &[1, 2]);
    n.truncate(5);
    assert_eq!(n.get_data(), &[1, 2]);
    n.truncate(1);
    assert_eq!(n.get_data(), &[1]);
    assert_eq!(n.pop(), Some(1));
    assert_eq!(n.pop(), None);
    assert!(n.is_empty());
}

#[test]
fn test_accessors() {
    let n = Nibbles::from_bytes(&[0xab], true);
    assert_eq!(n.len(), 3);
    assert!(!n.is_empty());
    assert_eq!(n.hex_at(0), 0xa);
    assert_eq!(n.hex_at(1), 0xb);
    assert_eq!(n.hex_at(2), 16);
    assert_eq!(n.get_data(), &[0xa, 0xb, 16]);
}
