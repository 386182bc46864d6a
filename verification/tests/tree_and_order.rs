use objstore::{
    classify_mode, names_in_order, sort_entries, Digest, Hasher, StoreError, Tree, TreeCodec,
    TreeEntry, TreeEntryType, BLOB_MODE, TREE_MODE,
};

fn entry(mode: u64, name: &[u8], seed: &[u8]) -> TreeEntry {
    TreeEntry { mode, name: name.to_vec(), hash: Hasher::digest(seed) }
}

fn names(entries: &Vec<TreeEntry>) -> Vec<Vec<u8>> {
    entries.iter().map(|e| e.name.clone()).collect()
}

#[test]
fn mode_classification() {
    assert_eq!(TREE_MODE, 40000);
    assert_ne!(BLOB_MODE, TREE_MODE);
    assert_eq!(classify_mode(TREE_MODE), TreeEntryType::Tree);
    assert_eq!(classify_mode(BLOB_MODE), TreeEntryType::Blob);
    for mode in [0u64, 1, 39999, 40001, 100644, 100755, 120000, 400000, u64::MAX] {
        assert_eq!(classify_mode(mode), TreeEntryType::Blob);
    }
    assert_eq!(entry(40000, b"d", b"").entry_type(), TreeEntryType::Tree);
    assert_eq!(entry(100644, b"f", b"").entry_type(), TreeEntryType::Blob);
}

#[test]
fn decoded_entries_are_classified_by_mode() {
    let entries = vec![entry(TREE_MODE, b"dir", b"1"), entry(BLOB_MODE, b"file", b"2")];
    let tree = TreeCodec::decode(&TreeCodec::encode(&entries)).unwrap();
    assert_eq!(tree.entries[0].entry_type(), TreeEntryType::Tree);
    assert_eq!(tree.entries[1].entry_type(), TreeEntryType::Blob);
}

#[test]
fn tree_encoding_example() {
    let hash = Digest::from_hex("04fea06420ca60892f73becee3614f6d023a4b7f").unwrap();
    let entries = vec![TreeEntry { mode: 1040000, name: b"b.txt".to_vec(), hash }];
    let mut expected = b"tree 34\x001040000 b.txt\0".to_vec();
    expected.extend_from_slice(&hash.bytes);
    assert_eq!(TreeCodec::encode(&entries), expected);
    assert_eq!(
        Hasher::digest(&expected).to_hex(),
        "71e27bf86d0a2d485737067f7076fcf20f7e2321"
    );
}

#[test]
fn empty_tree_encoding() {
    let framed = TreeCodec::encode(&Vec::new());
    assert_eq!(framed, b"tree 0\0".to_vec());
    assert_eq!(Hasher::digest(&framed).to_hex(), "4b825dc642cb6eb9a060e54bf8d69288fbee4904");
    assert_eq!(TreeCodec::decode(&framed), Ok(Tree { entries: Vec::new() }));
}

#[test]
fn tree_round_trip() {
    let entries = vec![
        entry(BLOB_MODE, b"zeta", b"1"),
        entry(TREE_MODE, b"alpha", b"2"),
        entry(100644, b"with space", b"3"),
        entry(0, b"", b"4"),
        entry(u64::MAX, b"\xff\xfe", b"5"),
        entry(7, b"40000 x", b"6"),
    ];
    let tree = TreeCodec::decode(&TreeCodec::encode(&entries)).unwrap();
    assert_eq!(tree.entries.len(), entries.len());
    assert_eq!(tree.entries, entries);
}

#[test]
fn tree_encoding_keeps_the_given_order() {
    let forward = vec![entry(BLOB_MODE, b"a", b"1"), entry(BLOB_MODE, b"b", b"2")];
    let backward = vec![entry(BLOB_MODE, b"b", b"2"), entry(BLOB_MODE, b"a", b"1")];
    assert_ne!(TreeCodec::encode(&forward), TreeCodec::encode(&backward));
    assert_eq!(TreeCodec::decode(&TreeCodec::encode(&backward)).unwrap().entries, backward);
}

#[test]
fn tree_decode_rejects_other_kinds() {
    assert_eq!(TreeCodec::decode(b"blob 0\0"), Err(StoreError::CorruptData));
    assert_eq!(TreeCodec::decode(b"blob 5\0hello"), Err(StoreError::CorruptData));
    assert_eq!(TreeCodec::decode(b""), Err(StoreError::CorruptData));
}

fn framed_tree(payload: &[u8]) -> Vec<u8> {
    let mut out = format!("tree {}\0", payload.len()).into_bytes();
    out.extend_from_slice(payload);
    out
}

#[test]
fn tree_decode_rejects_truncated_entries() {
    let mut payload = b"40000 sub\0".to_vec();
    payload.extend_from_slice(&[9u8; 19]);
    assert_eq!(TreeCodec::decode(&framed_tree(&payload)), Err(StoreError::CorruptData));
    assert_eq!(TreeCodec::decode(&framed_tree(b"40000 sub\0")), Err(StoreError::CorruptData));
    assert_eq!(TreeCodec::decode(&framed_tree(b"40000 sub")), Err(StoreError::CorruptData));
    assert_eq!(TreeCodec::decode(&framed_tree(b"40000")), Err(StoreError::CorruptData));
}

#[test]
fn tree_decode_rejects_trailing_bytes() {
    let mut payload = b"40000 sub\0".to_vec();
    payload.extend_from_slice(&[9u8; 20]);
    assert!(TreeCodec::decode(&framed_tree(&payload)).is_ok());
    payload.push(b'4');
    assert_eq!(TreeCodec::decode(&framed_tree(&payload)), Err(StoreError::CorruptData));
}

#[test]
fn tree_decode_rejects_a_wrong_declared_length() {
    let mut payload = b"40000 sub\0".to_vec();
    payload.extend_from_slice(&[9u8; 20]);
    let mut short = b"tree 29\0".to_vec();
    short.extend_from_slice(&payload);
    assert_eq!(TreeCodec::decode(&short), Err(StoreError::CorruptData));
    let mut long = b"tree 31\0".to_vec();
    long.extend_from_slice(&payload);
    assert_eq!(TreeCodec::decode(&long), Err(StoreError::CorruptData));
}

#[test]
fn tree_decode_rejects_bad_modes() {
    for mode in ["", "4x", "+4", "-4", "18446744073709551616"] {
        let mut payload = format!("{} sub\0", mode).into_bytes();
        payload.extend_from_slice(&[9u8; 20]);
        assert_eq!(TreeCodec::decode(&framed_tree(&payload)), Err(StoreError::CorruptData));
    }
    let mut payload = b"040000 sub\0".to_vec();
    payload.extend_from_slice(&[9u8; 20]);
    let tree = TreeCodec::decode(&framed_tree(&payload)).unwrap();
    assert_eq!(tree.entries[0].mode, 40000);
    assert_eq!(tree.entries[0].name, b"sub".to_vec());
    assert_eq!(tree.entries[0].hash.bytes, [9u8; 20]);
}

#[test]
fn tree_decode_reads_digest_bytes_that_look_like_separators() {
    let entries = vec![
        TreeEntry { mode: 1, name: b"a".to_vec(), hash: Digest { bytes: [0u8; 20] } },
        TreeEntry { mode: 2, name: b"b".to_vec(), hash: Digest { bytes: [b' '; 20] } },
    ];
    assert_eq!(TreeCodec::decode(&TreeCodec::encode(&entries)).unwrap().entries, entries);
}

#[test]
fn name_validity() {
    assert!(entry(1, b"a.txt", b"").has_valid_name());
    assert!(entry(1, b"", b"").has_valid_name());
    assert!(entry(1, b"with space", b"").has_valid_name());
    assert!(!entry(1, b"a/b", b"").has_valid_name());
    assert!(!entry(1, b"a\0b", b"").has_valid_name());
    assert!(!entry(1, b"ab\0", b"").has_valid_name());
}

#[test]
fn a_null_byte_in_a_name_breaks_the_round_trip() {
    let entries = vec![entry(BLOB_MODE, b"a\0b", b"1")];
    let decoded = TreeCodec::decode(&TreeCodec::encode(&entries));
    assert_ne!(decoded, Ok(Tree { entries }));
}

#[test]
fn names_compare_bytewise() {
    assert!(names_in_order(b"", b""));
    assert!(names_in_order(b"", b"a"));
    assert!(!names_in_order(b"a", b""));
    assert!(names_in_order(b"a", b"a"));
    assert!(names_in_order(b"a", b"b"));
    assert!(!names_in_order(b"b", b"a"));
    assert!(names_in_order(b"a", b"ab"));
    assert!(!names_in_order(b"ab", b"a"));
    assert!(names_in_order(b"Z", b"a"));
    assert!(names_in_order(b"a.txt", b"sub"));
    assert!(names_in_order(b"a", b"\xff"));
    assert!(!names_in_order(b"\x80", b"\x7f"));
}

#[test]
fn sorting_orders_by_name() {
    let mut entries = vec![
        entry(BLOB_MODE, b"sub", b"1"),
        entry(BLOB_MODE, b"b", b"2"),
        entry(TREE_MODE, b"a.txt", b"3"),
        entry(BLOB_MODE, b"B", b"4"),
        entry(BLOB_MODE, b"", b"5"),
        entry(BLOB_MODE, b"ab", b"6"),
    ];
    sort_entries(&mut entries);
    let expected: Vec<Vec<u8>> = vec![
        b"".to_vec(),
        b"B".to_vec(),
        b"a.txt".to_vec(),
        b"ab".to_vec(),
        b"b".to_vec(),
        b"sub".to_vec(),
    ];
    assert_eq!(names(&entries), expected);
    assert_eq!(entries[2], entry(TREE_MODE, b"a.txt", b"3"));
}

#[test]
fn sorting_does_not_depend_on_input_order() {
    let base = vec![
        entry(BLOB_MODE, b"a", b"1"),
        entry(TREE_MODE, b"b", b"2"),
        entry(BLOB_MODE, b"c", b"3"),
    ];
    let orders = [[0, 1, 2], [0, 2, 1], [1, 0, 2], [1, 2, 0], [2, 0, 1], [2, 1, 0]];
    for order in orders {
        let mut entries: Vec<TreeEntry> = order.iter().map(|&i| base[i].clone()).collect();
        sort_entries(&mut entries);
        assert_eq!(entries, base);
    }
}

#[test]
fn sorting_keeps_equal_names_in_their_order() {
    let mut entries = vec![
        entry(2, b"x", b"second"),
        entry(1, b"a", b"first"),
        entry(3, b"x", b"third"),
        entry(4, b"a", b"fourth"),
    ];
    sort_entries(&mut entries);
    let modes: Vec<u64> = entries.iter().map(|e| e.mode).collect();
    assert_eq!(modes, vec![1, 4, 2, 3]);
}

#[test]
fn sorting_short_listings() {
    let mut none: Vec<TreeEntry> = Vec::new();
    sort_entries(&mut none);
    assert!(none.is_empty());
    let mut one = vec![entry(1, b"only", b"1")];
    sort_entries(&mut one);
    assert_eq!(one, vec![entry(1, b"only", b"1")]);
}
