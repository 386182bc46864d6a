use objstore::{
    cat_file, compress, hash_object, init, is_metadata_name, ls_tree, object_path, write_tree,
    Blob, BlobCodec, Digest, Hasher, ObjectKind, ObjectStore, Snapshot, StoreError, TreeBuilder,
    TreeCodec, TreeEntry, BLOB_MODE, TREE_MODE,
};

const HELLO: &str = "b6fc4c620b67d95f953a5c1c1230aaab5db5a1b0";
const WORLD: &str = "04fea06420ca60892f73becee3614f6d023a4b7f";
const SUB_TREE: &str = "71e27bf86d0a2d485737067f7076fcf20f7e2321";
const ROOT_TREE: &str = "83dd18eefe24e45245dca84baaf974b823af9a4e";

fn file(name: &str, content: &[u8]) -> Snapshot {
    Snapshot::File { name: name.as_bytes().to_vec(), content: content.to_vec() }
}

fn dir(name: &str, children: Vec<Snapshot>) -> Snapshot {
    Snapshot::Directory { name: name.as_bytes().to_vec(), children }
}

fn scenario() -> Vec<Snapshot> {
    vec![dir("sub", vec![file("b.txt", b"world")]), file("a.txt", b"hello")]
}

#[test]
fn new_store_is_empty() {
    let store = ObjectStore::new();
    assert_eq!(store.len(), 0);
    assert!(store.digests().is_empty());
    assert!(!store.contains(&Hasher::digest(b"")));
}

#[test]
fn write_returns_the_digest_of_the_framed_bytes() {
    let mut store = ObjectStore::new();
    let framed = BlobCodec::encode(b"hello");
    let digest = store.write(&framed);
    assert_eq!(digest, Hasher::digest(&framed));
    assert_eq!(digest.to_hex(), HELLO);
    assert!(store.contains(&digest));
}

#[test]
fn write_keeps_the_compressed_framed_bytes() {
    let mut store = ObjectStore::new();
    let framed = BlobCodec::encode(b"hello");
    let digest = store.write(&framed);
    assert_eq!(store.stored(&digest), Some(&compress(&framed)));
    assert_ne!(store.stored(&digest), Some(&framed));
    assert_eq!(store.digests(), vec![digest]);
}

#[test]
fn digests_lists_every_object_once() {
    let mut store = ObjectStore::new();
    let mut written = vec![store.write(b"a"), store.write(b"b"), store.write(b"c")];
    store.write(b"a");
    store.put(written[1], b"replaced".to_vec());
    let mut listed = store.digests();
    assert_eq!(listed.len(), store.len());
    listed.sort_by_key(|d| d.bytes);
    written.sort_by_key(|d| d.bytes);
    assert_eq!(listed, written);
}


#[test]
fn read_gives_back_what_was_written() {
    let mut store = ObjectStore::new();
    let framed = b"any bytes at all, framed or not".to_vec();
    let digest = store.write(&framed);
    assert_eq!(store.read(&digest), Ok(framed));
}

#[test]
fn writing_twice_leaves_one_object() {
    let mut store = ObjectStore::new();
    let framed = BlobCodec::encode(b"hello");
    let first = store.write(&framed);
    let kept = store.stored(&first).cloned();
    let second = store.write(&framed);
    assert_eq!(first, second);
    assert_eq!(store.len(), 1);
    assert_eq!(store.stored(&first).cloned(), kept);
    assert_eq!(store.read(&first), Ok(framed));
}

#[test]
fn writing_twice_among_other_objects() {
    let mut store = ObjectStore::new();
    let a = store.write(b"a");
    let b = store.write(b"b");
    let c = store.write(b"c");
    assert_eq!(store.len(), 3);
    assert_eq!(store.write(b"b"), b);
    assert_eq!(store.len(), 3);
    assert_eq!(store.read(&a), Ok(b"a".to_vec()));
    assert_eq!(store.read(&b), Ok(b"b".to_vec()));
    assert_eq!(store.read(&c), Ok(b"c".to_vec()));
}

#[test]
fn reading_an_unknown_digest_is_not_found() {
    let mut store = ObjectStore::new();
    let unused = Digest::from_hex("0123456789abcdef0123456789abcdef01234567").unwrap();
    assert_eq!(store.read(&unused), Err(StoreError::NotFound));
    store.write(b"something else");
    assert_eq!(store.read(&unused), Err(StoreError::NotFound));
    assert_eq!(store.read_object(&unused), Err(StoreError::NotFound));
    assert_eq!(store.stored(&unused), None);
}

#[test]
fn a_truncated_object_is_corrupt() {
    let mut store = ObjectStore::new();
    let digest = store.write(&BlobCodec::encode(b"hello"));
    let mut data = store.stored(&digest).unwrap().clone();
    data.pop();
    let mut damaged = ObjectStore::new();
    damaged.put(digest, data);
    assert_eq!(damaged.read(&digest), Err(StoreError::CorruptData));
    assert_eq!(damaged.read_object(&digest), Err(StoreError::CorruptData));
    assert_eq!(cat_file(&damaged, &digest.to_hex()), Err(StoreError::CorruptData));
}

#[test]
fn put_replaces_what_was_kept() {
    let mut store = ObjectStore::new();
    let digest = store.write(b"good");
    store.put(digest, b"garbage".to_vec());
    assert_eq!(store.len(), 1);
    assert_eq!(store.stored(&digest), Some(&b"garbage".to_vec()));
    assert_eq!(store.read(&digest), Err(StoreError::CorruptData));
    assert_eq!(store.write(b"good"), digest);
    assert_eq!(store.len(), 1);
    assert_eq!(store.read(&digest), Ok(b"good".to_vec()));
}

#[test]
fn put_takes_objects_from_backing_storage() {
    let mut source = ObjectStore::new();
    let digest = source.write(&BlobCodec::encode(b"hello"));
    let mut store = ObjectStore::new();
    store.put(digest, source.stored(&digest).unwrap().clone());
    assert_eq!(cat_file(&store, HELLO).unwrap().content, b"hello".to_vec());
}

#[test]
fn object_path_splits_the_hex_form() {
    let digest = Digest::from_hex(HELLO).unwrap();
    let path = object_path(&digest);
    assert_eq!(path.dir, "b6");
    assert_eq!(path.file, "fc4c620b67d95f953a5c1c1230aaab5db5a1b0");
    assert_eq!(path.file.len(), 38);
    assert_eq!(format!("{}{}", path.dir, path.file), digest.to_hex());
}

#[test]
fn write_object_frames_the_payload() {
    let mut store = ObjectStore::new();
    let digest = store.write_object(ObjectKind::Blob, b"hello");
    assert_eq!(digest.to_hex(), HELLO);
    assert_eq!(store.read(&digest), Ok(b"blob 5\0hello".to_vec()));
    let object = store.read_object(&digest).unwrap();
    assert_eq!(object.kind, ObjectKind::Blob);
    assert_eq!(object.size, 5);
    assert_eq!(object.bytes, b"hello".to_vec());
}

#[test]
fn read_object_tells_the_kinds_apart() {
    let mut store = ObjectStore::new();
    let tree = store.write_object(ObjectKind::Tree, b"");
    assert_eq!(store.read_object(&tree).unwrap().kind, ObjectKind::Tree);
    assert_eq!(store.read_object(&tree).unwrap().size, 0);
    let unframed = store.write(b"no header here");
    assert_eq!(store.read_object(&unframed), Err(StoreError::CorruptData));
}

#[test]
fn init_layout() {
    let layout = init();
    assert_eq!(layout.objects_dir, ".git/objects");
    assert_eq!(layout.refs_dir, ".git/refs");
    assert_eq!(layout.head_path, ".git/HEAD");
    assert_eq!(layout.head_content, "ref: refs/heads/main\n");
}

#[test]
fn hash_object_then_cat_file() {
    let mut store = ObjectStore::new();
    let digest = hash_object(&mut store, b"hello");
    assert_eq!(digest.to_hex(), HELLO);
    assert_eq!(store.len(), 1);
    assert_eq!(cat_file(&store, HELLO), Ok(Blob { size: 5, content: b"hello".to_vec() }));
    assert_eq!(hash_object(&mut store, b"").to_hex(), "e69de29bb2d1d6434b8b29ae775ad8c2e48c5391");
    assert_eq!(hash_object(&mut store, b"world").to_hex(), WORLD);
}

#[test]
fn cat_file_rejects_malformed_digests_first() {
    let mut store = ObjectStore::new();
    hash_object(&mut store, b"hello");
    assert_eq!(cat_file(&store, "b6fc"), Err(StoreError::InvalidArgument));
    assert_eq!(cat_file(&store, &HELLO.to_uppercase()), Err(StoreError::InvalidArgument));
    assert_eq!(
        cat_file(&store, "zzfc4c620b67d95f953a5c1c1230aaab5db5a1b0"),
        Err(StoreError::InvalidArgument)
    );
    assert_eq!(ls_tree(&store, ""), Err(StoreError::InvalidArgument));
}

#[test]
fn cat_file_of_an_unknown_digest_is_not_found() {
    let mut store = ObjectStore::new();
    hash_object(&mut store, b"hello");
    assert_eq!(cat_file(&store, WORLD), Err(StoreError::NotFound));
    assert_eq!(ls_tree(&store, WORLD), Err(StoreError::NotFound));
}

#[test]
fn commands_check_the_kind() {
    let mut store = ObjectStore::new();
    let blob = hash_object(&mut store, b"hello");
    let tree = write_tree(&mut store, &Vec::new()).unwrap();
    assert_eq!(ls_tree(&store, &blob.to_hex()), Err(StoreError::CorruptData));
    assert_eq!(cat_file(&store, &tree.to_hex()), Err(StoreError::CorruptData));
    assert_eq!(ls_tree(&store, &tree.to_hex()).unwrap().entries, Vec::new());
}

#[test]
fn end_to_end_scenario() {
    let mut store = ObjectStore::new();
    let root = write_tree(&mut store, &scenario()).unwrap();
    let hello = Hasher::digest(b"blob 5\0hello");
    let world = Hasher::digest(b"blob 5\0world");
    assert_eq!(hello.to_hex(), HELLO);
    assert_eq!(world.to_hex(), WORLD);
    assert_eq!(cat_file(&store, HELLO).unwrap().content, b"hello".to_vec());
    assert_eq!(cat_file(&store, WORLD).unwrap().content, b"world".to_vec());

    let sub_entries = vec![TreeEntry { mode: BLOB_MODE, name: b"b.txt".to_vec(), hash: world }];
    let sub = Hasher::digest(&TreeCodec::encode(&sub_entries));
    assert_eq!(sub.to_hex(), SUB_TREE);
    assert_eq!(ls_tree(&store, SUB_TREE).unwrap().entries, sub_entries);

    let root_entries = vec![
        TreeEntry { mode: BLOB_MODE, name: b"a.txt".to_vec(), hash: hello },
        TreeEntry { mode: TREE_MODE, name: b"sub".to_vec(), hash: sub },
    ];
    assert_eq!(root, Hasher::digest(&TreeCodec::encode(&root_entries)));
    assert_eq!(root.to_hex(), ROOT_TREE);

    let listed = ls_tree(&store, &root.to_hex()).unwrap();
    let names: Vec<&[u8]> = listed.entries.iter().map(|e| &e.name[..]).collect();
    assert_eq!(names, vec![&b"a.txt"[..], &b"sub"[..]]);
    assert_eq!(listed.entries, root_entries);
    assert_eq!(store.len(), 4);
}

#[test]
fn tree_digest_does_not_depend_on_listing_order() {
    let mut first = ObjectStore::new();
    let mut second = ObjectStore::new();
    let reversed = vec![file("a.txt", b"hello"), dir("sub", vec![file("b.txt", b"world")])];
    assert_eq!(
        write_tree(&mut first, &scenario()),
        write_tree(&mut second, &reversed)
    );
}

#[test]
fn building_twice_adds_nothing() {
    let mut store = ObjectStore::new();
    let first = TreeBuilder::build(&mut store, &scenario());
    let count = store.len();
    assert_eq!(TreeBuilder::build(&mut store, &scenario()), first);
    assert_eq!(store.len(), count);
}

#[test]
fn metadata_directory_is_left_out() {
    assert!(is_metadata_name(b".git"));
    assert!(!is_metadata_name(b".gitignore"));
    assert!(!is_metadata_name(b"git"));
    assert!(!is_metadata_name(b""));
    let mut children = scenario();
    children.push(dir(".git", vec![file("HEAD", b"ref: refs/heads/main\n")]));
    children.push(dir("nested", vec![file(".git", b"x"), file("kept", b"y")]));
    let mut store = ObjectStore::new();
    let root = write_tree(&mut store, &children).unwrap();
    let listed = ls_tree(&store, &root.to_hex()).unwrap();
    let names: Vec<&[u8]> = listed.entries.iter().map(|e| &e.name[..]).collect();
    assert_eq!(names, vec![&b"a.txt"[..], &b"nested"[..], &b"sub"[..]]);
    let nested = ls_tree(&store, &listed.entries[1].hash.to_hex()).unwrap();
    assert_eq!(nested.entries.len(), 1);
    assert_eq!(nested.entries[0].name, b"kept".to_vec());
    assert!(!store.contains(&Hasher::digest(&BlobCodec::encode(b"ref: refs/heads/main\n"))));
}

#[test]
fn links_and_the_like_are_left_out() {
    let mut children = scenario();
    children.push(Snapshot::Other { name: b"link".to_vec() });
    let mut store = ObjectStore::new();
    assert_eq!(write_tree(&mut store, &children).unwrap().to_hex(), ROOT_TREE);
}

#[test]
fn an_unreadable_entry_fails_the_build() {
    let children = vec![
        file("a.txt", b"hello"),
        dir("sub", vec![file("b.txt", b"world"), Snapshot::Unreadable { name: b"c".to_vec() }]),
        file("z.txt", b"never reached"),
    ];
    let mut store = ObjectStore::new();
    assert_eq!(write_tree(&mut store, &children), Err(StoreError::IOFailure));
    assert_eq!(cat_file(&store, HELLO).unwrap().content, b"hello".to_vec());
    assert_eq!(cat_file(&store, WORLD).unwrap().content, b"world".to_vec());
    assert_eq!(store.len(), 2);
    assert!(!store.contains(&Hasher::digest(&BlobCodec::encode(b"never reached"))));
}

#[test]
fn an_unreadable_metadata_directory_is_no_failure() {
    let mut children = scenario();
    children.insert(0, Snapshot::Unreadable { name: b".git".to_vec() });
    let mut store = ObjectStore::new();
    assert_eq!(write_tree(&mut store, &children).unwrap().to_hex(), ROOT_TREE);
}

#[test]
fn subtrees_are_marked_by_the_tree_mode() {
    let mut store = ObjectStore::new();
    let root = write_tree(&mut store, &scenario()).unwrap();
    let listed = ls_tree(&store, &root.to_hex()).unwrap();
    assert_eq!(listed.entries[0].mode, BLOB_MODE);
    assert_eq!(listed.entries[1].mode, TREE_MODE);
}
