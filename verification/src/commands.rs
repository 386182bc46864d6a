use vstd::prelude::*;
use vstd::string::*;
use crate::blob::{Blob, BlobCodec, blob_decoding, blob_encoding, lemma_blob_round_trip};
use crate::builder::{Snapshot, TreeBuilder, listed_entries, null_free_names, tree_step};
use crate::order::{canonical_order, sorted_by_name};
use crate::error::StoreError;
use crate::hasher::{Digest, hex_string, lemma_hex_round_trip, parse_hex, sha1};
use crate::store::{ObjectStore, read_result, store_after_write};
use crate::tree::{EntryView, Tree, TreeCodec, tree_decoding};

verus! {

/// What a new repository consists of: the directories to create, and the
/// symbolic reference file with its contents.
#[derive(Debug, Clone, PartialEq, Eq)]
pub struct RepoLayout {
    pub objects_dir: String,
    pub refs_dir: String,
    pub head_path: String,
    pub head_content: String,
}

/// The layout of a new repository: the object directory, the reference
/// directory, and a head that points at the main branch.
pub fn init() -> (layout: RepoLayout)
    ensures
        layout.objects_dir@ == ".git/objects"@,
        layout.refs_dir@ == ".git/refs"@,
        layout.head_path@ == ".git/HEAD"@,
        layout.head_content@ == "ref: refs/heads/main\n"@,
{
    RepoLayout {
        objects_dir: ".git/objects".to_owned(),
        refs_dir: ".git/refs".to_owned(),
        head_path: ".git/HEAD".to_owned(),
        head_content: "ref: refs/heads/main\n".to_owned(),
    }
}

/// What showing a blob gives for a digest in hexadecimal form:
/// `InvalidArgument` where the text is not a digest, before the store is
/// looked at; else what reading gives; else the content of the blob, or
/// `CorruptData` where the object is not a blob.
pub open spec fn cat_file_result(store: Map<Seq<u8>, Seq<u8>>, text: Seq<char>) -> Result<
    Seq<u8>,
    StoreError,
> {
    match parse_hex(text) {
        Some(digest) => match read_result(store, digest) {
            Ok(bytes) => match blob_decoding(bytes) {
                Some(content) => Ok(content),
                None => Err(StoreError::CorruptData),
            },
            Err(e) => Err(e),
        },
        None => Err(StoreError::InvalidArgument),
    }
}

/// What listing a tree gives for a digest in hexadecimal form, in the same
/// way: the entries of the tree, in the order in which they are stored.
pub open spec fn ls_tree_result(store: Map<Seq<u8>, Seq<u8>>, text: Seq<char>) -> Result<
    Seq<EntryView>,
    StoreError,
> {
    match parse_hex(text) {
        Some(digest) => match read_result(store, digest) {
            Ok(bytes) => match tree_decoding(bytes) {
                Some(entries) => Ok(entries),
                None => Err(StoreError::CorruptData),
            },
            Err(e) => Err(e),
        },
        None => Err(StoreError::InvalidArgument),
    }
}

/// Reads the blob stored under the digest that `digest_hex` writes.
pub fn cat_file(store: &ObjectStore, digest_hex: &str) -> (r: Result<Blob, StoreError>)
    ensures
        match cat_file_result(store@, digest_hex@) {
            Ok(content) => r matches Ok(blob) && blob@ == content && blob.size == content.len(),
            Err(e) => r == Err::<Blob, StoreError>(e),
        },
{
    let digest = match Digest::from_hex(digest_hex) {
        Ok(digest) => digest,
        Err(e) => {
            return Err(e);
        },
    };
    match store.read(&digest) {
        Ok(bytes) => BlobCodec::decode(bytes.as_slice()),
        Err(e) => Err(e),
    }
}

/// Stores `content` as a blob and returns its digest.  Showing the digest
/// afterwards gives the content back.
pub fn hash_object(store: &mut ObjectStore, content: &[u8]) -> (digest: Digest)
    ensures
        digest@ == sha1(blob_encoding(content@)),
        final(store)@ == store_after_write(old(store)@, blob_encoding(content@)),
        cat_file_result(final(store)@, hex_string(digest@)) == Ok::<Seq<u8>, StoreError>(content@),
{
    let framed = BlobCodec::encode(content);
    let digest = store.write(framed.as_slice());
    proof {
        lemma_hex_round_trip(digest@);
        lemma_blob_round_trip(content@);
    }
    digest
}

/// Reads the tree stored under the digest that `digest_hex` writes.
pub fn ls_tree(store: &ObjectStore, digest_hex: &str) -> (r: Result<Tree, StoreError>)
    ensures
        match ls_tree_result(store@, digest_hex@) {
            Ok(entries) => r matches Ok(tree) && tree@ == entries,
            Err(e) => r == Err::<Tree, StoreError>(e),
        },
{
    let digest = match Digest::from_hex(digest_hex) {
        Ok(digest) => digest,
        Err(e) => {
            return Err(e);
        },
    };
    match store.read(&digest) {
        Ok(bytes) => TreeCodec::decode(bytes.as_slice()),
        Err(e) => Err(e),
    }
}

/// Stores a directory snapshot as a tree, with everything below it, and
/// returns the digest of the tree.  Listing that digest afterwards gives the
/// directory's lines sorted by name, unless a name holds a null byte.
pub fn write_tree(store: &mut ObjectStore, directory: &Vec<Snapshot>) -> (r: Result<
    Digest,
    StoreError,
>)
    ensures
        final(store)@ == tree_step(directory@, old(store)@).0,
        match tree_step(directory@, old(store)@).1 {
            Some(d) => r matches Ok(digest) && digest@ == d,
            None => r == Err::<Digest, StoreError>(StoreError::IOFailure),
        },
        r matches Ok(digest) ==> {
            let listing = canonical_order(listed_entries(directory@, old(store)@).unwrap());
            &&& sorted_by_name(listing)
            &&& null_free_names(listing) ==> ls_tree_result(final(store)@, hex_string(digest@)) == Ok::<
                Seq<EntryView>,
                StoreError,
            >(listing)
        },
{
    let r = TreeBuilder::build(store, directory);
    proof {
        if r is Ok {
            lemma_hex_round_trip(r.unwrap()@);
        }
    }
    r
}

} // verus!
