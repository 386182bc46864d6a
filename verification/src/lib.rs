//! A minimal content-addressable object store.
//!
//! File contents ("blobs") and directory listings ("trees") are framed with a
//! small textual header, hashed with SHA-1 to obtain their identity, and kept
//! zlib-compressed under that identity.  Every function of this crate is
//! verified with Verus against the contract written on it; the hash, the
//! compressor and the hexadecimal encoder come from outside crates and are
//! reached through a handful of wrappers whose contracts are taken on trust.

pub mod blob;
pub mod builder;
pub mod codec;
pub mod commands;
pub mod error;
pub mod framing;
pub mod hasher;
pub mod order;
pub mod store;
pub mod tree;

pub use blob::{Blob, BlobCodec};
pub use builder::{is_metadata_name, Snapshot, TreeBuilder};
pub use codec::{compress, decompress, COMPRESSION_LEVEL};
pub use commands::{cat_file, hash_object, init, ls_tree, write_tree, RepoLayout};
pub use error::StoreError;
pub use framing::{decode_framed, encode_framed, ObjectKind};
pub use hasher::{Digest, Hasher};
pub use order::{names_in_order, sort_entries};
pub use store::{object_path, ObjectData, ObjectPath, ObjectStore, StoredObject};
pub use tree::{classify_mode, Tree, TreeCodec, TreeEntry, TreeEntryType, BLOB_MODE, TREE_MODE};
