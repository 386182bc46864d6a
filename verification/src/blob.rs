use vstd::prelude::*;
use vstd::slice::slice_to_vec;
use crate::error::StoreError;
use crate::framing::{ObjectKind, decode_framed, encode_framed, framed, lemma_framed_round_trip, parse_framed};

verus! {

/// Raw file content with its byte count.
#[derive(Debug, Clone, PartialEq, Eq)]
pub struct Blob {
    pub size: usize,
    pub content: Vec<u8>,
}

impl View for Blob {
    type V = Seq<u8>;

    open spec fn view(&self) -> Seq<u8> {
        self.content@
    }
}

impl Blob {
    /// The byte count agrees with the content.
    pub open spec fn wf(&self) -> bool {
        self.size == self.content@.len()
    }

    /// A blob that holds `content`.
    pub fn new(content: Vec<u8>) -> (blob: Blob)
        ensures
            blob.wf(),
            blob@ == content@,
    {
        Blob { size: content.len(), content }
    }
}

/// The framed form of a blob: `blob`, a space, the decimal length of the
/// content, a null byte, the content.
pub open spec fn blob_encoding(content: Seq<u8>) -> Seq<u8> {
    framed(ObjectKind::Blob, content)
}

/// The content of a framed blob, or `None` where the bytes are not one.
pub open spec fn blob_decoding(bytes: Seq<u8>) -> Option<Seq<u8>> {
    match parse_framed(bytes) {
        Some((ObjectKind::Blob, content)) => Some(content),
        _ => None,
    }
}

/// Writes and reads framed blobs.
pub struct BlobCodec;

impl BlobCodec {
    /// Frames `content` as a blob.
    pub fn encode(content: &[u8]) -> (out: Vec<u8>)
        ensures
            out@ == blob_encoding(content@),
    {
        encode_framed(ObjectKind::Blob, content)
    }

    /// Reads a framed blob.  Fails with `CorruptData` where the kind is not
    /// `blob`, the header is malformed, or the declared size is not the
    /// number of bytes that follow the header.
    pub fn decode(bytes: &[u8]) -> (r: Result<Blob, StoreError>)
        ensures
            match blob_decoding(bytes@) {
                Some(content) => r matches Ok(blob) && blob@ == content && blob.size
                    == content.len(),
                None => r == Err::<Blob, StoreError>(StoreError::CorruptData),
            },
    {
        match decode_framed(bytes) {
            Ok((ObjectKind::Blob, payload)) => Ok(Blob::new(slice_to_vec(payload))),
            Ok((ObjectKind::Tree, _)) => Err(StoreError::CorruptData),
            Err(e) => Err(e),
        }
    }
}

/// Decoding an encoded blob gives the content back, byte for byte, and with
/// it the size.
pub proof fn lemma_blob_round_trip(content: Seq<u8>)
    ensures
        blob_decoding(blob_encoding(content)) == Some(content),
{
    lemma_framed_round_trip(ObjectKind::Blob, content);
}

} // verus!
