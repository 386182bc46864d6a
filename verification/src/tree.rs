use vstd::prelude::*;
use vstd::slice::{slice_subrange, slice_to_vec};
use crate::error::StoreError;
use crate::framing::{
    NUL, ObjectKind, SPACE, append_bytes, append_decimal, decimal, decode_framed, encode_framed,
    find, find_byte, framed, is_digit, lemma_decimal_digits, lemma_find_byte_at,
    lemma_framed_round_trip, lemma_parse_decimal_round_trip, parse_decimal, parse_framed,
    read_decimal,
};
use crate::hasher::Digest;

verus! {

/// The mode that marks an entry as a subtree.
pub const TREE_MODE: u64 = 40000;

/// The mode given to regular files.
pub const BLOB_MODE: u64 = 1040000;

/// What a tree entry refers to.
#[derive(Debug, Clone, Copy, PartialEq, Eq, Structural)]
pub enum TreeEntryType {
    /// A regular file.
    Blob,
    /// A subdirectory.
    Tree,
}

/// The kind of entry that a mode stands for: the subtree mode is a tree,
/// every other mode a blob.
pub open spec fn mode_type(mode: u64) -> TreeEntryType {
    if mode == TREE_MODE {
        TreeEntryType::Tree
    } else {
        TreeEntryType::Blob
    }
}

/// Classifies a mode.
pub fn classify_mode(mode: u64) -> (t: TreeEntryType)
    ensures
        t == mode_type(mode),
        mode == TREE_MODE ==> t == TreeEntryType::Tree,
        mode != TREE_MODE ==> t == TreeEntryType::Blob,
{
    if mode == TREE_MODE {
        TreeEntryType::Tree
    } else {
        TreeEntryType::Blob
    }
}

/// One line of a directory listing: a mode, a name and the digest of the
/// object that the name refers to.  The name is a path component, kept as
/// the bytes that the framing stores.
#[derive(Debug, Clone, PartialEq, Eq)]
pub struct TreeEntry {
    pub mode: u64,
    pub name: Vec<u8>,
    pub hash: Digest,
}

/// A tree entry as plain values.
pub struct EntryView {
    pub mode: u64,
    pub name: Seq<u8>,
    pub hash: Seq<u8>,
}

impl View for TreeEntry {
    type V = EntryView;

    open spec fn view(&self) -> EntryView {
        EntryView { mode: self.mode, name: self.name@, hash: self.hash@ }
    }
}

/// The byte that separates the components of a path.
pub const SEPARATOR: u8 = 47;

/// Whether a name holds no null byte.  The framing ends a name at the first
/// null byte, so only such a name is read back whole.
pub open spec fn null_free(name: Seq<u8>) -> bool {
    forall|i: int| 0 <= i < name.len() ==> #[trigger] name[i] != NUL
}

/// Whether a name is a path component: it holds neither a null byte nor a
/// path separator.
pub open spec fn valid_name(name: Seq<u8>) -> bool {
    forall|i: int| 0 <= i < name.len() ==> #[trigger] name[i] != NUL && name[i] != SEPARATOR
}

/// Whether an entry is read back as it was written: its name holds no null
/// byte and its digest has twenty bytes.
pub open spec fn framable(e: EntryView) -> bool {
    null_free(e.name) && e.hash.len() == 20
}

/// Whether every entry of a sequence is read back as it was written.
pub open spec fn all_framable(es: Seq<EntryView>) -> bool {
    forall|i: int| 0 <= i < es.len() ==> framable(#[trigger] es[i])
}

/// The entries of a vector as plain values.
pub open spec fn entry_views(entries: Seq<TreeEntry>) -> Seq<EntryView> {
    Seq::new(entries.len(), |i: int| entries[i]@)
}

impl TreeEntry {
    /// Whether the entry is a subtree or a blob, by its mode.
    pub fn entry_type(&self) -> (t: TreeEntryType)
        ensures
            t == mode_type(self.mode),
    {
        classify_mode(self.mode)
    }

    /// Whether the name holds neither a null byte nor a path separator.
    pub fn has_valid_name(&self) -> (ok: bool)
        ensures
            ok == valid_name(self.name@),
    {
        let mut i: usize = 0;
        while i < self.name.len()
            invariant
                i <= self.name.len(),
                valid_name(self.name@.take(i as int)),
            decreases self.name.len() - i,
        {
            if self.name[i] == NUL || self.name[i] == SEPARATOR {
                return false;
            }
            assert forall|j: int| 0 <= j < i + 1 implies #[trigger] self.name@.take(i + 1)[j]
                != NUL && self.name@.take(i + 1)[j] != SEPARATOR by {
                if j < i {
                    assert(self.name@.take(i as int)[j] == self.name@[j]);
                }
            }
            i += 1;
        }
        assert(self.name@.take(i as int) =~= self.name@);
        true
    }
}

/// A directory listing: entries in order.
#[derive(Debug, Clone, PartialEq, Eq)]
pub struct Tree {
    pub entries: Vec<TreeEntry>,
}

impl View for Tree {
    type V = Seq<EntryView>;

    open spec fn view(&self) -> Seq<EntryView> {
        entry_views(self.entries@)
    }
}

/// The bytes of one entry: decimal mode, space, name, null byte, the twenty
/// raw bytes of the digest.
pub open spec fn entry_encoding(e: EntryView) -> Seq<u8> {
    decimal(e.mode as nat) + seq![SPACE] + e.name + seq![NUL] + e.hash
}

/// The payload of a tree: its entries' bytes, in the entries' order.
pub open spec fn entries_encoding(es: Seq<EntryView>) -> Seq<u8>
    decreases es.len(),
{
    if es.len() == 0 {
        Seq::empty()
    } else {
        entry_encoding(es.first()) + entries_encoding(es.drop_first())
    }
}

/// The framed form of a tree.
pub open spec fn tree_encoding(es: Seq<EntryView>) -> Seq<u8> {
    framed(ObjectKind::Tree, entries_encoding(es))
}

/// Reads the payload of a tree, entry by entry, until it is used up: a
/// decimal mode up to a space, a name up to a null byte, twenty bytes of
/// digest.  `None` where an entry is malformed or cut short.
pub open spec fn parse_entries(payload: Seq<u8>) -> Option<Seq<EntryView>>
    decreases payload.len(),
{
    if payload.len() == 0 {
        Some(Seq::empty())
    } else {
        let space = find_byte(payload, SPACE, 0);
        let nul = find_byte(payload, NUL, space + 1);
        if 0 <= space < nul && nul + 20 < payload.len() {
            match parse_decimal(payload.take(space)) {
                Some(mode) => if mode <= u64::MAX {
                    let entry = EntryView {
                        mode: mode as u64,
                        name: payload.subrange(space + 1, nul),
                        hash: payload.subrange(nul + 1, nul + 21),
                    };
                    match parse_entries(payload.skip(nul + 21)) {
                        Some(rest) => Some(seq![entry] + rest),
                        None => None,
                    }
                } else {
                    None
                },
                None => None,
            }
        } else {
            None
        }
    }
}

/// The entries of a framed tree, or `None` where the bytes are not one.
pub open spec fn tree_decoding(bytes: Seq<u8>) -> Option<Seq<EntryView>> {
    match parse_framed(bytes) {
        Some((ObjectKind::Tree, payload)) => parse_entries(payload),
        _ => None,
    }
}

/// The payload of a sequence with one more entry is the payload of the
/// sequence followed by the bytes of that entry.
pub proof fn lemma_entries_encoding_push(es: Seq<EntryView>, e: EntryView)
    ensures
        entries_encoding(es.push(e)) == entries_encoding(es) + entry_encoding(e),
    decreases es.len(),
{
    if es.len() == 0 {
        assert(es.push(e).drop_first() =~= Seq::<EntryView>::empty());
        assert(entries_encoding(es.push(e).drop_first()) =~= Seq::<u8>::empty());
        assert(entries_encoding(es) =~= Seq::<u8>::empty());
        assert(entries_encoding(es.push(e)) =~= entries_encoding(es) + entry_encoding(e));
    } else {
        lemma_entries_encoding_push(es.drop_first(), e);
        assert(es.push(e).drop_first() =~= es.drop_first().push(e));
        assert(es.push(e).first() == es.first());
        assert(entries_encoding(es.push(e)) == entry_encoding(es.first()) + entries_encoding(
            es.drop_first().push(e),
        ));
        assert(entries_encoding(es.push(e)) =~= entries_encoding(es) + entry_encoding(e));
    }
}

/// Reading the bytes of one entry followed by `rest` finds the entry and
/// leaves `rest`.
pub proof fn lemma_parse_first_entry(e: EntryView, rest: Seq<u8>)
    requires
        framable(e),
    ensures
        parse_entries(entry_encoding(e) + rest) == match parse_entries(rest) {
            Some(es) => Some(seq![e] + es),
            None => None,
        },
{
    let digits = decimal(e.mode as nat);
    let payload = entry_encoding(e) + rest;
    let space = digits.len() as int;
    let nul = space + 1 + e.name.len();
    lemma_decimal_digits(e.mode as nat);
    lemma_parse_decimal_round_trip(e.mode as nat);
    assert forall|j: int| 0 <= j < space implies payload[j] != SPACE by {
        assert(payload[j] == digits[j]);
        assert(is_digit(digits[j]));
    }
    assert(payload[space] == SPACE);
    lemma_find_byte_at(payload, SPACE, 0, space);
    assert forall|j: int| space + 1 <= j < nul implies payload[j] != NUL by {
        assert(payload[j] == e.name[j - space - 1]);
    }
    assert(payload[nul] == NUL);
    lemma_find_byte_at(payload, NUL, space + 1, nul);
    assert(payload.take(space) =~= digits);
    assert(payload.subrange(space + 1, nul) =~= e.name);
    assert(payload.subrange(nul + 1, nul + 21) =~= e.hash);
    assert(payload.skip(nul + 21) =~= rest);
}

/// Reading the payload written for entries gives the entries back, with
/// the same modes, names and digests, in the same order.
pub proof fn lemma_entries_round_trip(es: Seq<EntryView>)
    requires
        all_framable(es),
    ensures
        parse_entries(entries_encoding(es)) == Some(es),
    decreases es.len(),
{
    if es.len() == 0 {
        assert(es =~= Seq::<EntryView>::empty());
    } else {
        lemma_entries_round_trip(es.drop_first());
        lemma_parse_first_entry(es.first(), entries_encoding(es.drop_first()));
        assert(seq![es.first()] + es.drop_first() =~= es);
    }
}

/// Decoding an encoded tree gives back the same number of entries with the
/// same modes, names and digests, in the same order, whether or not names
/// repeat.  Names with a null byte are left out: the framing cuts them short.
pub proof fn lemma_tree_round_trip(es: Seq<EntryView>)
    requires
        all_framable(es),
    ensures
        tree_decoding(tree_encoding(es)) == Some(es),
{
    lemma_framed_round_trip(ObjectKind::Tree, entries_encoding(es));
    lemma_entries_round_trip(es);
}

/// Writes and reads framed trees.
pub struct TreeCodec;

impl TreeCodec {
    /// Frames `entries` as a tree, in the order given.
    pub fn encode(entries: &Vec<TreeEntry>) -> (out: Vec<u8>)
        ensures
            out@ == tree_encoding(entry_views(entries@)),
    {
        let ghost views = entry_views(entries@);
        let mut payload: Vec<u8> = Vec::new();
        let mut i: usize = 0;
        while i < entries.len()
            invariant
                i <= entries.len(),
                views == entry_views(entries@),
                payload@ == entries_encoding(views.take(i as int)),
            decreases entries.len() - i,
        {
            let entry = &entries[i];
            append_decimal(&mut payload, entry.mode);
            payload.push(SPACE);
            append_bytes(&mut payload, entry.name.as_slice());
            payload.push(NUL);
            append_bytes(&mut payload, entry.hash.as_bytes().as_slice());
            proof {
                lemma_entries_encoding_push(views.take(i as int), views[i as int]);
                assert(views.take(i + 1) =~= views.take(i as int).push(views[i as int]));
                assert(payload@ =~= entries_encoding(views.take(i as int)) + entry_encoding(
                    views[i as int],
                ));
            }
            i += 1;
        }
        assert(views.take(i as int) =~= views);
        encode_framed(ObjectKind::Tree, payload.as_slice())
    }

    /// Reads a framed tree.  Fails with `CorruptData` where the kind is not
    /// `tree`, the header is malformed, the declared length is not that of
    /// the payload, or the entries do not use the payload up exactly.
    pub fn decode(bytes: &[u8]) -> (r: Result<Tree, StoreError>)
        ensures
            match tree_decoding(bytes@) {
                Some(es) => r matches Ok(tree) && tree@ == es,
                None => r == Err::<Tree, StoreError>(StoreError::CorruptData),
            },
    {
        let payload = match decode_framed(bytes) {
            Ok((ObjectKind::Tree, payload)) => payload,
            Ok((ObjectKind::Blob, _)) => {
                return Err(StoreError::CorruptData);
            },
            Err(e) => {
                return Err(e);
            },
        };
        let mut entries: Vec<TreeEntry> = Vec::new();
        let mut pos: usize = 0;
        proof {
            assert(payload@.skip(0) =~= payload@);
            if parse_entries(payload@) is Some {
                assert(entry_views(entries@) + parse_entries(payload@).unwrap() =~= parse_entries(
                    payload@,
                ).unwrap());
            }
        }
        while pos < payload.len()
            invariant
                pos <= payload.len(),
                tree_decoding(bytes@) == parse_entries(payload@),
                parse_entries(payload@) == match parse_entries(payload@.skip(pos as int)) {
                    Some(rest) => Some(entry_views(entries@) + rest),
                    None => None,
                },
            decreases payload.len() - pos,
        {
            let rest = slice_subrange(payload, pos, payload.len());
            assert(rest@ =~= payload@.skip(pos as int));
            let space = find(rest, SPACE, 0);
            if space >= rest.len() {
                return Err(StoreError::CorruptData);
            }
            let nul = find(rest, NUL, space + 1);
            if nul >= rest.len() || rest.len() - nul <= 20 {
                return Err(StoreError::CorruptData);
            }
            let mode = match read_decimal(slice_subrange(rest, 0, space)) {
                Some(mode) => mode,
                None => {
                    return Err(StoreError::CorruptData);
                },
            };
            let name = slice_to_vec(slice_subrange(rest, space + 1, nul));
            let hash = match Digest::from_bytes(slice_subrange(rest, nul + 1, nul + 21)) {
                Some(hash) => hash,
                None => {
                    return Err(StoreError::CorruptData);
                },
            };
            let entry = TreeEntry { mode, name, hash };
            proof {
                let tail = parse_entries(rest@.skip(nul + 21));
                assert(rest@.skip(nul + 21) =~= payload@.skip(pos + nul + 21));
                assert(entry_views(entries@.push(entry)) =~= entry_views(entries@).push(entry@));
                if tail is Some {
                    assert(entry_views(entries@) + (seq![entry@] + tail.unwrap()) =~= entry_views(
                        entries@,
                    ).push(entry@) + tail.unwrap());
                }
            }
            entries.push(entry);
            pos = pos + nul + 21;
        }
        assert(payload@.skip(pos as int) =~= Seq::<u8>::empty());
        assert(entry_views(entries@) + Seq::<EntryView>::empty() =~= entry_views(entries@));
        Ok(Tree { entries })
    }
}

} // verus!
