use vstd::prelude::*;
use vstd::slice::slice_to_vec;
use crate::blob::{BlobCodec, blob_encoding};
use crate::error::StoreError;
use crate::hasher::{Digest, sha1};
use vstd::seq_lib::*;
use crate::order::{
    canonical_order, distinct_names, lemma_canonical_order_independent, sort_entries,
    sorted_by_name,
};
use crate::store::{ObjectStore, read_result, store_after_write};
use crate::tree::{
    BLOB_MODE, EntryView, TREE_MODE, TreeCodec, TreeEntry, entry_views, lemma_tree_round_trip,
    framable, null_free, tree_decoding, tree_encoding,
};

verus! {

/// What was found under one name of a directory, read into memory.
#[derive(Debug)]
pub enum Snapshot {
    /// A regular file and its bytes.
    File { name: Vec<u8>, content: Vec<u8> },
    /// A subdirectory and what was found in it, in listing order.
    Directory { name: Vec<u8>, children: Vec<Snapshot> },
    /// Neither a regular file nor a directory, a symbolic link for one.
    Other { name: Vec<u8> },
    /// An entry that could not be read.
    Unreadable { name: Vec<u8> },
}

/// The name of the repository's own directory, `.git`, which no tree lists.
pub open spec fn metadata_name() -> Seq<u8> {
    seq![46u8, 103u8, 105u8, 116u8]
}

/// Whether `name` is the name of the repository's own directory.
pub fn is_metadata_name(name: &[u8]) -> (r: bool)
    ensures
        r == (name@ == metadata_name()),
{
    if name.len() == 4 && name[0] == 46u8 && name[1] == 103u8 && name[2] == 105u8 && name[3]
        == 116u8 {
        assert(name@ =~= metadata_name());
        true
    } else {
        false
    }
}

/// What one entry of a directory contributes to its tree.
pub enum Step {
    /// A line of the tree.
    Added(EntryView),
    /// Nothing: the entry is left out.
    Skipped,
    /// Nothing: the walk ends here with `IOFailure`.
    Failed,
}

/// The name under which a snapshot was found.
pub open spec fn snapshot_name(node: Snapshot) -> Seq<u8> {
    match node {
        Snapshot::File { name, .. } => name@,
        Snapshot::Directory { name, .. } => name@,
        Snapshot::Other { name } => name@,
        Snapshot::Unreadable { name } => name@,
    }
}

/// The store after one entry was handled, and what the entry contributes.
/// The repository's own directory and entries that are neither file nor
/// directory are left out.  A file is written as a blob and listed under the
/// file mode; a subdirectory is built as a tree and listed under the tree
/// mode; an unreadable entry, or one inside a subdirectory, ends the walk.
pub open spec fn entry_step(node: Snapshot, store: Map<Seq<u8>, Seq<u8>>) -> (
    Map<Seq<u8>, Seq<u8>>,
    Step,
)
    decreases node, 0nat,
{
    if snapshot_name(node) == metadata_name() {
        (store, Step::Skipped)
    } else {
        match node {
            Snapshot::File { name, content } => {
                let framed = blob_encoding(content@);
                (
                    store_after_write(store, framed),
                    Step::Added(EntryView { mode: BLOB_MODE, name: name@, hash: sha1(framed) }),
                )
            },
            Snapshot::Directory { name, children } => {
                let (after, digest) = tree_step(children@, store);
                match digest {
                    Some(d) => (after, Step::Added(EntryView { mode: TREE_MODE, name: name@, hash: d })),
                    None => (after, Step::Failed),
                }
            },
            Snapshot::Other { .. } => (store, Step::Skipped),
            Snapshot::Unreadable { .. } => (store, Step::Failed),
        }
    }
}

/// The store after the first `n` entries of a directory were handled in
/// listing order, and the lines they contribute, or `None` where the walk
/// ended early; the store is then as the failure left it.
pub open spec fn children_steps(children: Seq<Snapshot>, n: nat, store: Map<Seq<u8>, Seq<u8>>) -> (
    Map<Seq<u8>, Seq<u8>>,
    Option<Seq<EntryView>>,
)
    decreases children, n,
{
    if n == 0 || n > children.len() {
        (store, Some(Seq::empty()))
    } else {
        let (before, entries) = children_steps(children, (n - 1) as nat, store);
        match entries {
            Some(es) => {
                let (after, step) = entry_step(children[n - 1], before);
                match step {
                    Step::Added(e) => (after, Some(es.push(e))),
                    Step::Skipped => (after, Some(es)),
                    Step::Failed => (after, None),
                }
            },
            None => (before, None),
        }
    }
}

/// The store after a directory was built, and the digest of its tree, or
/// `None` where the walk ended early.  The tree lists the contributed lines
/// in canonical order and is written after everything it refers to.
pub open spec fn tree_step(children: Seq<Snapshot>, store: Map<Seq<u8>, Seq<u8>>) -> (
    Map<Seq<u8>, Seq<u8>>,
    Option<Seq<u8>>,
)
    decreases children, children.len() + 1,
{
    let (after, entries) = children_steps(children, children.len(), store);
    match entries {
        Some(es) => {
            let framed = tree_encoding(canonical_order(es));
            (store_after_write(after, framed), Some(sha1(framed)))
        },
        None => (after, None),
    }
}

/// The lines that a directory contributes to its tree, in listing order, or
/// `None` where the walk ended early.
pub open spec fn listed_entries(children: Seq<Snapshot>, store: Map<Seq<u8>, Seq<u8>>) -> Option<
    Seq<EntryView>,
> {
    children_steps(children, children.len(), store).1
}

/// Whether no entry has a null byte in its name.
pub open spec fn null_free_names(es: Seq<EntryView>) -> bool {
    forall|i: int| 0 <= i < es.len() ==> null_free(#[trigger] es[i].name)
}

/// Once the walk has ended early it stays ended: handling more entries
/// changes neither the store nor the outcome.
pub proof fn lemma_failure_is_final(
    children: Seq<Snapshot>,
    n: nat,
    m: nat,
    store: Map<Seq<u8>, Seq<u8>>,
)
    requires
        n <= m <= children.len(),
        children_steps(children, n, store).1 is None,
    ensures
        children_steps(children, m, store) == children_steps(children, n, store),
    decreases m,
{
    if n < m {
        lemma_failure_is_final(children, n, (m - 1) as nat, store);
    }
}

/// What an entry contributes does not depend on what the store holds.
pub proof fn lemma_entry_step_store_free(
    node: Snapshot,
    s1: Map<Seq<u8>, Seq<u8>>,
    s2: Map<Seq<u8>, Seq<u8>>,
)
    ensures
        entry_step(node, s1).1 == entry_step(node, s2).1,
    decreases node, 0nat,
{
    if snapshot_name(node) != metadata_name() {
        match node {
            Snapshot::Directory { children, .. } => {
                lemma_tree_step_store_free(children@, s1, s2);
            },
            _ => {},
        }
    }
}

/// What the first `n` entries contribute does not depend on what the store
/// holds.
pub proof fn lemma_children_steps_store_free(
    children: Seq<Snapshot>,
    n: nat,
    s1: Map<Seq<u8>, Seq<u8>>,
    s2: Map<Seq<u8>, Seq<u8>>,
)
    ensures
        children_steps(children, n, s1).1 == children_steps(children, n, s2).1,
    decreases children, n,
{
    if 0 < n <= children.len() {
        lemma_children_steps_store_free(children, (n - 1) as nat, s1, s2);
        lemma_entry_step_store_free(
            children[n - 1],
            children_steps(children, (n - 1) as nat, s1).0,
            children_steps(children, (n - 1) as nat, s2).0,
        );
    }
}

/// The digest of a directory's tree does not depend on what the store
/// holds.
pub proof fn lemma_tree_step_store_free(
    children: Seq<Snapshot>,
    s1: Map<Seq<u8>, Seq<u8>>,
    s2: Map<Seq<u8>, Seq<u8>>,
)
    ensures
        tree_step(children, s1).1 == tree_step(children, s2).1,
    decreases children, children.len() + 1,
{
    lemma_children_steps_store_free(children, children.len(), s1, s2);
}

/// What an entry contributes to the tree of its directory.
pub open spec fn line_of(node: Snapshot) -> Step {
    entry_step(node, Map::empty()).1
}

/// Whether the walk of a directory reaches its end: no entry fails.
pub open spec fn readable(children: Seq<Snapshot>) -> bool {
    forall|i: int| 0 <= i < children.len() ==> line_of(#[trigger] children[i]) != Step::Failed
}

/// How many entries of a directory contribute the line `e`.
pub open spec fn line_count(children: Seq<Snapshot>, e: EntryView) -> nat
    decreases children.len(),
{
    if children.len() == 0 {
        0
    } else {
        line_count(children.drop_last(), e) + if line_of(children.last()) == Step::Added(e) {
            1nat
        } else {
            0nat
        }
    }
}

/// Taking one entry out of a directory takes its line out of the count.
pub proof fn lemma_line_count_remove(children: Seq<Snapshot>, j: int, e: EntryView)
    requires
        0 <= j < children.len(),
    ensures
        line_count(children, e) == line_count(children.remove(j), e) + if line_of(children[j])
            == Step::Added(e) {
            1nat
        } else {
            0nat
        },
    decreases children.len(),
{
    if j == children.len() - 1 {
        assert(children.remove(j) =~= children.drop_last());
    } else {
        lemma_line_count_remove(children.drop_last(), j, e);
        assert(children.remove(j).drop_last() =~= children.drop_last().remove(j));
        assert(children.remove(j).last() == children.last());
        assert(children.drop_last()[j] == children[j]);
    }
}

/// Directories with the same entries, in whatever order, contribute every
/// line equally often.
pub proof fn lemma_line_count_permutation(a: Seq<Snapshot>, b: Seq<Snapshot>, e: EntryView)
    requires
        a.to_multiset() == b.to_multiset(),
    ensures
        line_count(a, e) == line_count(b, e),
    decreases a.len(),
{
    to_multiset_len(a);
    to_multiset_len(b);
    if a.len() > 0 {
        let last = a.len() - 1;
        assert(a.contains(a[last]));
        to_multiset_contains(a, a[last]);
        to_multiset_contains(b, a[last]);
        let j = choose|j: int| 0 <= j < b.len() && b[j] == a[last];
        to_multiset_remove(a, last);
        to_multiset_remove(b, j);
        assert(a.remove(last) =~= a.drop_last());
        lemma_line_count_permutation(a.drop_last(), b.remove(j), e);
        lemma_line_count_remove(b, j, e);
    }
}

/// Where no entry fails, the walk lists each line as often as entries
/// contribute it.
pub proof fn lemma_listed_counts(
    children: Seq<Snapshot>,
    n: nat,
    store: Map<Seq<u8>, Seq<u8>>,
    e: EntryView,
)
    requires
        readable(children),
        n <= children.len(),
    ensures
        children_steps(children, n, store).1 is Some,
        children_steps(children, n, store).1.unwrap().to_multiset().count(e) == line_count(
            children.take(n as int),
            e,
        ),
    decreases n,
{
    broadcast use vstd::multiset::group_multiset_axioms;

    if n == 0 {
        to_multiset_contains(children_steps(children, n, store).1.unwrap(), e);
    } else {
        let (before, listed) = children_steps(children, (n - 1) as nat, store);
        lemma_listed_counts(children, (n - 1) as nat, store, e);
        lemma_entry_step_store_free(children[n - 1], before, Map::empty());
        assert(children.take(n as int).drop_last() =~= children.take(n - 1));
        assert(children.take(n as int).last() == children[n - 1]);
        match line_of(children[n - 1]) {
            Step::Added(line) => {
                to_multiset_build(listed.unwrap(), line);
            },
            _ => {},
        }
    }
}

/// The digest of a directory's tree does not depend on the order in which
/// its entries are listed: two listings of the same entries, of which none
/// fails and no two contribute lines under one name, build trees with the
/// same digest, whatever the store held before.
pub proof fn lemma_build_order_independent(
    a: Seq<Snapshot>,
    b: Seq<Snapshot>,
    s1: Map<Seq<u8>, Seq<u8>>,
    s2: Map<Seq<u8>, Seq<u8>>,
)
    requires
        a.to_multiset() == b.to_multiset(),
        listed_entries(a, s1) is Some,
        distinct_names(listed_entries(a, s1).unwrap()),
        readable(a),
    ensures
        tree_step(a, s1).1 is Some,
        tree_step(b, s2).1 == tree_step(a, s1).1,
{
    to_multiset_len(a);
    to_multiset_len(b);
    assert(readable(b)) by {
        assert forall|i: int| 0 <= i < b.len() implies line_of(#[trigger] b[i]) != Step::Failed by {
            assert(b.contains(b[i]));
            to_multiset_contains(b, b[i]);
            to_multiset_contains(a, b[i]);
            let k = choose|k: int| 0 <= k < a.len() && a[k] == b[i];
            assert(line_of(a[k]) != Step::Failed);
        }
    }
    let ea = listed_entries(a, s1).unwrap();
    lemma_listed_counts(b, b.len(), s2, ea[0]);
    let eb = listed_entries(b, s2).unwrap();
    assert forall|e: EntryView| ea.to_multiset().count(e) == eb.to_multiset().count(e) by {
        lemma_listed_counts(a, a.len(), s1, e);
        lemma_listed_counts(b, b.len(), s2, e);
        lemma_line_count_permutation(a, b, e);
        assert(a.take(a.len() as int) =~= a);
        assert(b.take(b.len() as int) =~= b);
    }
    assert(ea.to_multiset() =~= eb.to_multiset());
    lemma_canonical_order_independent(ea, eb);
}

/// Builds trees from directory snapshots.
pub struct TreeBuilder;

impl TreeBuilder {
    /// Writes a directory to the store: a blob for every file, a tree for
    /// every subdirectory and for the directory itself, whose digest is
    /// returned.  Fails with `IOFailure` at the first unreadable entry; what
    /// was written up to there stays in the store.  The tree lists its lines
    /// sorted by name, and reading the digest gives that tree; it decodes to
    /// the same lines unless a name holds a null byte.
    pub fn build(store: &mut ObjectStore, children: &Vec<Snapshot>) -> (r: Result<
        Digest,
        StoreError,
    >)
        ensures
            final(store)@ == tree_step(children@, old(store)@).0,
            match tree_step(children@, old(store)@).1 {
                Some(d) => r matches Ok(digest) && digest@ == d,
                None => r == Err::<Digest, StoreError>(StoreError::IOFailure),
            },
            r matches Ok(digest) ==> {
                let listing = canonical_order(listed_entries(children@, old(store)@).unwrap());
                &&& sorted_by_name(listing)
                &&& read_result(final(store)@, digest@) == Ok::<Seq<u8>, StoreError>(
                    tree_encoding(listing),
                )
                &&& null_free_names(listing) ==> tree_decoding(tree_encoding(listing)) == Some(
                    listing,
                )
            },
        decreases children@,
    {
        let ghost start = store@;
        let mut entries: Vec<TreeEntry> = Vec::new();
        let mut i: usize = 0;
        assert(entry_views(entries@) =~= Seq::<EntryView>::empty());
        while i < children.len()
            invariant
                i <= children.len(),
                start == old(store)@,
                children_steps(children@, i as nat, start) == (store@, Some(entry_views(entries@))),
            decreases children.len() - i,
        {
            let ghost listed = entry_views(entries@);
            let ghost before = store@;
            let ghost node = children@[i as int];
            assert(children_steps(children@, (i + 1) as nat, start) == match entry_step(
                node,
                before,
            ).1 {
                Step::Added(e) => (entry_step(node, before).0, Some(listed.push(e))),
                Step::Skipped => (entry_step(node, before).0, Some(listed)),
                Step::Failed => (entry_step(node, before).0, None::<Seq<EntryView>>),
            });
            match &children[i] {
                Snapshot::File { name, content } => {
                    if !is_metadata_name(name.as_slice()) {
                        let framed = BlobCodec::encode(content.as_slice());
                        let digest = store.write(framed.as_slice());
                        let entry = TreeEntry {
                            mode: BLOB_MODE,
                            name: slice_to_vec(name.as_slice()),
                            hash: digest,
                        };
                        assert(entry_views(entries@.push(entry)) =~= listed.push(entry@));
                        entries.push(entry);
                    }
                },
                Snapshot::Directory { name, children: inner } => {
                    if !is_metadata_name(name.as_slice()) {
                        match TreeBuilder::build(store, inner) {
                            Ok(digest) => {
                                let entry = TreeEntry {
                                    mode: TREE_MODE,
                                    name: slice_to_vec(name.as_slice()),
                                    hash: digest,
                                };
                                assert(entry_views(entries@.push(entry)) =~= listed.push(entry@));
                                entries.push(entry);
                            },
                            Err(e) => {
                                proof {
                                    lemma_failure_is_final(
                                        children@,
                                        (i + 1) as nat,
                                        children@.len(),
                                        start,
                                    );
                                }
                                return Err(e);
                            },
                        }
                    }
                },
                Snapshot::Other { .. } => {},
                Snapshot::Unreadable { name } => {
                    if !is_metadata_name(name.as_slice()) {
                        proof {
                            lemma_failure_is_final(
                                children@,
                                (i + 1) as nat,
                                children@.len(),
                                start,
                            );
                        }
                        return Err(StoreError::IOFailure);
                    }
                },
            }
            i += 1;
        }
        sort_entries(&mut entries);
        proof {
            let listing = entry_views(entries@);
            if null_free_names(listing) {
                assert forall|k: int| 0 <= k < listing.len() implies framable(
                    #[trigger] listing[k],
                ) by {
                    assert(listing[k].hash == entries@[k].hash@);
                }
                lemma_tree_round_trip(listing);
            }
        }
        let framed = TreeCodec::encode(&entries);
        Ok(store.write(framed.as_slice()))
    }
}

} // verus!
