use vstd::prelude::*;
use vstd::slice::slice_to_vec;
use vstd::string::*;
use crate::codec::{compress, compressed, decompress, decompressed};
use crate::error::StoreError;
use crate::framing::{
    ObjectKind, decode_framed, encode_framed, framed, lemma_framed_round_trip, parse_framed,
};
use crate::hasher::{Digest, Hasher, hex_string, lemma_hex_digit_value, sha1};

verus! {

/// One persisted object: its digest and the compressed bytes kept under it.
#[derive(Debug, Clone, PartialEq, Eq)]
pub struct StoredObject {
    pub digest: Digest,
    pub data: Vec<u8>,
}

/// The map that a sequence of stored objects stands for, from digest to
/// compressed bytes.
spec fn objects_map(objects: Seq<StoredObject>) -> Map<Seq<u8>, Seq<u8>>
    decreases objects.len(),
{
    if objects.len() == 0 {
        Map::empty()
    } else {
        objects_map(objects.drop_last()).insert(objects.last().digest@, objects.last().data@)
    }
}

/// Whether no two stored objects share a digest.
spec fn distinct_digests(objects: Seq<StoredObject>) -> bool {
    forall|i: int, j: int|
        0 <= i < j < objects.len() ==> (#[trigger] objects[i]).digest@ != (
        #[trigger] objects[j]).digest@
}

/// The store after framed bytes were written to it: their compressed form
/// stands under their digest, in place of whatever stood there.
pub open spec fn store_after_write(store: Map<Seq<u8>, Seq<u8>>, framed: Seq<u8>) -> Map<
    Seq<u8>,
    Seq<u8>,
> {
    store.insert(sha1(framed), compressed(framed))
}

/// What reading a digest from a store gives: `NotFound` where nothing is
/// kept under it, `CorruptData` where what is kept does not inflate, else
/// the inflated bytes.
pub open spec fn read_result(store: Map<Seq<u8>, Seq<u8>>, digest: Seq<u8>) -> Result<
    Seq<u8>,
    StoreError,
> {
    if store.dom().contains(digest) {
        decompressed(store[digest])
    } else {
        Err(StoreError::NotFound)
    }
}

/// The store with the last byte of what is kept under `digest` cut off.
pub open spec fn store_after_truncation(store: Map<Seq<u8>, Seq<u8>>, digest: Seq<u8>) -> Map<
    Seq<u8>,
    Seq<u8>,
> {
    store.insert(digest, store[digest].drop_last())
}

/// What reading an object gives: its kind and payload, `NotFound` or
/// `CorruptData` as for the framed bytes, and `CorruptData` where those are
/// not a framed object.
pub open spec fn object_result(store: Map<Seq<u8>, Seq<u8>>, digest: Seq<u8>) -> Result<
    (ObjectKind, Seq<u8>),
    StoreError,
> {
    match read_result(store, digest) {
        Ok(bytes) => match parse_framed(bytes) {
            Some(object) => Ok(object),
            None => Err(StoreError::CorruptData),
        },
        Err(e) => Err(e),
    }
}

/// A digest that no object carries is not in the map.
proof fn lemma_objects_map_absent(objects: Seq<StoredObject>, digest: Seq<u8>)
    requires
        forall|i: int| 0 <= i < objects.len() ==> (#[trigger] objects[i]).digest@ != digest,
    ensures
        !objects_map(objects).dom().contains(digest),
    decreases objects.len(),
{
    if objects.len() > 0 {
        assert forall|i: int| 0 <= i < objects.drop_last().len() implies (
        #[trigger] objects.drop_last()[i]).digest@ != digest by {
            assert(objects.drop_last()[i] == objects[i]);
        }
        lemma_objects_map_absent(objects.drop_last(), digest);
        assert(objects.last() == objects[objects.len() - 1]);
    }
}

/// Where digests are distinct, the map holds each object's bytes under its
/// digest.
proof fn lemma_objects_map_present(objects: Seq<StoredObject>, i: int)
    requires
        distinct_digests(objects),
        0 <= i < objects.len(),
    ensures
        objects_map(objects).dom().contains(objects[i].digest@),
        objects_map(objects)[objects[i].digest@] == objects[i].data@,
    decreases objects.len(),
{
    if i < objects.len() - 1 {
        assert(objects.drop_last()[i] == objects[i]);
        assert(objects.last() == objects[objects.len() - 1]);
        assert forall|p: int, q: int| 0 <= p < q < objects.drop_last().len() implies (
        #[trigger] objects.drop_last()[p]).digest@ != (#[trigger] objects.drop_last()[q]).digest@ by {
            assert(objects.drop_last()[p] == objects[p] && objects.drop_last()[q] == objects[q]);
        }
        lemma_objects_map_present(objects.drop_last(), i);
    }
}

/// Where digests are distinct, replacing an object by one with the same
/// digest replaces its bytes in the map.
proof fn lemma_objects_map_replace(objects: Seq<StoredObject>, i: int, object: StoredObject)
    requires
        distinct_digests(objects),
        0 <= i < objects.len(),
        object.digest@ == objects[i].digest@,
    ensures
        distinct_digests(objects.update(i, object)),
        objects_map(objects.update(i, object)) == objects_map(objects).insert(
            object.digest@,
            object.data@,
        ),
    decreases objects.len(),
{
    let updated = objects.update(i, object);
    assert forall|p: int, q: int| 0 <= p < q < updated.len() implies (#[trigger] updated[p]).digest@
        != (#[trigger] updated[q]).digest@ by {
        assert(updated[p].digest@ == objects[p].digest@);
        assert(updated[q].digest@ == objects[q].digest@);
    }
    if i == objects.len() - 1 {
        assert(updated.drop_last() =~= objects.drop_last());
        assert(objects_map(updated) =~= objects_map(objects).insert(object.digest@, object.data@));
    } else {
        let head = objects.drop_last();
        assert forall|p: int, q: int| 0 <= p < q < head.len() implies (#[trigger] head[p]).digest@
            != (#[trigger] head[q]).digest@ by {
            assert(head[p] == objects[p] && head[q] == objects[q]);
        }
        assert(head[i] == objects[i]);
        lemma_objects_map_replace(head, i, object);
        assert(updated.drop_last() =~= head.update(i, object));
        assert(updated.last() == objects.last());
        assert(objects.last() == objects[objects.len() - 1]);
        assert(objects.last().digest@ != object.digest@);
        assert(objects_map(updated) =~= objects_map(objects).insert(object.digest@, object.data@));
    }
}

/// Where digests are distinct, the map has as many keys as there are
/// objects.
proof fn lemma_objects_map_len(objects: Seq<StoredObject>)
    requires
        distinct_digests(objects),
    ensures
        objects_map(objects).dom().finite(),
        objects_map(objects).dom().len() == objects.len(),
    decreases objects.len(),
{
    if objects.len() > 0 {
        let head = objects.drop_last();
        assert forall|p: int, q: int| 0 <= p < q < head.len() implies (#[trigger] head[p]).digest@
            != (#[trigger] head[q]).digest@ by {
            assert(head[p] == objects[p] && head[q] == objects[q]);
        }
        lemma_objects_map_len(head);
        assert forall|p: int| 0 <= p < head.len() implies (#[trigger] head[p]).digest@
            != objects.last().digest@ by {
            assert(head[p] == objects[p]);
            assert(objects.last() == objects[objects.len() - 1]);
        }
        lemma_objects_map_absent(head, objects.last().digest@);
    }
}

/// Where an object is persisted below the storage root: a directory named
/// by the first two hexadecimal digits of its digest, and in it a file named
/// by the other thirty-eight.
#[derive(Debug, Clone, PartialEq, Eq)]
pub struct ObjectPath {
    pub dir: String,
    pub file: String,
}

/// The path under which the object with this digest is persisted.
pub fn object_path(digest: &Digest) -> (path: ObjectPath)
    ensures
        path.dir@ == hex_string(digest@).subrange(0, 2),
        path.file@ == hex_string(digest@).subrange(2, 40),
        path.dir@ + path.file@ == hex_string(digest@),
{
    let hex = digest.to_hex();
    proof {
        assert forall|i: int| 0 <= i < hex@.len() implies '\0' <= #[trigger] hex@[i] <= '\u{7f}' by {
            lemma_hex_digit_value(digest@[i / 2] as int / 16);
            lemma_hex_digit_value(digest@[i / 2] as int % 16);
        }
    }
    let text = hex.as_str();
    let dir = text.substring_ascii(0, 2).to_owned();
    let file = text.substring_ascii(2, 40).to_owned();
    assert(dir@ + file@ =~= hex_string(digest@));
    ObjectPath { dir, file }
}

/// A stored object read back: its kind, the declared size and the payload.
#[derive(Debug, Clone, PartialEq, Eq)]
pub struct ObjectData {
    pub kind: ObjectKind,
    pub size: usize,
    pub bytes: Vec<u8>,
}

/// A content-addressed store: compressed bytes kept under digests, one
/// object per digest.
pub struct ObjectStore {
    objects: Vec<StoredObject>,
}

impl View for ObjectStore {
    type V = Map<Seq<u8>, Seq<u8>>;

    closed spec fn view(&self) -> Map<Seq<u8>, Seq<u8>> {
        objects_map(self.objects@)
    }
}

impl ObjectStore {
    #[verifier::type_invariant]
    spec fn one_object_per_digest(&self) -> bool {
        distinct_digests(self.objects@)
    }

    /// A store that holds nothing.
    pub fn new() -> (store: ObjectStore)
        ensures
            store@ == Map::<Seq<u8>, Seq<u8>>::empty(),
    {
        ObjectStore { objects: Vec::new() }
    }

    /// The number of stored objects.
    pub fn len(&self) -> (n: usize)
        ensures
            self@.dom().finite(),
            n == self@.dom().len(),
    {
        proof {
            use_type_invariant(self);
            lemma_objects_map_len(self.objects@);
        }
        self.objects.len()
    }

    fn position(&self, digest: &Digest) -> (r: Option<usize>)
        ensures
            match r {
                Some(i) => i < self.objects@.len() && self.objects@[i as int].digest@ == digest@,
                None => forall|i: int|
                    0 <= i < self.objects@.len() ==> (#[trigger] self.objects@[i]).digest@
                        != digest@,
            },
    {
        let mut i: usize = 0;
        while i < self.objects.len()
            invariant
                i <= self.objects@.len(),
                forall|j: int| 0 <= j < i ==> (#[trigger] self.objects@[j]).digest@ != digest@,
            decreases self.objects@.len() - i,
        {
            if self.objects[i].digest.same(digest) {
                return Some(i);
            }
            i += 1;
        }
        None
    }

    /// Whether an object is kept under `digest`.
    pub fn contains(&self, digest: &Digest) -> (found: bool)
        ensures
            found == self@.dom().contains(digest@),
    {
        proof {
            use_type_invariant(self);
        }
        match self.position(digest) {
            Some(i) => {
                proof {
                    lemma_objects_map_present(self.objects@, i as int);
                }
                true
            },
            None => {
                proof {
                    lemma_objects_map_absent(self.objects@, digest@);
                }
                false
            },
        }
    }

    /// The compressed bytes kept under `digest`, as they are persisted.
    pub fn stored(&self, digest: &Digest) -> (r: Option<&Vec<u8>>)
        ensures
            match r {
                Some(data) => self@.dom().contains(digest@) && data@ == self@[digest@],
                None => !self@.dom().contains(digest@),
            },
    {
        proof {
            use_type_invariant(self);
        }
        match self.position(digest) {
            Some(i) => {
                proof {
                    lemma_objects_map_present(self.objects@, i as int);
                }
                Some(&self.objects[i].data)
            },
            None => {
                proof {
                    lemma_objects_map_absent(self.objects@, digest@);
                }
                None
            },
        }
    }

    /// The digests of all stored objects, each once, in no particular order.
    pub fn digests(&self) -> (list: Vec<Digest>)
        ensures
            self@.dom().finite(),
            list@.len() == self@.dom().len(),
            forall|i: int, j: int|
                0 <= i < j < list@.len() ==> (#[trigger] list@[i])@ != (#[trigger] list@[j])@,
            forall|i: int| 0 <= i < list@.len() ==> self@.dom().contains((#[trigger] list@[i])@),
            forall|d: Seq<u8>| #[trigger]
                self@.dom().contains(d) ==> exists|i: int| 0 <= i < list@.len() && list@[i]@ == d,
    {
        proof {
            use_type_invariant(self);
            lemma_objects_map_len(self.objects@);
        }
        let mut list: Vec<Digest> = Vec::new();
        let mut i: usize = 0;
        while i < self.objects.len()
            invariant
                i <= self.objects@.len(),
                list@.len() == i,
                forall|k: int| 0 <= k < i ==> (#[trigger] list@[k])@ == self.objects@[k].digest@,
            decreases self.objects@.len() - i,
        {
            list.push(self.objects[i].digest);
            i += 1;
        }
        proof {
            assert forall|k: int| 0 <= k < list@.len() implies self@.dom().contains(
                (#[trigger] list@[k])@,
            ) by {
                lemma_objects_map_present(self.objects@, k);
            }
            assert forall|d: Seq<u8>| #[trigger] self@.dom().contains(d) implies exists|k: int|
                0 <= k < list@.len() && list@[k]@ == d by {
                if forall|k: int|
                    0 <= k < self.objects@.len() ==> (#[trigger] self.objects@[k]).digest@ != d {
                    lemma_objects_map_absent(self.objects@, d);
                } else {
                    let k = choose|k: int|
                        0 <= k < self.objects@.len() && (#[trigger] self.objects@[k]).digest@ == d;
                    assert(list@[k]@ == d);
                }
            }
        }
        list
    }

    /// Keeps `data` under `digest` as found on backing storage, in place of
    /// whatever was kept there.  Nothing is checked: the bytes may be
    /// corrupt, which `read` then reports.
    pub fn put(&mut self, digest: Digest, data: Vec<u8>)
        ensures
            final(self)@ == old(self)@.insert(digest@, data@),
    {
        proof {
            use_type_invariant(&*self);
        }
        let object = StoredObject { digest, data };
        let found = self.position(&digest);
        let ghost before = self.objects@;
        let mut objects: Vec<StoredObject> = Vec::new();
        core::mem::swap(&mut self.objects, &mut objects);
        match found {
            Some(i) => {
                proof {
                    lemma_objects_map_replace(before, i as int, object);
                }
                objects[i] = object;
            },
            None => {
                proof {
                    assert(before.push(object).drop_last() =~= before);
                    assert forall|p: int, q: int| 0 <= p < q < before.push(object).len() implies (
                    #[trigger] before.push(object)[p]).digest@ != (#[trigger] before.push(
                        object,
                    )[q]).digest@ by {
                        assert(before.push(object)[p] == before[p]);
                        if q < before.len() {
                            assert(before.push(object)[q] == before[q]);
                        }
                    }
                }
                objects.push(object);
            },
        }
        self.objects = objects;
    }

    /// Writes framed bytes: hashes them, compresses them and keeps the
    /// result under the digest, which is returned.  Reading the digest
    /// afterwards gives the bytes back; were the kept bytes to lose their
    /// last byte, reading would report `CorruptData`.
    pub fn write(&mut self, framed: &[u8]) -> (digest: Digest)
        ensures
            digest@ == sha1(framed@),
            final(self)@ == store_after_write(old(self)@, framed@),
            read_result(final(self)@, digest@) == Ok::<Seq<u8>, StoreError>(framed@),
            read_result(store_after_truncation(final(self)@, digest@), digest@) == Err::<
                Seq<u8>,
                StoreError,
            >(StoreError::CorruptData),
    {
        let digest = Hasher::digest(framed);
        let data = compress(framed);
        self.put(digest, data);
        digest
    }

    /// Frames a payload as an object of the given kind and writes it.
    pub fn write_object(&mut self, kind: ObjectKind, payload: &[u8]) -> (digest: Digest)
        ensures
            digest@ == sha1(framed(kind, payload@)),
            final(self)@ == store_after_write(old(self)@, framed(kind, payload@)),
            object_result(final(self)@, digest@) == Ok::<(ObjectKind, Seq<u8>), StoreError>(
                (kind, payload@),
            ),
    {
        let bytes = encode_framed(kind, payload);
        proof {
            lemma_framed_round_trip(kind, payload@);
        }
        self.write(bytes.as_slice())
    }

    /// Reads the object kept under `digest`: its kind, size and payload.
    /// Fails as `read` does, and with `CorruptData` where the bytes read
    /// are not a framed object.
    pub fn read_object(&self, digest: &Digest) -> (r: Result<ObjectData, StoreError>)
        ensures
            match object_result(self@, digest@) {
                Ok((kind, payload)) => r matches Ok(object) && object.kind == kind
                    && object.bytes@ == payload && object.size == payload.len(),
                Err(e) => r == Err::<ObjectData, StoreError>(e),
            },
    {
        let bytes = match self.read(digest) {
            Ok(bytes) => bytes,
            Err(e) => {
                return Err(e);
            },
        };
        match decode_framed(bytes.as_slice()) {
            Ok((kind, payload)) => Ok(
                ObjectData { kind, size: payload.len(), bytes: slice_to_vec(payload) },
            ),
            Err(e) => Err(e),
        }
    }

    /// Reads the framed bytes kept under `digest`.  Fails with `NotFound`
    /// where nothing is kept under it, and with `CorruptData` where what is
    /// kept does not inflate.
    pub fn read(&self, digest: &Digest) -> (r: Result<Vec<u8>, StoreError>)
        ensures
            match read_result(self@, digest@) {
                Ok(bytes) => r matches Ok(v) && v@ == bytes,
                Err(e) => r == Err::<Vec<u8>, StoreError>(e),
            },
    {
        match self.stored(digest) {
            Some(data) => decompress(data.as_slice()),
            None => Err(StoreError::NotFound),
        }
    }
}

/// Writing the same framed bytes a second time changes nothing: the digest
/// is the same and the store is the store after the first write, so it holds
/// as many objects.  Written to an empty store, the bytes make exactly one
/// object.
pub proof fn lemma_write_idempotent(store: Map<Seq<u8>, Seq<u8>>, framed: Seq<u8>)
    ensures
        store_after_write(store_after_write(store, framed), framed) == store_after_write(
            store,
            framed,
        ),
        store_after_write(
            store_after_write(Map::<Seq<u8>, Seq<u8>>::empty(), framed),
            framed,
        ).dom().len() == 1,
{
    assert(store_after_write(store_after_write(store, framed), framed) =~= store_after_write(
        store,
        framed,
    ));
    let once = store_after_write(Map::<Seq<u8>, Seq<u8>>::empty(), framed);
    assert(store_after_write(once, framed) =~= once);
    assert(once.dom() =~= Set::<Seq<u8>>::empty().insert(sha1(framed)));
}

/// Reading a digest under which nothing is kept reports `NotFound`.
pub proof fn lemma_unknown_digest(store: Map<Seq<u8>, Seq<u8>>, digest: Seq<u8>)
    requires
        !store.dom().contains(digest),
    ensures
        read_result(store, digest) == Err::<Seq<u8>, StoreError>(StoreError::NotFound),
{
}

} // verus!
