//! The content-addressed object store, held in memory.
use vstd::prelude::*;
use crate::errors::NyxError;
use crate::object::{append_object_header, calculate_sha1, decoded_content, frame, object_hash_of, read_object_data};
use crate::object_type::NyxObjectType;
use vstd::utf8::encode_utf8;

verus! {

/// One stored object: its digest and its framed bytes.
pub struct StoredObject {
    pub hash: String,
    pub data: Vec<u8>,
}

/// Objects keyed by the digest of their framed bytes.
pub struct ObjectStore {
    objects: Vec<StoredObject>,
}

/// The framed bytes stored under `h`: those of the first object with that digest.
pub open spec fn first_match(objs: Seq<StoredObject>, h: Seq<char>) -> Option<Seq<u8>>
    decreases objs.len(),
{
    if objs.len() == 0 {
        None
    } else if objs[0].hash@ == h {
        Some(objs[0].data@)
    } else {
        first_match(objs.drop_first(), h)
    }
}

proof fn lemma_first_match_absent(objs: Seq<StoredObject>, h: Seq<char>)
    requires
        forall|j: int| 0 <= j < objs.len() ==> (#[trigger] objs[j]).hash@ != h,
    ensures
        first_match(objs, h) is None,
    decreases objs.len(),
{
    if objs.len() > 0 {
        assert(objs[0].hash@ != h);
        assert forall|j: int| 0 <= j < objs.drop_first().len() implies (
        #[trigger] objs.drop_first()[j]).hash@ != h by {
            assert(objs.drop_first()[j] == objs[j + 1]);
        }
        lemma_first_match_absent(objs.drop_first(), h);
    }
}

proof fn lemma_first_match_at(objs: Seq<StoredObject>, h: Seq<char>, i: int)
    requires
        0 <= i < objs.len(),
        objs[i].hash@ == h,
        forall|j: int| 0 <= j < i ==> (#[trigger] objs[j]).hash@ != h,
    ensures
        first_match(objs, h) == Some(objs[i].data@),
    decreases objs.len(),
{
    if i > 0 {
        assert(objs[0].hash@ != h);
        assert forall|j: int| 0 <= j < i - 1 implies (#[trigger] objs.drop_first()[j]).hash@
            != h by {
            assert(objs.drop_first()[j] == objs[j + 1]);
        }
        lemma_first_match_at(objs.drop_first(), h, i - 1);
    }
}

proof fn lemma_first_match_update(objs: Seq<StoredObject>, i: int, o: StoredObject, k: Seq<char>)
    requires
        0 <= i < objs.len(),
        objs[i].hash@ == o.hash@,
        forall|j: int| 0 <= j < i ==> (#[trigger] objs[j]).hash@ != o.hash@,
        k != o.hash@,
    ensures
        first_match(objs.update(i, o), k) == first_match(objs, k),
    decreases objs.len(),
{
    if objs.len() > 0 {
        if i == 0 {
            assert(objs.update(i, o).drop_first() == objs.drop_first());
        } else {
            assert(objs.update(i, o).drop_first() == objs.drop_first().update(i - 1, o));
            assert forall|j: int| 0 <= j < i - 1 implies (#[trigger] objs.drop_first()[j]).hash@
                != o.hash@ by {
                assert(objs.drop_first()[j] == objs[j + 1]);
            }
            lemma_first_match_update(objs.drop_first(), i - 1, o, k);
        }
    }
}

proof fn lemma_first_match_push(objs: Seq<StoredObject>, o: StoredObject, k: Seq<char>)
    requires
        k != o.hash@ || first_match(objs, k) is None,
    ensures
        first_match(objs.push(o), k) == if first_match(objs, k) is Some {
            first_match(objs, k)
        } else if k == o.hash@ {
            Some(o.data@)
        } else {
            None
        },
    decreases objs.len(),
{
    if objs.len() == 0 {
        assert(objs.push(o).drop_first().len() == 0);
    } else {
        assert(objs.push(o).drop_first() == objs.drop_first().push(o));
        if objs[0].hash@ != k {
            lemma_first_match_push(objs.drop_first(), o, k);
        }
    }
}

/// Everything stored in `s1` is still stored in `s2`.
pub open spec fn keeps(s1: ObjectStore, s2: ObjectStore) -> bool {
    forall|k: Seq<char>| s1.get(k) is Some ==> #[trigger] s2.get(k) is Some
}

/// Round trip: once text `c` is stored as a blob under its digest (as `write`
/// leaves it), reading that digest gives `c` back.
pub proof fn lemma_store_round_trip(store: ObjectStore, c: Seq<char>)
    requires
        store.get(object_hash_of(NyxObjectType::Blob, encode_utf8(c))) == Some(
            frame(NyxObjectType::Blob, encode_utf8(c)),
        ),
    ensures
        store.read_spec(object_hash_of(NyxObjectType::Blob, encode_utf8(c))) == Ok::<Seq<char>, NyxError>(c),
{
    crate::object::lemma_read_after_write(c);
}

impl ObjectStore {
    /// The framed bytes stored under digest `h`, if any.
    pub closed spec fn get(&self, h: Seq<char>) -> Option<Seq<u8>> {
        first_match(self.objects@, h)
    }

    /// What reading the object `h` yields.
    pub open spec fn read_spec(&self, h: Seq<char>) -> Result<Seq<char>, NyxError> {
        match self.get(h) {
            None => Err(NyxError::NotFound),
            Some(raw) => decoded_content(raw),
        }
    }

    pub closed spec fn size(&self) -> nat {
        self.objects@.len()
    }

    /// The digest of the `i`-th stored object.
    pub closed spec fn key(&self, i: int) -> Seq<char> {
        self.objects@[i].hash@
    }

    /// Well-formed: no digest is stored twice.
    pub closed spec fn wf(&self) -> bool {
        forall|i: int, j: int|
            0 <= i < j < self.objects@.len() ==> (#[trigger] self.objects@[i]).hash@ != (
            #[trigger] self.objects@[j]).hash@
    }

    /// An empty store.
    pub fn new() -> (r: ObjectStore)
        ensures
            forall|h: Seq<char>| r.get(h) is None,
            r.size() == 0,
            r.wf(),
    {
        ObjectStore { objects: Vec::new() }
    }

    /// Number of stored objects.
    pub fn len(&self) -> (r: usize)
        ensures
            r == self.size(),
    {
        self.objects.len()
    }

    /// The digest of the `i`-th stored object.
    pub fn hash_at(&self, i: usize) -> (r: &String)
        requires
            i < self.size(),
        ensures
            r@ == self.key(i as int),
            self.get(r@) is Some,
    {
        proof {
            self.lemma_first_some(i as int);
        }
        &self.objects[i].hash
    }

    /// The framed bytes of the `i`-th stored object: those stored under its digest.
    pub fn data_at(&self, i: usize) -> (r: &Vec<u8>)
        requires
            self.wf(),
            i < self.size(),
        ensures
            self.get(self.key(i as int)) == Some(r@),
    {
        proof {
            lemma_first_match_at(self.objects@, self.objects@[i as int].hash@, i as int);
        }
        &self.objects[i].data
    }

    proof fn lemma_first_some(&self, i: int)
        requires
            0 <= i < self.objects@.len(),
        ensures
            self.get(self.objects@[i].hash@) is Some,
        decreases i,
    {
        let h = self.objects@[i].hash@;
        if exists|j: int| 0 <= j < i && (#[trigger] self.objects@[j]).hash@ == h {
            let j = choose|j: int| 0 <= j < i && (#[trigger] self.objects@[j]).hash@ == h;
            self.lemma_first_some(j);
        } else {
            lemma_first_match_at(self.objects@, h, i);
        }
    }

    fn position(&self, hash: &String) -> (r: Option<usize>)
        ensures
            r matches Some(i) ==> i < self.objects@.len() && self.objects@[i as int].hash@ == hash@
                && forall|j: int| 0 <= j < i ==> (#[trigger] self.objects@[j]).hash@ != hash@,
            r is None ==> forall|j: int|
                0 <= j < self.objects@.len() ==> (#[trigger] self.objects@[j]).hash@ != hash@,
    {
        let mut i: usize = 0;
        while i < self.objects.len()
            invariant
                i <= self.objects@.len(),
                forall|j: int| 0 <= j < i ==> (#[trigger] self.objects@[j]).hash@ != hash@,
            decreases self.objects@.len() - i,
        {
            if self.objects[i].hash == *hash {
                return Some(i);
            }
            i = i + 1;
        }
        None
    }

    /// Stores `data` under `hash`, replacing what was stored there.
    pub fn insert_raw(&mut self, hash: String, data: Vec<u8>)
        requires
            old(self).wf(),
        ensures
            final(self).wf(),
            final(self).get(hash@) == Some(data@),
            forall|k: Seq<char>| k != hash@ ==> #[trigger] final(self).get(k) == old(self).get(k),
    {
        let ghost h = hash@;
        let ghost d = data@;
        let pos = self.position(&hash);
        let o = StoredObject { hash, data };
        match pos {
            Some(i) => {
                let ghost objs = self.objects@;
                self.objects.set(i, o);
                proof {
                    lemma_first_match_at(self.objects@, h, i as int);
                    assert forall|k: Seq<char>| k != h implies #[trigger] first_match(
                        self.objects@,
                        k,
                    ) == first_match(objs, k) by {
                        lemma_first_match_update(objs, i as int, o, k);
                    }
                }
            },
            None => {
                let ghost objs = self.objects@;
                self.objects.push(o);
                proof {
                    lemma_first_match_absent(objs, h);
                    lemma_first_match_push(objs, o, h);
                    assert forall|k: Seq<char>| k != h implies #[trigger] first_match(
                        self.objects@,
                        k,
                    ) == first_match(objs, k) by {
                        lemma_first_match_push(objs, o, k);
                    }
                }
            },
        }
    }

    /// Frames `content` as an object of type `object_type`, stores it under its
    /// digest (overwriting an identical object) and returns the digest.
    pub fn write(&mut self, content: &[u8], object_type: NyxObjectType) -> (r: String)
        requires
            old(self).wf(),
        ensures
            final(self).wf(),
            r@ == object_hash_of(object_type, content@),
            r@.len() == 40,
            final(self).get(r@) == Some(frame(object_type, content@)),
            keeps(*old(self), *final(self)),
            forall|k: Seq<char>| k != r@ ==> #[trigger] final(self).get(k) == old(self).get(k),
    {
        let framed = append_object_header(content, object_type);
        let hash = calculate_sha1(framed.as_slice());
        self.insert_raw(hash.clone(), framed);
        hash
    }

    /// True when an object is stored under `hash`.
    pub fn contains(&self, hash: &str) -> (r: bool)
        ensures
            r == self.get(hash@) is Some,
    {
        let h = String::from_str(hash);
        match self.position(&h) {
            Some(i) => {
                proof {
                    lemma_first_match_at(self.objects@, h@, i as int);
                }
                true
            },
            None => {
                proof {
                    lemma_first_match_absent(self.objects@, h@);
                }
                false
            },
        }
    }

    /// The content of the object stored under `hash`: `NotFound` when there is
    /// none, `EncodingError` when it is not valid text.
    pub fn read(&self, hash: &str) -> (r: Result<String, NyxError>)
        ensures
            r matches Ok(s) ==> self.read_spec(hash@) == Ok::<Seq<char>, NyxError>(s@),
            r matches Err(e) ==> self.read_spec(hash@) == Err::<Seq<char>, NyxError>(e),
    {
        let h = String::from_str(hash);
        match self.position(&h) {
            Some(i) => {
                proof {
                    lemma_first_match_at(self.objects@, h@, i as int);
                }
                read_object_data(self.objects[i].data.as_slice())
            },
            None => {
                proof {
                    lemma_first_match_absent(self.objects@, h@);
                }
                Err(NyxError::NotFound)
            },
        }
    }
}

} // verus!
