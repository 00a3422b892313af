//! The content store model: durable byte objects keyed by an opaque
//! identifier, create-once semantics, delete-if-exists on cleanup. The
//! ingestion and emission flows are verified against this model; the
//! process's storage directory realises it.

use vstd::prelude::*;

use crate::errors::ServiceError;

verus! {

/// One stored byte object.
#[derive(Debug)]
pub struct StoredObject {
    pub key: String,
    pub data: Vec<u8>,
}

/// A content store: a set of byte objects with pairwise distinct keys.
#[derive(Debug)]
pub struct ContentStore {
    pub objects: Vec<StoredObject>,
}

/// The content stored under `k`, scanning from the front.
pub open spec fn spec_find_obj(objs: Seq<StoredObject>, k: Seq<char>) -> Option<Seq<u8>>
    decreases objs.len(),
{
    if objs.len() == 0 {
        None
    } else if objs[0].key@ == k {
        Some(objs[0].data@)
    } else {
        spec_find_obj(objs.drop_first(), k)
    }
}

impl ContentStore {
    /// Keys are pairwise distinct.
    pub open spec fn wf(self) -> bool {
        forall|i: int, j: int|
            0 <= i < j < self.objects@.len() ==> self.objects@[i].key@ != self.objects@[j].key@
    }

    /// Whether an object is stored under `k`.
    pub open spec fn spec_contains(self, k: Seq<char>) -> bool {
        spec_find_obj(self.objects@, k) is Some
    }

    /// The bytes stored under `k`.
    pub open spec fn spec_content(self, k: Seq<char>) -> Seq<u8> {
        spec_find_obj(self.objects@, k)->0
    }

    /// Whether `other` stores exactly the same objects.
    pub open spec fn same_objects(self, other: ContentStore) -> bool {
        forall|k: Seq<char>|
            #![trigger self.spec_contains(k)]
            #![trigger other.spec_contains(k)]
            self.spec_contains(k) == other.spec_contains(k) && (self.spec_contains(k)
                ==> self.spec_content(k) == other.spec_content(k))
    }

    /// Whether every key but `k` answers in `post` as it did in `pre`.
    pub open spec fn others_unchanged(pre: ContentStore, post: ContentStore, k: Seq<char>) -> bool {
        forall|k2: Seq<char>|
            k2 != k ==> #[trigger] post.spec_contains(k2) == pre.spec_contains(k2) && (
            pre.spec_contains(k2) ==> post.spec_content(k2) == pre.spec_content(k2))
    }

    /// An empty store.
    pub fn new() -> (r: ContentStore)
        ensures
            r.wf(),
            forall|k: Seq<char>| !r.spec_contains(k),
    {
        ContentStore { objects: Vec::new() }
    }

    /// The index of the object stored under `key`, if any.
    fn find_index(&self, key: &String) -> (r: Option<usize>)
        ensures
            match r {
                Some(i) => i < self.objects@.len() && self.objects@[i as int].key@ == key@
                    && spec_find_obj(self.objects@, key@) == Some(self.objects@[i as int].data@),
                None => !self.spec_contains(key@),
            },
    {
        let mut i: usize = 0;
        proof {
            assert(self.objects@.skip(0) =~= self.objects@);
        }
        while i < self.objects.len()
            invariant
                i <= self.objects@.len(),
                spec_find_obj(self.objects@, key@) == spec_find_obj(
                    self.objects@.skip(i as int),
                    key@,
                ),
            decreases self.objects@.len() - i,
        {
            proof {
                assert(self.objects@.skip(i as int)[0] == self.objects@[i as int]);
            }
            if self.objects[i].key == *key {
                return Some(i);
            }
            proof {
                assert(self.objects@.skip(i as int).drop_first() =~= self.objects@.skip(
                    i as int + 1,
                ));
            }
            i = i + 1;
        }
        None
    }

    /// Whether an object is stored under `key`.
    pub fn contains_object(&self, key: &String) -> (r: bool)
        ensures
            r == self.spec_contains(key@),
    {
        self.find_index(key).is_some()
    }

    /// Creates a fresh, empty object under `key`. Never overwrites: a
    /// key already present is refused as a storage failure.
    pub fn create_object(&mut self, key: String) -> (r: Result<(), ServiceError>)
        requires
            old(self).wf(),
        ensures
            final(self).wf(),
            match r {
                Ok(()) => !old(self).spec_contains(key@) && final(self).spec_contains(key@)
                    && final(self).spec_content(key@) == Seq::<u8>::empty()
                    && Self::others_unchanged(*old(self), *final(self), key@),
                Err(e) => e == ServiceError::Internal && old(self).spec_contains(key@) && *final(self) == *old(self),
            },
    {
        if self.contains_object(&key) {
            return Err(ServiceError::Internal);
        }
        let ghost pre = self.objects@;
        self.objects.push(StoredObject { key, data: Vec::new() });
        proof {
            lemma_find_none_no_index(pre, self.objects@.last().key@);
            lemma_find_push(pre, self.objects@.last(), self.objects@.last().key@);
            assert forall|k2: Seq<char>| k2 != self.objects@.last().key@ implies #[trigger] spec_find_obj(
                self.objects@,
                k2,
            ) == spec_find_obj(pre, k2) by {
                lemma_find_push(pre, self.objects@.last(), k2);
            }
            assert(pre.push(self.objects@.last()) =~= self.objects@);
        }
        Ok(())
    }

    /// Appends `chunk` to the object stored under `key`; a missing key
    /// is a storage failure.
    pub fn append_object(&mut self, key: &String, chunk: &[u8]) -> (r: Result<(), ServiceError>)
        requires
            old(self).wf(),
        ensures
            final(self).wf(),
            match r {
                Ok(()) => old(self).spec_contains(key@) && final(self).spec_contains(key@)
                    && final(self).spec_content(key@) == old(self).spec_content(key@) + chunk@
                    && Self::others_unchanged(*old(self), *final(self), key@),
                Err(e) => e == ServiceError::Internal && !old(self).spec_contains(key@) && *final(self) == *old(self),
            },
    {
        let idx = match self.find_index(key) {
            Some(i) => i,
            None => {
                return Err(ServiceError::Internal);
            },
        };
        let ghost pre = self.objects@;
        let mut obj = self.objects.remove(idx);
        let mut j: usize = 0;
        let ghost data0 = obj.data@;
        while j < chunk.len()
            invariant
                j <= chunk@.len(),
                obj.data@ == data0 + chunk@.take(j as int),
                obj.key@ == key@,
            decreases chunk@.len() - j,
        {
            obj.data.push(chunk[j]);
            proof {
                assert(obj.data@ =~= data0 + chunk@.take(j as int + 1));
            }
            j = j + 1;
        }
        proof {
            assert(obj.data@ =~= data0 + chunk@);
        }
        self.objects.insert(idx, obj);
        proof {
            let post = self.objects@;
            assert(post =~= pre.update(idx as int, post[idx as int]));
            lemma_find_index_of(pre, idx as int);
            lemma_find_update(pre, idx as int, post[idx as int], key@);
            assert(spec_find_obj(post, key@) == Some(data0 + chunk@));
            assert forall|k2: Seq<char>| k2 != key@ implies #[trigger] spec_find_obj(post, k2)
                == spec_find_obj(pre, k2) by {
                lemma_find_update(pre, idx as int, post[idx as int], k2);
            }
        }
        Ok(())
    }

    /// The stored size of the object under `key`.
    pub fn object_len(&self, key: &String) -> (r: Result<usize, ServiceError>)
        ensures
            match r {
                Ok(n) => self.spec_contains(key@) && n == self.spec_content(key@).len(),
                Err(e) => e == ServiceError::Internal && !self.spec_contains(key@),
            },
    {
        match self.find_index(key) {
            Some(i) => Ok(self.objects[i].data.len()),
            None => Err(ServiceError::Internal),
        }
    }

    /// A borrow of the bytes stored under `key`.
    pub fn get_object(&self, key: &String) -> (r: Option<&Vec<u8>>)
        ensures
            match r {
                Some(data) => self.spec_contains(key@) && data@ == self.spec_content(key@),
                None => !self.spec_contains(key@),
            },
    {
        match self.find_index(key) {
            Some(i) => Some(&self.objects[i].data),
            None => None,
        }
    }

    /// Deletes the object under `key` if it exists; deleting a missing
    /// key is not a fault.
    pub fn delete_object(&mut self, key: &String)
        requires
            old(self).wf(),
        ensures
            final(self).wf(),
            !final(self).spec_contains(key@),
            Self::others_unchanged(*old(self), *final(self), key@),
    {
        let idx = match self.find_index(key) {
            Some(i) => i,
            None => {
                return ;
            },
        };
        let ghost pre = self.objects@;
        self.objects.remove(idx);
        proof {
            lemma_find_remove(pre, idx as int, key@);
            assert forall|k2: Seq<char>| k2 != key@ implies #[trigger] spec_find_obj(
                self.objects@,
                k2,
            ) == spec_find_obj(pre, k2) by {
                lemma_find_remove(pre, idx as int, k2);
            }
        }
    }
}

/// Finding a key after a push: the original store wins, the new object
/// answers only keys it introduces.
proof fn lemma_find_push(objs: Seq<StoredObject>, o: StoredObject, k: Seq<char>)
    ensures
        spec_find_obj(objs.push(o), k) == (if spec_find_obj(objs, k) is Some {
            spec_find_obj(objs, k)
        } else if o.key@ == k {
            Some(o.data@)
        } else {
            None
        }),
    decreases objs.len(),
{
    if objs.len() == 0 {
        assert(objs.push(o)[0] == o);
        assert(objs.push(o).drop_first() =~= Seq::<StoredObject>::empty());
    } else {
        assert(objs.push(o).drop_first() =~= objs.drop_first().push(o));
        lemma_find_push(objs.drop_first(), o, k);
    }
}

/// With distinct keys, the object at a found key's index is the answer.
proof fn lemma_find_index_of(objs: Seq<StoredObject>, i: int)
    requires
        0 <= i < objs.len(),
        forall|p: int, q: int| 0 <= p < q < objs.len() ==> objs[p].key@ != objs[q].key@,
    ensures
        spec_find_obj(objs, objs[i].key@) == Some(objs[i].data@),
    decreases objs.len(),
{
    if i > 0 {
        assert(objs[0].key@ != objs[i].key@);
        assert(objs.drop_first()[i - 1] == objs[i]);
        lemma_find_index_of(objs.drop_first(), i - 1);
    }
}

/// Updating the object at index `i` in place, keeping its key, changes
/// only what that key answers.
proof fn lemma_find_update(objs: Seq<StoredObject>, i: int, o2: StoredObject, k: Seq<char>)
    requires
        0 <= i < objs.len(),
        o2.key@ == objs[i].key@,
        forall|p: int, q: int| 0 <= p < q < objs.len() ==> objs[p].key@ != objs[q].key@,
    ensures
        spec_find_obj(objs.update(i, o2), k) == (if k == o2.key@ {
            Some(o2.data@)
        } else {
            spec_find_obj(objs, k)
        }),
    decreases objs.len(),
{
    if i == 0 {
        assert(objs.update(0, o2)[0] == o2);
        assert(objs.update(0, o2).drop_first() =~= objs.drop_first());
        if k == o2.key@ {
        } else {
            if objs[0].key@ == k {
                assert(false);
            }
        }
    } else {
        assert(objs.update(i, o2)[0] == objs[0]);
        assert(objs.update(i, o2).drop_first() =~= objs.drop_first().update(i - 1, o2));
        assert(objs.drop_first()[i - 1] == objs[i]);
        lemma_find_update(objs.drop_first(), i - 1, o2, k);
        if k == o2.key@ && objs[0].key@ == k {
            assert(objs[0].key@ != objs[i].key@);
            assert(false);
        }
    }
}

/// Removing the object at index `i` erases only what its key answered.
proof fn lemma_find_remove(objs: Seq<StoredObject>, i: int, k: Seq<char>)
    requires
        0 <= i < objs.len(),
        forall|p: int, q: int| 0 <= p < q < objs.len() ==> objs[p].key@ != objs[q].key@,
    ensures
        spec_find_obj(objs.remove(i), k) == (if k == objs[i].key@ {
            None
        } else {
            spec_find_obj(objs, k)
        }),
    decreases objs.len(),
{
    if i == 0 {
        assert(objs.remove(0) =~= objs.drop_first());
        if objs[0].key@ == k {
            assert forall|m: int|
                0 <= m < objs.drop_first().len() implies (#[trigger] objs.drop_first()[m].key@)
                != k by {
                assert(objs.drop_first()[m] == objs[m + 1]);
                assert(objs[0].key@ != objs[m + 1].key@);
            }
            lemma_find_absent_when_no_index(objs.drop_first(), k);
        }
    } else {
        assert(objs.remove(i)[0] == objs[0]);
        assert(objs.remove(i).drop_first() =~= objs.drop_first().remove(i - 1));
        assert(objs.drop_first()[i - 1] == objs[i]);
        lemma_find_remove(objs.drop_first(), i - 1, k);
        if k == objs[i].key@ && objs[0].key@ == k {
            assert(objs[0].key@ != objs[i].key@);
        }
    }
}

/// A key that answers None sits at no index.
proof fn lemma_find_none_no_index(objs: Seq<StoredObject>, k: Seq<char>)
    requires
        spec_find_obj(objs, k) is None,
    ensures
        forall|i: int| 0 <= i < objs.len() ==> (#[trigger] objs[i].key@) != k,
    decreases objs.len(),
{
    if objs.len() > 0 {
        lemma_find_none_no_index(objs.drop_first(), k);
        assert forall|i: int| 0 <= i < objs.len() implies (#[trigger] objs[i].key@) != k by {
            if i > 0 {
                assert(objs[i] == objs.drop_first()[i - 1]);
            }
        }
    }
}

/// A key at no index answers None.
proof fn lemma_find_absent_when_no_index(objs: Seq<StoredObject>, k: Seq<char>)
    requires
        forall|i: int| 0 <= i < objs.len() ==> (#[trigger] objs[i].key@) != k,
    ensures
        spec_find_obj(objs, k) is None,
    decreases objs.len(),
{
    if objs.len() > 0 {
        assert(objs[0].key@ != k);
        assert forall|i: int|
            0 <= i < objs.drop_first().len() implies (#[trigger] objs.drop_first()[i].key@)
            != k by {
            assert(objs.drop_first()[i] == objs[i + 1]);
        }
        lemma_find_absent_when_no_index(objs.drop_first(), k);
    }
}

} // verus!
