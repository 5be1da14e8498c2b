//! The secondary (inverted) metadata index: each (attribute key, attribute
//! value) pair owns a bucket of token ids. Buckets never hold duplicates,
//! and an empty bucket is deleted rather than stored.

use vstd::prelude::*;

use crate::values::{bytes_clone, bytes_eq, str_eq, value_clone, value_eq, MetadataValue, ValueModel};

verus! {

/// True when some element of `s` has the byte contents `x`.
pub open spec fn ids_has(s: Seq<Vec<u8>>, x: Seq<u8>) -> bool {
    exists|i: int| 0 <= i < s.len() && (#[trigger] s[i])@ == x
}

/// The byte contents of each element of `s`, in order.
pub open spec fn ids_view(s: Seq<Vec<u8>>) -> Seq<Seq<u8>> {
    s.map_values(|v: Vec<u8>| v@)
}

/// One index bucket: the ids of the tokens currently carrying the pair
/// (`key`, `value`) in their metadata.
pub struct IndexEntry {
    pub key: String,
    pub value: MetadataValue,
    pub ids: Vec<Vec<u8>>,
}

/// The whole inverted index: at most one bucket per (key, value) pair.
pub struct MetadataIndex {
    pub entries: Vec<IndexEntry>,
}

impl MetadataIndex {
    /// A bucket for the pair exists.
    pub open spec fn has_bucket(&self, k: Seq<char>, v: ValueModel) -> bool {
        exists|i: int|
            0 <= i < self.entries@.len() && (#[trigger] self.entries@[i]).key@ == k
                && self.entries@[i].value@ == v
    }

    /// The position of the bucket for the pair (meaningful only when
    /// `has_bucket` holds).
    pub open spec fn bucket_at(&self, k: Seq<char>, v: ValueModel) -> int {
        choose|i: int|
            0 <= i < self.entries@.len() && (#[trigger] self.entries@[i]).key@ == k
                && self.entries@[i].value@ == v
    }

    /// The bucket contents for the pair, or the empty sequence when no
    /// bucket exists.
    pub open spec fn bucket(&self, k: Seq<char>, v: ValueModel) -> Seq<Seq<u8>> {
        if self.has_bucket(k, v) {
            ids_view(self.entries@[self.bucket_at(k, v)].ids@)
        } else {
            Seq::empty()
        }
    }

    /// The id `x` stands in the bucket of the pair (k, v).
    pub open spec fn contains(&self, k: Seq<char>, v: ValueModel, x: Seq<u8>) -> bool {
        exists|i: int|
            0 <= i < self.entries@.len() && (#[trigger] self.entries@[i]).key@ == k
                && self.entries@[i].value@ == v && ids_has(self.entries@[i].ids@, x)
    }

    /// Well-formed: pairwise distinct (key, value) pairs, no empty bucket,
    /// and no duplicate id within a bucket.
    pub open spec fn wf(&self) -> bool {
        &&& forall|i: int, j: int|
            0 <= i < j < self.entries@.len() ==> !((#[trigger] self.entries@[i]).key@ == (
            #[trigger] self.entries@[j]).key@ && self.entries@[i].value@
                == self.entries@[j].value@)
        &&& forall|i: int|
            0 <= i < self.entries@.len() ==> (#[trigger] self.entries@[i]).ids@.len() > 0
        &&& forall|i: int, a: int, b: int|
            0 <= i < self.entries@.len() && 0 <= a < b < (
            #[trigger] self.entries@[i]).ids@.len() ==> (#[trigger] self.entries@[i].ids@[a])@
                != (#[trigger] self.entries@[i].ids@[b])@
    }

    /// Relates bucket contents to `contains`, for a well-formed index.
    pub proof fn lemma_bucket(&self, k: Seq<char>, v: ValueModel)
        requires
            self.wf(),
        ensures
            forall|x: Seq<u8>| #[trigger] self.bucket(k, v).contains(x) <==> self.contains(k, v, x),
            self.bucket(k, v).len() == 0 <==> (forall|x: Seq<u8>| !self.contains(k, v, x)),
    {
        if self.has_bucket(k, v) {
            let i = self.bucket_at(k, v);
            assert(0 <= i < self.entries@.len() && self.entries@[i].key@ == k
                && self.entries@[i].value@ == v);
            assert forall|x: Seq<u8>| #[trigger] self.bucket(k, v).contains(x) implies
                self.contains(k, v, x) by {
                let a = choose|a: int|
                    0 <= a < self.bucket(k, v).len() && self.bucket(k, v)[a] == x;
                assert((self.entries@[i].ids@[a])@ == x);
                assert(ids_has(self.entries@[i].ids@, x));
            }
            assert forall|x: Seq<u8>| self.contains(k, v, x) implies #[trigger] self.bucket(
                k,
                v,
            ).contains(x) by {
                let i2 = choose|i2: int|
                    0 <= i2 < self.entries@.len() && (#[trigger] self.entries@[i2]).key@ == k
                        && self.entries@[i2].value@ == v && ids_has(self.entries@[i2].ids@, x);
                if i2 != i {
                    if i2 < i {
                        assert(!(self.entries@[i2].key@ == self.entries@[i].key@
                            && self.entries@[i2].value@ == self.entries@[i].value@));
                    } else {
                        assert(!(self.entries@[i].key@ == self.entries@[i2].key@
                            && self.entries@[i].value@ == self.entries@[i2].value@));
                    }
                }
                assert(i2 == i);
                let a = choose|a: int|
                    0 <= a < self.entries@[i].ids@.len() && (#[trigger] self.entries@[i].ids@[a])@
                        == x;
                assert(self.bucket(k, v)[a] == x);
            }
            assert(self.entries@[i].ids@.len() > 0);
            assert(self.bucket(k, v).contains(self.bucket(k, v)[0]));
        } else {
            assert forall|x: Seq<u8>| !self.contains(k, v, x) by {
                if self.contains(k, v, x) {
                    let i2 = choose|i2: int|
                        0 <= i2 < self.entries@.len() && (#[trigger] self.entries@[i2]).key@ == k
                            && self.entries@[i2].value@ == v && ids_has(self.entries@[i2].ids@, x);
                    assert(self.has_bucket(k, v));
                }
            }
        }
    }

    /// An empty index.
    pub fn new() -> (r: MetadataIndex)
        ensures
            r.wf(),
            forall|k: Seq<char>, v: ValueModel, x: Seq<u8>| !r.contains(k, v, x),
            r.entries@.len() == 0,
    {
        MetadataIndex { entries: Vec::new() }
    }

    /// Position of the bucket for (key, value), if one exists.
    fn find_bucket(&self, key: &String, value: &MetadataValue) -> (r: Option<usize>)
        requires
            self.wf(),
        ensures
            match r {
                Some(i) => i < self.entries@.len() && self.entries@[i as int].key@ == key@
                    && self.entries@[i as int].value@ == value@ && self.has_bucket(key@, value@)
                    && self.bucket_at(key@, value@) == i,
                None => !self.has_bucket(key@, value@),
            },
    {
        let mut i: usize = 0;
        while i < self.entries.len()
            invariant
                self.wf(),
                i <= self.entries@.len(),
                forall|j: int|
                    0 <= j < i ==> !((#[trigger] self.entries@[j]).key@ == key@
                        && self.entries@[j].value@ == value@),
            decreases self.entries@.len() - i,
        {
            if str_eq(&self.entries[i].key, key) && value_eq(&self.entries[i].value, value) {
                proof {
                    assert(self.has_bucket(key@, value@));
                    let j = self.bucket_at(key@, value@);
                    if j != i {
                        if j < i {
                            assert(!((self.entries@[j]).key@ == (self.entries@[i as int]).key@
                                && self.entries@[j].value@ == self.entries@[i as int].value@));
                        } else {
                            assert(!((self.entries@[i as int]).key@ == (self.entries@[j]).key@
                                && self.entries@[i as int].value@ == self.entries@[j].value@));
                        }
                    }
                }
                return Some(i);
            }
            i = i + 1;
        }
        proof {
            if self.has_bucket(key@, value@) {
                let j = choose|j: int|
                    0 <= j < self.entries@.len() && (#[trigger] self.entries@[j]).key@ == key@
                        && self.entries@[j].value@ == value@;
                assert(false);
            }
        }
        None
    }

    /// The bucket contents for (key, value), or an empty vector when the
    /// bucket does not exist. Never fails.
    pub fn query(&self, key: &String, value: &MetadataValue) -> (r: Vec<Vec<u8>>)
        requires
            self.wf(),
        ensures
            ids_view(r@) == self.bucket(key@, value@),
            forall|x: Seq<u8>| ids_has(r@, x) <==> self.contains(key@, value@, x),
    {
        proof {
            self.lemma_bucket(key@, value@);
        }
        match self.find_bucket(key, value) {
            Some(i) => {
                let src = &self.entries[i].ids;
                let mut r: Vec<Vec<u8>> = Vec::new();
                let mut j: usize = 0;
                while j < src.len()
                    invariant
                        j <= src@.len(),
                        r@.len() == j,
                        forall|a: int| 0 <= a < j ==> (#[trigger] r@[a])@ == src@[a]@,
                    decreases src@.len() - j,
                {
                    r.push(bytes_clone(&src[j]));
                    j = j + 1;
                }
                proof {
                    assert(ids_view(r@) =~= self.bucket(key@, value@));
                    assert forall|x: Seq<u8>| ids_has(r@, x) implies self.contains(
                        key@,
                        value@,
                        x,
                    ) by {
                        let a = choose|a: int| 0 <= a < r@.len() && (#[trigger] r@[a])@ == x;
                        assert(self.bucket(key@, value@)[a] == x);
                        assert(self.bucket(key@, value@).contains(x));
                    }
                    assert forall|x: Seq<u8>| self.contains(key@, value@, x) implies ids_has(
                        r@,
                        x,
                    ) by {
                        assert(self.bucket(key@, value@).contains(x));
                        let a = choose|a: int|
                            0 <= a < self.bucket(key@, value@).len() && self.bucket(
                                key@,
                                value@,
                            )[a] == x;
                        assert((r@[a])@ == x);
                    }
                }
                r
            },
            None => {
                let r: Vec<Vec<u8>> = Vec::new();
                proof {
                    assert(ids_view(r@) =~= self.bucket(key@, value@));
                    assert forall|x: Seq<u8>| !ids_has(r@, x) by {}
                }
                r
            },
        }
    }

    /// Whether `id` already stands in the bucket at position `i`.
    fn bucket_has_id(&self, i: usize, id: &Vec<u8>) -> (r: bool)
        requires
            i < self.entries@.len(),
        ensures
            r == ids_has(self.entries@[i as int].ids@, id@),
    {
        let ids = &self.entries[i].ids;
        let mut j: usize = 0;
        while j < ids.len()
            invariant
                j <= ids@.len(),
                ids@ == self.entries@[i as int].ids@,
                forall|a: int| 0 <= a < j ==> (#[trigger] ids@[a])@ != id@,
            decreases ids@.len() - j,
        {
            if bytes_eq(&ids[j], id) {
                return true;
            }
            j = j + 1;
        }
        proof {
            if ids_has(self.entries@[i as int].ids@, id@) {
                let a = choose|a: int|
                    0 <= a < self.entries@[i as int].ids@.len() && (
                    #[trigger] self.entries@[i as int].ids@[a])@ == id@;
                assert(false);
            }
        }
        false
    }

    /// Appends `id` to the bucket for (key, value), creating the bucket if
    /// needed; a no-op when the id already stands there (set semantics).
    pub fn add(&mut self, key: &String, value: &MetadataValue, id: &Vec<u8>)
        requires
            old(self).wf(),
        ensures
            final(self).wf(),
            forall|k: Seq<char>, v: ValueModel, x: Seq<u8>|
                #[trigger] final(self).contains(k, v, x) <==> old(self).contains(k, v, x) || (k
                    == key@ && v == value@ && x == id@),
    {
        let ghost es0 = self.entries@;
        match self.find_bucket(key, value) {
            Some(i) => {
                if self.bucket_has_id(i, id) {
                    proof {
                        assert(self.contains(key@, value@, id@));
                        assert forall|k: Seq<char>, v: ValueModel, x: Seq<u8>|
                            #[trigger] self.contains(k, v, x) <==> old(self).contains(k, v, x) || (
                            k == key@ && v == value@ && x == id@) by {}
                    }
                    return;
                }
                let k2 = self.entries[i].key.clone();
                let v2 = value_clone(&self.entries[i].value);
                let mut ids2: Vec<Vec<u8>> = Vec::new();
                let src = &self.entries[i].ids;
                let mut j: usize = 0;
                while j < src.len()
                    invariant
                        j <= src@.len(),
                        ids2@.len() == j,
                        forall|a: int| 0 <= a < j ==> (#[trigger] ids2@[a])@ == src@[a]@,
                    decreases src@.len() - j,
                {
                    ids2.push(bytes_clone(&src[j]));
                    j = j + 1;
                }
                ids2.push(bytes_clone(id));
                let ghost n0 = es0[i as int].ids@.len();
                self.entries[i] = IndexEntry { key: k2, value: v2, ids: ids2 };
                proof {
                    let es1 = self.entries@;
                    assert(es1[i as int].key@ == key@ && es1[i as int].value@ == value@);
                    assert(es1[i as int].ids@.len() == n0 + 1);
                    assert(forall|a: int|
                        0 <= a < n0 ==> (#[trigger] es1[i as int].ids@[a])@ == es0[i as int].ids@[a]@);
                    assert((es1[i as int].ids@[n0 as int])@ == id@);
                    assert(forall|j2: int|
                        0 <= j2 < es1.len() && j2 != i ==> es1[j2] == es0[j2]);
                    // well-formedness of the updated index
                    assert forall|i2: int, j2: int| 0 <= i2 < j2 < es1.len() implies !((
                    #[trigger] es1[i2]).key@ == (#[trigger] es1[j2]).key@ && es1[i2].value@
                        == es1[j2].value@) by {
                        assert(es1[i2].key@ == es0[i2].key@ && es1[i2].value@ == es0[i2].value@);
                        assert(es1[j2].key@ == es0[j2].key@ && es1[j2].value@ == es0[j2].value@);
                    }
                    assert forall|i2: int, a: int, b: int|
                        0 <= i2 < es1.len() && 0 <= a < b < (#[trigger] es1[i2]).ids@.len() implies (
                    #[trigger] es1[i2].ids@[a])@ != (#[trigger] es1[i2].ids@[b])@ by {
                        if i2 == i {
                            if b < n0 {
                                assert(es0[i2].ids@[a]@ != es0[i2].ids@[b]@);
                            } else {
                                assert(es1[i2].ids@[b]@ == id@);
                                assert(es1[i2].ids@[a]@ == es0[i2].ids@[a]@);
                                assert(!ids_has(es0[i as int].ids@, id@));
                            }
                        } else {
                            assert(es0[i2].ids@[a]@ != es0[i2].ids@[b]@);
                        }
                    }
                    assert(self.wf());
                    // contents characterization
                    assert forall|k: Seq<char>, v: ValueModel, x: Seq<u8>|
                        #[trigger] self.contains(k, v, x) implies old(self).contains(k, v, x) || (k
                        == key@ && v == value@ && x == id@) by {
                        let i2 = choose|i2: int|
                            0 <= i2 < es1.len() && (#[trigger] es1[i2]).key@ == k
                                && es1[i2].value@ == v && ids_has(es1[i2].ids@, x);
                        let a = choose|a: int|
                            0 <= a < es1[i2].ids@.len() && (#[trigger] es1[i2].ids@[a])@ == x;
                        if i2 == i {
                            if a < n0 {
                                assert(es0[i2].ids@[a]@ == x);
                                assert(ids_has(es0[i2].ids@, x));
                            } else {
                                assert(x == id@ && k == key@ && v == value@);
                            }
                        } else {
                            assert(ids_has(es0[i2].ids@, x));
                        }
                    }
                    assert forall|k: Seq<char>, v: ValueModel, x: Seq<u8>|
                        old(self).contains(k, v, x) || (k == key@ && v == value@ && x == id@)
                        implies #[trigger] self.contains(k, v, x) by {
                        if old(self).contains(k, v, x) {
                            let i2 = choose|i2: int|
                                0 <= i2 < es0.len() && (#[trigger] es0[i2]).key@ == k
                                    && es0[i2].value@ == v && ids_has(es0[i2].ids@, x);
                            let a = choose|a: int|
                                0 <= a < es0[i2].ids@.len() && (#[trigger] es0[i2].ids@[a])@ == x;
                            assert((es1[i2].ids@[a])@ == x);
                            assert(ids_has(es1[i2].ids@, x));
                            assert(es1[i2].key@ == k && es1[i2].value@ == v);
                        } else {
                            assert((es1[i as int].ids@[n0 as int])@ == id@);
                            assert(ids_has(es1[i as int].ids@, id@));
                        }
                    }
                }
            },
            None => {
                let mut ids2: Vec<Vec<u8>> = Vec::new();
                ids2.push(bytes_clone(id));
                self.entries.push(IndexEntry { key: key.clone(), value: value_clone(value), ids: ids2 });
                proof {
                    let es1 = self.entries@;
                    let n = es0.len() as int;
                    assert(es1[n].key@ == key@ && es1[n].value@ == value@);
                    assert(es1[n].ids@.len() == 1 && (es1[n].ids@[0])@ == id@);
                    assert(forall|j2: int| 0 <= j2 < n ==> es1[j2] == es0[j2]);
                    assert forall|i2: int, j2: int| 0 <= i2 < j2 < es1.len() implies !((
                    #[trigger] es1[i2]).key@ == (#[trigger] es1[j2]).key@ && es1[i2].value@
                        == es1[j2].value@) by {
                        if j2 < n {
                            assert(!(es0[i2].key@ == es0[j2].key@ && es0[i2].value@
                                == es0[j2].value@));
                        } else {
                            if es1[i2].key@ == key@ && es1[i2].value@ == value@ {
                                assert(old(self).has_bucket(key@, value@));
                            }
                        }
                    }
                    assert(self.wf());
                    assert forall|k: Seq<char>, v: ValueModel, x: Seq<u8>|
                        #[trigger] self.contains(k, v, x) implies old(self).contains(k, v, x) || (k
                        == key@ && v == value@ && x == id@) by {
                        let i2 = choose|i2: int|
                            0 <= i2 < es1.len() && (#[trigger] es1[i2]).key@ == k
                                && es1[i2].value@ == v && ids_has(es1[i2].ids@, x);
                        if i2 == n {
                            let a = choose|a: int|
                                0 <= a < es1[i2].ids@.len() && (#[trigger] es1[i2].ids@[a])@ == x;
                            assert(x == id@);
                        } else {
                            assert(ids_has(es0[i2].ids@, x));
                        }
                    }
                    assert forall|k: Seq<char>, v: ValueModel, x: Seq<u8>|
                        old(self).contains(k, v, x) || (k == key@ && v == value@ && x == id@)
                        implies #[trigger] self.contains(k, v, x) by {
                        if old(self).contains(k, v, x) {
                            let i2 = choose|i2: int|
                                0 <= i2 < es0.len() && (#[trigger] es0[i2]).key@ == k
                                    && es0[i2].value@ == v && ids_has(es0[i2].ids@, x);
                            let a = choose|a: int|
                                0 <= a < es0[i2].ids@.len() && (#[trigger] es0[i2].ids@[a])@ == x;
                            assert((es1[i2].ids@[a])@ == x);
                            assert(ids_has(es1[i2].ids@, x));
                        } else {
                            assert(ids_has(es1[n].ids@, id@));
                        }
                    }
                }
            },
        }
    }

    /// Deletes `id` from the bucket for (key, value); removes the bucket
    /// entirely when it becomes empty. A no-op when no bucket exists.
    pub fn remove(&mut self, key: &String, value: &MetadataValue, id: &Vec<u8>)
        requires
            old(self).wf(),
        ensures
            final(self).wf(),
            forall|k: Seq<char>, v: ValueModel, x: Seq<u8>|
                #[trigger] final(self).contains(k, v, x) <==> old(self).contains(k, v, x) && !(k
                    == key@ && v == value@ && x == id@),
    {
        let ghost es0 = self.entries@;
        let found = self.find_bucket(key, value);
        match found {
            Some(i) => {
                let mut ids2: Vec<Vec<u8>> = Vec::new();
                let src = &self.entries[i].ids;
                let mut j: usize = 0;
                while j < src.len()
                    invariant
                        j <= src@.len(),
                        src@ == es0[i as int].ids@,
                        self.entries@ == es0,
                        forall|a: int, b: int|
                            0 <= a < b < src@.len() ==> (#[trigger] src@[a])@ != (
                            #[trigger] src@[b])@,
                        forall|x: Seq<u8>|
                            #[trigger] ids_has(ids2@, x) <==> (exists|a: int|
                                0 <= a < j && (#[trigger] src@[a])@ == x) && x != id@,
                        forall|a: int, b: int|
                            0 <= a < b < ids2@.len() ==> (#[trigger] ids2@[a])@ != (
                            #[trigger] ids2@[b])@,
                    decreases src@.len() - j,
                {
                    let ghost ids2_before = ids2@;
                    if !bytes_eq(&src[j], id) {
                        ids2.push(bytes_clone(&src[j]));
                        proof {
                            assert forall|x: Seq<u8>| #[trigger] ids_has(ids2@, x) implies (exists|
                                a: int,
                            |
                                0 <= a < j + 1 && (#[trigger] src@[a])@ == x) && x != id@ by {
                                let c = choose|c: int|
                                    0 <= c < ids2@.len() && (#[trigger] ids2@[c])@ == x;
                                if c < ids2_before.len() {
                                    assert(ids_has(ids2_before, x));
                                } else {
                                    assert((src@[j as int])@ == x);
                                }
                            }
                            assert forall|x: Seq<u8>|
                                (exists|a: int| 0 <= a < j + 1 && (#[trigger] src@[a])@ == x) && x
                                    != id@ implies #[trigger] ids_has(ids2@, x) by {
                                let a = choose|a: int| 0 <= a < j + 1 && (#[trigger] src@[a])@ == x;
                                if a < j {
                                    assert(ids_has(ids2_before, x));
                                    let c = choose|c: int|
                                        0 <= c < ids2_before.len() && (#[trigger] ids2_before[c])@
                                            == x;
                                    assert((ids2@[c])@ == x);
                                } else {
                                    assert((ids2@[ids2_before.len() as int])@ == x);
                                }
                            }
                            assert forall|a: int, b: int| 0 <= a < b < ids2@.len() implies (
                            #[trigger] ids2@[a])@ != (#[trigger] ids2@[b])@ by {
                                if b == ids2_before.len() {
                                    assert(ids_has(ids2_before, ids2@[a]@));
                                    if ids2@[b]@ == ids2@[a]@ {
                                        let c = choose|c: int|
                                            0 <= c < j && (#[trigger] src@[c])@ == ids2@[a]@;
                                        assert(src@[c]@ != src@[j as int]@);
                                    }
                                }
                            }
                        }
                    } else {
                        proof {
                            assert forall|x: Seq<u8>| #[trigger] ids_has(ids2@, x) implies (exists|
                                a: int,
                            |
                                0 <= a < j + 1 && (#[trigger] src@[a])@ == x) && x != id@ by {
                                assert(ids_has(ids2_before, x));
                                let a = choose|a: int| 0 <= a < j && (#[trigger] src@[a])@ == x;
                            }
                            assert forall|x: Seq<u8>|
                                (exists|a: int| 0 <= a < j + 1 && (#[trigger] src@[a])@ == x) && x
                                    != id@ implies #[trigger] ids_has(ids2@, x) by {
                                let a = choose|a: int| 0 <= a < j + 1 && (#[trigger] src@[a])@ == x;
                                assert(a != j);
                            }
                        }
                    }
                    j = j + 1;
                }
                proof {
                    assert forall|x: Seq<u8>|
                        #[trigger] ids_has(ids2@, x) <==> ids_has(es0[i as int].ids@, x) && x
                            != id@ by {}
                }
                if ids2.len() == 0 {
                    self.entries.remove(i);
                    proof {
                        let es1 = self.entries@;
                        let n = es0.len() as int;
                        assert forall|i2: int, j2: int| 0 <= i2 < j2 < es1.len() implies !((
                        #[trigger] es1[i2]).key@ == (#[trigger] es1[j2]).key@ && es1[i2].value@
                            == es1[j2].value@) by {
                            let a = if i2 < i { i2 } else { i2 + 1 };
                            let b = if j2 < i { j2 } else { j2 + 1 };
                            assert(es1[i2] == es0[a] && es1[j2] == es0[b]);
                            assert(!(es0[a].key@ == es0[b].key@ && es0[a].value@ == es0[b].value@));
                        }
                        assert forall|i2: int|
                            0 <= i2 < es1.len() implies (#[trigger] es1[i2]).ids@.len() > 0 by {
                            let a = if i2 < i { i2 } else { i2 + 1 };
                            assert(es1[i2] == es0[a]);
                        }
                        assert forall|i2: int, a2: int, b2: int|
                            0 <= i2 < es1.len() && 0 <= a2 < b2 < (
                        #[trigger] es1[i2]).ids@.len() implies (#[trigger] es1[i2].ids@[a2])@ != (
                        #[trigger] es1[i2].ids@[b2])@ by {
                            let a = if i2 < i { i2 } else { i2 + 1 };
                            assert(es1[i2] == es0[a]);
                            assert(es0[a].ids@[a2]@ != es0[a].ids@[b2]@);
                        }
                        assert(self.wf());
                        assert forall|k: Seq<char>, v: ValueModel, x: Seq<u8>|
                            #[trigger] self.contains(k, v, x) implies old(self).contains(k, v, x)
                            && !(k == key@ && v == value@ && x == id@) by {
                            let i2 = choose|i2: int|
                                0 <= i2 < es1.len() && (#[trigger] es1[i2]).key@ == k
                                    && es1[i2].value@ == v && ids_has(es1[i2].ids@, x);
                            let a = if i2 < i { i2 } else { i2 + 1 };
                            assert(es1[i2] == es0[a]);
                            assert(a != i);
                            if k == key@ && v == value@ {
                                if a < i {
                                    assert(!(es0[a].key@ == es0[i as int].key@ && es0[a].value@
                                        == es0[i as int].value@));
                                } else {
                                    assert(!(es0[i as int].key@ == es0[a].key@
                                        && es0[i as int].value@ == es0[a].value@));
                                }
                                assert(false);
                            }
                        }
                        assert forall|k: Seq<char>, v: ValueModel, x: Seq<u8>|
                            old(self).contains(k, v, x) && !(k == key@ && v == value@ && x == id@)
                            implies #[trigger] self.contains(k, v, x) by {
                            let i2 = choose|i2: int|
                                0 <= i2 < es0.len() && (#[trigger] es0[i2]).key@ == k
                                    && es0[i2].value@ == v && ids_has(es0[i2].ids@, x);
                            if i2 == i {
                                // the old bucket held nothing but `id`
                                assert(k == key@ && v == value@);
                                assert(ids_has(es0[i as int].ids@, x));
                                assert(x != id@);
                                assert(ids_has(ids2@, x));
                                assert(false);
                            } else {
                                let b = if i2 < i { i2 } else { i2 - 1 };
                                assert(es1[b] == es0[i2]);
                                assert((es1[b]).key@ == k && es1[b].value@ == v && ids_has(
                                    es1[b].ids@,
                                    x,
                                ));
                            }
                        }
                    }
                } else {
                    let k2 = self.entries[i].key.clone();
                    let v2 = value_clone(&self.entries[i].value);
                    self.entries[i] = IndexEntry { key: k2, value: v2, ids: ids2 };
                    proof {
                        let es1 = self.entries@;
                        assert(es1[i as int].key@ == key@ && es1[i as int].value@ == value@);
                        assert(forall|j2: int|
                            0 <= j2 < es1.len() && j2 != i ==> es1[j2] == es0[j2]);
                        assert forall|i2: int, j2: int| 0 <= i2 < j2 < es1.len() implies !((
                        #[trigger] es1[i2]).key@ == (#[trigger] es1[j2]).key@ && es1[i2].value@
                            == es1[j2].value@) by {
                            assert(es1[i2].key@ == es0[i2].key@ && es1[i2].value@
                                == es0[i2].value@);
                            assert(es1[j2].key@ == es0[j2].key@ && es1[j2].value@
                                == es0[j2].value@);
                        }
                        assert forall|i2: int|
                            0 <= i2 < es1.len() implies (#[trigger] es1[i2]).ids@.len() > 0 by {
                            if i2 != i {
                                assert(es1[i2] == es0[i2]);
                            }
                        }
                        assert forall|i2: int, a2: int, b2: int|
                            0 <= i2 < es1.len() && 0 <= a2 < b2 < (
                        #[trigger] es1[i2]).ids@.len() implies (#[trigger] es1[i2].ids@[a2])@ != (
                        #[trigger] es1[i2].ids@[b2])@ by {
                            if i2 != i {
                                assert(es1[i2] == es0[i2]);
                                assert(es0[i2].ids@[a2]@ != es0[i2].ids@[b2]@);
                            }
                        }
                        assert(self.wf());
                        assert forall|k: Seq<char>, v: ValueModel, x: Seq<u8>|
                            #[trigger] self.contains(k, v, x) implies old(self).contains(k, v, x)
                            && !(k == key@ && v == value@ && x == id@) by {
                            let i2 = choose|i2: int|
                                0 <= i2 < es1.len() && (#[trigger] es1[i2]).key@ == k
                                    && es1[i2].value@ == v && ids_has(es1[i2].ids@, x);
                            if i2 == i {
                                assert(ids_has(ids2@, x));
                                assert(ids_has(es0[i as int].ids@, x) && x != id@);
                                if k == key@ && v == value@ && x == id@ {
                                    assert(false);
                                }
                            } else {
                                assert(ids_has(es0[i2].ids@, x));
                                if k == key@ && v == value@ {
                                    if i2 < i {
                                        assert(!(es0[i2].key@ == es0[i as int].key@
                                            && es0[i2].value@ == es0[i as int].value@));
                                    } else {
                                        assert(!(es0[i as int].key@ == es0[i2].key@
                                            && es0[i as int].value@ == es0[i2].value@));
                                    }
                                    assert(false);
                                }
                            }
                        }
                        assert forall|k: Seq<char>, v: ValueModel, x: Seq<u8>|
                            old(self).contains(k, v, x) && !(k == key@ && v == value@ && x == id@)
                            implies #[trigger] self.contains(k, v, x) by {
                            let i2 = choose|i2: int|
                                0 <= i2 < es0.len() && (#[trigger] es0[i2]).key@ == k
                                    && es0[i2].value@ == v && ids_has(es0[i2].ids@, x);
                            if i2 == i {
                                assert(k == key@ && v == value@ && x != id@);
                                assert(ids_has(ids2@, x));
                                assert(es1[i as int].key@ == k && es1[i as int].value@ == v);
                            } else {
                                assert(es1[i2] == es0[i2]);
                            }
                        }
                    }
                }
            },
            None => {
                proof {
                    assert forall|k: Seq<char>, v: ValueModel, x: Seq<u8>|
                        #[trigger] self.contains(k, v, x) implies old(self).contains(k, v, x) && !(
                        k == key@ && v == value@ && x == id@) by {
                        if k == key@ && v == value@ {
                            let i2 = choose|i2: int|
                                0 <= i2 < es0.len() && (#[trigger] es0[i2]).key@ == k
                                    && es0[i2].value@ == v && ids_has(es0[i2].ids@, x);
                            assert(old(self).has_bucket(key@, value@));
                            assert(false);
                        }
                    }
                }
            },
        }
    }
}

} // verus!
