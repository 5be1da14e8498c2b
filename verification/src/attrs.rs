//! The versioned attribute map: unique string keys mapped to typed scalar
//! values, modelled as a `Map<Seq<char>, ValueModel>`.

use vstd::prelude::*;

use crate::values::{valid_key, validate_attribute, value_clone, str_eq, MetadataValue, ValueModel};

verus! {

/// One entry of the attribute map: true of the sequence when some entry
/// carries the key `k`.
pub open spec fn has_key(es: Seq<(String, MetadataValue)>, k: Seq<char>) -> bool {
    exists|i: int| 0 <= i < es.len() && (#[trigger] es[i]).0@ == k
}

/// The model of the value stored under key `k` (meaningful only when
/// `has_key(es, k)` holds).
pub open spec fn value_of(es: Seq<(String, MetadataValue)>, k: Seq<char>) -> ValueModel {
    let i = choose|i: int| 0 <= i < es.len() && (#[trigger] es[i]).0@ == k;
    es[i].1@
}

/// Every key of the map passes the attribute-level validation rules.
pub open spec fn keys_valid_map(m: Map<Seq<char>, ValueModel>) -> bool {
    forall|k: Seq<char>| #[trigger] m.contains_key(k) ==> valid_key(k)
}

/// An attribute map with unique keys; its model is a finite map from key
/// characters to value models.
#[derive(Debug)]
pub struct Attributes {
    pub entries: Vec<(String, MetadataValue)>,
}

impl View for Attributes {
    type V = Map<Seq<char>, ValueModel>;

    open spec fn view(&self) -> Map<Seq<char>, ValueModel> {
        Map::new(
            |k: Seq<char>| has_key(self.entries@, k),
            |k: Seq<char>| value_of(self.entries@, k),
        )
    }
}

impl Attributes {
    /// Well-formed: no two entries share a key.
    pub open spec fn wf(&self) -> bool {
        forall|i: int, j: int|
            0 <= i < j < self.entries@.len() ==> (#[trigger] self.entries@[i]).0@ != (
            #[trigger] self.entries@[j]).0@
    }

    /// Every key of the map passes the attribute-level validation rules.
    pub open spec fn keys_valid(&self) -> bool {
        keys_valid_map(self@)
    }

    /// Relates map pairs to the stored entries.
    pub proof fn lemma_pairs(&self)
        requires
            self.wf(),
        ensures
            forall|k: Seq<char>, v: ValueModel|
                #[trigger] self@.contains_pair(k, v) <==> exists|a: int|
                    0 <= a < self.entries@.len() && (#[trigger] self.entries@[a]).0@ == k
                        && self.entries@[a].1@ == v,
    {
        self.lemma_view();
        assert forall|k: Seq<char>, v: ValueModel| #[trigger] self@.contains_pair(k, v) implies
            exists|a: int|
                0 <= a < self.entries@.len() && (#[trigger] self.entries@[a]).0@ == k
                    && self.entries@[a].1@ == v by {
            assert(has_key(self.entries@, k));
            let a = choose|a: int|
                0 <= a < self.entries@.len() && (#[trigger] self.entries@[a]).0@ == k;
            assert(self@[self.entries@[a].0@] == self.entries@[a].1@);
            assert(self.entries@[a].1@ == v);
        }
        assert forall|k: Seq<char>, v: ValueModel|
            (exists|a: int|
                0 <= a < self.entries@.len() && (#[trigger] self.entries@[a]).0@ == k
                    && self.entries@[a].1@ == v) implies #[trigger] self@.contains_pair(k, v) by {
            let a = choose|a: int|
                0 <= a < self.entries@.len() && (#[trigger] self.entries@[a]).0@ == k
                    && self.entries@[a].1@ == v;
            assert(self@.contains_key(self.entries@[a].0@));
            assert(self@[self.entries@[a].0@] == self.entries@[a].1@);
        }
    }

    /// Relates the map model to the stored entries.
    pub proof fn lemma_view(&self)
        ensures
            forall|k: Seq<char>| #[trigger] self@.contains_key(k) <==> has_key(self.entries@, k),
            forall|k: Seq<char>|
                #[trigger] self@.contains_key(k) ==> self@[k] == value_of(self.entries@, k),
            forall|i: int|
                0 <= i < self.entries@.len() ==> self@.contains_key(
                    (#[trigger] self.entries@[i]).0@,
                ),
            self.wf() ==> forall|i: int|
                0 <= i < self.entries@.len() ==> self@[(#[trigger] self.entries@[i]).0@]
                    == self.entries@[i].1@,
    {
        assert forall|i: int| 0 <= i < self.entries@.len() implies self@.contains_key(
            (#[trigger] self.entries@[i]).0@,
        ) by {
            assert(has_key(self.entries@, self.entries@[i].0@));
        }
        if self.wf() {
            assert forall|i: int| 0 <= i < self.entries@.len() implies self@[(
            #[trigger] self.entries@[i]).0@] == self.entries@[i].1@ by {
                let k = self.entries@[i].0@;
                let j = choose|j: int| 0 <= j < self.entries@.len() && (#[trigger] self.entries@[j]).0@ == k;
                assert(has_key(self.entries@, k));
                assert(0 <= j < self.entries@.len() && self.entries@[j].0@ == k);
                if i != j {
                    assert(self.entries@[i].0@ != self.entries@[j].0@);
                }
            }
        }
    }

    /// An empty attribute map.
    pub fn new() -> (r: Attributes)
        ensures
            r.wf(),
            r@ == Map::<Seq<char>, ValueModel>::empty(),
            r.entries@.len() == 0,
    {
        let r = Attributes { entries: Vec::new() };
        proof {
            assert(r@ =~= Map::<Seq<char>, ValueModel>::empty());
        }
        r
    }

    /// The number of attributes held.
    pub fn len(&self) -> (r: usize)
        ensures
            r == self.entries@.len(),
    {
        self.entries.len()
    }

    /// Looks an attribute up by key.
    pub fn get(&self, key: &String) -> (r: Option<&MetadataValue>)
        requires
            self.wf(),
        ensures
            match r {
                Some(v) => self@.contains_key(key@) && v@ == self@[key@],
                None => !self@.contains_key(key@),
            },
    {
        proof {
            self.lemma_view();
        }
        let mut i: usize = 0;
        while i < self.entries.len()
            invariant
                self.wf(),
                i <= self.entries@.len(),
                forall|j: int| 0 <= j < i ==> (#[trigger] self.entries@[j]).0@ != key@,
            decreases self.entries@.len() - i,
        {
            if str_eq(&self.entries[i].0, key) {
                proof {
                    self.lemma_view();
                }
                return Some(&self.entries[i].1);
            }
            i = i + 1;
        }
        proof {
            if has_key(self.entries@, key@) {
                let j = choose|j: int|
                    0 <= j < self.entries@.len() && (#[trigger] self.entries@[j]).0@ == key@;
                assert(false);
            }
        }
        None
    }

    /// Inserts or overwrites the attribute under `key`.
    pub fn set(&mut self, key: String, value: MetadataValue)
        requires
            old(self).wf(),
        ensures
            final(self).wf(),
            final(self)@ == old(self)@.insert(key@, value@),
            final(self).entries@.len() <= old(self).entries@.len() + 1,
    {
        proof {
            old(self).lemma_view();
        }
        let ghost es0 = self.entries@;
        let mut i: usize = 0;
        while i < self.entries.len()
            invariant
                self.wf(),
                self.entries@ == es0,
                es0 == old(self).entries@,
                *self == *old(self),
                i <= es0.len(),
                forall|j: int| 0 <= j < i ==> (#[trigger] es0[j]).0@ != key@,
            decreases es0.len() - i,
        {
            if str_eq(&self.entries[i].0, &key) {
                let ghost k = key@;
                self.entries[i] = (key, value);
                proof {
                    let es1 = self.entries@;
                    assert(es1[i as int].0@ == k && es1[i as int].1@ == value@);
                    assert forall|j: int| 0 <= j < es1.len() implies (#[trigger] es1[j]).0@
                        == es0[j].0@ by {
                        if j != i {
                            assert(es1[j] == es0[j]);
                        }
                    }
                    assert forall|i2: int, j2: int| 0 <= i2 < j2 < es1.len() implies (
                    #[trigger] es1[i2]).0@ != (#[trigger] es1[j2]).0@ by {
                        assert(es0[i2].0@ != es0[j2].0@);
                    }
                    assert(self.wf());
                    self.lemma_view();
                    old(self).lemma_view();
                    let m1 = old(self)@.insert(k, value@);
                    assert forall|x: Seq<char>| #[trigger] self@.contains_key(x) implies
                        m1.contains_key(x) && self@[x] == m1[x] by {
                        let j = choose|j: int| 0 <= j < es1.len() && (#[trigger] es1[j]).0@ == x;
                        assert(self@[x] == es1[j].1@);
                        if x == k {
                            if j < i {
                                assert(es1[j].0@ != es1[i as int].0@);
                            }
                            if j > i {
                                assert(es1[i as int].0@ != es1[j].0@);
                            }
                            assert(j == i);
                            assert(self@[x] == value@);
                        } else {
                            assert(j != i);
                            assert(es0[j] == es1[j]);
                            assert(has_key(es0, x));
                            assert(old(self)@[x] == es0[j].1@);
                        }
                    }
                    assert forall|x: Seq<char>| #[trigger] m1.contains_key(x) implies
                        self@.contains_key(x) by {
                        if x == k {
                            assert(has_key(es1, k));
                        } else {
                            let j = choose|j: int|
                                0 <= j < es0.len() && (#[trigger] es0[j]).0@ == x;
                            assert(es1[j].0@ == x);
                            assert(has_key(es1, x));
                        }
                    }
                    assert(self@ =~= m1);
                }
                return;
            }
            i = i + 1;
        }
        proof {
            if has_key(es0, key@) {
                let j = choose|j: int| 0 <= j < es0.len() && (#[trigger] es0[j]).0@ == key@;
                assert(false);
            }
        }
        let ghost k = key@;
        let ghost v = value@;
        self.entries.push((key, value));
        proof {
            let es1 = self.entries@;
            assert(es1 == es0.push(es1[es0.len() as int]));
            assert(es1[es0.len() as int].0@ == k && es1[es0.len() as int].1@ == v);
            assert forall|i2: int, j2: int| 0 <= i2 < j2 < es1.len() implies (
            #[trigger] es1[i2]).0@ != (#[trigger] es1[j2]).0@ by {
                if j2 < es0.len() {
                    assert(es0[i2].0@ != es0[j2].0@);
                } else {
                    assert(es1[j2].0@ == k);
                    assert(es0[i2].0@ != k);
                }
            }
            self.lemma_view();
            old(self).lemma_view();
            let m1 = old(self)@.insert(k, v);
            assert forall|x: Seq<char>| #[trigger] self@.contains_key(x) implies m1.contains_key(
                x,
            ) && self@[x] == m1[x] by {
                let j = choose|j: int| 0 <= j < es1.len() && (#[trigger] es1[j]).0@ == x;
                assert(self@[x] == es1[j].1@);
                if x == k {
                    if j < es0.len() {
                        assert(es0[j].0@ != k);
                    }
                    assert(j == es0.len());
                    assert(self@[x] == v);
                } else {
                    assert(j < es0.len());
                    assert(es0[j] == es1[j]);
                    assert(has_key(es0, x));
                    assert(old(self)@[x] == es0[j].1@);
                }
            }
            assert forall|x: Seq<char>| #[trigger] m1.contains_key(x) implies self@.contains_key(
                x,
            ) by {
                if x == k {
                    assert(es1[es0.len() as int].0@ == k);
                    assert(has_key(es1, k));
                } else {
                    let j = choose|j: int| 0 <= j < es0.len() && (#[trigger] es0[j]).0@ == x;
                    assert(es1[j].0@ == x);
                    assert(has_key(es1, x));
                }
            }
            assert(self@ =~= m1);
        }
    }

    /// Deletes the attribute under `key`; absent keys are silently skipped.
    pub fn remove(&mut self, key: &String)
        requires
            old(self).wf(),
        ensures
            final(self).wf(),
            final(self)@ == old(self)@.remove(key@),
    {
        proof {
            old(self).lemma_view();
        }
        let ghost es0 = self.entries@;
        let mut i: usize = 0;
        while i < self.entries.len()
            invariant
                self.wf(),
                self.entries@ == es0,
                es0 == old(self).entries@,
                *self == *old(self),
                i <= es0.len(),
                forall|j: int| 0 <= j < i ==> (#[trigger] es0[j]).0@ != key@,
            decreases es0.len() - i,
        {
            if str_eq(&self.entries[i].0, key) {
                let ghost k = key@;
                self.entries.remove(i);
                proof {
                    let es1 = self.entries@;
                    assert(es1 == es0.remove(i as int));
                    assert forall|i2: int, j2: int| 0 <= i2 < j2 < es1.len() implies (
                    #[trigger] es1[i2]).0@ != (#[trigger] es1[j2]).0@ by {
                        let a = if i2 < i { i2 } else { i2 + 1 };
                        let b = if j2 < i { j2 } else { j2 + 1 };
                        assert(es1[i2] == es0[a]);
                        assert(es1[j2] == es0[b]);
                        assert(es0[a].0@ != es0[b].0@);
                    }
                    self.lemma_view();
                    old(self).lemma_view();
                    let m1 = old(self)@.remove(k);
                    assert forall|x: Seq<char>| #[trigger] self@.contains_key(x) implies
                        m1.contains_key(x) && self@[x] == m1[x] by {
                        let j = choose|j: int| 0 <= j < es1.len() && (#[trigger] es1[j]).0@ == x;
                        let a = if j < i { j } else { j + 1 };
                        assert(es1[j] == es0[a]);
                        assert(es0[a].0@ == x);
                        if x == k {
                            if a < i {
                                assert(es0[a].0@ != es0[i as int].0@);
                            }
                            if a > i {
                                assert(es0[i as int].0@ != es0[a].0@);
                            }
                            assert(false);
                        }
                        assert(has_key(es0, x));
                        assert(old(self)@.contains_key(x));
                        assert(self@[x] == es1[j].1@);
                        assert(old(self)@[x] == es0[a].1@);
                    }
                    assert forall|x: Seq<char>| #[trigger] m1.contains_key(x) implies
                        self@.contains_key(x) by {
                        assert(old(self)@.contains_key(x));
                        assert(has_key(es0, x));
                        let j = choose|j: int| 0 <= j < es0.len() && (#[trigger] es0[j]).0@ == x;
                        assert(j != i);
                        let b = if j < i { j } else { j - 1 };
                        assert(es1[b] == es0[j]);
                        assert(es1[b].0@ == x);
                        assert(has_key(es1, x));
                    }
                    assert(self@ =~= m1);
                }
                return;
            }
            i = i + 1;
        }
        proof {
            if has_key(es0, key@) {
                let j = choose|j: int| 0 <= j < es0.len() && (#[trigger] es0[j]).0@ == key@;
                assert(false);
            }
            assert(self@ =~= old(self)@.remove(key@));
        }
    }

    /// Checks every attribute key against the validation rules.
    pub fn validate(&self) -> (r: bool)
        requires
            self.wf(),
        ensures
            r == self.keys_valid(),
    {
        proof {
            self.lemma_view();
        }
        let mut i: usize = 0;
        while i < self.entries.len()
            invariant
                self.wf(),
                i <= self.entries@.len(),
                forall|j: int| 0 <= j < i ==> valid_key((#[trigger] self.entries@[j]).0@),
            decreases self.entries@.len() - i,
        {
            if !validate_attribute(&self.entries[i].0) {
                proof {
                    self.lemma_view();
                    assert(self@.contains_key(self.entries@[i as int].0@));
                    assert(!valid_key(self.entries@[i as int].0@));
                }
                return false;
            }
            i = i + 1;
        }
        proof {
            self.lemma_view();
            assert forall|k: Seq<char>| #[trigger] self@.contains_key(k) implies valid_key(k) by {
                let j = choose|j: int|
                    0 <= j < self.entries@.len() && (#[trigger] self.entries@[j]).0@ == k;
            }
        }
        true
    }

    /// A copy of the map with the same model.
    pub fn clone_of(&self) -> (r: Attributes)
        requires
            self.wf(),
        ensures
            r.wf(),
            r@ == self@,
            r.entries@.len() == self.entries@.len(),
            forall|i: int|
                0 <= i < self.entries@.len() ==> (#[trigger] r.entries@[i]).0@
                    == self.entries@[i].0@ && r.entries@[i].1@ == self.entries@[i].1@,
    {
        let mut entries: Vec<(String, MetadataValue)> = Vec::new();
        let mut i: usize = 0;
        while i < self.entries.len()
            invariant
                i <= self.entries@.len(),
                entries@.len() == i,
                forall|j: int|
                    0 <= j < i ==> (#[trigger] entries@[j]).0@ == self.entries@[j].0@
                        && entries@[j].1@ == self.entries@[j].1@,
            decreases self.entries@.len() - i,
        {
            let k = self.entries[i].0.clone();
            let v = value_clone(&self.entries[i].1);
            entries.push((k, v));
            i = i + 1;
        }
        let r = Attributes { entries };
        proof {
            assert(r.wf());
            r.lemma_view();
            self.lemma_view();
            assert forall|x: Seq<char>| #[trigger] has_key(r.entries@, x) implies has_key(
                self.entries@,
                x,
            ) by {
                let j = choose|j: int|
                    0 <= j < r.entries@.len() && (#[trigger] r.entries@[j]).0@ == x;
                assert(self.entries@[j].0@ == x);
            }
            assert forall|x: Seq<char>| #[trigger] has_key(self.entries@, x) implies has_key(
                r.entries@,
                x,
            ) by {
                let j = choose|j: int|
                    0 <= j < self.entries@.len() && (#[trigger] self.entries@[j]).0@ == x;
                assert(r.entries@[j].0@ == x);
            }
            assert forall|x: Seq<char>| #[trigger] r@.contains_key(x) implies r@[x] == self@[x] by {
                let j = choose|j: int|
                    0 <= j < r.entries@.len() && (#[trigger] r.entries@[j]).0@ == x;
            }
            assert(r@ =~= self@);
        }
        r
    }
}

} // verus!
