//! A map kept as a vector of entries sorted by key, searched by bisection.
use vstd::prelude::*;
use vstd::laws_cmp::{obeys_cmp, obeys_cmp_ord, obeys_partial_cmp_spec_properties};
use vstd::std_specs::cmp::{OrdSpec, PartialOrdSpec};
use std::cmp::Ordering;

verus! {

/// `a` sorts before `b`.
pub open spec fn key_lt<K: Ord>(a: K, b: K) -> bool {
    a.cmp_spec(&b) == Ordering::Less
}

/// `a` and `b` are equal keys.
pub open spec fn key_eq<K: Ord>(a: K, b: K) -> bool {
    a.cmp_spec(&b) == Ordering::Equal
}

/// Ordering of keys is transitive, and reverses when the sides swap.
proof fn lemma_cmp_laws<K: Ord>()
    requires
        obeys_cmp::<K>(),
    ensures
        K::obeys_cmp_spec(),
        forall|x: K, y: K, z: K| #[trigger] key_lt(x, y) && #[trigger] key_lt(y, z) ==> key_lt(x, z),
        forall|x: K, y: K|
            #[trigger] x.cmp_spec(&y) == Ordering::Less <==> y.cmp_spec(&x) == Ordering::Greater,
{
    reveal(obeys_partial_cmp_spec_properties);
    reveal(obeys_cmp_ord);
    assert forall|x: K, y: K, z: K| #[trigger] key_lt(x, y) && #[trigger] key_lt(y, z) implies key_lt(x, z) by {
        assert(x.partial_cmp_spec(&y) == Some(x.cmp_spec(&y)));
        assert(y.partial_cmp_spec(&z) == Some(y.cmp_spec(&z)));
        assert(x.partial_cmp_spec(&z) == Some(x.cmp_spec(&z)));
    }
    assert forall|x: K, y: K| #[trigger] x.cmp_spec(&y) == Ordering::Less <==> y.cmp_spec(&x) == Ordering::Greater by {
        assert(x.partial_cmp_spec(&y) == Some(x.cmp_spec(&y)));
        assert(y.partial_cmp_spec(&x) == Some(y.cmp_spec(&x)));
    }
}

/// Entries sorted by strictly increasing key.
pub struct FlatMap<K, V>(Vec<(K, V)>);

impl<K, V> View for FlatMap<K, V> {
    type V = Seq<(K, V)>;

    /// The entries, in increasing order of key.
    closed spec fn view(&self) -> Seq<(K, V)> {
        self.0@
    }
}

impl<K: Ord, V> FlatMap<K, V> {
    /// Keys strictly increase along the entries.
    pub open spec fn sorted(&self) -> bool {
        forall|i: int, j: int| 0 <= i < j < self@.len() ==> key_lt(#[trigger] self@[i].0, #[trigger] self@[j].0)
    }

    /// Some entry has a key equal to `k`.
    pub open spec fn has_key(&self, k: K) -> bool {
        exists|i: int| 0 <= i < self@.len() && key_eq(#[trigger] self@[i].0, k)
    }

    /// An empty map.
    pub fn new() -> (r: Self)
        ensures
            r@ == Seq::<(K, V)>::empty(),
            r.sorted(),
    {
        FlatMap(Vec::new())
    }

    pub fn len(&self) -> (r: usize)
        ensures
            r == self@.len(),
    {
        self.0.len()
    }

    pub fn is_empty(&self) -> (r: bool)
        ensures
            r == (self@.len() == 0),
    {
        self.0.len() == 0
    }

    /// The entries, in increasing order of key.
    pub fn as_slice(&self) -> (r: &[(K, V)])
        ensures
            r@ == self@,
    {
        self.0.as_slice()
    }

    /// Where `key` is (`Ok`), or where it would go to keep the order (`Err`).
    fn find(&self, key: &K) -> (r: Result<usize, usize>)
        requires
            obeys_cmp::<K>(),
            self.sorted(),
        ensures
            r matches Ok(i) ==> i < self@.len() && key_eq(self@[i as int].0, *key),
            r matches Err(i) ==> i <= self@.len() && (forall|j: int| 0 <= j < i ==> key_lt(#[trigger] self@[j].0, *key))
                && (forall|j: int| i <= j < self@.len() ==> key_lt(*key, #[trigger] self@[j].0)),
    {
        proof {
            lemma_cmp_laws::<K>();
        }
        let mut lo: usize = 0;
        let mut hi: usize = self.0.len();
        while lo < hi
            invariant
                obeys_cmp::<K>(),
                K::obeys_cmp_spec(),
                self.sorted(),
                lo <= hi <= self@.len(),
                forall|j: int| 0 <= j < lo ==> key_lt(#[trigger] self@[j].0, *key),
                forall|j: int| hi <= j < self@.len() ==> key_lt(*key, #[trigger] self@[j].0),
                forall|x: K, y: K, z: K| #[trigger] key_lt(x, y) && #[trigger] key_lt(y, z) ==> key_lt(x, z),
                forall|x: K, y: K|
                    #[trigger] x.cmp_spec(&y) == Ordering::Less <==> y.cmp_spec(&x) == Ordering::Greater,
            decreases hi - lo,
        {
            let mid = lo + (hi - lo) / 2;
            match self.0[mid].0.cmp(key) {
                Ordering::Less => {
                    proof {
                        assert(key_lt(self@[mid as int].0, *key));
                        assert forall|j: int| 0 <= j < mid + 1 implies key_lt(#[trigger] self@[j].0, *key) by {
                            if j < mid {
                                assert(key_lt(self@[j].0, self@[mid as int].0));
                                assert(key_lt(self@[mid as int].0, *key));
                            }
                        }
                    }
                    lo = mid + 1;
                },
                Ordering::Greater => {
                    proof {
                        assert(key_lt(*key, self@[mid as int].0));
                        assert forall|j: int| mid <= j < self@.len() implies key_lt(*key, #[trigger] self@[j].0) by {
                            if j > mid {
                                assert(key_lt(self@[mid as int].0, self@[j].0));
                            }
                        }
                    }
                    hi = mid;
                },
                Ordering::Equal => {
                    return Ok(mid);
                },
            }
        }
        Err(lo)
    }

    proof fn lemma_absent(&self, key: K, i: int)
        requires
            obeys_cmp::<K>(),
            0 <= i <= self@.len(),
            forall|j: int| 0 <= j < i ==> key_lt(#[trigger] self@[j].0, key),
            forall|j: int| i <= j < self@.len() ==> key_lt(key, #[trigger] self@[j].0),
        ensures
            !self.has_key(key),
    {
        lemma_cmp_laws::<K>();
        if self.has_key(key) {
            let j = choose|j: int| 0 <= j < self@.len() && key_eq(#[trigger] self@[j].0, key);
            if j >= i {
                assert(key_lt(key, self@[j].0));
                assert(self@[j].0.cmp_spec(&key) == Ordering::Greater);
            }
        }
    }

    /// Sets the value of `key`; returns the value it replaced, if any. An
    /// existing entry keeps its key.
    pub fn insert(&mut self, key: K, value: V) -> (r: Option<V>)
        requires
            obeys_cmp::<K>(),
            old(self).sorted(),
        ensures
            final(self).sorted(),
            r is Some <==> old(self).has_key(key),
            r matches Some(v) ==> exists|i: int|
                0 <= i < old(self)@.len() && key_eq(#[trigger] old(self)@[i].0, key) && v == old(self)@[i].1
                    && final(self)@ == old(self)@.update(i, (old(self)@[i].0, value)),
            r is None ==> exists|i: int| 0 <= i <= old(self)@.len() && final(self)@ == old(self)@.insert(i, (key, value)),
    {
        proof {
            lemma_cmp_laws::<K>();
        }
        match self.find(&key) {
            Ok(index) => {
                let ghost s0 = self@;
                let (k, prev_value) = self.0.remove(index);
                self.0.insert(index, (k, value));
                proof {
                    assert(self@ =~= s0.update(index as int, (s0[index as int].0, value)));
                    assert(self.sorted()) by {
                        assert forall|i: int, j: int| 0 <= i < j < self@.len() implies key_lt(#[trigger] self@[i].0, #[trigger] self@[j].0) by {
                            assert(key_lt(s0[i].0, s0[j].0));
                        }
                    }
                    assert(key_eq(s0[index as int].0, key));
                }
                Some(prev_value)
            },
            Err(index) => {
                let ghost s0 = self@;
                proof {
                    self.lemma_absent(key, index as int);
                }
                self.0.insert(index, (key, value));
                proof {
                    assert forall|i: int, j: int| 0 <= i < j < self@.len() implies key_lt(#[trigger] self@[i].0, #[trigger] self@[j].0) by {
                        if j < index {
                            assert(key_lt(s0[i].0, s0[j].0));
                        } else if j == index {
                            assert(key_lt(s0[i].0, key));
                        } else if i < index {
                            assert(key_lt(s0[i].0, key));
                            assert(key_lt(key, s0[j - 1].0));
                        } else if i == index {
                            assert(key_lt(key, s0[j - 1].0));
                        } else {
                            assert(key_lt(s0[i - 1].0, s0[j - 1].0));
                        }
                    }
                }
                None
            },
        }
    }

    /// The value of `key`, if the map has it.
    pub fn get(&self, key: &K) -> (r: Option<&V>)
        requires
            obeys_cmp::<K>(),
            self.sorted(),
        ensures
            r is Some <==> self.has_key(*key),
            r matches Some(v) ==> exists|i: int|
                0 <= i < self@.len() && key_eq(#[trigger] self@[i].0, *key) && *v == self@[i].1,
    {
        match self.find(key) {
            Ok(index) => Some(&self.0[index].1),
            Err(index) => {
                proof {
                    self.lemma_absent(*key, index as int);
                }
                None
            },
        }
    }

    /// Takes the entry of `key` out of the map, if it has one.
    pub fn remove_entry(&mut self, key: &K) -> (r: Option<(K, V)>)
        requires
            obeys_cmp::<K>(),
            old(self).sorted(),
        ensures
            final(self).sorted(),
            r is Some <==> old(self).has_key(*key),
            r matches Some(e) ==> exists|i: int|
                0 <= i < old(self)@.len() && key_eq(#[trigger] old(self)@[i].0, *key) && e == old(self)@[i]
                    && final(self)@ == old(self)@.remove(i),
            r is None ==> final(self)@ == old(self)@,
    {
        match self.find(key) {
            Ok(index) => {
                let ghost s0 = self@;
                let e = self.0.remove(index);
                proof {
                    assert forall|i: int, j: int| 0 <= i < j < self@.len() implies key_lt(#[trigger] self@[i].0, #[trigger] self@[j].0) by {
                        if j < index {
                            assert(key_lt(s0[i].0, s0[j].0));
                        } else if i < index {
                            assert(key_lt(s0[i].0, s0[j + 1].0));
                        } else {
                            assert(key_lt(s0[i + 1].0, s0[j + 1].0));
                        }
                    }
                }
                Some(e)
            },
            Err(index) => {
                proof {
                    self.lemma_absent(*key, index as int);
                }
                None
            },
        }
    }

    /// Takes the value of `key` out of the map, if it has one.
    pub fn remove(&mut self, key: &K) -> (r: Option<V>)
        requires
            obeys_cmp::<K>(),
            old(self).sorted(),
        ensures
            final(self).sorted(),
            r is Some <==> old(self).has_key(*key),
            r matches Some(v) ==> exists|i: int|
                0 <= i < old(self)@.len() && key_eq(#[trigger] old(self)@[i].0, *key) && v == old(self)@[i].1
                    && final(self)@ == old(self)@.remove(i),
            r is None ==> final(self)@ == old(self)@,
    {
        match self.remove_entry(key) {
            Some((_, v)) => Some(v),
            None => None,
        }
    }
}

} // verus!
