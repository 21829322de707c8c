//! Dense maps keyed by typed integer newtypes.
//!
//! Every cross-phase handle (a local, a basic block, a label) is an opaque
//! dense integer whose namespace belongs to the owning collection. An
//! [`IndexMap`] is a vector indexed by such a handle; pushing assigns the next
//! key, and removal is not offered, which preserves density.

use vstd::prelude::*;

verus! {

/// A typed dense index: a newtype around a small integer.
pub trait Index: Sized + Copy {
    /// The integer behind the index.
    spec fn as_int(self) -> int;

    /// Wrap an integer as an index.
    fn new(index: usize) -> (r: Self)
        ensures
            r.as_int() == index,
    ;

    /// The integer behind the index, at run time.
    fn index(self) -> (r: usize)
        ensures
            r as int == self.as_int(),
    ;
}

/// A dense map from a typed index `K` to values `V`, backed by a vector.
///
/// The key of a value is its position: `push` hands out the key equal to the
/// prior length.
pub struct IndexMap<K, V> {
    inner: Vec<V>,
    marker: core::marker::PhantomData<K>,
}

impl<K, V> View for IndexMap<K, V> {
    type V = Seq<V>;

    closed spec fn view(&self) -> Seq<V> {
        self.inner@
    }
}

impl<K: Index, V> IndexMap<K, V> {
    /// An empty map.
    pub fn new() -> (r: Self)
        ensures
            r@.len() == 0,
    {
        IndexMap { inner: Vec::new(), marker: core::marker::PhantomData }
    }

    /// An empty map with room reserved for `cap` values.
    pub fn with_capacity(cap: usize) -> (r: Self)
        ensures
            r@.len() == 0,
    {
        IndexMap { inner: Vec::with_capacity(cap), marker: core::marker::PhantomData }
    }

    /// A map holding `len` values produced by calling `f` once per slot.
    pub fn repeat<F: Fn() -> V>(f: F, len: usize) -> (r: Self)
        requires
            f.requires(()),
        ensures
            r@.len() == len,
            forall|i: int| 0 <= i < len ==> #[trigger] f.ensures((), r@[i]),
    {
        let mut inner: Vec<V> = Vec::with_capacity(len);
        for k in 0..len
            invariant
                inner@.len() == k,
                f.requires(()),
                forall|i: int| 0 <= i < k ==> #[trigger] f.ensures((), inner@[i]),
        {
            inner.push(f());
        }
        IndexMap { inner, marker: core::marker::PhantomData }
    }

    /// The number of values held.
    pub fn len(&self) -> (r: usize)
        ensures
            r == self@.len(),
    {
        self.inner.len()
    }

    /// Append a value; its key is the prior length.
    pub fn push(&mut self, value: V) -> (k: K)
        ensures
            final(self)@ == old(self)@.push(value),
            k.as_int() == old(self)@.len(),
    {
        let k = K::new(self.inner.len());
        self.inner.push(value);
        k
    }

    /// Read the value at `key`, if the key is within bounds.
    pub fn get(&self, key: K) -> (r: Option<&V>)
        ensures
            match r {
                Some(v) => 0 <= key.as_int() < self@.len() && *v == self@[key.as_int()],
                None => !(0 <= key.as_int() < self@.len()),
            },
    {
        let i = key.index();
        if i < self.inner.len() {
            Some(&self.inner[i])
        } else {
            None
        }
    }

    /// Read the value at `key`, which must be within bounds.
    pub fn at(&self, key: K) -> (r: &V)
        requires
            0 <= key.as_int() < self@.len(),
        ensures
            *r == self@[key.as_int()],
    {
        let i = key.index();
        &self.inner[i]
    }

    /// Borrow the value at `key` mutably; the key must be within bounds.
    pub fn get_mut(&mut self, key: K) -> (r: &mut V)
        requires
            0 <= key.as_int() < old(self)@.len(),
        ensures
            *r == old(self)@[key.as_int()],
            final(self)@ == old(self)@.update(key.as_int(), *final(r)),
    {
        let i = key.index();
        &mut self.inner[i]
    }

    /// Give up the map and hand back the backing vector.
    pub fn into_inner(self) -> (r: Vec<V>)
        ensures
            r@ == self@,
    {
        self.inner
    }

    /// All keys, in insertion order.
    pub fn keys(&self) -> (r: Vec<K>)
        ensures
            r@.len() == self@.len(),
            forall|i: int| 0 <= i < r@.len() ==> (#[trigger] r@[i]).as_int() == i,
    {
        let n = self.inner.len();
        let mut keys: Vec<K> = Vec::with_capacity(n);
        for k in 0..n
            invariant
                keys@.len() == k,
                forall|i: int| 0 <= i < k ==> (#[trigger] keys@[i]).as_int() == i,
        {
            keys.push(K::new(k));
        }
        keys
    }
}

impl<K: Index, V: Copy> IndexMap<K, V> {
    /// All key/value pairs, in insertion order.
    pub fn iter(&self) -> (r: Vec<(K, V)>)
        ensures
            r@.len() == self@.len(),
            forall|i: int| 0 <= i < r@.len() ==> (#[trigger] r@[i]).0.as_int() == i
                && r@[i].1 == self@[i],
    {
        let n = self.inner.len();
        let mut pairs: Vec<(K, V)> = Vec::with_capacity(n);
        for k in 0..n
            invariant
                n == self@.len(),
                pairs@.len() == k,
                forall|i: int| 0 <= i < k ==> (#[trigger] pairs@[i]).0.as_int() == i
                    && pairs@[i].1 == self@[i],
        {
            pairs.push((K::new(k), self.inner[k]));
        }
        pairs
    }
}

} // verus!
