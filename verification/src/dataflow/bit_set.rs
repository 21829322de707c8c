//! A bit-packed set over dense integer keys.
//!
//! Storage is packed into 8-bit words; the capacity is fixed at construction
//! and every operation keeps it. The in-place `union`, `intersection` and
//! `difference` expect a same-sized peer.

use vstd::prelude::*;

verus! {

/// A set of small integers, one bit per possible member.
pub struct BitSet {
    bits: Vec<u8>,
}

impl BitSet {
    /// How many members the set can hold.
    pub closed spec fn capacity(self) -> int {
        8 * self.bits@.len() as int
    }

    /// The underlying words.
    pub closed spec fn words(self) -> Seq<u8> {
        self.bits@
    }

    /// Is `i` a member?
    pub closed spec fn contains(self, i: int) -> bool {
        &&& 0 <= i < self.capacity()
        &&& (self.bits@[i / 8] >> ((i % 8) as u8)) & 1 == 1
    }

    /// The members as a mathematical set.
    pub open spec fn view(self) -> Set<int> {
        Set::new(|i: int| self.contains(i))
    }

    /// An all-zero set able to hold `len` members.
    pub fn new(len: usize) -> (r: Self)
        ensures
            r.capacity() == 8 * ((len + 7) / 8),
            len <= r.capacity() < len + 8,
            forall|i: int| !(#[trigger] r.contains(i)),
    {
        let nbytes = if len % 8 == 0 { len / 8 } else { len / 8 + 1 };
        let mut bits: Vec<u8> = Vec::with_capacity(nbytes);
        let mut i: usize = 0;
        while i < nbytes
            invariant
                0 <= i <= nbytes,
                bits@.len() == i,
                forall|j: int| 0 <= j < i ==> bits@[j] == 0u8,
            decreases nbytes - i,
        {
            bits.push(0u8);
            i = i + 1;
        }
        let r = BitSet { bits };
        proof {
            assert(forall|k: u8| k < 8 ==> (0u8 >> k) & 1 == 0) by (bit_vector);
        }
        r
    }

    /// An all-one set able to hold `len` members. Every slot up to the
    /// capacity is a member, the padding bits of the last word included.
    pub fn full(len: usize) -> (r: Self)
        ensures
            r.capacity() == 8 * ((len + 7) / 8),
            len <= r.capacity() < len + 8,
            forall|i: int| #[trigger] r.contains(i) <==> 0 <= i < r.capacity(),
    {
        let nbytes = if len % 8 == 0 { len / 8 } else { len / 8 + 1 };
        let mut bits: Vec<u8> = Vec::with_capacity(nbytes);
        let mut i: usize = 0;
        while i < nbytes
            invariant
                0 <= i <= nbytes,
                bits@.len() == i,
                forall|j: int| 0 <= j < i ==> bits@[j] == 0xffu8,
            decreases nbytes - i,
        {
            bits.push(0xffu8);
            i = i + 1;
        }
        let r = BitSet { bits };
        proof {
            assert(forall|k: u8| k < 8 ==> (0xffu8 >> k) & 1 == 1) by (bit_vector);
        }
        r
    }

    /// Add `index` to the set.
    pub fn insert(&mut self, index: usize)
        requires
            index < old(self).capacity(),
        ensures
            final(self).capacity() == old(self).capacity(),
            forall|i: int| #[trigger] final(self).contains(i)
                <==> old(self).contains(i) || i == index,
    {
        let pos = index / 8;
        let offset = (index % 8) as u8;
        let cur = self.bits[pos];
        let slot = &mut self.bits[pos];
        *slot = cur | (1u8 << offset);
        proof {
            let b = cur;
            let k = offset;
            assert(forall|j: u8| j < 8 && j != k
                ==> ((b | (1u8 << k)) >> j) & 1 == (b >> j) & 1) by (bit_vector);
            assert(k < 8 ==> ((b | (1u8 << k)) >> k) & 1 == 1) by (bit_vector);
        }
    }

    /// Take `index` out of the set.
    pub fn remove(&mut self, index: usize)
        requires
            index < old(self).capacity(),
        ensures
            final(self).capacity() == old(self).capacity(),
            forall|i: int| #[trigger] final(self).contains(i)
                <==> old(self).contains(i) && i != index,
    {
        let pos = index / 8;
        let offset = (index % 8) as u8;
        let cur = self.bits[pos];
        let slot = &mut self.bits[pos];
        *slot = cur & !(1u8 << offset);
        proof {
            let b = cur;
            let k = offset;
            assert(forall|j: u8| j < 8 && j != k
                ==> ((b & !(1u8 << k)) >> j) & 1 == (b >> j) & 1) by (bit_vector);
            assert(k < 8 ==> ((b & !(1u8 << k)) >> k) & 1 == 0) by (bit_vector);
        }
    }

    /// Is `index` a member?
    pub fn get(&self, index: usize) -> (r: bool)
        requires
            index < self.capacity(),
        ensures
            r == self.contains(index as int),
    {
        let pos = index / 8;
        let offset = (index % 8) as u8;
        ((self.bits[pos] >> offset) & 1) == 1
    }

    /// Grow the set in place to the union with `other`.
    pub fn union(&mut self, other: &Self)
        requires
            old(self).capacity() == other.capacity(),
        ensures
            final(self).capacity() == old(self).capacity(),
            forall|i: int| #[trigger] final(self).contains(i)
                <==> old(self).contains(i) || other.contains(i),
    {
        proof {
            assert(forall|a: u8, b: u8, j: u8| j < 8
                ==> (((a | b) >> j) & 1 == 1
                    <==> ((a >> j) & 1 == 1 || (b >> j) & 1 == 1))) by (bit_vector);
        }
        let n = self.bits.len();
        let mut pos: usize = 0;
        while pos < n
            invariant
                n == self.bits@.len(),
                n == old(self).bits@.len(),
                n == other.bits@.len(),
                0 <= pos <= n,
                forall|j: int| pos <= j < n ==> self.bits@[j] == old(self).bits@[j],
                forall|j: int| 0 <= j < pos
                    ==> #[trigger] self.bits@[j] == (old(self).bits@[j] | other.bits@[j]),
            decreases n - pos,
        {
            let merged = self.bits[pos] | other.bits[pos];
            let slot = &mut self.bits[pos];
            *slot = merged;
            pos = pos + 1;
        }
        proof {
            assert forall|i: int| final(self).contains(i)
                <==> old(self).contains(i) || other.contains(i) by {
                if 0 <= i < old(self).capacity() {
                    assert(self.bits@[i / 8] == (old(self).bits@[i / 8] | other.bits@[i / 8]));
                }
            }
        }
    }

    /// Shrink the set in place to the intersection with `other`.
    pub fn intersection(&mut self, other: &Self)
        requires
            old(self).capacity() == other.capacity(),
        ensures
            final(self).capacity() == old(self).capacity(),
            forall|i: int| #[trigger] final(self).contains(i)
                <==> old(self).contains(i) && other.contains(i),
    {
        proof {
            assert(forall|a: u8, b: u8, j: u8| j < 8
                ==> (((a & b) >> j) & 1 == 1
                    <==> ((a >> j) & 1 == 1 && (b >> j) & 1 == 1))) by (bit_vector);
        }
        let n = self.bits.len();
        let mut pos: usize = 0;
        while pos < n
            invariant
                n == self.bits@.len(),
                n == old(self).bits@.len(),
                n == other.bits@.len(),
                0 <= pos <= n,
                forall|j: int| pos <= j < n ==> self.bits@[j] == old(self).bits@[j],
                forall|j: int| 0 <= j < pos
                    ==> #[trigger] self.bits@[j] == (old(self).bits@[j] & other.bits@[j]),
            decreases n - pos,
        {
            let merged = self.bits[pos] & other.bits[pos];
            let slot = &mut self.bits[pos];
            *slot = merged;
            pos = pos + 1;
        }
        proof {
            assert forall|i: int| final(self).contains(i)
                <==> old(self).contains(i) && other.contains(i) by {
                if 0 <= i < old(self).capacity() {
                    assert(self.bits@[i / 8] == (old(self).bits@[i / 8] & other.bits@[i / 8]));
                }
            }
        }
    }

    /// Shrink the set in place to the difference with `other`.
    pub fn difference(&mut self, other: &Self)
        requires
            old(self).capacity() == other.capacity(),
        ensures
            final(self).capacity() == old(self).capacity(),
            forall|i: int| #[trigger] final(self).contains(i)
                <==> old(self).contains(i) && !other.contains(i),
    {
        proof {
            assert(forall|a: u8, b: u8, j: u8| j < 8
                ==> (((a & !b) >> j) & 1 == 1
                    <==> ((a >> j) & 1 == 1 && !((b >> j) & 1 == 1)))) by (bit_vector);
        }
        let n = self.bits.len();
        let mut pos: usize = 0;
        while pos < n
            invariant
                n == self.bits@.len(),
                n == old(self).bits@.len(),
                n == other.bits@.len(),
                0 <= pos <= n,
                forall|j: int| pos <= j < n ==> self.bits@[j] == old(self).bits@[j],
                forall|j: int| 0 <= j < pos
                    ==> #[trigger] self.bits@[j] == (old(self).bits@[j] & !other.bits@[j]),
            decreases n - pos,
        {
            let merged = self.bits[pos] & !other.bits[pos];
            let slot = &mut self.bits[pos];
            *slot = merged;
            pos = pos + 1;
        }
        proof {
            assert forall|i: int| final(self).contains(i)
                <==> old(self).contains(i) && !other.contains(i) by {
                if 0 <= i < old(self).capacity() {
                    assert(self.bits@[i / 8] == (old(self).bits@[i / 8] & !other.bits@[i / 8]));
                }
            }
        }
    }

    /// A Boolean for each slot, in ascending index order.
    pub fn iter(&self) -> (r: Vec<bool>)
        requires
            self.capacity() <= usize::MAX,
        ensures
            r@.len() == self.capacity(),
            forall|i: int| 0 <= i < r@.len() ==> r@[i] == self.contains(i),
    {
        let nbytes = self.bits.len();
        let n = nbytes * 8;
        let mut out: Vec<bool> = Vec::with_capacity(n);
        let mut i: usize = 0;
        while i < n
            invariant
                n == 8 * self.bits@.len(),
                n == self.capacity(),
                0 <= i <= n,
                out@.len() == i,
                forall|j: int| 0 <= j < i ==> out@[j] == self.contains(j),
            decreases n - i,
        {
            out.push(self.get(i));
            i = i + 1;
        }
        out
    }

    /// Do the two sets hold exactly the same words?
    pub fn same(&self, other: &Self) -> (r: bool)
        requires
            self.capacity() == other.capacity(),
        ensures
            r == (self.words() == other.words()),
            r ==> forall|i: int| #[trigger] self.contains(i) == other.contains(i),
    {
        let n = self.bits.len();
        let mut pos: usize = 0;
        let mut eq = true;
        while pos < n
            invariant
                n == self.bits@.len(),
                n == other.bits@.len(),
                0 <= pos <= n,
                eq <==> forall|j: int| 0 <= j < pos ==> self.bits@[j] == other.bits@[j],
            decreases n - pos,
        {
            if self.bits[pos] != other.bits[pos] {
                eq = false;
            }
            pos = pos + 1;
        }
        proof {
            if eq {
                assert(self.bits@ =~= other.bits@);
            }
        }
        eq
    }
}

} // verus!


verus! {

/// A capacity is never negative.
pub proof fn lemma_capacity_nonneg(s: BitSet)
    ensures
        s.capacity() >= 0,
{
}

/// How many of the slots below `k` are members of `s`.
pub open spec fn count_below(s: BitSet, k: int) -> int
    decreases k,
{
    if k <= 0 {
        0
    } else {
        count_below(s, k - 1) + if s.contains(k - 1) {
            1int
        } else {
            0int
        }
    }
}

/// The member count below `k` lies between zero and `k`.
pub proof fn lemma_count_below_bounds(s: BitSet, k: int)
    requires
        k >= 0,
    ensures
        0 <= count_below(s, k) <= k,
    decreases k,
{
    if k > 0 {
        lemma_count_below_bounds(s, k - 1);
    }
}

/// A subset has at most as many members.
pub proof fn lemma_count_below_le(a: BitSet, b: BitSet, k: int)
    requires
        forall|i: int| 0 <= i < k && #[trigger] a.contains(i) ==> b.contains(i),
    ensures
        count_below(a, k) <= count_below(b, k),
    decreases k,
{
    if k > 0 {
        lemma_count_below_le(a, b, k - 1);
    }
}

/// A proper subset, witnessed at `w`, has strictly fewer members.
pub proof fn lemma_count_below_lt(a: BitSet, b: BitSet, k: int, w: int)
    requires
        forall|i: int| 0 <= i < k && #[trigger] a.contains(i) ==> b.contains(i),
        0 <= w < k,
        !a.contains(w),
        b.contains(w),
    ensures
        count_below(a, k) < count_below(b, k),
    decreases k,
{
    if w == k - 1 {
        lemma_count_below_le(a, b, k - 1);
    } else {
        lemma_count_below_lt(a, b, k - 1, w);
    }
}

/// Two sets of the same capacity with the same members hold the same words.
pub proof fn lemma_same_members_same_words(a: BitSet, b: BitSet)
    requires
        a.capacity() == b.capacity(),
        forall|i: int| #[trigger] a.contains(i) == b.contains(i),
    ensures
        a.words() == b.words(),
{
    assert forall|j: int| 0 <= j < a.bits@.len() implies #[trigger] a.bits@[j]
        == b.bits@[j] by {
        let x = a.bits@[j];
        let y = b.bits@[j];
        assert(a.contains(8 * j + 0) == b.contains(8 * j + 0));
        assert(a.contains(8 * j + 1) == b.contains(8 * j + 1));
        assert(a.contains(8 * j + 2) == b.contains(8 * j + 2));
        assert(a.contains(8 * j + 3) == b.contains(8 * j + 3));
        assert(a.contains(8 * j + 4) == b.contains(8 * j + 4));
        assert(a.contains(8 * j + 5) == b.contains(8 * j + 5));
        assert(a.contains(8 * j + 6) == b.contains(8 * j + 6));
        assert(a.contains(8 * j + 7) == b.contains(8 * j + 7));
        assert(((x >> 0u8) & 1 == 1) == ((y >> 0u8) & 1 == 1));
        assert(((x >> 1u8) & 1 == 1) == ((y >> 1u8) & 1 == 1));
        assert(((x >> 2u8) & 1 == 1) == ((y >> 2u8) & 1 == 1));
        assert(((x >> 3u8) & 1 == 1) == ((y >> 3u8) & 1 == 1));
        assert(((x >> 4u8) & 1 == 1) == ((y >> 4u8) & 1 == 1));
        assert(((x >> 5u8) & 1 == 1) == ((y >> 5u8) & 1 == 1));
        assert(((x >> 6u8) & 1 == 1) == ((y >> 6u8) & 1 == 1));
        assert(((x >> 7u8) & 1 == 1) == ((y >> 7u8) & 1 == 1));
        assert(x == y) by (bit_vector)
            requires
                ((x >> 0u8) & 1 == 1) == ((y >> 0u8) & 1 == 1),
                ((x >> 1u8) & 1 == 1) == ((y >> 1u8) & 1 == 1),
                ((x >> 2u8) & 1 == 1) == ((y >> 2u8) & 1 == 1),
                ((x >> 3u8) & 1 == 1) == ((y >> 3u8) & 1 == 1),
                ((x >> 4u8) & 1 == 1) == ((y >> 4u8) & 1 == 1),
                ((x >> 5u8) & 1 == 1) == ((y >> 5u8) & 1 == 1),
                ((x >> 6u8) & 1 == 1) == ((y >> 6u8) & 1 == 1),
                ((x >> 7u8) & 1 == 1) == ((y >> 7u8) & 1 == 1),
        ;
    }
    assert(a.words() =~= b.words());
}

/// If the words differ but one member set contains the other, some slot is
/// in the larger set alone.
pub proof fn lemma_proper_subset_witness(a: BitSet, b: BitSet) -> (w: int)
    requires
        a.capacity() == b.capacity(),
        a.words() != b.words(),
        forall|i: int| #[trigger] a.contains(i) ==> b.contains(i),
    ensures
        0 <= w < b.capacity(),
        !a.contains(w),
        b.contains(w),
{
    if forall|i: int| #[trigger] a.contains(i) == b.contains(i) {
        lemma_same_members_same_words(a, b);
        assert(false);
    }
    let i = choose|i: int| !(#[trigger] a.contains(i) == b.contains(i));
    i
}

} // verus!
