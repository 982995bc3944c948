//! Fixed-width bit-set over component type indices.
use vstd::prelude::*;
use crate::ComponentType;

verus! {

/// Number of bits held by one word of a [`ComponentTypeSet`].
pub const WORD_BITS: usize = 64;

/// Number of words needed to hold `n` bits.
pub open spec fn words_for(n: nat) -> nat {
    (n + 63) / 64
}

/// `n` bits fit in `words_for(n)` words, with less than a word to spare.
pub proof fn lemma_words_for(n: nat)
    ensures
        n <= words_for(n) * 64 <= n + 63,
{
}

/// Whether bit `b` of `w` is set.
pub open spec fn bit_of(w: u64, b: u64) -> bool {
    (w >> b) & 1u64 == 1u64
}

proof fn lemma_bit_set(w: u64, b: u64, c: u64)
    requires
        b < 64,
        c < 64,
    ensures
        bit_of(w | (1u64 << b), c) == (c == b || bit_of(w, c)),
{
    assert(((w | (1u64 << b)) >> c) & 1u64 == 1u64 <==> (c == b || (w >> c) & 1u64 == 1u64))
        by (bit_vector)
        requires
            b < 64,
            c < 64,
    ;
}

proof fn lemma_bit_cleared(w: u64, b: u64, c: u64)
    requires
        b < 64,
        c < 64,
    ensures
        bit_of(w & !(1u64 << b), c) == (c != b && bit_of(w, c)),
{
    assert(((w & !(1u64 << b)) >> c) & 1u64 == 1u64 <==> (c != b && (w >> c) & 1u64 == 1u64))
        by (bit_vector)
        requires
            b < 64,
            c < 64,
    ;
}

proof fn lemma_zero_has_no_bits(c: u64)
    requires
        c < 64,
    ensures
        !bit_of(0u64, c),
{
    assert((0u64 >> c) & 1u64 != 1u64) by (bit_vector);
}

/// A non-zero word has a set bit below 64.
proof fn lemma_nonzero_has_bit(w: u64) -> (c: u64)
    requires
        w != 0,
    ensures
        c < 64,
        bit_of(w, c),
    decreases w,
{
    if w & 1u64 == 1u64 {
        assert((w >> 0u64) & 1u64 == w & 1u64) by (bit_vector);
        0
    } else {
        let h = w >> 1u64;
        assert(w & 1u64 != 1u64 && w != 0 ==> (w >> 1u64) != 0 && (w >> 1u64) < w) by (bit_vector);
        let c = lemma_nonzero_has_bit(h);
        assert(c < 64 && ((w >> 1u64) >> c) & 1u64 == 1u64 && w & 1u64 != 1u64
            ==> c < 63 && (w >> (c + 1)) & 1u64 == 1u64) by (bit_vector);
        (c + 1) as u64
    }
}

/// A set of component types, stored as an array of 64-bit words: bit `i` of
/// the set is bit `i % 64` of word `i / 64`.
pub struct ComponentTypeSet {
    words: Vec<u64>,
}

impl View for ComponentTypeSet {
    type V = Set<nat>;

    closed spec fn view(&self) -> Set<nat> {
        Set::new(|i: nat| i < self.capacity() && bit_of(self.words@[(i / 64) as int], (i % 64) as u64))
    }
}

impl ComponentTypeSet {
    /// How many component types the set can hold.
    pub closed spec fn capacity(&self) -> nat {
        self.words@.len() * 64
    }

    /// The number of words the set holds.
    pub closed spec fn num_words(&self) -> nat {
        self.words@.len()
    }

    /// An empty set able to hold the types `0 .. num_types`.
    pub fn new(num_types: usize) -> (r: Self)
        ensures
            r@ == Set::<nat>::empty(),
            r.num_words() == words_for(num_types as nat),
            r.capacity() == words_for(num_types as nat) * 64,
    {
        let n: usize = num_types / 64 + if num_types % 64 == 0 { 0 } else { 1 };
        assert(n == words_for(num_types as nat));
        let mut words: Vec<u64> = Vec::new();
        while words.len() < n
            invariant
                words@.len() <= n,
                forall|k: int| 0 <= k < words@.len() ==> words@[k] == 0,
            decreases n - words@.len(),
        {
            words.push(0);
        }
        let r = ComponentTypeSet { words };
        assert forall|i: nat| !r@.contains(i) by {
            if i < r.capacity() {
                lemma_zero_has_no_bits((i % 64) as u64);
            }
        }
        assert(r@ == Set::<nat>::empty());
        r
    }

    /// Whether type `c` is in the set.
    pub fn contains(&self, c: ComponentType) -> (r: bool)
        requires
            c < self.capacity(),
        ensures
            r == self@.contains(c as nat),
    {
        let w = self.words[c / WORD_BITS];
        let b = (c % WORD_BITS) as u64;
        (w >> b) & 1u64 == 1u64
    }

    /// Adds type `c` to the set.
    pub fn insert(&mut self, c: ComponentType)
        requires
            c < old(self).capacity(),
        ensures
            final(self)@ == old(self)@.insert(c as nat),
            final(self).num_words() == old(self).num_words(),
            final(self).capacity() == old(self).capacity(),
    {
        let i = c / WORD_BITS;
        let b = (c % WORD_BITS) as u64;
        let w = self.words[i];
        self.words.set(i, w | (1u64 << b));
        proof {
            assert forall|j: nat| self@.contains(j) == old(self)@.insert(c as nat).contains(j) by {
                if j < self.capacity() {
                    if j / 64 == i as nat {
                        lemma_bit_set(w, b, (j % 64) as u64);
                    }
                }
            }
            assert(self@ == old(self)@.insert(c as nat));
        }
    }

    /// Removes type `c` from the set.
    pub fn remove(&mut self, c: ComponentType)
        requires
            c < old(self).capacity(),
        ensures
            final(self)@ == old(self)@.remove(c as nat),
            final(self).num_words() == old(self).num_words(),
            final(self).capacity() == old(self).capacity(),
    {
        let i = c / WORD_BITS;
        let b = (c % WORD_BITS) as u64;
        let w = self.words[i];
        self.words.set(i, w & !(1u64 << b));
        proof {
            assert forall|j: nat| self@.contains(j) == old(self)@.remove(c as nat).contains(j) by {
                if j < self.capacity() {
                    if j / 64 == i as nat {
                        lemma_bit_cleared(w, b, (j % 64) as u64);
                    }
                }
            }
            assert(self@ == old(self)@.remove(c as nat));
        }
    }

    /// Whether no bit is set in any word.
    pub fn is_empty(&self) -> (r: bool)
        ensures
            r == (self@ == Set::<nat>::empty()),
    {
        let mut i: usize = 0;
        while i < self.words.len()
            invariant
                i <= self.words@.len(),
                forall|k: int| 0 <= k < i ==> self.words@[k] == 0,
            decreases self.words@.len() - i,
        {
            if self.words[i] != 0 {
                proof {
                    let b = lemma_nonzero_has_bit(self.words@[i as int]);
                    let j: nat = (i * 64 + b) as nat;
                    assert(j / 64 == i as nat && j % 64 == b as nat);
                    assert(self@.contains(j));
                }
                return false;
            }
            i = i + 1;
        }
        proof {
            assert forall|j: nat| !self@.contains(j) by {
                if j < self.capacity() {
                    lemma_zero_has_no_bits((j % 64) as u64);
                }
            }
            assert(self@ == Set::<nat>::empty());
        }
        true
    }

    /// Removes every type from the set.
    pub fn clear(&mut self)
        ensures
            final(self)@ == Set::<nat>::empty(),
            final(self).num_words() == old(self).num_words(),
            final(self).capacity() == old(self).capacity(),
    {
        let mut i: usize = 0;
        while i < self.words.len()
            invariant
                i <= self.words@.len(),
                self.words@.len() == old(self).words@.len(),
                forall|k: int| 0 <= k < i ==> self.words@[k] == 0,
            decreases self.words@.len() - i,
        {
            self.words.set(i, 0);
            i = i + 1;
        }
        proof {
            assert forall|j: nat| !self@.contains(j) by {
                if j < self.capacity() {
                    lemma_zero_has_no_bits((j % 64) as u64);
                }
            }
            assert(self@ == Set::<nat>::empty());
        }
    }

    /// The members of the set, in ascending order.
    pub fn to_vec(&self) -> (r: Vec<ComponentType>)
        requires
            self.capacity() <= usize::MAX,
        ensures
            forall|k: int| 0 <= k < r@.len() ==> self@.contains(#[trigger] r@[k] as nat),
            forall|c: nat| self@.contains(c) ==> exists|k: int| 0 <= k < r@.len() && r@[k] == c,
            forall|k1: int, k2: int| 0 <= k1 < k2 < r@.len() ==> r@[k1] < r@[k2],
    {
        let cap: usize = self.words.len() * WORD_BITS;
        let mut r: Vec<ComponentType> = Vec::new();
        let mut c: usize = 0;
        while c < cap
            invariant
                cap == self.capacity(),
                c <= cap,
                forall|k: int| 0 <= k < r@.len() ==> self@.contains(#[trigger] r@[k] as nat),
                forall|k: int| 0 <= k < r@.len() ==> #[trigger] r@[k] < c,
                forall|d: nat| d < c && self@.contains(d) ==> exists|k: int| 0 <= k < r@.len() && r@[k] == d,
                forall|k1: int, k2: int| 0 <= k1 < k2 < r@.len() ==> r@[k1] < r@[k2],
            decreases cap - c,
        {
            let ghost r0 = r@;
            if self.contains(c) {
                r.push(c);
                assert(r@[r@.len() - 1] == c);
            }
            proof {
                assert forall|d: nat| d < c + 1 && self@.contains(d) implies exists|k: int|
                    0 <= k < r@.len() && r@[k] == d by {
                    if d < c {
                        let k0 = choose|k: int| 0 <= k < r0.len() && r0[k] == d;
                        assert(r@[k0] == d);
                    } else {
                        assert(r@[r@.len() - 1] == d);
                    }
                }
            }
            c = c + 1;
        }
        r
    }
}

} // verus!
