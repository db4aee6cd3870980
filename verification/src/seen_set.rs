//! Sets of node or block numbers, kept as bit vectors.

use vstd::prelude::*;
use vstd::set_lib::{lemma_int_range, lemma_len_subset, lemma_map_size, set_int_range};

use crate::codes::{lemma_clear_word, lemma_set_bit, lemma_word_bit_range, word_bit};

verus! {

/// A set of numbers. It grows beyond the size that it was made for as needed.
pub struct SeenSet {
    words: Vec<u64>,
    count: u64,
    members: Ghost<Set<u32>>,
}

/// A set of numbers below `bound` has at most that many members.
pub proof fn lemma_len_below(s: Set<u32>, bound: int)
    requires
        s.finite(),
        0 <= bound,
        forall|i: u32| s.contains(i) ==> i < bound,
    ensures
        s.len() <= bound,
{
    let f = |i: u32| i as int;
    let image = s.map(f);
    lemma_map_size(s, image, f);
    lemma_int_range(0, bound);
    assert forall|x: int| image.contains(x) implies set_int_range(0, bound).contains(x) by {}
    lemma_len_subset(image, set_int_range(0, bound));
}

impl View for SeenSet {
    type V = Set<u32>;

    closed spec fn view(&self) -> Set<u32> {
        self.members@
    }
}

impl SeenSet {
    spec fn has_bit(&self, i: u32) -> bool {
        i / 64 < self.words@.len() && word_bit(self.words@[i as int / 64], i as int % 64) == 1
    }

    /// Whether bits, count and members agree.
    pub closed spec fn wf(&self) -> bool {
        &&& self@.finite()
        &&& self.count == self@.len()
        &&& forall|i: u32| #[trigger] self@.contains(i) <==> self.has_bit(i)
    }

    /// The members are finitely many.
    pub proof fn lemma_finite(&self)
        requires
            self.wf(),
        ensures
            self@.finite(),
            self@.len() <= 0x1_0000_0000,
    {
        lemma_len_below(self@, 0x1_0000_0000);
    }

    /// An empty set with room for the numbers below `size`.
    pub fn new(size: usize) -> (set: SeenSet)
        ensures
            set.wf(),
            set@ == Set::<u32>::empty(),
    {
        let words: Vec<u64> = vec![0u64;size / 64 + 1];
        let set = SeenSet { words, count: 0, members: Ghost(Set::empty()) };
        proof {
            assert forall|i: u32| #[trigger] set@.contains(i) <==> set.has_bit(i) by {
                lemma_clear_word(i as int % 64);
            }
        }
        set
    }

    /// Whether `i` is a member.
    pub fn contains(&self, i: &u32) -> (found: bool)
        requires
            self.wf(),
        ensures
            found == self@.contains(*i),
    {
        let word = *i as usize / 64;
        if word >= self.words.len() {
            return false;
        }
        let bit = *i % 64;
        proof {
            assert(self@.contains(*i) <==> self.has_bit(*i));
            lemma_word_bit_range(self.words@[word as int], bit as int);
        }
        (self.words[word] >> bit) & 1 != 0
    }

    /// Adds `i`, and says whether it is new.
    pub fn insert(&mut self, i: u32) -> (new: bool)
        requires
            old(self).wf(),
        ensures
            final(self).wf(),
            final(self)@ == old(self)@.insert(i),
            new == !old(self)@.contains(i),
    {
        if self.contains(&i) {
            assert(self@.insert(i) =~= self@);
            return false;
        }
        let word = i as usize / 64;
        let bit = i % 64;
        let ghost before = *self;
        while self.words.len() <= word
            invariant
                self.wf(),
                self@ == before@,
            decreases word + 1 - self.words@.len(),
        {
            let ghost was = *self;
            self.words.push(0);
            proof {
                assert forall|k: u32| #[trigger] self@.contains(k) <==> self.has_bit(k) by {
                    lemma_clear_word(k as int % 64);
                    assert(was@.contains(k) <==> was.has_bit(k));
                }
            }
        }
        let ghost was = *self;
        proof {
            self.lemma_finite();
        }
        let old_word = self.words[word];
        self.words[word] = old_word | (1u64 << bit);
        self.count = self.count + 1;
        self.members = Ghost(self.members@.insert(i));
        proof {
            assert forall|k: u32| #[trigger] self@.contains(k) <==> self.has_bit(k) by {
                assert(was@.contains(k) <==> was.has_bit(k));
                if k / 64 == i / 64 {
                    lemma_set_bit(old_word, bit as u64, k as int % 64);
                }
            }
        }
        true
    }

    /// The number of members.
    pub fn len(&self) -> (len: usize)
        requires
            self.wf(),
            self@.len() <= usize::MAX,
        ensures
            len == self@.len(),
    {
        self.count as usize
    }

    /// Removes all members.
    pub fn reset(&mut self)
        requires
            old(self).wf(),
        ensures
            final(self).wf(),
            final(self)@ == Set::<u32>::empty(),
    {
        let len = self.words.len();
        for k in 0..len
            invariant
                len == self.words@.len(),
                forall|j: int| 0 <= j < k ==> self.words@[j] == 0,
        {
            self.words[k] = 0;
        }
        self.count = 0;
        self.members = Ghost(Set::empty());
        proof {
            assert forall|i: u32| #[trigger] self@.contains(i) <==> self.has_bit(i) by {
                lemma_clear_word(i as int % 64);
            }
        }
    }
}

impl Clone for SeenSet {
    fn clone(&self) -> (copy: SeenSet)
        ensures
            copy@ == self@,
            self.wf() ==> copy.wf(),
    {
        let copy = SeenSet {
            words: self.words.clone(),
            count: self.count,
            members: Ghost(self.members@),
        };
        assert(copy.words@ =~= self.words@);
        proof {
            if self.wf() {
                assert forall|i: u32| #[trigger] copy@.contains(i) <==> copy.has_bit(i) by {
                    assert(self@.contains(i) <==> self.has_bit(i));
                }
            }
        }
        copy
    }
}

} // verus!
