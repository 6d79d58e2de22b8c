//! A fixed-length set of small naturals packed 64 to a word.
use vstd::prelude::*;

verus! {

/// Bit `j` of `w` is set.
pub open spec fn word_bit(w: u64, j: nat) -> bool {
    j < 64 && ((w >> (j as u64)) & 1u64) == 1u64
}

proof fn lemma_zero_word(j: u64)
    requires
        j < 64,
    ensures
        (0u64 >> j) & 1u64 != 1u64,
{
    assert((0u64 >> j) & 1u64 != 1u64) by (bit_vector)
        requires
            j < 64,
    ;
}

proof fn lemma_set_word(w: u64, k: u64, j: u64)
    requires
        k < 64,
        j < 64,
    ensures
        (((w | (1u64 << k)) >> j) & 1u64 == 1u64) == (j == k || (w >> j) & 1u64 == 1u64),
{
    assert((((w | (1u64 << k)) >> j) & 1u64 == 1u64) == (j == k || (w >> j) & 1u64 == 1u64)) by (bit_vector)
        requires
            k < 64,
            j < 64,
    ;
}

/// Membership bits for `0..len`.
pub struct Bitset {
    words: Vec<u64>,
    len: usize,
}

impl View for Bitset {
    type V = Seq<bool>;

    closed spec fn view(&self) -> Seq<bool> {
        Seq::new(self.len as nat, |i: int| word_bit(self.words@[i / 64], (i % 64) as nat))
    }
}

impl Bitset {
    /// Enough words for every position.
    pub closed spec fn wf(&self) -> bool {
        self.words.len() * 64 >= self.len
    }

    /// No member among `0..len`.
    pub fn new(len: usize) -> (r: Bitset)
        requires
            len < usize::MAX - 64,
        ensures
            r.wf(),
            r@.len() == len,
            forall|i: int| 0 <= i < len ==> !#[trigger] r@[i],
    {
        let words: Vec<u64> = vec![0u64; len / 64 + 1];
        let r = Bitset { words, len };
        proof {
            assert forall|i: int| 0 <= i < len implies !#[trigger] r@[i] by {
                lemma_zero_word((i % 64) as u64);
                assert(r.words@[i / 64] == 0u64);
            }
        }
        r
    }

    /// A copy with the same members.
    pub fn copy(&self) -> (r: Bitset)
        requires
            self.wf(),
        ensures
            r.wf(),
            r@ == self@,
    {
        let words = self.words.clone();
        assert(words@ =~= self.words@);
        Bitset { words, len: self.len }
    }

    /// The number of positions.
    pub fn len(&self) -> (r: usize)
        ensures
            r == self@.len(),
    {
        self.len
    }

    /// Whether `i` is a member.
    pub fn get(&self, i: usize) -> (r: bool)
        requires
            self.wf(),
            i < self@.len(),
        ensures
            r == self@[i as int],
    {
        let w = self.words[i / 64];
        ((w >> ((i % 64) as u64)) & 1u64) == 1u64
    }

    /// Makes `i` a member.
    pub fn set(&mut self, i: usize)
        requires
            old(self).wf(),
            i < old(self)@.len(),
        ensures
            final(self).wf(),
            final(self)@ == old(self)@.update(i as int, true),
    {
        let ghost before = self@;
        let ghost old_words = self.words@;
        let k = i / 64;
        let b = (i % 64) as u64;
        let w = self.words[k] | (1u64 << b);
        self.words.set(k, w);
        proof {
            assert forall|j: int| 0 <= j < before.len() implies #[trigger] self@[j] == before.update(i as int, true)[j] by {
                if j / 64 == k as int {
                    lemma_set_word(old_words[k as int], b, (j % 64) as u64);
                }
            }
            assert(self@ =~= before.update(i as int, true));
        }
    }

    /// Adds `x + k` for every member `x` (members at or past the end are
    /// dropped).
    pub fn shift_or_inplace(&mut self, k: usize)
        requires
            old(self).wf(),
        ensures
            final(self).wf(),
            final(self)@.len() == old(self)@.len(),
            forall|i: int|
                0 <= i < old(self)@.len() ==> #[trigger] final(self)@[i] == (old(self)@[i] || (i >= k
                    && old(self)@[i - k])),
    {
        let ghost before = self@;
        let n = self.len;
        if k == 0 {
            return;
        }
        if k >= n {
            return;
        }
        let mut i: usize = n;
        while i > k
            invariant
                k < i <= n || i == k,
                k > 0,
                n == self@.len(),
                before.len() == n,
                self.wf(),
                forall|j: int| 0 <= j < i ==> #[trigger] self@[j] == before[j],
                forall|j: int| i <= j < n ==> #[trigger] self@[j] == (before[j] || before[j - k]),
            decreases i,
        {
            i -= 1;
            if self.get(i - k) {
                self.set(i);
            }
        }
    }
}

} // verus!
