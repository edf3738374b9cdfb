//! A dense bit vector backed by 64-bit words.  Bit `i` of a level's mask
//! says whether slot `i` of that level still holds a live entry.

use vstd::prelude::*;

use crate::model::count_true;

verus! {

/// Whether bit `j` (0 <= j < 64) of word `w` is set.
pub open spec fn word_bit(w: u64, j: u64) -> bool {
    (w >> j) & 1u64 == 1u64
}

pub struct Flags {
    pub(crate) words: Vec<u64>,
}

impl View for Flags {
    type V = Seq<bool>;

    closed spec fn view(&self) -> Seq<bool> {
        Seq::new(
            self.words@.len() * 64,
            |i: int| word_bit(self.words@[i / 64], (i % 64) as u64),
        )
    }
}

proof fn lemma_word_bits()
    by (bit_vector)
    ensures
        forall|j: u64| j < 64 ==> !word_bit(0u64, j),
        forall|j: u64| j < 64 ==> word_bit(0xFFFF_FFFF_FFFF_FFFFu64, j),
        forall|j: u64, t: u64|
            j < 64 && 0 < t < 64 ==> #[trigger] word_bit(
                0xFFFF_FFFF_FFFF_FFFFu64 >> ((64 - t) as u64),
                j,
            ) == (j < t),
        forall|w: u64, j: u64, j2: u64|
            j < 64 && j2 < 64 && j != j2 ==> word_bit(w | (1u64 << j), j2) == word_bit(w, j2),
        forall|w: u64, j: u64| j < 64 ==> word_bit(w | (1u64 << j), j),
        forall|w: u64, j: u64, j2: u64|
            j < 64 && j2 < 64 && j != j2 ==> word_bit(
                w & (!(1u64 << j)),
                j2,
            ) == word_bit(w, j2),
        forall|w: u64, j: u64| j < 64 ==> !word_bit(w & (!(1u64 << j)), j),
        forall|w: u64, j: u64| ((w >> j) & 1u64 > 0) == word_bit(w, j),
{
}

impl Flags {
    /// Small enough that a bit index and a bit count always fit in `usize`.
    pub closed spec fn wf(&self) -> bool {
        self.words@.len() * 64 <= usize::MAX as int
    }

    /// All-zero mask with room for at least `sz` bits.
    pub fn nulls(sz: usize) -> (r: Flags)
        requires
            sz <= usize::MAX / 2,
        ensures
            r.wf(),
            r@.len() == 64 * (sz as int / 64 + 1),
            forall|i: int| 0 <= i < r@.len() ==> !r@[i],
    {
        let ln = sz / 64 + 1;
        let mut v: Vec<u64> = Vec::new();
        while v.len() < ln
            invariant
                v@.len() <= ln,
                forall|k: int| 0 <= k < v@.len() ==> v@[k] == 0u64,
            decreases ln - v@.len(),
        {
            v.push(0);
        }
        proof {
            lemma_word_bits();
        }
        Flags { words: v }
    }

    /// Mask whose first `sz` bits are set and all further bits clear.
    pub fn ones(sz: usize) -> (r: Flags)
        requires
            sz <= usize::MAX / 2,
        ensures
            r.wf(),
            r@.len() == 64 * (sz as int / 64 + 1),
            forall|i: int| 0 <= i < r@.len() ==> r@[i] == (i < sz),
    {
        let mut r = Flags::nulls(sz);
        r.set_ones(sz);
        r
    }

    /// Clear every bit, keeping the word count.
    pub fn set_nulls(&mut self)
        requires
            old(self).wf(),
        ensures
            final(self).wf(),
            final(self)@.len() == old(self)@.len(),
            forall|i: int| 0 <= i < final(self)@.len() ==> !final(self)@[i],
    {
        let n = self.words.len();
        let mut k: usize = 0;
        while k < n
            invariant
                n == self.words@.len(),
                k <= n,
                forall|m: int| 0 <= m < k ==> self.words@[m] == 0u64,
            decreases n - k,
        {
            let p = &mut self.words[k];
            *p = 0;
            k += 1;
        }
        proof {
            lemma_word_bits();
        }
    }

    /// Set exactly the first `sz` bits and clear every other bit,
    /// growing the backing words when the mask is too short.
    pub fn set_ones(&mut self, sz: usize)
        requires
            old(self).wf(),
            sz <= usize::MAX / 2,
        ensures
            final(self).wf(),
            final(self)@.len() == if 64 * (sz as int / 64 + 1) <= old(self)@.len() {
                old(self)@.len() as int
            } else {
                64 * (sz as int / 64 + 1)
            },
            forall|i: int| 0 <= i < final(self)@.len() ==> final(self)@[i] == (i < sz),
    {
        let ln = sz / 64 + 1;
        while self.words.len() < ln
            invariant
                old(self).wf(),
                ln == sz as int / 64 + 1,
                ln <= usize::MAX / 64,
                old(self).words@.len() <= self.words@.len(),
                self.words@.len() <= ln || self.words@.len() == old(self).words@.len(),
            decreases ln - self.words@.len(),
        {
            self.words.push(0);
        }
        let n = self.words.len();
        let mut s = sz;
        let mut k: usize = 0;
        proof {
            lemma_word_bits();
        }
        while k < n
            invariant
                n == self.words@.len(),
                ln <= n,
                ln == sz as int / 64 + 1,
                k <= n,
                s == if sz as int - 64 * k >= 0 {
                    sz as int - 64 * k
                } else {
                    0
                },
                forall|i: int|
                    0 <= i < 64 * k ==> #[trigger] word_bit(self.words@[i / 64], (i % 64) as u64)
                        == (i < sz),
            decreases n - k,
        {
            let w: u64 = if s == 0 {
                0
            } else if s < 64 {
                let sh: u64 = (64 - s) as u64;
                0xFFFF_FFFF_FFFF_FFFFu64 >> sh
            } else {
                0xFFFF_FFFF_FFFF_FFFFu64
            };
            let p = &mut self.words[k];
            *p = w;
            proof {
                lemma_word_bits();
            }
            assert forall|i: int| 64 * k <= i < 64 * (k + 1) implies #[trigger] word_bit(
                self.words@[i / 64],
                (i % 64) as u64,
            ) == (i < sz) by {
                assert(i / 64 == k as int);
                let j = (i % 64) as u64;
                if s == 0 {
                    assert(!word_bit(0u64, j));
                } else if s < 64 {
                    assert(word_bit(0xFFFF_FFFF_FFFF_FFFFu64 >> ((64 - s as u64) as u64), j) == (j
                        < s as u64));
                } else {
                    assert(word_bit(0xFFFF_FFFF_FFFF_FFFFu64, j));
                }
            }
            if s > 64 {
                s -= 64;
            } else {
                s = 0;
            }
            k += 1;
        }
        assert forall|i: int| 0 <= i < final(self)@.len() implies final(self)@[i] == (i < sz) by {
            assert(final(self)@[i] == word_bit(self.words@[i / 64], (i % 64) as u64));
        }
    }

    /// Read bit `idx`.
    pub fn get(&self, idx: usize) -> (r: bool)
        requires
            idx < self@.len(),
        ensures
            r == self@[idx as int],
    {
        proof {
            lemma_word_bits();
        }
        let i = idx / 64;
        let j = (idx % 64) as u64;
        (self.words[i] >> j) & 1u64 > 0
    }

    /// Set bit `idx`.
    pub fn set(&mut self, idx: usize)
        requires
            old(self).wf(),
            idx < old(self)@.len(),
        ensures
            final(self).wf(),
            final(self)@ == old(self)@.update(idx as int, true),
    {
        proof {
            lemma_word_bits();
        }
        let i = idx / 64;
        let j = (idx % 64) as u64;
        let ghost w0 = self.words@[i as int];
        let p = &mut self.words[i];
        *p = *p | (1u64 << j);
        assert(self.words@ =~= old(self).words@.update(i as int, w0 | (1u64 << j)));
        assert(final(self)@ =~= old(self)@.update(idx as int, true)) by {
            assert forall|m: int| 0 <= m < final(self)@.len() && m != idx implies final(self)@[m]
                == old(self)@[m] by {
                if m / 64 == i as int {
                    assert((m % 64) as u64 != j);
                    assert(self.words@[m / 64] == w0 | (1u64 << j));
                    assert(word_bit(w0 | (1u64 << j), (m % 64) as u64) == word_bit(
                        w0,
                        (m % 64) as u64,
                    ));
                } else {
                    assert(self.words@[m / 64] == old(self).words@[m / 64]);
                }
            }
            assert(final(self)@[idx as int]);
        }
    }

    /// Clear bit `idx`.
    pub fn unset(&mut self, idx: usize)
        requires
            old(self).wf(),
            idx < old(self)@.len(),
        ensures
            final(self).wf(),
            final(self)@ == old(self)@.update(idx as int, false),
    {
        proof {
            lemma_word_bits();
        }
        let i = idx / 64;
        let j = (idx % 64) as u64;
        let ghost w0 = self.words@[i as int];
        let p = &mut self.words[i];
        *p = *p & (!(1u64 << j));
        assert(self.words@ =~= old(self).words@.update(i as int, w0 & (!(1u64 << j))));
        assert(final(self)@ =~= old(self)@.update(idx as int, false)) by {
            assert forall|m: int| 0 <= m < final(self)@.len() && m != idx implies final(self)@[m]
                == old(self)@[m] by {
                if m / 64 == i as int {
                    assert((m % 64) as u64 != j);
                    assert(self.words@[m / 64] == w0 & (!(1u64 << j)));
                    assert(word_bit(w0 & (!(1u64 << j)), (m % 64) as u64) == word_bit(
                        w0,
                        (m % 64) as u64,
                    ));
                } else {
                    assert(self.words@[m / 64] == old(self).words@[m / 64]);
                }
            }
            assert(!final(self)@[idx as int]);
        }
    }

    /// Number of set bits.
    pub fn popcount(&self) -> (r: usize)
        requires
            self.wf(),
        ensures
            r == count_true(self@),
    {
        let total = self.words.len() * 64;
        let mut r: usize = 0;
        let mut i: usize = 0;
        while i < total
            invariant
                self.wf(),
                total == self@.len(),
                i <= total,
                r <= i,
                r == count_true(self@.take(i as int)),
            decreases total - i,
        {
            assert(self@.take(i as int + 1).drop_last() =~= self@.take(i as int));
            assert(self@.take(i as int + 1).last() == self@[i as int]);
            if self.get(i) {
                r += 1;
            }
            i += 1;
        }
        assert(self@.take(total as int) =~= self@);
        r
    }

    /// A mask rebuilt directly from its backing words.
    pub(crate) fn from_words(v: Vec<u64>) -> (r: Flags)
        requires
            v@.len() * 64 <= usize::MAX as int,
        ensures
            r.wf(),
            r.words@ == v@,
            r@.len() == 64 * v@.len(),
    {
        Flags { words: v }
    }

    /// Masks with the same backing words read the same everywhere.
    pub(crate) proof fn lemma_same_words(&self, other: &Flags)
        requires
            self.words@ == other.words@,
        ensures
            self@ == other@,
            self.wf() == other.wf(),
    {
        assert(self@ =~= other@);
    }

    /// The view counts 64 bits per backing word.
    pub(crate) proof fn lemma_word_len(&self)
        ensures
            self@.len() == 64 * self.words@.len(),
    {
    }

    /// The backing words, low bit first within each word.
    pub fn words(&self) -> (r: &Vec<u64>)
        ensures
            r@.len() * 64 == self@.len(),
            forall|i: int| 0 <= i < self@.len() ==> self@[i] == word_bit(r@[i / 64], (i % 64) as u64),
    {
        &self.words
    }
}

} // verus!
