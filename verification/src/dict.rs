//! Dictionary encoder: interns repeated attribute values as dense integer
//! codes.
//!
//! One dictionary exists per interned field. Each distinct value seen is
//! assigned the next sequential code; repeated values reuse their code, so a
//! dictionary is exactly the sequence of distinct values in first-occurrence
//! order, and a code is an index into that sequence.

use vstd::prelude::*;

verus! {

/// Value table for one interned field.
pub struct Dictionary {
    values: Vec<String>,
}

impl Dictionary {
    /// The mathematical content of the dictionary: the interned values, in
    /// code order.
    pub closed spec fn model(&self) -> Seq<Seq<char>> {
        self.values@.map_values(|s: String| s@)
    }

    /// The values of a dictionary are pairwise distinct.
    pub open spec fn wf(&self) -> bool {
        forall|i: int, j: int|
            0 <= i < j < self.model().len() ==> self.model()[i] != self.model()[j]
    }

    /// The model is backed by a vector, so its length fits `usize`.
    pub proof fn lemma_model_len_bounded(&self)
        ensures
            self.model().len() <= usize::MAX,
    {
        let n = vstd::std_specs::vec::spec_vec_len(&self.values);
        assert(n == self.values@.len());
    }

    /// An empty dictionary.
    pub fn new() -> (d: Dictionary)
        ensures
            d.wf(),
            d.model() == Seq::<Seq<char>>::empty(),
    {
        let d = Dictionary { values: Vec::new() };
        proof {
            assert(d.model() =~= Seq::<Seq<char>>::empty());
        }
        d
    }

    /// Number of codes assigned so far.
    pub fn len(&self) -> (n: usize)
        ensures
            n == self.model().len(),
    {
        self.values.len()
    }

    /// Interns `value`: returns its existing code when the value was seen
    /// before, and assigns the next sequential code otherwise.
    pub fn encode(&mut self, value: &String) -> (code: usize)
        requires
            old(self).wf(),
            old(self).model().len() < usize::MAX,
        ensures
            final(self).wf(),
            code < final(self).model().len(),
            final(self).model()[code as int] == value@,
            old(self).model().is_prefix_of(final(self).model()),
            old(self).model().contains(value@) ==> final(self).model() == old(self).model(),
            !old(self).model().contains(value@) ==> final(self).model() == old(
                self,
            ).model().push(value@) && code == old(self).model().len(),
    {
        let n: usize = self.values.len();
        let mut i: usize = 0;
        while i < n
            invariant
                *self == *old(self),
                self.wf(),
                n == self.model().len(),
                0 <= i <= n,
                forall|j: int| 0 <= j < i ==> self.model()[j] != value@,
            decreases n - i,
        {
            if self.values[i] == *value {
                proof {
                    assert(self.model()[i as int] == value@);
                    assert(self.model().contains(value@));
                }
                return i;
            }
            i += 1;
        }
        self.values.push(value.clone());
        proof {
            assert(self.model() =~= old(self).model().push(value@));
        }
        n
    }

    /// The value a code stands for.
    pub fn decode(&self, code: usize) -> (r: &String)
        requires
            code < self.model().len(),
        ensures
            r@ == self.model()[code as int],
    {
        &self.values[code]
    }
}

} // verus!
