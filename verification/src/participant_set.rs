use vstd::prelude::*;

use crate::participant::HParticipant;

verus! {

/// Membership test for one bit position of a 128-bit set value.
pub open spec fn pset_has(v: u128, i: int) -> bool {
    0 <= i < 128 && ((v >> (i as u128)) & 1u128) == 1u128
}

/// The mathematical set of participant indices held in a 128-bit set value.
pub open spec fn pset_set(v: u128) -> Set<int> {
    Set::new(|i: int| pset_has(v, i))
}

/// Number of set bits at positions below `k`.
pub open spec fn pset_count_below(v: u128, k: int) -> nat
    decreases k,
{
    if k <= 0 {
        0nat
    } else {
        pset_count_below(v, k - 1) + (if pset_has(v, k - 1) {
            1nat
        } else {
            0nat
        })
    }
}

/// Relies on u128::count_ones: it returns the number of one bits in the
/// binary representation of its argument.
pub assume_specification[ u128::count_ones ](v: u128) -> (r: u32)
    ensures
        r == pset_count_below(v, 128),
;

/// Represents a set of participants as a 128-bit bit-vector, one bit per
/// participant index, so that union, intersection and cardinality are plain
/// word operations. Capacity is fixed at 128 members.
#[derive(Copy, Clone)]
pub struct ParticipantSet {
    value: u128,
}

impl View for ParticipantSet {
    type V = Set<int>;

    closed spec fn view(&self) -> Set<int> {
        pset_set(self.value)
    }
}

proof fn lemma_bv_zero(j: u128)
    by (bit_vector)
    requires
        j < 128,
    ensures
        ((0u128 >> j) & 1u128) != 1u128,
{
}

proof fn lemma_bv_or(a: u128, b: u128, j: u128)
    by (bit_vector)
    requires
        j < 128,
    ensures
        ((((a | b) >> j) & 1u128) == 1u128) <==> ((((a >> j) & 1u128) == 1u128) || (((b >> j)
            & 1u128) == 1u128)),
{
}

proof fn lemma_bv_and(a: u128, b: u128, j: u128)
    by (bit_vector)
    requires
        j < 128,
    ensures
        ((((a & b) >> j) & 1u128) == 1u128) <==> ((((a >> j) & 1u128) == 1u128) && (((b >> j)
            & 1u128) == 1u128)),
{
}

proof fn lemma_bv_xor(a: u128, b: u128, j: u128)
    by (bit_vector)
    requires
        j < 128,
    ensures
        ((((a ^ b) >> j) & 1u128) == 1u128) <==> ((((a >> j) & 1u128) == 1u128) != (((b >> j)
            & 1u128) == 1u128)),
{
}

proof fn lemma_bv_shl(i: u128, j: u128)
    by (bit_vector)
    requires
        i < 128,
        j < 128,
    ensures
        ((((1u128 << i) >> j) & 1u128) == 1u128) <==> (i == j),
{
}

proof fn lemma_empty_value()
    ensures
        pset_set(0u128) == Set::<int>::empty(),
{
    assert forall|i: int| !pset_set(0u128).contains(i) by {
        if 0 <= i < 128 {
            lemma_bv_zero(i as u128);
        }
    }
    assert(pset_set(0u128) =~= Set::<int>::empty());
}

proof fn lemma_set_bit(v: u128, i: u128)
    requires
        i < 128,
    ensures
        pset_set(v | (1u128 << i)) == pset_set(v).insert(i as int),
{
    assert forall|j: int|
        pset_set(v | (1u128 << i)).contains(j) == pset_set(v).insert(i as int).contains(j) by {
        if 0 <= j < 128 {
            lemma_bv_or(v, 1u128 << i, j as u128);
            lemma_bv_shl(i, j as u128);
        }
    }
    assert(pset_set(v | (1u128 << i)) =~= pset_set(v).insert(i as int));
}

proof fn lemma_clear_bit(v: u128, i: u128)
    requires
        i < 128,
        pset_has(v, i as int),
    ensures
        pset_set(v ^ (1u128 << i)) == pset_set(v).remove(i as int),
{
    assert forall|j: int|
        pset_set(v ^ (1u128 << i)).contains(j) == pset_set(v).remove(i as int).contains(j) by {
        if 0 <= j < 128 {
            lemma_bv_xor(v, 1u128 << i, j as u128);
            lemma_bv_shl(i, j as u128);
        }
    }
    assert(pset_set(v ^ (1u128 << i)) =~= pset_set(v).remove(i as int));
}

proof fn lemma_union_value(a: u128, b: u128)
    ensures
        pset_set(a | b) == pset_set(a) + pset_set(b),
{
    assert forall|j: int| pset_set(a | b).contains(j) == (pset_set(a) + pset_set(b)).contains(
        j,
    ) by {
        if 0 <= j < 128 {
            lemma_bv_or(a, b, j as u128);
        }
    }
    assert(pset_set(a | b) =~= pset_set(a) + pset_set(b));
}

proof fn lemma_intersect_value(a: u128, b: u128)
    ensures
        pset_set(a & b) == pset_set(a).intersect(pset_set(b)),
{
    assert forall|j: int|
        pset_set(a & b).contains(j) == pset_set(a).intersect(pset_set(b)).contains(j) by {
        if 0 <= j < 128 {
            lemma_bv_and(a, b, j as u128);
        }
    }
    assert(pset_set(a & b) =~= pset_set(a).intersect(pset_set(b)));
}

proof fn lemma_subtract_value(a: u128, b: u128)
    requires
        pset_set(b).subset_of(pset_set(a)),
    ensures
        pset_set(a ^ b) == pset_set(a) - pset_set(b),
{
    assert forall|j: int| pset_set(a ^ b).contains(j) == (pset_set(a) - pset_set(b)).contains(
        j,
    ) by {
        if 0 <= j < 128 {
            lemma_bv_xor(a, b, j as u128);
            if pset_set(b).contains(j) {
                assert(pset_set(a).contains(j));
            }
        }
    }
    assert(pset_set(a ^ b) =~= pset_set(a) - pset_set(b));
}

proof fn lemma_count_below_is_card(v: u128, k: int)
    requires
        0 <= k <= 128,
    ensures
        Set::new(|i: int| pset_has(v, i) && i < k).finite(),
        Set::new(|i: int| pset_has(v, i) && i < k).len() == pset_count_below(v, k),
    decreases k,
{
    let below = |k: int| Set::new(|i: int| pset_has(v, i) && i < k);
    if k == 0 {
        assert(below(0) =~= Set::<int>::empty());
    } else {
        lemma_count_below_is_card(v, k - 1);
        if pset_has(v, k - 1) {
            assert(below(k) =~= below(k - 1).insert(k - 1));
            assert(!below(k - 1).contains(k - 1));
        } else {
            assert(below(k) =~= below(k - 1));
        }
    }
}

/// The view of any ParticipantSet is a finite set of at most 128 indices,
/// all of them below 128.
pub proof fn lemma_pset_view_shape(s: ParticipantSet)
    ensures
        s@.finite(),
        s@.len() <= 128,
        forall|i: int| s@.contains(i) ==> 0 <= i < 128,
{
    lemma_count_below_is_card(s.value, 128);
    assert(s@ =~= Set::new(|i: int| pset_has(s.value, i) && i < 128));
    lemma_card_below(s.value, 128);
}

proof fn lemma_card_below(v: u128, k: int)
    requires
        0 <= k <= 128,
    ensures
        pset_count_below(v, k) <= k,
    decreases k,
{
    if k > 0 {
        lemma_card_below(v, k - 1);
    }
}

impl ParticipantSet {
    /// Creates a new, empty ParticipantSet.
    pub fn new() -> (s: Self)
        ensures
            s@ == Set::<int>::empty(),
    {
        proof {
            lemma_empty_value();
        }
        ParticipantSet { value: 0u128 }
    }

    /// Adds a participant to the set.
    #[inline]
    pub fn add(&mut self, hp: HParticipant)
        requires
            0 <= hp@ < 128,
        ensures
            final(self)@ == old(self)@.insert(hp@),
    {
        proof {
            lemma_set_bit(self.value, hp.idx as u128);
        }
        self.value = self.value | (1u128 << (hp.idx as u128));
    }

    /// Adds all the participants in another set to this one.
    #[inline]
    pub fn add_set(&mut self, pset: &ParticipantSet)
        ensures
            final(self)@ == old(self)@ + pset@,
    {
        proof {
            lemma_union_value(self.value, pset.value);
        }
        self.value = self.value | pset.value;
    }

    /// Removes a participant from the set; the participant must be a member.
    #[inline]
    pub fn remove(&mut self, hp: HParticipant)
        requires
            old(self)@.contains(hp@),
        ensures
            final(self)@ == old(self)@.remove(hp@),
    {
        proof {
            lemma_clear_bit(self.value, hp.idx as u128);
        }
        self.value = self.value ^ (1u128 << (hp.idx as u128));
    }

    /// Removes every member of `other` from this set; `other` must be a
    /// subset of this set.
    #[inline]
    pub fn remove_set(&mut self, other: &ParticipantSet)
        requires
            other@.subset_of(old(self)@),
        ensures
            final(self)@ == old(self)@ - other@,
    {
        proof {
            lemma_subtract_value(self.value, other.value);
        }
        self.value = self.value ^ other.value;
    }

    /// Clears the set.
    pub fn clear(&mut self)
        ensures
            final(self)@ == Set::<int>::empty(),
    {
        proof {
            lemma_empty_value();
        }
        self.value = 0u128;
    }

    /// Indicates whether the participant is in the set.
    #[inline]
    pub fn has(&self, hp: HParticipant) -> (r: bool)
        requires
            0 <= hp@ < 128,
        ensures
            r == self@.contains(hp@),
    {
        ((self.value >> (hp.idx as u128)) & 1u128) == 1u128
    }

    /// Returns an iterator over the participants in the set, from the highest
    /// index down.
    pub fn iter(&self) -> (it: ParticipantSetIter)
        ensures
            it@ == self@,
    {
        ParticipantSetIter::new(self.value)
    }

    /// Returns the number of participants in the set.
    #[inline]
    pub fn count(&self) -> (r: u32)
        ensures
            r == self@.len(),
    {
        proof {
            lemma_count_below_is_card(self.value, 128);
            assert(self@ =~= Set::new(|i: int| pset_has(self.value, i) && i < 128));
        }
        self.value.count_ones()
    }

    /// Returns the number of common members of the two sets.
    #[inline]
    pub fn num_common(&self, other: &ParticipantSet) -> (r: u32)
        ensures
            r == self@.intersect(other@).len(),
    {
        self.common(other).count()
    }

    /// Indicates whether the two sets have a member in common.
    #[inline]
    pub fn has_common(&self, other: &ParticipantSet) -> (r: bool)
        ensures
            r == !self@.intersect(other@).is_empty(),
    {
        let c = self.common(other);
        proof {
            lemma_pset_view_shape(c);
        }
        c.count() != 0
    }

    /// Returns the set of common members of the two sets.
    #[inline]
    pub fn common(&self, other: &ParticipantSet) -> (r: ParticipantSet)
        ensures
            r@ == self@.intersect(other@),
    {
        proof {
            lemma_intersect_value(self.value, other.value);
        }
        ParticipantSet { value: self.value & other.value }
    }

    /// Produces a vector of the handles of the members of the set, in
    /// ascending index order; its length is the cardinality of the set.
    pub fn member_vec(&self) -> (r: Vec<HParticipant>)
        ensures
            r@.len() == self@.len(),
            forall|k1: int, k2: int| 0 <= k1 < k2 < r@.len() ==> r@[k1]@ < r@[k2]@,
            forall|k: int| 0 <= k < r@.len() ==> self@.contains(#[trigger] r@[k]@),
            forall|p: int|
                self@.contains(p) ==> exists|k: int| 0 <= k < r@.len() && #[trigger] r@[k]@ == p,
    {
        let v = self.value;
        let mut r: Vec<HParticipant> = Vec::new();
        let mut j: usize = 0;
        while j < 128
            invariant
                j <= 128,
                v == self.value,
                r@.len() == pset_count_below(v, j as int),
                forall|k1: int, k2: int| 0 <= k1 < k2 < r@.len() ==> r@[k1]@ < r@[k2]@,
                forall|k: int|
                    0 <= k < r@.len() ==> pset_set(v).contains(#[trigger] r@[k]@) && r@[k]@ < j,
                forall|p: int|
                    0 <= p < j && pset_set(v).contains(p) ==> exists|k: int|
                        0 <= k < r@.len() && #[trigger] r@[k]@ == p,
            decreases 128 - j,
        {
            if ((v >> (j as u128)) & 1u128) == 1u128 {
                proof {
                    assert((j as int) as u128 == j as u128);
                    assert(pset_has(v, j as int));
                }
                let ghost r0 = r@;
                r.push(HParticipant { idx: j });
                proof {
                    assert(r@[r0.len() as int]@ == j as int);
                    assert forall|p: int| 0 <= p < j + 1 && pset_set(v).contains(p) implies exists|
                        k: int,
                    | 0 <= k < r@.len() && #[trigger] r@[k]@ == p by {
                        if p == j {
                            assert(r@[r0.len() as int]@ == p);
                        } else {
                            let k0 = choose|k: int| 0 <= k < r0.len() && #[trigger] r0[k]@ == p;
                            assert(r@[k0]@ == p);
                        }
                    }
                }
            } else {
                proof {
                    assert(!pset_has(v, j as int));
                }
            }
            j = j + 1;
        }
        proof {
            lemma_count_below_is_card(v, 128);
            assert(self@ =~= Set::new(|i: int| pset_has(v, i) && i < 128));
        }
        r
    }

    /// If there is exactly one participant in the set, its handle is returned.
    pub(crate) fn to_handle(&self) -> (r: HParticipant)
        requires
            self@.len() == 1,
        ensures
            self@.contains(r@),
            0 <= r@ < 128,
    {
        let v = self.value;
        let mut j: usize = 128;
        while j > 0
            invariant
                j <= 128,
                v == self.value,
                forall|i: int| j <= i < 128 ==> !pset_set(v).contains(i),
            decreases j,
        {
            j = j - 1;
            if ((v >> (j as u128)) & 1u128) == 1u128 {
                proof {
                    assert((j as int) as u128 == j as u128);
                    assert(pset_has(v, j as int));
                }
                return HParticipant { idx: j };
            }
        }
        proof {
            assert(pset_set(v) =~= Set::<int>::empty());
            lemma_pset_view_shape(*self);
        }
        vstd::pervasive::unreached()
    }
}

/// An iterator for the ParticipantSet: it hands out the handle of each member
/// of the set, from the highest index down.
pub struct ParticipantSetIter {
    value: u128,
}

impl View for ParticipantSetIter {
    type V = Set<int>;

    closed spec fn view(&self) -> Set<int> {
        pset_set(self.value)
    }
}

impl ParticipantSetIter {
    /// Returns a new iterator over the members of the given set value.
    pub fn new(value: u128) -> (it: ParticipantSetIter)
        ensures
            it@ == pset_set(value),
    {
        ParticipantSetIter { value }
    }

    /// Produces the next member of the set, highest index first, or None once
    /// the iterator is spent.
    pub fn next(&mut self) -> (r: Option<HParticipant>)
        ensures
            match r {
                Some(h) => {
                    &&& old(self)@.contains(h@)
                    &&& forall|i: int| old(self)@.contains(i) ==> i <= h@
                    &&& final(self)@ == old(self)@.remove(h@)
                },
                None => {
                    &&& old(self)@ == Set::<int>::empty()
                    &&& final(self)@ == old(self)@
                },
            },
    {
        let v = self.value;
        let mut j: usize = 128;
        while j > 0
            invariant
                j <= 128,
                *self == *old(self),
                v == self.value,
                forall|i: int| j <= i < 128 ==> !pset_set(v).contains(i),
            decreases j,
        {
            j = j - 1;
            if ((v >> (j as u128)) & 1u128) == 1u128 {
                proof {
                    assert((j as int) as u128 == j as u128);
                    assert(pset_has(v, j as int));
                    lemma_clear_bit(v, j as u128);
                }
                self.value = v ^ (1u128 << (j as u128));
                return Some(HParticipant { idx: j });
            }
        }
        proof {
            assert(pset_set(v) =~= Set::<int>::empty());
        }
        None
    }

    /// Produces a vector of the handles of the members of the given set
    /// value, from the highest index down.
    pub fn get_vec(value: u128) -> (r: Vec<HParticipant>)
        ensures
            forall|k: int| 0 <= k < r@.len() ==> pset_set(value).contains(r@[k]@),
            forall|k1: int, k2: int| 0 <= k1 < k2 < r@.len() ==> r@[k1]@ > r@[k2]@,
            forall|i: int|
                pset_set(value).contains(i) ==> exists|k: int| 0 <= k < r@.len() && r@[k]@ == i,
    {
        let mut it = ParticipantSetIter::new(value);
        let mut r: Vec<HParticipant> = Vec::new();
        proof {
            lemma_pset_view_shape(ParticipantSet { value });
        }
        loop
            invariant
                it@.subset_of(pset_set(value)),
                it@.finite(),
                forall|k: int| 0 <= k < r@.len() ==> pset_set(value).contains(r@[k]@),
                forall|k1: int, k2: int| 0 <= k1 < k2 < r@.len() ==> r@[k1]@ > r@[k2]@,
                forall|i: int|
                    pset_set(value).contains(i) ==> it@.contains(i) || exists|k: int|
                        0 <= k < r@.len() && r@[k]@ == i,
                forall|i: int, k: int| it@.contains(i) && 0 <= k < r@.len() ==> i < r@[k]@,
            decreases it@.len(),
        {
            let ghost it0 = it@;
            let ghost r0 = r@;
            match it.next() {
                Some(h) => {
                    r.push(h);
                    proof {
                        assert(r@[r0.len() as int] == h);
                        assert forall|i: int|
                            pset_set(value).contains(i) implies it@.contains(i) || exists|k: int|
                            0 <= k < r@.len() && r@[k]@ == i by {
                            if !it@.contains(i) {
                                if it0.contains(i) {
                                    if i == h@ {
                                        assert(r@[r0.len() as int]@ == i);
                                    } else {
                                        assert(it@.contains(i));
                                    }
                                } else {
                                    let k0 = choose|k: int|
                                        0 <= k < r0.len() && r0[k]@ == i;
                                    assert(r@[k0]@ == i);
                                }
                            }
                        }
                    }
                },
                None => {
                    return r;
                },
            }
        }
    }
}

} // verus!
