use vstd::prelude::*;

use crate::participant::HParticipant;
use crate::participant_set::{lemma_pset_view_shape, ParticipantSet};

verus! {

/// Index of the null group handle: no group.
pub open spec fn null_group_idx() -> int {
    usize::MAX as int
}

/// Handle for a group, used as a parameter to the Groups methods.
#[derive(Copy, Clone, PartialEq, Eq, Structural, Debug)]
pub struct HGroup {
    pub idx: usize,
}

impl View for HGroup {
    type V = int;

    open spec fn view(&self) -> int {
        self.idx as int
    }
}

impl HGroup {
    /// The null handle: stands for "no group".
    pub fn null() -> (h: Self)
        ensures
            h@ == null_group_idx(),
    {
        HGroup { idx: usize::MAX }
    }
}

/// One group: a stable display id, a fixed capacity, and the set of
/// participants currently assigned to it.
#[derive(Copy, Clone)]
struct Group {
    id: usize,
    size: u32,
    members: ParticipantSet,
}

/// The registry that owns the groups and resolves their handles.
pub struct Groups {
    next_idx: usize,
    insts: Vec<Group>,
}

impl Groups {
    /// Number of groups in the registry.
    pub closed spec fn spec_count(self) -> nat {
        self.insts@.len()
    }

    /// The member set of the group at index `g`.
    pub closed spec fn members_of(self, g: int) -> Set<int> {
        self.insts@[g].members@
    }

    /// The fixed capacity of the group at index `g`.
    pub closed spec fn size_of(self, g: int) -> nat {
        self.insts@[g].size as nat
    }

    /// The display id of the group at index `g`.
    pub closed spec fn id_of(self, g: int) -> int {
        self.insts@[g].id as int
    }

    /// Whether `g` is the index of a group of this registry.
    pub open spec fn valid(self, g: int) -> bool {
        0 <= g < self.spec_count()
    }

    /// Internal allocation bookkeeping is consistent.
    pub closed spec fn alloc_wf(self) -> bool {
        self.next_idx == self.insts@.len()
    }

    /// Everything except the member set of every group is the same in the two
    /// registries.
    pub open spec fn same_shape(self, other: Groups) -> bool {
        &&& other.spec_count() == self.spec_count()
        &&& forall|g: int|
            self.valid(g) ==> other.size_of(g) == self.size_of(g) && other.id_of(g) == self.id_of(
                g,
            )
        &&& (other.alloc_wf() <==> self.alloc_wf())
    }

    /// Creates a new Groups registry.
    pub fn new() -> (r: Self)
        ensures
            r.spec_count() == 0,
            r.alloc_wf(),
    {
        Groups { next_idx: 0, insts: Vec::new() }
    }

    /// Creates `num` new groups of capacity `size` and returns their handles;
    /// ids continue where the last allocation left off.
    pub fn hcalloc(&mut self, num: usize, size: u32) -> (r: Vec<HGroup>)
        requires
            old(self).alloc_wf(),
            old(self).spec_count() + num <= usize::MAX,
        ensures
            final(self).alloc_wf(),
            final(self).spec_count() == old(self).spec_count() + num,
            forall|g: int|
                old(self).valid(g) ==> final(self).members_of(g) == old(self).members_of(g)
                    && final(self).size_of(g) == old(self).size_of(g) && final(self).id_of(g)
                    == old(self).id_of(g),
            forall|g: int|
                old(self).spec_count() <= g < final(self).spec_count() ==> final(self).members_of(
                    g,
                ) == Set::<int>::empty() && final(self).size_of(g) == size && final(self).id_of(g)
                    == g + 1,
            r@.len() == num,
            forall|k: int| 0 <= k < num ==> r@[k]@ == old(self).spec_count() + k,
    {
        let mut handles: Vec<HGroup> = Vec::new();
        let start = self.next_idx;
        let end = start + num;
        self.next_idx = end;
        let mut i = start;
        while i < end
            invariant
                start <= i <= end,
                end == start + num,
                self.next_idx == end,
                start == old(self).spec_count(),
                self.insts@.len() == i,
                forall|g: int| 0 <= g < start ==> self.insts@[g] == old(self).insts@[g],
                forall|g: int|
                    start <= g < i ==> (#[trigger] self.insts@[g]).members@ == Set::<int>::empty()
                        && self.insts@[g].size == size && self.insts@[g].id == g + 1,
                handles@.len() == i - start,
                forall|k: int| 0 <= k < i - start ==> handles@[k]@ == start + k,
            decreases end - i,
        {
            self.insts.push(Group { id: i + 1, size, members: ParticipantSet::new() });
            handles.push(HGroup { idx: i });
            i = i + 1;
        }
        proof {
            assert forall|g: int| old(self).valid(g) implies self.members_of(g) == old(
                self,
            ).members_of(g) && self.size_of(g) == old(self).size_of(g) && self.id_of(g) == old(
                self,
            ).id_of(g) by {
                assert(self.insts@[g] == old(self).insts@[g]);
            }
        }
        handles
    }

    /// Removes all groups from the registry.
    pub fn free_all(&mut self)
        ensures
            final(self).spec_count() == 0,
            final(self).alloc_wf(),
    {
        self.insts.clear();
        self.next_idx = 0;
    }

    /// Returns the number of groups.
    pub fn count(&self) -> (r: usize)
        ensures
            r == self.spec_count(),
    {
        self.insts.len()
    }

    /// Returns a handle for the group at the given index.
    pub fn hget(&self, idx: usize) -> (r: HGroup)
        ensures
            r@ == idx,
    {
        HGroup { idx }
    }

    /// Clears the member sets of all groups; capacities and ids are kept.
    pub fn reset(&mut self)
        ensures
            final(self).same_shape(*old(self)),
            forall|g: int| final(self).valid(g) ==> final(self).members_of(g) == Set::<int>::empty(),
    {
        let n = self.insts.len();
        let mut i: usize = 0;
        while i < n
            invariant
                i <= n,
                n == self.insts@.len(),
                self.next_idx == old(self).next_idx,
                old(self).insts@.len() == n,
                forall|g: int|
                    0 <= g < n ==> (#[trigger] self.insts@[g]).size == old(self).insts@[g].size
                        && self.insts@[g].id == old(self).insts@[g].id,
                forall|g: int| i <= g < n ==> self.insts@[g] == old(self).insts@[g],
                forall|g: int|
                    0 <= g < i ==> (#[trigger] self.insts@[g]).members@ == Set::<int>::empty(),
            decreases n - i,
        {
            let mut rec = self.insts[i];
            rec.members.clear();
            self.insts.set(i, rec);
            i = i + 1;
        }
    }

    /// Returns the member set of group `hg`.
    pub fn member_set(&self, hg: HGroup) -> (r: &ParticipantSet)
        requires
            self.valid(hg@),
        ensures
            r@ == self.members_of(hg@),
    {
        &self.insts[hg.idx].members
    }

    /// Adds the participant `hp` to group `hg`; the participant must not
    /// already be a member.
    pub fn add(&mut self, hg: HGroup, hp: HParticipant)
        requires
            old(self).valid(hg@),
            0 <= hp@ < 128,
            !old(self).members_of(hg@).contains(hp@),
        ensures
            final(self).same_shape(*old(self)),
            final(self).members_of(hg@) == old(self).members_of(hg@).insert(hp@),
            forall|g: int|
                old(self).valid(g) && g != hg@ ==> final(self).members_of(g) == old(
                    self,
                ).members_of(g),
    {
        let mut rec = self.insts[hg.idx];
        rec.members.add(hp);
        self.insts.set(hg.idx, rec);
    }

    /// Removes the participant `hp` from group `hg`; the participant must be
    /// a member.
    pub fn remove(&mut self, hg: HGroup, hp: HParticipant)
        requires
            old(self).valid(hg@),
            old(self).members_of(hg@).contains(hp@),
        ensures
            final(self).same_shape(*old(self)),
            final(self).members_of(hg@) == old(self).members_of(hg@).remove(hp@),
            forall|g: int|
                old(self).valid(g) && g != hg@ ==> final(self).members_of(g) == old(
                    self,
                ).members_of(g),
    {
        proof {
            lemma_pset_view_shape(self.insts@[hg@].members);
        }
        let mut rec = self.insts[hg.idx];
        rec.members.remove(hp);
        self.insts.set(hg.idx, rec);
    }

    /// Indicates whether group `hg` is full: its member count has reached its
    /// capacity.
    pub fn full(&self, hg: HGroup) -> (r: bool)
        requires
            self.valid(hg@),
        ensures
            r == (self.members_of(hg@).len() >= self.size_of(hg@)),
    {
        let rec = &self.insts[hg.idx];
        rec.members.count() >= rec.size
    }

    /// Returns the number of members of group `hg`.
    pub fn num_members(&self, hg: HGroup) -> (r: u32)
        requires
            self.valid(hg@),
        ensures
            r == self.members_of(hg@).len(),
    {
        self.insts[hg.idx].members.count()
    }

    /// Indicates whether participant `hp` is a member of group `hg`.
    pub fn has(&self, hg: HGroup, hp: HParticipant) -> (r: bool)
        requires
            self.valid(hg@),
            0 <= hp@ < 128,
        ensures
            r == self.members_of(hg@).contains(hp@),
    {
        self.insts[hg.idx].members.has(hp)
    }

    /// Returns an iterator that hands out the handles of all groups in order.
    pub fn iter(&self) -> (it: GroupIter)
        ensures
            it.num == self.spec_count(),
            it.count == 0,
    {
        GroupIter { num: self.insts.len(), count: 0 }
    }

    /// Returns a vector with the handles of all groups, in index order.
    pub fn handle_vec(&self) -> (r: Vec<HGroup>)
        ensures
            r@.len() == self.spec_count(),
            forall|k: int| 0 <= k < r@.len() ==> r@[k]@ == k,
    {
        GroupIter::get_vec(self.insts.len())
    }

    /// The registry never holds more groups than a vector can, so no valid
    /// group index collides with the null index.
    pub proof fn lemma_count_bound(self)
        ensures
            self.spec_count() <= usize::MAX,
    {
        broadcast use vstd::std_specs::vec::axiom_spec_len;

        assert(vstd::std_specs::vec::spec_vec_len(&self.insts) == self.insts@.len());
    }
}

/// An iterator over the group handles of a Groups registry, in index order.
pub struct GroupIter {
    pub num: usize,
    pub count: usize,
}

impl GroupIter {
    /// Produces the next group handle, or None once the iterator is spent.
    pub fn next(&mut self) -> (r: Option<HGroup>)
        ensures
            final(self).num == old(self).num,
            match r {
                Some(h) => {
                    &&& old(self).count < old(self).num
                    &&& h@ == old(self).count
                    &&& final(self).count == old(self).count + 1
                },
                None => old(self).count >= old(self).num && *final(self) == *old(self),
            },
    {
        if self.count < self.num {
            self.count = self.count + 1;
            Some(HGroup { idx: self.count - 1 })
        } else {
            None
        }
    }

    /// Produces a vector holding the first `num` group handles, in order.
    pub fn get_vec(num: usize) -> (r: Vec<HGroup>)
        ensures
            r@.len() == num,
            forall|k: int| 0 <= k < num ==> r@[k]@ == k,
    {
        let mut r: Vec<HGroup> = Vec::new();
        let mut i: usize = 0;
        while i < num
            invariant
                i <= num,
                r@.len() == i,
                forall|k: int| 0 <= k < i ==> r@[k]@ == k,
            decreases num - i,
        {
            r.push(HGroup { idx: i });
            i = i + 1;
        }
        r
    }
}

} // verus!
