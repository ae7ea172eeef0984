use vstd::prelude::*;

use crate::group::{null_group_idx, Groups, HGroup};
use crate::participant::HParticipant;

verus! {

/// Handle for a round, used as a parameter to the Rounds methods.
#[derive(Copy, Clone, PartialEq, Eq, Structural, Debug)]
pub struct HRound {
    pub idx: usize,
}

impl View for HRound {
    type V = int;

    open spec fn view(&self) -> int {
        self.idx as int
    }
}

/// One round: a stable display id and the ordered list of the groups active
/// during the round.
struct Round {
    id: usize,
    groups: Vec<HGroup>,
}

/// The registry that owns the rounds and resolves their handles.
pub struct Rounds {
    next_idx: usize,
    insts: Vec<Round>,
}

/// Sum of the member counts of the first `k` groups of `gs`.
pub open spec fn group_total_prefix(groups: Groups, gs: Seq<HGroup>, k: int) -> nat
    decreases k,
{
    if k <= 0 {
        0nat
    } else {
        group_total_prefix(groups, gs, k - 1) + groups.members_of(gs[k - 1]@).len()
    }
}

/// Sum of the member counts of all groups of `gs`.
pub open spec fn group_total(groups: Groups, gs: Seq<HGroup>) -> nat {
    group_total_prefix(groups, gs, gs.len() as int)
}

/// Whether the `k`th group of `gs` contains the participant `hp`.
pub open spec fn scan_hit(groups: Groups, gs: Seq<HGroup>, hp: int, k: int) -> bool {
    0 <= k < gs.len() && groups.members_of(gs[k]@).contains(hp)
}

/// Every group handle of `gs` is a group of `groups`.
pub open spec fn all_groups_valid(groups: Groups, gs: Seq<HGroup>) -> bool {
    forall|k: int| 0 <= k < gs.len() ==> groups.valid(#[trigger] gs[k]@)
}

/// The group list of a round in good standing: every handle is a distinct
/// valid group, and the member sets of the round's groups are pairwise
/// disjoint, since nobody occupies two groups within one round.
pub open spec fn round_wf(groups: Groups, gs: Seq<HGroup>) -> bool {
    &&& all_groups_valid(groups, gs)
    &&& forall|k1: int, k2: int| 0 <= k1 < k2 < gs.len() ==> (#[trigger] gs[k1])@ != (
    #[trigger] gs[k2])@
    &&& forall|k1: int, k2: int, p: int|
        #![trigger groups.members_of(gs[k1]@).contains(p), groups.members_of(gs[k2]@).contains(p)]
        0 <= k1 < gs.len() && 0 <= k2 < gs.len() && k1 != k2 ==> !(groups.members_of(
            gs[k1]@,
        ).contains(p) && groups.members_of(gs[k2]@).contains(p))
}

/// Some group of the list `gs` contains the participant `hp`.
pub open spec fn member_in_round(groups: Groups, gs: Seq<HGroup>, hp: int) -> bool {
    exists|k: int| #[trigger] scan_hit(groups, gs, hp, k)
}

/// The group of the list `gs` that contains the participant `hp`; under
/// `round_wf` there is at most one.
pub open spec fn round_home(groups: Groups, gs: Seq<HGroup>, hp: int) -> int {
    gs[choose|k: int| #[trigger] scan_hit(groups, gs, hp, k)]@
}

/// Within a well-formed round, the group that contains a participant is
/// unique, so any hit names the round home.
pub proof fn lemma_round_home_unique(groups: Groups, gs: Seq<HGroup>, hp: int, k: int)
    requires
        round_wf(groups, gs),
        scan_hit(groups, gs, hp, k),
    ensures
        member_in_round(groups, gs, hp),
        round_home(groups, gs, hp) == gs[k]@,
{
    let k0 = choose|k2: int| #[trigger] scan_hit(groups, gs, hp, k2);
    assert(scan_hit(groups, gs, hp, k0));
    if k0 != k {
        assert(groups.members_of(gs[k]@).contains(hp) && groups.members_of(gs[k0]@).contains(hp));
        assert(false);
    }
}

impl Rounds {
    /// Number of rounds in the registry.
    pub closed spec fn spec_count(self) -> nat {
        self.insts@.len()
    }

    /// The ordered group list of the round at index `r`.
    pub closed spec fn groups_of(self, r: int) -> Seq<HGroup> {
        self.insts@[r].groups@
    }

    /// The display id of the round at index `r`.
    pub closed spec fn id_of(self, r: int) -> int {
        self.insts@[r].id as int
    }

    /// Whether `r` is the index of a round of this registry.
    pub open spec fn valid(self, r: int) -> bool {
        0 <= r < self.spec_count()
    }

    /// Internal allocation bookkeeping is consistent.
    pub closed spec fn alloc_wf(self) -> bool {
        self.next_idx == self.insts@.len()
    }

    /// Sum of the member counts of the first `k` rounds of `hrs`.
    pub open spec fn total_prefix(self, hrs: Seq<HRound>, groups: Groups, k: int) -> nat
        decreases k,
    {
        if k <= 0 {
            0nat
        } else {
            self.total_prefix(hrs, groups, k - 1) + group_total(groups, self.groups_of(hrs[k - 1]@))
        }
    }

    /// Sum of the member counts of all groups of all rounds of `hrs`: the
    /// solver's progress metric.
    pub open spec fn total_grouped(self, hrs: Seq<HRound>, groups: Groups) -> nat {
        self.total_prefix(hrs, groups, hrs.len() as int)
    }

    /// Creates a new Rounds registry.
    pub fn new() -> (r: Self)
        ensures
            r.spec_count() == 0,
            r.alloc_wf(),
    {
        Rounds { next_idx: 0, insts: Vec::new() }
    }

    /// Creates `num` new rounds and returns their handles; ids continue where
    /// the last allocation left off.
    pub fn hcalloc(&mut self, num: usize) -> (r: Vec<HRound>)
        requires
            old(self).alloc_wf(),
            old(self).spec_count() + num <= usize::MAX,
        ensures
            final(self).alloc_wf(),
            final(self).spec_count() == old(self).spec_count() + num,
            forall|r0: int|
                old(self).valid(r0) ==> final(self).groups_of(r0) == old(self).groups_of(r0)
                    && final(self).id_of(r0) == old(self).id_of(r0),
            forall|r0: int|
                old(self).spec_count() <= r0 < final(self).spec_count() ==> final(self).groups_of(
                    r0,
                ) == Seq::<HGroup>::empty() && final(self).id_of(r0) == r0 + 1,
            r@.len() == num,
            forall|k: int| 0 <= k < num ==> r@[k]@ == old(self).spec_count() + k,
    {
        let mut handles: Vec<HRound> = Vec::new();
        let start = self.next_idx;
        let end = start + num;
        self.next_idx = end;
        let mut i = start;
        while i < end
            invariant
                start <= i <= end,
                end == start + num,
                self.next_idx == end,
                start == old(self).spec_count(),
                self.insts@.len() == i,
                forall|g: int| 0 <= g < start ==> self.insts@[g] == old(self).insts@[g],
                forall|g: int|
                    start <= g < i ==> (#[trigger] self.insts@[g]).groups@ == Seq::<
                        HGroup,
                    >::empty() && self.insts@[g].id == g + 1,
                handles@.len() == i - start,
                forall|k: int| 0 <= k < i - start ==> handles@[k]@ == start + k,
            decreases end - i,
        {
            self.insts.push(Round { id: i + 1, groups: Vec::new() });
            handles.push(HRound { idx: i });
            i = i + 1;
        }
        proof {
            assert forall|r0: int| old(self).valid(r0) implies self.groups_of(r0) == old(
                self,
            ).groups_of(r0) && self.id_of(r0) == old(self).id_of(r0) by {
                assert(self.insts@[r0] == old(self).insts@[r0]);
            }
        }
        handles
    }

    /// Removes all rounds from the registry.
    pub fn free_all(&mut self)
        ensures
            final(self).spec_count() == 0,
            final(self).alloc_wf(),
    {
        self.insts.clear();
        self.next_idx = 0;
    }

    /// Clears the group lists of all rounds; ids are kept.
    pub fn reset(&mut self)
        ensures
            final(self).spec_count() == old(self).spec_count(),
            (final(self).alloc_wf() <==> old(self).alloc_wf()),
            forall|r0: int|
                old(self).valid(r0) ==> final(self).groups_of(r0) == Seq::<HGroup>::empty()
                    && final(self).id_of(r0) == old(self).id_of(r0),
    {
        let n = self.insts.len();
        let mut i: usize = 0;
        while i < n
            invariant
                i <= n,
                n == self.insts@.len(),
                self.next_idx == old(self).next_idx,
                old(self).insts@.len() == n,
                forall|g: int|
                    0 <= g < n ==> (#[trigger] self.insts@[g]).id == old(self).insts@[g].id,
                forall|g: int| i <= g < n ==> self.insts@[g].groups@ == old(self).insts@[g].groups@,
                forall|g: int|
                    0 <= g < i ==> (#[trigger] self.insts@[g]).groups@ == Seq::<HGroup>::empty(),
            decreases n - i,
        {
            let mut rec = Round { id: 0, groups: Vec::new() };
            std::mem::swap(&mut rec, &mut self.insts[i]);
            let id = rec.id;
            self.insts.set(i, Round { id, groups: Vec::new() });
            i = i + 1;
        }
    }

    /// Returns a handle for the round at the given index.
    pub fn hget(&self, idx: usize) -> (r: HRound)
        ensures
            r@ == idx,
    {
        HRound { idx }
    }

    /// Adds the group `hg` to the round `hr`.
    pub fn add(&mut self, hr: HRound, hg: HGroup)
        requires
            old(self).valid(hr@),
        ensures
            final(self).spec_count() == old(self).spec_count(),
            (final(self).alloc_wf() <==> old(self).alloc_wf()),
            final(self).groups_of(hr@) == old(self).groups_of(hr@).push(hg),
            forall|r0: int|
                old(self).valid(r0) && r0 != hr@ ==> final(self).groups_of(r0) == old(
                    self,
                ).groups_of(r0),
            forall|r0: int| old(self).valid(r0) ==> final(self).id_of(r0) == old(self).id_of(r0),
    {
        let mut rec = Round { id: 0, groups: Vec::new() };
        std::mem::swap(&mut rec, &mut self.insts[hr.idx]);
        rec.groups.push(hg);
        self.insts.set(hr.idx, rec);
        proof {
            assert forall|r0: int| old(self).valid(r0) && r0 != hr@ implies self.groups_of(r0)
                == old(self).groups_of(r0) by {
                assert(self.insts@[r0] == old(self).insts@[r0]);
            }
        }
    }

    /// Adds the given groups, in order, to the round `hr`.
    pub fn add_groups(&mut self, hr: HRound, hgs: &[HGroup])
        requires
            old(self).valid(hr@),
        ensures
            final(self).spec_count() == old(self).spec_count(),
            (final(self).alloc_wf() <==> old(self).alloc_wf()),
            final(self).groups_of(hr@) == old(self).groups_of(hr@) + hgs@,
            forall|r0: int|
                old(self).valid(r0) && r0 != hr@ ==> final(self).groups_of(r0) == old(
                    self,
                ).groups_of(r0),
            forall|r0: int| old(self).valid(r0) ==> final(self).id_of(r0) == old(self).id_of(r0),
    {
        let n = hgs.len();
        let mut i: usize = 0;
        while i < n
            invariant
                i <= n,
                n == hgs@.len(),
                self.spec_count() == old(self).spec_count(),
                (self.alloc_wf() <==> old(self).alloc_wf()),
                old(self).valid(hr@),
                self.groups_of(hr@) == old(self).groups_of(hr@) + hgs@.take(i as int),
                forall|r0: int|
                    old(self).valid(r0) && r0 != hr@ ==> self.groups_of(r0) == old(self).groups_of(
                        r0,
                    ),
                forall|r0: int| old(self).valid(r0) ==> self.id_of(r0) == old(self).id_of(r0),
            decreases n - i,
        {
            let hg = hgs[i];
            self.add(hr, hg);
            proof {
                assert(hgs@.take(i + 1) =~= hgs@.take(i as int).push(hgs@[i as int]));
                assert((old(self).groups_of(hr@) + hgs@.take(i as int)).push(hg) =~= old(
                    self,
                ).groups_of(hr@) + hgs@.take(i + 1));
            }
            i = i + 1;
        }
        proof {
            assert(hgs@.take(n as int) =~= hgs@);
        }
    }

    /// Returns the ordered list of the groups of the round `hr`.
    pub fn groups(&self, hr: HRound) -> (r: &Vec<HGroup>)
        requires
            self.valid(hr@),
        ensures
            r@ == self.groups_of(hr@),
    {
        &self.insts[hr.idx].groups
    }

    /// Returns the total number of placements across the given rounds: the sum
    /// of the member counts of every group listed in any of them.
    pub fn num_grouped(&self, hrs: &[HRound], groups: &Groups) -> (r: u32)
        requires
            forall|k: int| 0 <= k < hrs@.len() ==> self.valid(#[trigger] hrs@[k]@),
            forall|k: int|
                0 <= k < hrs@.len() ==> all_groups_valid(*groups, self.groups_of(#[trigger] hrs@[k]@)),
            self.total_grouped(hrs@, *groups) <= u32::MAX,
        ensures
            r == self.total_grouped(hrs@, *groups),
    {
        proof {
            lemma_total_prefix_mono(*self, hrs@, *groups, hrs@.len() as int);
        }
        let mut total: u32 = 0;
        let n = hrs.len();
        let mut i: usize = 0;
        while i < n
            invariant
                i <= n,
                n == hrs@.len(),
                forall|k: int| 0 <= k < hrs@.len() ==> self.valid(#[trigger] hrs@[k]@),
                forall|k: int|
                    0 <= k < hrs@.len() ==> all_groups_valid(
                        *groups,
                        self.groups_of(#[trigger] hrs@[k]@),
                    ),
                self.total_grouped(hrs@, *groups) <= u32::MAX,
                forall|k: int|
                    0 <= k <= hrs@.len() ==> self.total_prefix(hrs@, *groups, k)
                        <= self.total_grouped(hrs@, *groups),
                total == self.total_prefix(hrs@, *groups, i as int),
            decreases n - i,
        {
            let hr = hrs[i];
            proof {
                assert(self.valid(hrs@[i as int]@));
                assert(all_groups_valid(*groups, self.groups_of(hrs@[i as int]@)));
            }
            let gs = &self.insts[hr.idx].groups;
            let m = gs.len();
            let ghost gseq = self.groups_of(hr@);
            proof {
                lemma_group_total_prefix_mono(*groups, gseq, gseq.len() as int);
                assert(self.total_prefix(hrs@, *groups, i + 1) == self.total_prefix(
                    hrs@,
                    *groups,
                    i as int,
                ) + group_total(*groups, gseq));
            }
            let mut sub: u32 = 0;
            let mut j: usize = 0;
            while j < m
                invariant
                    j <= m,
                    m == gseq.len(),
                    gs@ == gseq,
                    all_groups_valid(*groups, gseq),
                    total + group_total(*groups, gseq) <= u32::MAX,
                    forall|k: int|
                        0 <= k <= gseq.len() ==> group_total_prefix(*groups, gseq, k)
                            <= group_total(*groups, gseq),
                    sub == group_total_prefix(*groups, gseq, j as int),
                decreases m - j,
            {
                proof {
                    assert(all_groups_valid(*groups, gseq));
                    assert(groups.valid(gseq[j as int]@));
                    assert(group_total_prefix(*groups, gseq, j + 1) == group_total_prefix(
                        *groups,
                        gseq,
                        j as int,
                    ) + groups.members_of(gseq[j as int]@).len());
                    assert(group_total_prefix(*groups, gseq, j + 1) <= group_total(*groups, gseq));
                }
                sub = sub + groups.num_members(gs[j]);
                j = j + 1;
            }
            total = total + sub;
            i = i + 1;
        }
        total
    }

    /// Returns the group of round `hr` that the participant `hp` is a member
    /// of: the first group of the round's list that contains it, or the null
    /// handle when no group of the round does.
    pub fn participant_group(&self, hr: HRound, hp: HParticipant, groups: &Groups) -> (r: HGroup)
        requires
            self.valid(hr@),
            all_groups_valid(*groups, self.groups_of(hr@)),
            0 <= hp@ < 128,
        ensures
            (r@ == null_group_idx() && (forall|k: int| !(#[trigger] scan_hit(
                *groups,
                self.groups_of(hr@),
                hp@,
                k,
            )))) || (exists|k: int|
                #[trigger] scan_hit(*groups, self.groups_of(hr@), hp@, k) && self.groups_of(hr@)[k]
                    == r && (forall|j: int|
                    0 <= j < k ==> !(#[trigger] scan_hit(*groups, self.groups_of(hr@), hp@, j)))),
    {
        let gs = &self.insts[hr.idx].groups;
        let n = gs.len();
        let ghost gseq = self.groups_of(hr@);
        let mut k: usize = 0;
        while k < n
            invariant
                k <= n,
                n == gseq.len(),
                gs@ == gseq,
                self.valid(hr@),
                gseq == self.groups_of(hr@),
                all_groups_valid(*groups, gseq),
                0 <= hp@ < 128,
                forall|j: int| 0 <= j < k ==> !(#[trigger] scan_hit(*groups, gseq, hp@, j)),
            decreases n - k,
        {
            let hg = gs[k];
            if groups.has(hg, hp) {
                proof {
                    assert(gseq == self.groups_of(hr@));
                    assert(self.groups_of(hr@)[k as int] == hg);
                    assert(scan_hit(*groups, self.groups_of(hr@), hp@, k as int));
                    assert(exists|k2: int|
                        #[trigger] scan_hit(*groups, self.groups_of(hr@), hp@, k2)
                            && self.groups_of(hr@)[k2] == hg && (forall|j: int|
                            0 <= j < k2 ==> !(#[trigger] scan_hit(
                                *groups,
                                self.groups_of(hr@),
                                hp@,
                                j,
                            ))));
                }
                return hg;
            }
            proof {
                assert(!scan_hit(*groups, gseq, hp@, k as int));
            }
            k = k + 1;
        }
        proof {
            assert(forall|k: int| !(#[trigger] scan_hit(*groups, gseq, hp@, k)));
        }
        HGroup::null()
    }
}

/// Prefix sums of group member counts never exceed the full sum.
proof fn lemma_group_total_prefix_mono(groups: Groups, gs: Seq<HGroup>, k: int)
    requires
        0 <= k <= gs.len(),
    ensures
        forall|j: int| 0 <= j <= k ==> group_total_prefix(groups, gs, j) <= group_total_prefix(
            groups,
            gs,
            k,
        ),
    decreases k,
{
    if k > 0 {
        lemma_group_total_prefix_mono(groups, gs, k - 1);
    }
}

/// Prefix sums of round placement totals never exceed the full total.
pub proof fn lemma_total_prefix_mono(rounds: Rounds, hrs: Seq<HRound>, groups: Groups, k: int)
    requires
        0 <= k <= hrs.len(),
    ensures
        forall|j: int| 0 <= j <= k ==> rounds.total_prefix(hrs, groups, j) <= rounds.total_prefix(
            hrs,
            groups,
            k,
        ),
    decreases k,
{
    if k > 0 {
        lemma_total_prefix_mono(rounds, hrs, groups, k - 1);
    }
}

} // verus!
