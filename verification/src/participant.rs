use vstd::prelude::*;

use crate::group::{null_group_idx, Groups, HGroup};
use crate::participant_set::{lemma_pset_view_shape, ParticipantSet};
use crate::round::{all_groups_valid, lemma_round_home_unique, member_in_round, round_home, round_wf, scan_hit, HRound, Rounds};

verus! {

/// Index of the null participant handle: no participant.
pub open spec fn null_part_idx() -> int {
    usize::MAX as int
}

/// Handle for a participant, used as a parameter to the Participants methods.
#[derive(Copy, Clone, PartialEq, Eq, Structural, Debug)]
pub struct HParticipant {
    pub idx: usize,
}

impl View for HParticipant {
    type V = int;

    open spec fn view(&self) -> int {
        self.idx as int
    }
}

impl HParticipant {
    /// The null handle: stands for "no participant".
    pub fn null() -> (h: Self)
        ensures
            h@ == null_part_idx(),
    {
        HParticipant { idx: usize::MAX }
    }
}

/// One participant: a stable display id, the group joined most recently in the
/// round in progress (or the null group), and the set of all participants it
/// has ever shared a group with during the current attempt.
#[derive(Copy, Clone)]
struct Participant {
    id: usize,
    group: HGroup,
    acquaintances: ParticipantSet,
}

/// The registry that owns the participants and resolves their handles.
pub struct Participants {
    next_idx: usize,
    insts: Vec<Participant>,
}

impl Participants {
    /// Number of participants in the registry.
    pub closed spec fn spec_count(self) -> nat {
        self.insts@.len()
    }

    /// The group index recorded for the participant at index `p`, or the null
    /// group index.
    pub closed spec fn group_of(self, p: int) -> int {
        self.insts@[p].group@
    }

    /// The acquaintance set of the participant at index `p`.
    pub closed spec fn acq_of(self, p: int) -> Set<int> {
        self.insts@[p].acquaintances@
    }

    /// The display id of the participant at index `p`.
    pub closed spec fn id_of(self, p: int) -> int {
        self.insts@[p].id as int
    }

    /// Whether `p` is the index of a participant of this registry.
    pub open spec fn valid(self, p: int) -> bool {
        0 <= p < self.spec_count()
    }

    /// Internal allocation bookkeeping is consistent.
    pub closed spec fn alloc_wf(self) -> bool {
        self.next_idx == self.insts@.len()
    }
}

/// The set of acquaintances of participant `p` that are current members of
/// group `g`: the conflicts that forbid `p` from joining `g`.
pub open spec fn conflicts(parts: Participants, groups: Groups, p: int, g: int) -> Set<int> {
    parts.acq_of(p).intersect(groups.members_of(g))
}

/// Participant `p` may join group `g`: no member of `g` is an acquaintance of
/// `p`, and `g` has a free slot.
pub open spec fn can_join(parts: Participants, groups: Groups, p: int, g: int) -> bool {
    &&& conflicts(parts, groups, p, g).is_empty()
    &&& groups.members_of(g).len() < groups.size_of(g)
}

/// Acquaintance sets are well formed: finite, free of self-pairing, confined
/// to the population, and symmetric.
pub open spec fn acq_wf(parts: Participants) -> bool {
    &&& forall|p: int| parts.valid(p) ==> (#[trigger] parts.acq_of(p)).finite()
    &&& forall|p: int| parts.valid(p) ==> !(#[trigger] parts.acq_of(p)).contains(p)
    &&& forall|p: int, q: int|
        parts.valid(p) && (#[trigger] parts.acq_of(p).contains(q)) ==> parts.valid(q)
    &&& forall|p: int, q: int|
        parts.valid(p) && parts.valid(q) ==> ((#[trigger] parts.acq_of(p).contains(q))
            <==> parts.acq_of(q).contains(p))
}

/// Group member sets are well formed: finite, confined to the population, and
/// never over capacity.
pub open spec fn members_wf(parts: Participants, groups: Groups) -> bool {
    &&& forall|g: int| groups.valid(g) ==> (#[trigger] groups.members_of(g)).finite()
    &&& forall|g: int, p: int|
        groups.valid(g) && (#[trigger] groups.members_of(g).contains(p)) ==> parts.valid(p)
    &&& forall|g: int|
        groups.valid(g) ==> (#[trigger] groups.members_of(g)).len() <= groups.size_of(g)
}

/// Any two current co-members of a group are mutually acquainted.
pub open spec fn comembers_acquainted(parts: Participants, groups: Groups) -> bool {
    forall|g: int, p: int, q: int|
        #![trigger groups.members_of(g).contains(p), groups.members_of(g).contains(q)]
        groups.valid(g) && groups.members_of(g).contains(p) && groups.members_of(g).contains(q) && p
            != q ==> parts.acq_of(p).contains(q)
}

/// No two distinct participants are members of two distinct groups at once:
/// every pair shares at most one group.
pub open spec fn no_repeat_pairs(groups: Groups) -> bool {
    forall|g1: int, g2: int, p: int, q: int|
        #![trigger groups.members_of(g1).contains(p), groups.members_of(g2).contains(q)]
        groups.valid(g1) && groups.valid(g2) && g1 != g2 && groups.members_of(g1).contains(p)
            && groups.members_of(g1).contains(q) && groups.members_of(g2).contains(p)
            && groups.members_of(g2).contains(q) ==> p == q
}

/// A participant's recorded group, when not null, is a group it is a member
/// of.
pub open spec fn group_field_wf(parts: Participants, groups: Groups) -> bool {
    forall|p: int|
        parts.valid(p) && (#[trigger] parts.group_of(p)) != null_group_idx() ==> groups.valid(
            parts.group_of(p),
        ) && groups.members_of(parts.group_of(p)).contains(p)
}

/// Joint well-formedness of the participant and group registries: everything
/// the placement and repair operations preserve.
pub open spec fn registries_wf(parts: Participants, groups: Groups) -> bool {
    &&& parts.spec_count() <= 128
    &&& acq_wf(parts)
    &&& members_wf(parts, groups)
    &&& comembers_acquainted(parts, groups)
    &&& no_repeat_pairs(groups)
    &&& group_field_wf(parts, groups)
}

/// The exact state change of a successful placement of participant `hp` into
/// group `hg`: `hp` becomes a member of `hg` and records it as its group, the
/// prior members of `hg` and `hp` become mutually acquainted, and nothing else
/// changes.
pub open spec fn join_effect(
    p0: Participants,
    g0: Groups,
    p1: Participants,
    g1: Groups,
    hp: int,
    hg: int,
) -> bool {
    &&& g1.same_shape(g0)
    &&& g1.members_of(hg) == g0.members_of(hg).insert(hp)
    &&& forall|g: int| g0.valid(g) && g != hg ==> #[trigger] g1.members_of(g) == g0.members_of(g)
    &&& p1.spec_count() == p0.spec_count()
    &&& (p1.alloc_wf() <==> p0.alloc_wf())
    &&& p1.group_of(hp) == hg
    &&& p1.acq_of(hp) == p0.acq_of(hp) + g0.members_of(hg)
    &&& forall|q: int| p0.valid(q) ==> #[trigger] p1.id_of(q) == p0.id_of(q)
    &&& forall|q: int| p0.valid(q) && q != hp ==> #[trigger] p1.group_of(q) == p0.group_of(q)
    &&& forall|q: int|
        p0.valid(q) && q != hp && g0.members_of(hg).contains(q) ==> #[trigger] p1.acq_of(q)
            == p0.acq_of(q).insert(hp)
    &&& forall|q: int|
        p0.valid(q) && q != hp && !g0.members_of(hg).contains(q) ==> #[trigger] p1.acq_of(q)
            == p0.acq_of(q)
}

/// A successful placement preserves joint well-formedness of the registries.
proof fn lemma_join_preserves_wf(
    p0: Participants,
    g0: Groups,
    p1: Participants,
    g1: Groups,
    hp: int,
    hg: int,
)
    requires
        registries_wf(p0, g0),
        p0.valid(hp),
        g0.valid(hg),
        !g0.members_of(hg).contains(hp),
        can_join(p0, g0, hp, hg),
        join_effect(p0, g0, p1, g1, hp, hg),
    ensures
        registries_wf(p1, g1),
{
    let m = g0.members_of(hg);
    // acquaintance sets only grow
    assert forall|x: int, y: int|
        p0.valid(x) && #[trigger] p0.acq_of(x).contains(y) implies p1.acq_of(x).contains(y) by {
        if x == hp {
        } else if m.contains(x) {
            assert(p1.acq_of(x) == p0.acq_of(x).insert(hp));
        } else {
            assert(p1.acq_of(x) == p0.acq_of(x));
        }
    }
    assert forall|p: int| p1.valid(p) implies (#[trigger] p1.acq_of(p)).finite() by {
        if p == hp {
        } else if m.contains(p) {
            assert(p1.acq_of(p) == p0.acq_of(p).insert(hp));
        } else {
            assert(p1.acq_of(p) == p0.acq_of(p));
        }
    }
    assert forall|p: int| p1.valid(p) implies !(#[trigger] p1.acq_of(p)).contains(p) by {
        if p == hp {
            assert(!p0.acq_of(hp).contains(hp));
            assert(!m.contains(hp));
        } else if m.contains(p) {
            assert(p1.acq_of(p) == p0.acq_of(p).insert(hp));
            assert(!p0.acq_of(p).contains(p));
        } else {
            assert(p1.acq_of(p) == p0.acq_of(p));
        }
    }
    assert forall|p: int, q: int|
        p1.valid(p) && (#[trigger] p1.acq_of(p).contains(q)) implies p1.valid(q) by {
        if p == hp {
            if m.contains(q) {
            } else {
                assert(p0.acq_of(hp).contains(q));
            }
        } else if m.contains(p) {
            assert(p1.acq_of(p) == p0.acq_of(p).insert(hp));
            if q != hp {
                assert(p0.acq_of(p).contains(q));
            }
        } else {
            assert(p1.acq_of(p) == p0.acq_of(p));
        }
    }
    assert forall|p: int, q: int| p1.valid(p) && p1.valid(q) implies ((#[trigger] p1.acq_of(
        p,
    ).contains(q)) <==> p1.acq_of(q).contains(p)) by {
        lemma_join_acq_sym(p0, g0, p1, g1, hp, hg, p, q);
    }
    // member sets
    assert forall|g: int| g1.valid(g) implies (#[trigger] g1.members_of(g)).finite() by {
        if g == hg {
            assert(g1.members_of(hg) == m.insert(hp));
        } else {
            assert(g1.members_of(g) == g0.members_of(g));
        }
    }
    assert forall|g: int, p: int|
        g1.valid(g) && (#[trigger] g1.members_of(g).contains(p)) implies p1.valid(p) by {
        if g == hg {
            assert(g1.members_of(hg) == m.insert(hp));
        } else {
            assert(g1.members_of(g) == g0.members_of(g));
        }
    }
    assert forall|g: int|
        g1.valid(g) implies (#[trigger] g1.members_of(g)).len() <= g1.size_of(g) by {
        if g == hg {
            assert(g1.members_of(hg) == m.insert(hp));
            assert(m.insert(hp).len() == m.len() + 1);
        } else {
            assert(g1.members_of(g) == g0.members_of(g));
        }
    }
    // co-members are acquainted
    assert forall|g: int, p: int, q: int|
        g1.valid(g) && #[trigger] g1.members_of(g).contains(p) && #[trigger] g1.members_of(
            g,
        ).contains(q) && p != q implies p1.acq_of(p).contains(q) by {
        if g == hg {
            assert(g1.members_of(hg) == m.insert(hp));
            if p == hp {
                assert(m.contains(q));
                assert(p1.acq_of(hp) == p0.acq_of(hp) + m);
            } else if q == hp {
                assert(m.contains(p));
                assert(p1.acq_of(p) == p0.acq_of(p).insert(hp));
            } else {
                assert(m.contains(p) && m.contains(q));
                assert(p0.acq_of(p).contains(q));
            }
        } else {
            assert(g1.members_of(g) == g0.members_of(g));
            assert(p0.acq_of(p).contains(q));
        }
    }
    // every pair still shares at most one group
    assert forall|ga: int, gb: int, p: int, q: int|
        g1.valid(ga) && g1.valid(gb) && ga != gb && #[trigger] g1.members_of(ga).contains(p)
            && g1.members_of(ga).contains(q) && g1.members_of(gb).contains(p)
            && #[trigger] g1.members_of(gb).contains(q) implies p == q by {
        lemma_join_no_repeat(p0, g0, p1, g1, hp, hg, ga, gb, p, q);
    }
    // recorded groups still point at memberships
    assert forall|p: int|
        p1.valid(p) && (#[trigger] p1.group_of(p)) != null_group_idx() implies g1.valid(
        p1.group_of(p),
    ) && g1.members_of(p1.group_of(p)).contains(p) by {
        if p == hp {
            assert(g1.members_of(hg) == m.insert(hp));
        } else {
            assert(p1.group_of(p) == p0.group_of(p));
            let gp = p0.group_of(p);
            assert(g0.members_of(gp).contains(p));
            if gp == hg {
                assert(g1.members_of(hg) == m.insert(hp));
            } else {
                assert(g1.members_of(gp) == g0.members_of(gp));
            }
        }
    }
}

/// Symmetry of the acquaintance relation survives a placement.
proof fn lemma_join_acq_sym(
    p0: Participants,
    g0: Groups,
    p1: Participants,
    g1: Groups,
    hp: int,
    hg: int,
    p: int,
    q: int,
)
    requires
        registries_wf(p0, g0),
        p0.valid(hp),
        g0.valid(hg),
        !g0.members_of(hg).contains(hp),
        can_join(p0, g0, hp, hg),
        join_effect(p0, g0, p1, g1, hp, hg),
        p1.valid(p),
        p1.valid(q),
    ensures
        p1.acq_of(p).contains(q) <==> p1.acq_of(q).contains(p),
{
    let m = g0.members_of(hg);
    assert(p0.acq_of(p).contains(q) <==> p0.acq_of(q).contains(p));
    if p == q {
    } else if p == hp {
        assert(p1.acq_of(hp) == p0.acq_of(hp) + m);
        if m.contains(q) {
            assert(p1.acq_of(q) == p0.acq_of(q).insert(hp));
        } else {
            assert(p1.acq_of(q) == p0.acq_of(q));
        }
    } else if q == hp {
        assert(p1.acq_of(hp) == p0.acq_of(hp) + m);
        if m.contains(p) {
            assert(p1.acq_of(p) == p0.acq_of(p).insert(hp));
        } else {
            assert(p1.acq_of(p) == p0.acq_of(p));
        }
    } else {
        if m.contains(p) {
            assert(p1.acq_of(p) == p0.acq_of(p).insert(hp));
        } else {
            assert(p1.acq_of(p) == p0.acq_of(p));
        }
        if m.contains(q) {
            assert(p1.acq_of(q) == p0.acq_of(q).insert(hp));
        } else {
            assert(p1.acq_of(q) == p0.acq_of(q));
        }
    }
}

/// No pair of participants comes to share two groups through a placement that
/// respects the conflict rule.
proof fn lemma_join_no_repeat(
    p0: Participants,
    g0: Groups,
    p1: Participants,
    g1: Groups,
    hp: int,
    hg: int,
    ga: int,
    gb: int,
    p: int,
    q: int,
)
    requires
        registries_wf(p0, g0),
        p0.valid(hp),
        g0.valid(hg),
        !g0.members_of(hg).contains(hp),
        can_join(p0, g0, hp, hg),
        join_effect(p0, g0, p1, g1, hp, hg),
        g1.valid(ga),
        g1.valid(gb),
        ga != gb,
        g1.members_of(ga).contains(p),
        g1.members_of(ga).contains(q),
        g1.members_of(gb).contains(p),
        g1.members_of(gb).contains(q),
    ensures
        p == q,
{
    let m = g0.members_of(hg);
    if p != q {
        // reduce both memberships to the old state; only hg gained hp
        if ga != hg {
            assert(g1.members_of(ga) == g0.members_of(ga));
        }
        if gb != hg {
            assert(g1.members_of(gb) == g0.members_of(gb));
        }
        assert(g1.members_of(hg) == m.insert(hp));
        if ga == hg || gb == hg {
            let go = if ga == hg {
                gb
            } else {
                ga
            };
            // p and q are both members of hg now and of go before and now
            assert(g0.members_of(go).contains(p) && g0.members_of(go).contains(q));
            if p == hp || q == hp {
                let other = if p == hp {
                    q
                } else {
                    p
                };
                // hp and other share go in the old state, so they were
                // acquainted; but other is an old member of hg, against the
                // placement's conflict check
                assert(g0.members_of(go).contains(hp) && g0.members_of(go).contains(other));
                assert(p0.acq_of(hp).contains(other));
                assert(m.contains(other));
                assert(conflicts(p0, g0, hp, hg).contains(other));
                assert(false);
            } else {
                assert(m.contains(p) && m.contains(q));
                assert(g0.members_of(hg).contains(p) && g0.members_of(hg).contains(q));
                assert(false);
            }
        } else {
            assert(g0.members_of(ga).contains(p) && g0.members_of(ga).contains(q));
            assert(g0.members_of(gb).contains(p) && g0.members_of(gb).contains(q));
            assert(false);
        }
    }
}

/// The exact state change of a withdrawal of participant `hp` from group
/// `hg`: the inverse of the placement that put `hp` there. `hp` leaves the
/// member set, the acquaintance edges between `hp` and the remaining members
/// are removed on both sides, `hp`'s recorded group becomes null, and nothing
/// else changes.
pub open spec fn leave_effect(
    p0: Participants,
    g0: Groups,
    p1: Participants,
    g1: Groups,
    hp: int,
    hg: int,
) -> bool {
    &&& g1.same_shape(g0)
    &&& g1.members_of(hg) == g0.members_of(hg).remove(hp)
    &&& forall|g: int| g0.valid(g) && g != hg ==> #[trigger] g1.members_of(g) == g0.members_of(g)
    &&& p1.spec_count() == p0.spec_count()
    &&& (p1.alloc_wf() <==> p0.alloc_wf())
    &&& p1.group_of(hp) == null_group_idx()
    &&& p1.acq_of(hp) == p0.acq_of(hp) - g0.members_of(hg)
    &&& forall|q: int| p0.valid(q) ==> #[trigger] p1.id_of(q) == p0.id_of(q)
    &&& forall|q: int| p0.valid(q) && q != hp ==> #[trigger] p1.group_of(q) == p0.group_of(q)
    &&& forall|q: int|
        p0.valid(q) && q != hp && g0.members_of(hg).contains(q) ==> #[trigger] p1.acq_of(q)
            == p0.acq_of(q).remove(hp)
    &&& forall|q: int|
        p0.valid(q) && q != hp && !g0.members_of(hg).contains(q) ==> #[trigger] p1.acq_of(q)
            == p0.acq_of(q)
}

/// Symmetry of the acquaintance relation survives a withdrawal.
proof fn lemma_leave_acq_sym(
    p0: Participants,
    g0: Groups,
    p1: Participants,
    g1: Groups,
    hp: int,
    hg: int,
    p: int,
    q: int,
)
    requires
        registries_wf(p0, g0),
        p0.valid(hp),
        g0.valid(hg),
        g0.members_of(hg).contains(hp),
        leave_effect(p0, g0, p1, g1, hp, hg),
        p1.valid(p),
        p1.valid(q),
    ensures
        p1.acq_of(p).contains(q) <==> p1.acq_of(q).contains(p),
{
    let m = g0.members_of(hg);
    assert(p0.acq_of(p).contains(q) <==> p0.acq_of(q).contains(p));
    if p == q {
    } else if p == hp {
        assert(p1.acq_of(hp) == p0.acq_of(hp) - m);
        if m.contains(q) {
            assert(p1.acq_of(q) == p0.acq_of(q).remove(hp));
        } else {
            assert(p1.acq_of(q) == p0.acq_of(q));
        }
    } else if q == hp {
        assert(p1.acq_of(hp) == p0.acq_of(hp) - m);
        if m.contains(p) {
            assert(p1.acq_of(p) == p0.acq_of(p).remove(hp));
        } else {
            assert(p1.acq_of(p) == p0.acq_of(p));
        }
    } else {
        if m.contains(p) {
            assert(p1.acq_of(p) == p0.acq_of(p).remove(hp));
        } else {
            assert(p1.acq_of(p) == p0.acq_of(p));
        }
        if m.contains(q) {
            assert(p1.acq_of(q) == p0.acq_of(q).remove(hp));
        } else {
            assert(p1.acq_of(q) == p0.acq_of(q));
        }
    }
}

/// Co-members of any group stay mutually acquainted across a withdrawal: the
/// only acquaintance edges removed are those the withdrawn placement had
/// created, and no pair shares a second group that still needs them.
proof fn lemma_leave_comembers(
    p0: Participants,
    g0: Groups,
    p1: Participants,
    g1: Groups,
    hp: int,
    hg: int,
    g: int,
    p: int,
    q: int,
)
    requires
        registries_wf(p0, g0),
        p0.valid(hp),
        g0.valid(hg),
        g0.members_of(hg).contains(hp),
        leave_effect(p0, g0, p1, g1, hp, hg),
        g1.valid(g),
        g1.members_of(g).contains(p),
        g1.members_of(g).contains(q),
        p != q,
    ensures
        p1.acq_of(p).contains(q),
{
    let m = g0.members_of(hg);
    if g == hg {
        assert(g1.members_of(hg) == m.remove(hp));
        assert(m.contains(p) && m.contains(q) && p != hp && q != hp);
        assert(p0.acq_of(p).contains(q));
        assert(p1.acq_of(p) == p0.acq_of(p).remove(hp));
    } else {
        assert(g1.members_of(g) == g0.members_of(g));
        assert(g0.members_of(g).contains(p) && g0.members_of(g).contains(q));
        assert(p0.acq_of(p).contains(q));
        if p == hp {
            // q cannot also be a member of hg, else hp and q would share two
            // groups in the old state
            assert(g0.members_of(g).contains(hp));
            if m.contains(q) {
                assert(g0.members_of(hg).contains(q) && g0.members_of(hg).contains(hp));
                assert(q == hp);
                assert(false);
            }
            assert(p1.acq_of(hp) == p0.acq_of(hp) - m);
        } else if m.contains(p) {
            // p is a member of hg; q == hp would put hp and p in two groups
            if q == hp {
                assert(g0.members_of(g).contains(hp) && g0.members_of(g).contains(p));
                assert(g0.members_of(hg).contains(hp) && g0.members_of(hg).contains(p));
                assert(p == hp);
                assert(false);
            }
            assert(p1.acq_of(p) == p0.acq_of(p).remove(hp));
        } else {
            assert(p1.acq_of(p) == p0.acq_of(p));
        }
    }
}

/// A withdrawal preserves joint well-formedness of the registries.
proof fn lemma_leave_preserves_wf(
    p0: Participants,
    g0: Groups,
    p1: Participants,
    g1: Groups,
    hp: int,
    hg: int,
)
    requires
        registries_wf(p0, g0),
        p0.valid(hp),
        g0.valid(hg),
        g0.members_of(hg).contains(hp),
        leave_effect(p0, g0, p1, g1, hp, hg),
    ensures
        registries_wf(p1, g1),
{
    let m = g0.members_of(hg);
    assert forall|p: int| p1.valid(p) implies (#[trigger] p1.acq_of(p)).finite() by {
        if p == hp {
        } else if m.contains(p) {
            assert(p1.acq_of(p) == p0.acq_of(p).remove(hp));
        } else {
            assert(p1.acq_of(p) == p0.acq_of(p));
        }
    }
    assert forall|p: int| p1.valid(p) implies !(#[trigger] p1.acq_of(p)).contains(p) by {
        if p == hp {
        } else if m.contains(p) {
            assert(p1.acq_of(p) == p0.acq_of(p).remove(hp));
        } else {
            assert(p1.acq_of(p) == p0.acq_of(p));
        }
    }
    assert forall|p: int, q: int|
        p1.valid(p) && (#[trigger] p1.acq_of(p).contains(q)) implies p1.valid(q) by {
        if p == hp {
            assert(p0.acq_of(hp).contains(q));
        } else if m.contains(p) {
            assert(p1.acq_of(p) == p0.acq_of(p).remove(hp));
            assert(p0.acq_of(p).contains(q));
        } else {
            assert(p1.acq_of(p) == p0.acq_of(p));
        }
    }
    assert forall|p: int, q: int| p1.valid(p) && p1.valid(q) implies ((#[trigger] p1.acq_of(
        p,
    ).contains(q)) <==> p1.acq_of(q).contains(p)) by {
        lemma_leave_acq_sym(p0, g0, p1, g1, hp, hg, p, q);
    }
    assert forall|g: int| g1.valid(g) implies (#[trigger] g1.members_of(g)).finite() by {
        if g == hg {
            assert(g1.members_of(hg) == m.remove(hp));
        } else {
            assert(g1.members_of(g) == g0.members_of(g));
        }
    }
    assert forall|g: int, p: int|
        g1.valid(g) && (#[trigger] g1.members_of(g).contains(p)) implies p1.valid(p) by {
        if g == hg {
            assert(g1.members_of(hg) == m.remove(hp));
            assert(g0.members_of(hg).contains(p));
        } else {
            assert(g1.members_of(g) == g0.members_of(g));
        }
    }
    assert forall|g: int|
        g1.valid(g) implies (#[trigger] g1.members_of(g)).len() <= g1.size_of(g) by {
        if g == hg {
            assert(g1.members_of(hg) == m.remove(hp));
            assert(m.remove(hp).len() == m.len() - 1);
        } else {
            assert(g1.members_of(g) == g0.members_of(g));
        }
    }
    assert forall|g: int, p: int, q: int|
        g1.valid(g) && #[trigger] g1.members_of(g).contains(p) && #[trigger] g1.members_of(
            g,
        ).contains(q) && p != q implies p1.acq_of(p).contains(q) by {
        lemma_leave_comembers(p0, g0, p1, g1, hp, hg, g, p, q);
    }
    assert forall|ga: int, gb: int, p: int, q: int|
        g1.valid(ga) && g1.valid(gb) && ga != gb && #[trigger] g1.members_of(ga).contains(p)
            && g1.members_of(ga).contains(q) && g1.members_of(gb).contains(p)
            && #[trigger] g1.members_of(gb).contains(q) implies p == q by {
        if ga == hg {
            assert(g1.members_of(hg) == m.remove(hp));
        } else {
            assert(g1.members_of(ga) == g0.members_of(ga));
        }
        if gb == hg {
            assert(g1.members_of(hg) == m.remove(hp));
        } else {
            assert(g1.members_of(gb) == g0.members_of(gb));
        }
        assert(g0.members_of(ga).contains(p) && g0.members_of(ga).contains(q));
        assert(g0.members_of(gb).contains(p) && g0.members_of(gb).contains(q));
    }
    assert forall|p: int|
        p1.valid(p) && (#[trigger] p1.group_of(p)) != null_group_idx() implies g1.valid(
        p1.group_of(p),
    ) && g1.members_of(p1.group_of(p)).contains(p) by {
        if p != hp {
            assert(p1.group_of(p) == p0.group_of(p));
            let gp = p0.group_of(p);
            assert(g0.members_of(gp).contains(p));
            if gp == hg {
                assert(g1.members_of(hg) == m.remove(hp));
            } else {
                assert(g1.members_of(gp) == g0.members_of(gp));
            }
        }
    }
}

/// The exact state change of a relocation: `hp` is withdrawn from `hg` and
/// placed into `hog`, in one move.
pub open spec fn relocate_effect(
    p0: Participants,
    g0: Groups,
    p1: Participants,
    g1: Groups,
    hp: int,
    hg: int,
    hog: int,
) -> bool {
    &&& g1.same_shape(g0)
    &&& g1.members_of(hg) == g0.members_of(hg).remove(hp)
    &&& g1.members_of(hog) == g0.members_of(hog).insert(hp)
    &&& forall|g: int|
        g0.valid(g) && g != hg && g != hog ==> #[trigger] g1.members_of(g) == g0.members_of(g)
    &&& p1.spec_count() == p0.spec_count()
    &&& (p1.alloc_wf() <==> p0.alloc_wf())
    &&& p1.group_of(hp) == hog
    &&& p1.acq_of(hp) == (p0.acq_of(hp) - g0.members_of(hg)) + g0.members_of(hog)
    &&& forall|q: int| p0.valid(q) ==> #[trigger] p1.id_of(q) == p0.id_of(q)
    &&& forall|q: int| p0.valid(q) && q != hp ==> #[trigger] p1.group_of(q) == p0.group_of(q)
    &&& forall|q: int|
        p0.valid(q) && q != hp ==> #[trigger] p1.acq_of(q) == (if g0.members_of(hg).contains(q) {
            p0.acq_of(q).remove(hp)
        } else if g0.members_of(hog).contains(q) {
            p0.acq_of(q).insert(hp)
        } else {
            p0.acq_of(q)
        })
}

/// The exact state change of a direct swap: `hp` moves from `hg` into `hog`,
/// and `hop` moves from `hog` into `hg`, with the acquaintance edges of the
/// two undone placements removed and those of the two new placements added.
pub open spec fn swap_effect(
    p0: Participants,
    g0: Groups,
    p1: Participants,
    g1: Groups,
    hp: int,
    hop: int,
    hg: int,
    hog: int,
) -> bool {
    &&& g1.same_shape(g0)
    &&& g1.members_of(hg) == g0.members_of(hg).remove(hp).insert(hop)
    &&& g1.members_of(hog) == g0.members_of(hog).remove(hop).insert(hp)
    &&& forall|g: int|
        g0.valid(g) && g != hg && g != hog ==> #[trigger] g1.members_of(g) == g0.members_of(g)
    &&& p1.spec_count() == p0.spec_count()
    &&& (p1.alloc_wf() <==> p0.alloc_wf())
    &&& p1.group_of(hp) == hog
    &&& p1.group_of(hop) == hg
    &&& p1.acq_of(hp) == (p0.acq_of(hp) - g0.members_of(hg)) + g0.members_of(hog).remove(hop)
    &&& p1.acq_of(hop) == (p0.acq_of(hop) - g0.members_of(hog)) + g0.members_of(hg).remove(hp)
    &&& forall|q: int| p0.valid(q) ==> #[trigger] p1.id_of(q) == p0.id_of(q)
    &&& forall|q: int|
        p0.valid(q) && q != hp && q != hop ==> #[trigger] p1.group_of(q) == p0.group_of(q)
    &&& forall|q: int|
        p0.valid(q) && q != hp && q != hop ==> #[trigger] p1.acq_of(q) == (if g0.members_of(
            hg,
        ).contains(q) {
            p0.acq_of(q).remove(hp).insert(hop)
        } else if g0.members_of(hog).contains(q) {
            p0.acq_of(q).remove(hop).insert(hp)
        } else {
            p0.acq_of(q)
        })
}

/// Group `hog` is a candidate through which `try_regroup` can free `hp` from
/// `hg`: a single conflict that can be swapped away, a full group with a
/// member that fits `hg`, or a free slot with no conflict at all.
pub open spec fn repair_applicable(
    parts: Participants,
    groups: Groups,
    hp: int,
    hg: int,
    hog: int,
) -> bool {
    let k = conflicts(parts, groups, hp, hog).len();
    ||| (k == 1 && (exists|hop: int|
        (#[trigger] conflicts(parts, groups, hp, hog).contains(hop)) && conflicts(
            parts,
            groups,
            hop,
            hg,
        ).len() == 1))
    ||| (k == 0 && groups.members_of(hog).len() >= groups.size_of(hog) && (exists|hop: int|
        (#[trigger] groups.members_of(hog).contains(hop)) && conflicts(
            parts,
            groups,
            hop,
            hg,
        ).len() == 0))
    ||| (k == 0 && groups.members_of(hog).len() < groups.size_of(hog))
}

/// Two participants who are currently members of the same group are mutually
/// acquainted, in any well-formed state; together with
/// `lemma_join_keeps_acquaintances` this says that sharing a group once makes
/// two participants acquainted at once and keeps them so for the rest of the
/// attempt, however they are later separated into other groups. The one
/// operation that removes acquaintance edges is a withdrawal, which is by
/// design the exact inverse of a placement.
pub proof fn lemma_comembers_mutually_acquainted(
    parts: Participants,
    groups: Groups,
    g: int,
    a: int,
    b: int,
)
    requires
        registries_wf(parts, groups),
        groups.valid(g),
        groups.members_of(g).contains(a),
        groups.members_of(g).contains(b),
        a != b,
    ensures
        parts.acq_of(a).contains(b),
        parts.acq_of(b).contains(a),
{
}

/// A placement never removes an acquaintance: once two participants are
/// acquainted, they remain acquainted across every further placement.
pub proof fn lemma_join_keeps_acquaintances(
    p0: Participants,
    g0: Groups,
    p1: Participants,
    g1: Groups,
    hp: int,
    hg: int,
    a: int,
    b: int,
)
    requires
        join_effect(p0, g0, p1, g1, hp, hg),
        p0.valid(a),
        p0.acq_of(a).contains(b),
    ensures
        p1.acq_of(a).contains(b),
{
    if a == hp {
    } else if g0.members_of(hg).contains(a) {
        assert(p1.acq_of(a) == p0.acq_of(a).insert(hp));
    } else {
        assert(p1.acq_of(a) == p0.acq_of(a));
    }
}

/// Withdrawing a participant right after its successful placement restores
/// every group's member set and every participant's acquaintance set to its
/// pre-placement value; only the mover's recorded group is cleared rather
/// than restored.
pub proof fn lemma_withdraw_inverts_place(
    p0: Participants,
    g0: Groups,
    p1: Participants,
    g1: Groups,
    p2: Participants,
    g2: Groups,
    hp: int,
    hg: int,
)
    requires
        registries_wf(p0, g0),
        p0.valid(hp),
        g0.valid(hg),
        !g0.members_of(hg).contains(hp),
        can_join(p0, g0, hp, hg),
        join_effect(p0, g0, p1, g1, hp, hg),
        leave_effect(p1, g1, p2, g2, hp, hg),
    ensures
        g2.same_shape(g0),
        forall|g: int| g0.valid(g) ==> #[trigger] g2.members_of(g) == g0.members_of(g),
        forall|q: int| p0.valid(q) ==> #[trigger] p2.acq_of(q) == p0.acq_of(q),
        forall|q: int| p0.valid(q) ==> #[trigger] p2.id_of(q) == p0.id_of(q),
        forall|q: int| p0.valid(q) && q != hp ==> #[trigger] p2.group_of(q) == p0.group_of(q),
        p2.group_of(hp) == null_group_idx(),
        p0.group_of(hp) == null_group_idx() ==> p2.group_of(hp) == p0.group_of(hp),
        p2.spec_count() == p0.spec_count(),
{
    let m = g0.members_of(hg);
    let a = p0.acq_of(hp);
    assert(g1.members_of(hg) == m.insert(hp));
    assert(g2.members_of(hg) == m.insert(hp).remove(hp));
    assert forall|g: int| g0.valid(g) implies #[trigger] g2.members_of(g) == g0.members_of(g) by {
        if g == hg {
            assert(g2.members_of(hg) =~= m);
        } else {
            assert(g1.members_of(g) == g0.members_of(g));
            assert(g2.members_of(g) == g1.members_of(g));
        }
    }
    assert forall|g: int|
        g0.valid(g) implies g2.size_of(g) == g0.size_of(g) && g2.id_of(g) == g0.id_of(g) by {
        assert(g1.size_of(g) == g0.size_of(g) && g1.id_of(g) == g0.id_of(g));
        assert(g2.size_of(g) == g1.size_of(g) && g2.id_of(g) == g1.id_of(g));
    }
    assert(g2.same_shape(g0));
    assert forall|q: int| p0.valid(q) implies #[trigger] p2.acq_of(q) == p0.acq_of(q) by {
        if q == hp {
            // the conflict check made the placement's additions disjoint from
            // the old acquaintances, so subtracting the group removes exactly
            // them
            assert(p1.acq_of(hp) == a + m);
            assert(p2.acq_of(hp) == (a + m) - m.insert(hp));
            assert(conflicts(p0, g0, hp, hg).is_empty());
            assert forall|x: int| p2.acq_of(hp).contains(x) <==> a.contains(x) by {
                if a.contains(x) {
                    assert(!conflicts(p0, g0, hp, hg).contains(x));
                    assert(!m.contains(x));
                    assert(x != hp);
                }
            }
            assert(p2.acq_of(hp) =~= a);
        } else if m.contains(q) {
            assert(p1.acq_of(q) == p0.acq_of(q).insert(hp));
            assert(g1.members_of(hg).contains(q));
            assert(p2.acq_of(q) == p1.acq_of(q).remove(hp));
            // hp was no acquaintance of q before: q is a member of hg and the
            // conflict check found none
            assert(!conflicts(p0, g0, hp, hg).contains(q));
            assert(!p0.acq_of(hp).contains(q));
            assert(!p0.acq_of(q).contains(hp));
            assert(p2.acq_of(q) =~= p0.acq_of(q));
        } else {
            assert(p1.acq_of(q) == p0.acq_of(q));
            assert(!g1.members_of(hg).contains(q));
            assert(p2.acq_of(q) == p1.acq_of(q));
        }
    }
    assert forall|q: int| p0.valid(q) implies #[trigger] p2.id_of(q) == p0.id_of(q) by {
        assert(p1.id_of(q) == p0.id_of(q));
        assert(p2.id_of(q) == p1.id_of(q));
    }
    assert forall|q: int|
        p0.valid(q) && q != hp implies #[trigger] p2.group_of(q) == p0.group_of(q) by {
        assert(p1.group_of(q) == p0.group_of(q));
        assert(p2.group_of(q) == p1.group_of(q));
    }
}

/// The handle `h` is no way out for `hp`: it either names `hp`'s own group of
/// the round, or no relocation or swap through it can work.
spec fn repair_ruled_out(
    parts: Participants,
    groups: Groups,
    hp: int,
    hg: int,
    h: HGroup,
) -> bool {
    h@ == hg || !repair_applicable(parts, groups, hp, hg, h@)
}

/// The conflict set is part of a finite acquaintance set, so it is finite and
/// no larger.
proof fn lemma_conflicts_finite(parts: Participants, groups: Groups, p: int, g: int)
    requires
        parts.acq_of(p).finite(),
    ensures
        conflicts(parts, groups, p, g).finite(),
        conflicts(parts, groups, p, g).len() <= parts.acq_of(p).len(),
{
    assert(conflicts(parts, groups, p, g).subset_of(parts.acq_of(p)));
    vstd::set_lib::lemma_len_subset(conflicts(parts, groups, p, g), parts.acq_of(p));
}

/// A finite set of size one that contains `x` is exactly the singleton of
/// `x`.
proof fn lemma_singleton(s: Set<int>, x: int)
    requires
        s.finite(),
        s.len() == 1,
        s.contains(x),
    ensures
        s == Set::<int>::empty().insert(x),
{
    assert(s.remove(x).len() == 0);
    s.remove(x).lemma_len0_is_empty();
    assert(s =~= Set::<int>::empty().insert(x));
}

/// After a swap, neither moved participant was previously acquainted with any
/// of its new co-members: the one conflict each side may have had was the
/// counterpart, and the counterpart left.
proof fn lemma_repair_ok_swap(
    p0: Participants,
    g0: Groups,
    p2: Participants,
    g2: Groups,
    gs: Seq<HGroup>,
    hp: int,
    hop: int,
    hg: int,
    hog: int,
)
    requires
        conflicts(p0, g0, hp, hog).subset_of(Set::<int>::empty().insert(hop)),
        conflicts(p0, g0, hop, hg).subset_of(Set::<int>::empty().insert(hp)),
        !g0.members_of(hog).contains(hp),
        !g0.members_of(hg).contains(hop),
        swap_effect(p0, g0, p2, g2, hp, hop, hg, hog),
    ensures
        p0.acq_of(hp).intersect(g2.members_of(hog).remove(hp)) == Set::<int>::empty(),
        p0.acq_of(hop).intersect(g2.members_of(hg).remove(hop)) == Set::<int>::empty(),
{
    let mhg = g0.members_of(hg);
    let mhog = g0.members_of(hog);
    assert(g2.members_of(hog) == mhog.remove(hop).insert(hp));
    assert(g2.members_of(hog).remove(hp) =~= mhog.remove(hop));
    assert forall|x: int| !p0.acq_of(hp).intersect(mhog.remove(hop)).contains(x) by {
        if p0.acq_of(hp).intersect(mhog.remove(hop)).contains(x) {
            assert(conflicts(p0, g0, hp, hog).contains(x));
            assert(x == hop);
            assert(false);
        }
    }
    assert(p0.acq_of(hp).intersect(g2.members_of(hog).remove(hp)) =~= Set::<int>::empty());
    assert(g2.members_of(hg) == mhg.remove(hp).insert(hop));
    assert(g2.members_of(hg).remove(hop) =~= mhg.remove(hp));
    assert forall|x: int| !p0.acq_of(hop).intersect(mhg.remove(hp)).contains(x) by {
        if p0.acq_of(hop).intersect(mhg.remove(hp)).contains(x) {
            assert(conflicts(p0, g0, hop, hg).contains(x));
            assert(x == hp);
            assert(false);
        }
    }
    assert(p0.acq_of(hop).intersect(g2.members_of(hg).remove(hop)) =~= Set::<int>::empty());
}

/// A withdrawal followed by a placement into another group of the round adds
/// up to the relocation effect, and the mover was previously acquainted with
/// none of its new co-members.
proof fn lemma_repair_ok_relocate(
    p0: Participants,
    g0: Groups,
    p1: Participants,
    g1: Groups,
    p2: Participants,
    g2: Groups,
    gs: Seq<HGroup>,
    hp: int,
    hg: int,
    hog: int,
)
    requires
        registries_wf(p0, g0),
        p0.valid(hp),
        g0.valid(hg),
        g0.valid(hog),
        hg != hog,
        g0.members_of(hg).contains(hp),
        !g0.members_of(hog).contains(hp),
        conflicts(p0, g0, hp, hog) == Set::<int>::empty(),
        forall|x: int| !(g0.members_of(hg).contains(x) && g0.members_of(hog).contains(x)),
        leave_effect(p0, g0, p1, g1, hp, hg),
        join_effect(p1, g1, p2, g2, hp, hog),
    ensures
        relocate_effect(p0, g0, p2, g2, hp, hg, hog),
        p0.acq_of(hp).intersect(g2.members_of(hog).remove(hp)) == Set::<int>::empty(),
{
    let mhg = g0.members_of(hg);
    let mhog = g0.members_of(hog);
    assert(g1.members_of(hg) == mhg.remove(hp));
    assert(g1.members_of(hog) == mhog);
    assert(g2.members_of(hg) == g1.members_of(hg));
    assert(g2.members_of(hog) == mhog.insert(hp));
    assert forall|g: int|
        g0.valid(g) && g != hg && g != hog implies #[trigger] g2.members_of(g) == g0.members_of(
        g,
    ) by {
        assert(g1.members_of(g) == g0.members_of(g));
        assert(g2.members_of(g) == g1.members_of(g));
    }
    assert forall|g: int|
        g0.valid(g) implies g2.size_of(g) == g0.size_of(g) && g2.id_of(g) == g0.id_of(g) by {
        assert(g1.size_of(g) == g0.size_of(g) && g1.id_of(g) == g0.id_of(g));
        assert(g2.size_of(g) == g1.size_of(g) && g2.id_of(g) == g1.id_of(g));
    }
    assert(g2.same_shape(g0));
    assert(p2.acq_of(hp) == p1.acq_of(hp) + g1.members_of(hog));
    assert(p2.acq_of(hp) == (p0.acq_of(hp) - mhg) + mhog);
    assert forall|q: int| p0.valid(q) implies #[trigger] p2.id_of(q) == p0.id_of(q) by {
        assert(p1.id_of(q) == p0.id_of(q));
        assert(p2.id_of(q) == p1.id_of(q));
    }
    assert forall|q: int|
        p0.valid(q) && q != hp implies #[trigger] p2.group_of(q) == p0.group_of(q) by {
        assert(p1.group_of(q) == p0.group_of(q));
        assert(p2.group_of(q) == p1.group_of(q));
    }
    assert forall|q: int|
        p0.valid(q) && q != hp implies #[trigger] p2.acq_of(q) == (if mhg.contains(q) {
        p0.acq_of(q).remove(hp)
    } else if mhog.contains(q) {
        p0.acq_of(q).insert(hp)
    } else {
        p0.acq_of(q)
    }) by {
        if mhg.contains(q) {
            assert(!mhog.contains(q));
            assert(p1.acq_of(q) == p0.acq_of(q).remove(hp));
            assert(!g1.members_of(hog).contains(q));
            assert(p2.acq_of(q) == p1.acq_of(q));
        } else if mhog.contains(q) {
            assert(p1.acq_of(q) == p0.acq_of(q));
            assert(g1.members_of(hog).contains(q));
            assert(p2.acq_of(q) == p1.acq_of(q).insert(hp));
        } else {
            assert(p1.acq_of(q) == p0.acq_of(q));
            assert(!g1.members_of(hog).contains(q));
            assert(p2.acq_of(q) == p1.acq_of(q));
        }
    }
    assert(relocate_effect(p0, g0, p2, g2, hp, hg, hog));
    assert(g2.members_of(hog).remove(hp) =~= mhog);
    assert forall|x: int| !p0.acq_of(hp).intersect(mhog).contains(x) by {
        if p0.acq_of(hp).intersect(mhog).contains(x) {
            assert(conflicts(p0, g0, hp, hog).contains(x));
            assert(false);
        }
    }
    assert(p0.acq_of(hp).intersect(g2.members_of(hog).remove(hp)) =~= Set::<int>::empty());
}

impl Participants {
    /// Creates a new Participants registry.
    pub fn new() -> (r: Self)
        ensures
            r.spec_count() == 0,
            r.alloc_wf(),
    {
        Participants { next_idx: 0, insts: Vec::new() }
    }

    /// Creates `num` new participants and returns their handles; ids continue
    /// where the last allocation left off. Each starts ungrouped, with an
    /// empty acquaintance set.
    pub fn hcalloc(&mut self, num: usize) -> (r: Vec<HParticipant>)
        requires
            old(self).alloc_wf(),
            old(self).spec_count() + num <= usize::MAX,
        ensures
            final(self).alloc_wf(),
            final(self).spec_count() == old(self).spec_count() + num,
            forall|p: int|
                old(self).valid(p) ==> final(self).acq_of(p) == old(self).acq_of(p) && final(self).group_of(p) == old(self).group_of(p) && final(self).id_of(p) == old(self).id_of(
                    p,
                ),
            forall|p: int|
                old(self).spec_count() <= p < final(self).spec_count() ==> final(self).acq_of(p)
                    == Set::<int>::empty() && final(self).group_of(p) == null_group_idx() && final(self).id_of(p) == p + 1,
            r@.len() == num,
            forall|k: int| 0 <= k < num ==> r@[k]@ == old(self).spec_count() + k,
    {
        let mut handles: Vec<HParticipant> = Vec::new();
        let start = self.next_idx;
        let end = start + num;
        self.next_idx = end;
        let mut i = start;
        while i < end
            invariant
                start <= i <= end,
                end == start + num,
                self.next_idx == end,
                start == old(self).spec_count(),
                self.insts@.len() == i,
                forall|p: int| 0 <= p < start ==> self.insts@[p] == old(self).insts@[p],
                forall|p: int|
                    start <= p < i ==> (#[trigger] self.insts@[p]).acquaintances@ == Set::<
                        int,
                    >::empty() && self.insts@[p].group@ == null_group_idx() && self.insts@[p].id == p
                        + 1,
                handles@.len() == i - start,
                forall|k: int| 0 <= k < i - start ==> handles@[k]@ == start + k,
            decreases end - i,
        {
            self.insts.push(
                Participant { id: i + 1, group: HGroup::null(), acquaintances: ParticipantSet::new() },
            );
            handles.push(HParticipant { idx: i });
            i = i + 1;
        }
        proof {
            assert forall|p: int| old(self).valid(p) implies self.acq_of(p) == old(self).acq_of(p)
                && self.group_of(p) == old(self).group_of(p) && self.id_of(p) == old(self).id_of(
                p,
            ) by {
                assert(self.insts@[p] == old(self).insts@[p]);
            }
        }
        handles
    }

    /// Returns a handle for the participant at the given index.
    pub fn hget(&self, idx: usize) -> (r: HParticipant)
        ensures
            r@ == idx,
    {
        HParticipant { idx }
    }

    /// Returns the number of participants.
    pub fn count(&self) -> (r: usize)
        ensures
            r == self.spec_count(),
    {
        self.insts.len()
    }

    /// Indicates whether the participant currently has a recorded group.
    pub fn is_grouped(&self, hp: HParticipant) -> (r: bool)
        requires
            self.valid(hp@),
        ensures
            r == (self.group_of(hp@) != null_group_idx()),
    {
        self.insts[hp.idx].group.idx != usize::MAX
    }

    /// Returns the recorded group of the participant, or the null group
    /// handle.
    pub fn group(&self, hp: HParticipant) -> (r: HGroup)
        requires
            self.valid(hp@),
        ensures
            r@ == self.group_of(hp@),
    {
        self.insts[hp.idx].group
    }

    /// Returns an iterator over the participant handles, in index order.
    pub fn iter(&self) -> (it: ParticipantIter)
        ensures
            it.num == self.spec_count(),
            it.count == 0,
    {
        ParticipantIter { num: self.insts.len(), count: 0 }
    }

    /// Returns a vector with the handles of all participants, in index order.
    pub fn handle_vec(&self) -> (r: Vec<HParticipant>)
        ensures
            r@.len() == self.spec_count(),
            forall|k: int| 0 <= k < r@.len() ==> r@[k]@ == k,
    {
        let n = self.insts.len();
        let mut r: Vec<HParticipant> = Vec::new();
        let mut i: usize = 0;
        while i < n
            invariant
                i <= n,
                r@.len() == i,
                forall|k: int| 0 <= k < i ==> r@[k]@ == k,
            decreases n - i,
        {
            r.push(HParticipant { idx: i });
            i = i + 1;
        }
        r
    }

    /// Clears the recorded group of every participant, so that a new round of
    /// grouping can begin; acquaintance sets are kept.
    pub fn prepare_for_new_round(&mut self)
        ensures
            final(self).spec_count() == old(self).spec_count(),
            (final(self).alloc_wf() <==> old(self).alloc_wf()),
            forall|p: int|
                old(self).valid(p) ==> final(self).group_of(p) == null_group_idx() && final(self).acq_of(p) == old(self).acq_of(p) && final(self).id_of(p) == old(self).id_of(p),
    {
        let n = self.insts.len();
        let mut i: usize = 0;
        while i < n
            invariant
                i <= n,
                n == self.insts@.len(),
                self.next_idx == old(self).next_idx,
                old(self).insts@.len() == n,
                forall|p: int|
                    0 <= p < n ==> (#[trigger] self.insts@[p]).acquaintances@ == old(self).insts@[p].acquaintances@ && self.insts@[p].id == old(self).insts@[p].id,
                forall|p: int| i <= p < n ==> self.insts@[p] == old(self).insts@[p],
                forall|p: int|
                    0 <= p < i ==> (#[trigger] self.insts@[p]).group@ == null_group_idx(),
            decreases n - i,
        {
            let mut rec = self.insts[i];
            rec.group = HGroup::null();
            self.insts.set(i, rec);
            i = i + 1;
        }
    }

    /// Resets every participant for a fresh attempt: ungrouped, with an empty
    /// acquaintance set.
    pub fn reset(&mut self)
        ensures
            final(self).spec_count() == old(self).spec_count(),
            (final(self).alloc_wf() <==> old(self).alloc_wf()),
            forall|p: int|
                old(self).valid(p) ==> final(self).group_of(p) == null_group_idx() && final(self).acq_of(p) == Set::<int>::empty() && final(self).id_of(p) == old(self).id_of(p),
    {
        let n = self.insts.len();
        let mut i: usize = 0;
        while i < n
            invariant
                i <= n,
                n == self.insts@.len(),
                self.next_idx == old(self).next_idx,
                old(self).insts@.len() == n,
                forall|p: int|
                    0 <= p < n ==> (#[trigger] self.insts@[p]).id == old(self).insts@[p].id,
                forall|p: int| i <= p < n ==> self.insts@[p] == old(self).insts@[p],
                forall|p: int|
                    0 <= p < i ==> (#[trigger] self.insts@[p]).group@ == null_group_idx()
                        && self.insts@[p].acquaintances@ == Set::<int>::empty(),
            decreases n - i,
        {
            let mut rec = self.insts[i];
            rec.group = HGroup::null();
            let empty = ParticipantSet::new();
            rec.acquaintances = empty;
            self.insts.set(i, rec);
            i = i + 1;
        }
    }

    /// Indicates whether the participant is acquainted with any current member
    /// of the group: the core conflict predicate of the placement rule.
    pub fn is_acquainted(&self, hp: HParticipant, hg: HGroup, groups: &Groups) -> (r: bool)
        requires
            self.valid(hp@),
            groups.valid(hg@),
        ensures
            r == !conflicts(*self, *groups, hp@, hg@).is_empty(),
    {
        self.insts[hp.idx].acquaintances.has_common(groups.member_set(hg))
    }

    /// Indicates whether the two participants are acquainted: they have shared
    /// a group at some point of the current attempt.
    pub fn is_acquainted_participant(&self, hp: HParticipant, hop: HParticipant) -> (r: bool)
        requires
            self.valid(hp@),
            0 <= hop@ < 128,
        ensures
            r == self.acq_of(hp@).contains(hop@),
    {
        self.insts[hp.idx].acquaintances.has(hop)
    }

    /// Records the pairwise acquaintances made by a placement: every member of
    /// `oms` is added to the acquaintance set of `hp`, and `hp` to theirs.
    fn acquaint_group(&mut self, hp: HParticipant, oms: &ParticipantSet)
        requires
            old(self).valid(hp@),
            old(self).spec_count() <= 128,
            forall|q: int| oms@.contains(q) ==> old(self).valid(q),
            !oms@.contains(hp@),
        ensures
            final(self).spec_count() == old(self).spec_count(),
            (final(self).alloc_wf() <==> old(self).alloc_wf()),
            final(self).acq_of(hp@) == old(self).acq_of(hp@) + oms@,
            final(self).group_of(hp@) == old(self).group_of(hp@),
            forall|q: int|
                old(self).valid(q) ==> #[trigger] final(self).id_of(q) == old(self).id_of(q),
            forall|q: int|
                old(self).valid(q) && q != hp@ ==> #[trigger] final(self).group_of(q) == old(self).group_of(q),
            forall|q: int|
                old(self).valid(q) && q != hp@ && oms@.contains(q) ==> #[trigger] final(self).acq_of(q) == old(self).acq_of(q).insert(hp@),
            forall|q: int|
                old(self).valid(q) && q != hp@ && !oms@.contains(q) ==> #[trigger] final(self).acq_of(q) == old(self).acq_of(q),
    {
        let mut rec = self.insts[hp.idx];
        rec.acquaintances.add_set(oms);
        self.insts.set(hp.idx, rec);
        let n = self.insts.len();
        let mut q: usize = 0;
        while q < n
            invariant
                q <= n,
                n == self.insts@.len(),
                n == old(self).insts@.len(),
                n <= 128,
                0 <= hp@ < n,
                !oms@.contains(hp@),
                self.next_idx == old(self).next_idx,
                (#[trigger] self.insts@[hp@]).id == old(self).insts@[hp@].id,
                self.insts@[hp@].group == old(self).insts@[hp@].group,
                self.insts@[hp@].acquaintances@ == old(self).insts@[hp@].acquaintances@ + oms@,
                forall|p: int|
                    0 <= p < n && p != hp@ ==> (#[trigger] self.insts@[p]).id == old(self).insts@[p].id && self.insts@[p].group == old(self).insts@[p].group,
                forall|p: int|
                    0 <= p < n && p != hp@ && !(q <= p && oms@.contains(p)) ==> (
                    #[trigger] self.insts@[p]).acquaintances@ == (if oms@.contains(p) {
                        old(self).insts@[p].acquaintances@.insert(hp@)
                    } else {
                        old(self).insts@[p].acquaintances@
                    }),
                forall|p: int|
                    q <= p < n && p != hp@ ==> (#[trigger] self.insts@[p]).acquaintances@ == old(self).insts@[p].acquaintances@,
            decreases n - q,
        {
            let hq = HParticipant { idx: q };
            if oms.has(hq) {
                if q != hp.idx {
                    let mut r2 = self.insts[q];
                    r2.acquaintances.add(hp);
                    self.insts.set(q, r2);
                }
            }
            q = q + 1;
        }
    }

    /// Attempts to place the participant into the group. This succeeds exactly
    /// when the handle is not null, the participant is acquainted with no
    /// current member, and the group has a free slot; a failed attempt leaves
    /// every part of both registries unchanged.
    pub fn try_join(&mut self, hp: HParticipant, hg: HGroup, groups: &mut Groups) -> (r: bool)
        requires
            registries_wf(*old(self), *old(groups)),
            old(self).valid(hp@),
            hg@ == null_group_idx() || (old(groups).valid(hg@) && !old(groups).members_of(
                hg@,
            ).contains(hp@)),
        ensures
            r == (hg@ != null_group_idx() && can_join(*old(self), *old(groups), hp@, hg@)),
            r ==> join_effect(*old(self), *old(groups), *final(self), *final(groups), hp@, hg@)
                && registries_wf(*final(self), *final(groups)),
            !r ==> *final(self) == *old(self) && *final(groups) == *old(groups),
    {
        if hg.idx == usize::MAX {
            return false;
        }
        let acq = self.is_acquainted(hp, hg, groups);
        let fl = groups.full(hg);
        if acq || fl {
            return false;
        }
        let oms = *groups.member_set(hg);
        proof {
            assert forall|q: int| oms@.contains(q) implies self.valid(q) by {
                assert(old(groups).members_of(hg@).contains(q));
            }
        }
        groups.add(hg, hp);
        let mut rec = self.insts[hp.idx];
        rec.group = hg;
        self.insts.set(hp.idx, rec);
        let ghost p_mid = *self;
        proof {
            assert(p_mid.group_of(hp@) == hg@);
            assert forall|q: int| old(self).valid(q) implies #[trigger] p_mid.acq_of(q) == old(self).acq_of(q) && p_mid.id_of(q) == old(self).id_of(q) by {
                if q != hp@ {
                    assert(p_mid.insts@[q] == old(self).insts@[q]);
                }
            }
        }
        self.acquaint_group(hp, &oms);
        proof {
            assert forall|q: int|
                old(self).valid(q) && q != hp@ implies #[trigger] self.group_of(q) == old(self).group_of(q) by {
                assert(self.group_of(q) == p_mid.group_of(q));
                assert(p_mid.insts@[q] == old(self).insts@[q]);
            }
            assert(join_effect(*old(self), *old(groups), *self, *groups, hp@, hg@));
            lemma_join_preserves_wf(*old(self), *old(groups), *self, *groups, hp@, hg@);
        }
        true
    }

    /// Removes the participant from the group: the exact inverse of the
    /// placement that put it there. The acquaintance edges between the
    /// participant and the remaining members are removed on both sides, and
    /// the participant's recorded group becomes null.
    pub fn leave_group(&mut self, hp: HParticipant, hg: HGroup, groups: &mut Groups)
        requires
            registries_wf(*old(self), *old(groups)),
            old(self).valid(hp@),
            old(groups).valid(hg@),
            old(groups).members_of(hg@).contains(hp@),
        ensures
            leave_effect(*old(self), *old(groups), *final(self), *final(groups), hp@, hg@),
            registries_wf(*final(self), *final(groups)),
    {
        let ghost m = old(groups).members_of(hg@);
        let oms = *groups.member_set(hg);
        let mut others = oms;
        others.remove(hp);
        proof {
            assert forall|q: int| others@.contains(q) implies self.insts@[hp@].acquaintances@.contains(
                q,
            ) by {
                assert(old(groups).members_of(hg@).contains(q));
                assert(old(groups).members_of(hg@).contains(hp@));
                assert(self.acq_of(hp@).contains(q));
            }
        }
        let mut rec = self.insts[hp.idx];
        rec.acquaintances.remove_set(&others);
        rec.group = HGroup::null();
        self.insts.set(hp.idx, rec);
        proof {
            assert(!old(self).acq_of(hp@).contains(hp@));
            assert(self.insts@[hp@].acquaintances@ =~= old(self).acq_of(hp@) - m);
        }
        let n = self.insts.len();
        let mut q: usize = 0;
        while q < n
            invariant
                q <= n,
                n == self.insts@.len(),
                n == old(self).insts@.len(),
                n <= 128,
                0 <= hp@ < n,
                others@ == m.remove(hp@),
                registries_wf(*old(self), *old(groups)),
                old(groups).valid(hg@),
                m == old(groups).members_of(hg@),
                m.contains(hp@),
                self.next_idx == old(self).next_idx,
                (#[trigger] self.insts@[hp@]).id == old(self).insts@[hp@].id,
                self.insts@[hp@].group@ == null_group_idx(),
                self.insts@[hp@].acquaintances@ == old(self).acq_of(hp@) - m,
                forall|p: int|
                    0 <= p < n && p != hp@ ==> (#[trigger] self.insts@[p]).id == old(
                        self,
                    ).insts@[p].id && self.insts@[p].group == old(self).insts@[p].group,
                forall|p: int|
                    0 <= p < n && p != hp@ && !(q <= p && others@.contains(p)) ==> (
                    #[trigger] self.insts@[p]).acquaintances@ == (if others@.contains(p) {
                        old(self).insts@[p].acquaintances@.remove(hp@)
                    } else {
                        old(self).insts@[p].acquaintances@
                    }),
                forall|p: int|
                    q <= p < n && p != hp@ ==> (#[trigger] self.insts@[p]).acquaintances@ == old(
                        self,
                    ).insts@[p].acquaintances@,
            decreases n - q,
        {
            let hq = HParticipant { idx: q };
            if others.has(hq) {
                if q != hp.idx {
                    proof {
                        assert(old(groups).members_of(hg@).contains(q as int));
                        assert(old(self).acq_of(q as int).contains(hp@));
                    }
                    let mut r2 = self.insts[q];
                    r2.acquaintances.remove(hp);
                    self.insts.set(q, r2);
                }
            }
            q = q + 1;
        }
        groups.remove(hg, hp);
        proof {
            assert forall|p: int|
                old(self).valid(p) && p != hp@ && m.contains(p) implies #[trigger] self.acq_of(p)
                == old(self).acq_of(p).remove(hp@) by {
                assert(others@.contains(p));
            }
            assert forall|p: int|
                old(self).valid(p) && p != hp@ && !m.contains(p) implies #[trigger] self.acq_of(p)
                == old(self).acq_of(p) by {
                assert(!others@.contains(p));
            }
            assert(leave_effect(*old(self), *old(groups), *self, *groups, hp@, hg@));
            lemma_leave_preserves_wf(*old(self), *old(groups), *self, *groups, hp@, hg@);
        }
    }

    /// Counts how many current members of the group are acquaintances of the
    /// participant.
    fn num_acquaint_group(&self, hp: HParticipant, hg: HGroup, groups: &Groups) -> (r: u32)
        requires
            self.valid(hp@),
            groups.valid(hg@),
        ensures
            r == conflicts(*self, *groups, hp@, hg@).len(),
    {
        self.insts[hp.idx].acquaintances.num_common(groups.member_set(hg))
    }

    /// Returns the single acquaintance of the participant within the group;
    /// defined exactly when there is one conflict.
    fn get_acquaintance(&self, hp: HParticipant, hg: HGroup, groups: &Groups) -> (r: HParticipant)
        requires
            self.valid(hp@),
            groups.valid(hg@),
            conflicts(*self, *groups, hp@, hg@).len() == 1,
        ensures
            conflicts(*self, *groups, hp@, hg@) == Set::<int>::empty().insert(r@),
            0 <= r@ < 128,
    {
        let c = self.insts[hp.idx].acquaintances.common(groups.member_set(hg));
        let h = c.to_handle();
        proof {
            let s = conflicts(*self, *groups, hp@, hg@);
            lemma_pset_view_shape(c);
            assert(s.contains(h@));
            assert(s.remove(h@).len() == 0);
            s.remove(h@).lemma_len0_is_empty();
            assert(s =~= Set::<int>::empty().insert(h@));
        }
        h
    }

    /// Attempts to place the participant into some group of the round, trying
    /// the round's groups in their stored order and stopping at the first
    /// success. Fails, leaving both registries unchanged, exactly when no
    /// group of the round can take the participant.
    pub fn try_join_groups(
        &mut self,
        hp: HParticipant,
        hr: HRound,
        rounds: &Rounds,
        groups: &mut Groups,
    ) -> (r: bool)
        requires
            registries_wf(*old(self), *old(groups)),
            old(self).valid(hp@),
            rounds.valid(hr@),
            all_groups_valid(*old(groups), rounds.groups_of(hr@)),
            forall|k: int|
                0 <= k < rounds.groups_of(hr@).len() ==> !old(groups).members_of(
                    (#[trigger] rounds.groups_of(hr@)[k])@,
                ).contains(hp@),
        ensures
            registries_wf(*final(self), *final(groups)),
            !r ==> *final(self) == *old(self) && *final(groups) == *old(groups) && (forall|k: int|
                0 <= k < rounds.groups_of(hr@).len() ==> !can_join(
                    *old(self),
                    *old(groups),
                    hp@,
                    (#[trigger] rounds.groups_of(hr@)[k])@,
                )),
            r ==> exists|k: int|
                0 <= k < rounds.groups_of(hr@).len() && #[trigger] can_join(
                    *old(self),
                    *old(groups),
                    hp@,
                    rounds.groups_of(hr@)[k]@,
                ) && (forall|j: int|
                    0 <= j < k ==> !can_join(
                        *old(self),
                        *old(groups),
                        hp@,
                        (#[trigger] rounds.groups_of(hr@)[j])@,
                    )) && join_effect(
                    *old(self),
                    *old(groups),
                    *final(self),
                    *final(groups),
                    hp@,
                    rounds.groups_of(hr@)[k]@,
                ),
    {
        let ghost gs = rounds.groups_of(hr@);
        let gv = rounds.groups(hr);
        let n = gv.len();
        let mut k: usize = 0;
        while k < n
            invariant
                k <= n,
                n == gs.len(),
                gv@ == gs,
                gs == rounds.groups_of(hr@),
                *self == *old(self),
                *groups == *old(groups),
                registries_wf(*old(self), *old(groups)),
                old(self).valid(hp@),
                all_groups_valid(*old(groups), gs),
                forall|j: int|
                    0 <= j < gs.len() ==> !old(groups).members_of(
                        (#[trigger] gs[j])@,
                    ).contains(hp@),
                forall|j: int|
                    0 <= j < k ==> !can_join(*old(self), *old(groups), hp@, (#[trigger] gs[j])@),
            decreases n - k,
        {
            let hg = gv[k];
            proof {
                (*groups).lemma_count_bound();
                assert((*groups).valid(gs[k as int]@));
            }
            if self.try_join(hp, hg, groups) {
                proof {
                    assert(can_join(*old(self), *old(groups), hp@, gs[k as int]@));
                }
                return true;
            }
            proof {
                assert(hg@ != null_group_idx());
                assert(!can_join(*old(self), *old(groups), hp@, gs[k as int]@));
            }
            k = k + 1;
        }
        false
    }

    /// Performs the two withdrawals and two placements of a direct swap:
    /// `hp` leaves `hg` for `hog` while `hop` leaves `hog` for `hg`. The
    /// preconditions say that each side has at most the other as a conflict,
    /// so both placements are proved to succeed.
    fn swap_with(
        &mut self,
        hp: HParticipant,
        hop: HParticipant,
        hg: HGroup,
        hog: HGroup,
        groups: &mut Groups,
    )
        requires
            registries_wf(*old(self), *old(groups)),
            old(self).valid(hp@),
            old(self).valid(hop@),
            hp@ != hop@,
            old(groups).valid(hg@),
            old(groups).valid(hog@),
            hg@ != hog@,
            old(groups).members_of(hg@).contains(hp@),
            old(groups).members_of(hog@).contains(hop@),
            !old(groups).members_of(hog@).contains(hp@),
            !old(groups).members_of(hg@).contains(hop@),
            conflicts(*old(self), *old(groups), hp@, hog@).subset_of(
                Set::<int>::empty().insert(hop@),
            ),
            conflicts(*old(self), *old(groups), hop@, hg@).subset_of(
                Set::<int>::empty().insert(hp@),
            ),
            forall|x: int|
                !(old(groups).members_of(hg@).contains(x) && old(groups).members_of(
                    hog@,
                ).contains(x)),
        ensures
            registries_wf(*final(self), *final(groups)),
            swap_effect(
                *old(self),
                *old(groups),
                *final(self),
                *final(groups),
                hp@,
                hop@,
                hg@,
                hog@,
            ),
    {
        let ghost p0 = *old(self);
        let ghost g0 = *old(groups);
        let ghost mhg = g0.members_of(hg@);
        let ghost mhog = g0.members_of(hog@);
        self.leave_group(hp, hg, groups);
        let ghost p1 = *self;
        let ghost g1 = *groups;
        proof {
            assert(g1.members_of(hog@) == mhog);
        }
        self.leave_group(hop, hog, groups);
        let ghost p2 = *self;
        let ghost g2 = *groups;
        proof {
            assert(g2.members_of(hg@) == mhg.remove(hp@));
            assert(g2.members_of(hog@) == mhog.remove(hop@));
            assert(p2.acq_of(hp@) == p1.acq_of(hp@));
            assert(p1.acq_of(hp@) == p0.acq_of(hp@) - mhg);
            (*groups).lemma_count_bound();
            assert forall|x: int| !conflicts(p2, g2, hp@, hog@).contains(x) by {
                if conflicts(p2, g2, hp@, hog@).contains(x) {
                    assert(p2.acq_of(hp@).contains(x));
                    assert(g2.members_of(hog@).contains(x));
                    assert(p0.acq_of(hp@).contains(x));
                    assert(mhog.contains(x) && x != hop@);
                    assert(conflicts(p0, g0, hp@, hog@).contains(x));
                    assert(false);
                }
            }
            assert(conflicts(p2, g2, hp@, hog@) =~= Set::<int>::empty());
            assert(conflicts(p2, g2, hp@, hog@).is_empty());
            assert(g0.members_of(hog@).finite());
            assert(mhog.remove(hop@).len() == mhog.len() - 1);
            assert(g2.members_of(hog@).len() < g2.size_of(hog@));
            assert(!g2.members_of(hog@).contains(hp@));
        }
        let ok1 = self.try_join(hp, hog, groups);
        let ghost p3 = *self;
        let ghost g3 = *groups;
        proof {
            assert(ok1);
            assert(g3.members_of(hg@) == mhg.remove(hp@));
            assert(p3.acq_of(hop@) == p2.acq_of(hop@));
            assert(p2.acq_of(hop@) == p1.acq_of(hop@) - mhog);
            assert(p1.acq_of(hop@) == p0.acq_of(hop@));
            (*groups).lemma_count_bound();
            assert forall|x: int| !conflicts(p3, g3, hop@, hg@).contains(x) by {
                if conflicts(p3, g3, hop@, hg@).contains(x) {
                    assert(p3.acq_of(hop@).contains(x));
                    assert(g3.members_of(hg@).contains(x));
                    assert(p0.acq_of(hop@).contains(x));
                    assert(mhg.contains(x) && x != hp@);
                    assert(conflicts(p0, g0, hop@, hg@).contains(x));
                    assert(false);
                }
            }
            assert(conflicts(p3, g3, hop@, hg@) =~= Set::<int>::empty());
            assert(conflicts(p3, g3, hop@, hg@).is_empty());
            assert(g0.members_of(hg@).finite());
            assert(mhg.remove(hp@).len() == mhg.len() - 1);
            assert(g3.members_of(hg@).len() < g3.size_of(hg@));
            assert(!g3.members_of(hg@).contains(hop@));
        }
        let ok2 = self.try_join(hop, hg, groups);
        proof {
            assert(ok2);
            let p4 = *self;
            let g4 = *groups;
            // the four effects compose into the swap effect
            assert(g4.members_of(hg@) == mhg.remove(hp@).insert(hop@));
            assert(g3.members_of(hog@) == mhog.remove(hop@).insert(hp@));
            assert(g4.members_of(hog@) == g3.members_of(hog@));
            assert forall|g: int|
                g0.valid(g) && g != hg@ && g != hog@ implies #[trigger] g4.members_of(g)
                == g0.members_of(g) by {
                assert(g1.members_of(g) == g0.members_of(g));
                assert(g2.members_of(g) == g1.members_of(g));
                assert(g3.members_of(g) == g2.members_of(g));
                assert(g4.members_of(g) == g3.members_of(g));
            }
            assert forall|g: int|
                g0.valid(g) implies g4.size_of(g) == g0.size_of(g) && g4.id_of(g) == g0.id_of(
                g,
            ) by {
                assert(g1.size_of(g) == g0.size_of(g) && g1.id_of(g) == g0.id_of(g));
                assert(g2.size_of(g) == g1.size_of(g) && g2.id_of(g) == g1.id_of(g));
                assert(g3.size_of(g) == g2.size_of(g) && g3.id_of(g) == g2.id_of(g));
                assert(g4.size_of(g) == g3.size_of(g) && g4.id_of(g) == g3.id_of(g));
            }
            assert(g4.same_shape(g0));
            assert(p4.group_of(hp@) == p3.group_of(hp@));
            assert(p4.acq_of(hp@) == p3.acq_of(hp@));
            assert(p3.acq_of(hp@) == p2.acq_of(hp@) + g2.members_of(hog@));
            assert(p4.acq_of(hp@) =~= (p0.acq_of(hp@) - mhg) + mhog.remove(hop@));
            assert(p4.acq_of(hop@) == p3.acq_of(hop@) + g3.members_of(hg@));
            assert(p4.acq_of(hop@) =~= (p0.acq_of(hop@) - mhog) + mhg.remove(hp@));
            assert forall|q: int| p0.valid(q) implies #[trigger] p4.id_of(q) == p0.id_of(q) by {
                assert(p1.id_of(q) == p0.id_of(q));
                assert(p2.id_of(q) == p1.id_of(q));
                assert(p3.id_of(q) == p2.id_of(q));
                assert(p4.id_of(q) == p3.id_of(q));
            }
            assert forall|q: int|
                p0.valid(q) && q != hp@ && q != hop@ implies #[trigger] p4.group_of(q)
                == p0.group_of(q) by {
                assert(p1.group_of(q) == p0.group_of(q));
                assert(p2.group_of(q) == p1.group_of(q));
                assert(p3.group_of(q) == p2.group_of(q));
                assert(p4.group_of(q) == p3.group_of(q));
            }
            assert forall|q: int|
                p0.valid(q) && q != hp@ && q != hop@ implies #[trigger] p4.acq_of(q) == (
            if mhg.contains(q) {
                p0.acq_of(q).remove(hp@).insert(hop@)
            } else if mhog.contains(q) {
                p0.acq_of(q).remove(hop@).insert(hp@)
            } else {
                p0.acq_of(q)
            }) by {
                if mhg.contains(q) {
                    assert(!mhog.contains(q));
                    assert(p1.acq_of(q) == p0.acq_of(q).remove(hp@));
                    assert(!g1.members_of(hog@).contains(q));
                    assert(p2.acq_of(q) == p1.acq_of(q));
                    assert(!g2.members_of(hog@).contains(q));
                    assert(p3.acq_of(q) == p2.acq_of(q));
                    assert(g3.members_of(hg@).contains(q));
                    assert(p4.acq_of(q) == p3.acq_of(q).insert(hop@));
                } else if mhog.contains(q) {
                    assert(p1.acq_of(q) == p0.acq_of(q));
                    assert(g1.members_of(hog@).contains(q));
                    assert(p2.acq_of(q) == p1.acq_of(q).remove(hop@));
                    assert(g2.members_of(hog@).contains(q));
                    assert(p3.acq_of(q) == p2.acq_of(q).insert(hp@));
                    assert(!g3.members_of(hg@).contains(q));
                    assert(p4.acq_of(q) == p3.acq_of(q));
                } else {
                    assert(p1.acq_of(q) == p0.acq_of(q));
                    assert(!g1.members_of(hog@).contains(q));
                    assert(p2.acq_of(q) == p1.acq_of(q));
                    assert(!g2.members_of(hog@).contains(q));
                    assert(p3.acq_of(q) == p2.acq_of(q));
                    assert(!g3.members_of(hg@).contains(q));
                    assert(p4.acq_of(q) == p3.acq_of(q));
                }
            }
            assert(swap_effect(p0, g0, p4, g4, hp@, hop@, hg@, hog@));
        }
    }

    /// Gets the participant to move to another group of the round, to free a
    /// slot for somebody that could not be placed. The round's groups other
    /// than the participant's own are scanned in shuffled order; the first one
    /// through which a relocation or a direct swap works is taken.
    /// Ok(the null handle) reports a relocation into a free compatible slot;
    /// Ok(other) reports a swap with `other`; Err(()) reports that the
    /// participant has no group in this round, or that no group of the round
    /// admits a relocation or swap, and then nothing has changed.
    pub fn try_regroup(
        &mut self,
        hp: HParticipant,
        hr: HRound,
        rounds: &Rounds,
        groups: &mut Groups,
    ) -> (r: Result<HParticipant, ()>)
        requires
            registries_wf(*old(self), *old(groups)),
            old(self).valid(hp@),
            rounds.valid(hr@),
            round_wf(*old(groups), rounds.groups_of(hr@)),
        ensures
            registries_wf(*final(self), *final(groups)),
            ({
                let gs = rounds.groups_of(hr@);
                let p0 = *old(self);
                let g0 = *old(groups);
                match r {
                    Result::Err(_) => {
                        &&& *final(self) == p0
                        &&& *final(groups) == g0
                        &&& (!member_in_round(g0, gs, hp@) || (forall|k: int|
                            0 <= k < gs.len() && (#[trigger] gs[k])@ != round_home(g0, gs, hp@)
                                ==> !repair_applicable(
                                p0,
                                g0,
                                hp@,
                                round_home(g0, gs, hp@),
                                gs[k]@,
                            )))
                    },
                    Result::Ok(hop) => {
                        let hg = round_home(g0, gs, hp@);
                        let hog = final(self).group_of(hp@);
                        &&& member_in_round(g0, gs, hp@)
                        &&& (exists|k: int| 0 <= k < gs.len() && (#[trigger] gs[k])@ == hog)
                        &&& hog != hg
                        &&& repair_applicable(p0, g0, hp@, hg, hog)
                        &&& p0.acq_of(hp@).intersect(final(groups).members_of(hog).remove(hp@))
                            == Set::<int>::empty()
                        &&& (if hop@ == null_part_idx() {
                            relocate_effect(p0, g0, *final(self), *final(groups), hp@, hg, hog)
                        } else {
                            &&& p0.valid(hop@)
                            &&& g0.members_of(hog).contains(hop@)
                            &&& swap_effect(
                                p0,
                                g0,
                                *final(self),
                                *final(groups),
                                hp@,
                                hop@,
                                hg,
                                hog,
                            )
                            &&& p0.acq_of(hop@).intersect(
                                final(groups).members_of(hg).remove(hop@),
                            ) == Set::<int>::empty()
                        })
                    },
                }
            }),
    {
        let ghost gs = rounds.groups_of(hr@);
        let ghost p0 = *old(self);
        let ghost g0 = *old(groups);
        proof {
            (*groups).lemma_count_bound();
        }
        let hg = rounds.participant_group(hr, hp, groups);
        if hg.idx == usize::MAX {
            proof {
                assert forall|k: int| !(#[trigger] scan_hit(g0, gs, hp@, k)) by {
                    if scan_hit(g0, gs, hp@, k) {
                        assert(g0.valid(gs[k]@));
                        assert(gs[k]@ != null_group_idx());
                        assert(gs[k] != hg);
                    }
                }
                assert(!member_in_round(g0, gs, hp@));
            }
            return Result::Err(());
        }
        proof {
            // the scan found the unique group of hp in this round
            assert(hg@ != null_group_idx() ==> exists|k: int|
                #[trigger] scan_hit(g0, gs, hp@, k) && gs[k] == hg);
            let kh = choose|k: int| #[trigger] scan_hit(g0, gs, hp@, k) && gs[k] == hg;
            lemma_round_home_unique(g0, gs, hp@, kh);
            assert(round_home(g0, gs, hp@) == hg@);
            assert(g0.valid(hg@) && g0.members_of(hg@).contains(hp@));
        }
        // copy the round's group list and scan it in shuffled order
        let gv = rounds.groups(hr);
        let n = gv.len();
        let mut gvec: Vec<HGroup> = Vec::new();
        let mut i: usize = 0;
        while i < n
            invariant
                i <= n,
                n == gs.len(),
                gv@ == gs,
                gvec@ == gs.take(i as int),
            decreases n - i,
        {
            gvec.push(gv[i]);
            proof {
                assert(gs.take(i + 1) =~= gs.take(i as int).push(gs[i as int]));
            }
            i = i + 1;
        }
        proof {
            assert(gs.take(n as int) =~= gs);
        }
        crate::rng::shuffle_vec(&mut gvec);
        proof {
            broadcast use vstd::seq_lib::group_to_multiset_ensures;

            assert forall|h: HGroup| gs.contains(h) implies gvec@.contains(h) by {
                assert(gs.to_multiset().count(h) > 0);
            }
            assert forall|h: HGroup| gvec@.contains(h) implies gs.contains(h) by {
                assert(gvec@.to_multiset().count(h) > 0);
            }
        }
        let mut k: usize = 0;
        while k < n
            invariant
                k <= n,
                n == gvec@.len(),
                n == gs.len(),
                *self == *old(self),
                *groups == *old(groups),
                p0 == *old(self),
                g0 == *old(groups),
                registries_wf(p0, g0),
                p0.valid(hp@),
                rounds.valid(hr@),
                round_wf(g0, gs),
                gs == rounds.groups_of(hr@),
                p0.spec_count() <= 128,
                hg@ == round_home(g0, gs, hp@),
                member_in_round(g0, gs, hp@),
                g0.valid(hg@),
                g0.members_of(hg@).contains(hp@),
                exists|j: int| #[trigger] scan_hit(g0, gs, hp@, j) && gs[j] == hg,
                forall|h: HGroup| gs.contains(h) <==> gvec@.contains(h),
                forall|j: int|
                    0 <= j < k ==> repair_ruled_out(p0, g0, hp@, hg@, #[trigger] gvec@[j]),
            decreases n - k,
        {
            let hog = gvec[k];
            if hog.idx != hg.idx {
                proof {
                    // hog is one of the round's groups, distinct from hg
                    assert(gvec@.contains(gvec@[k as int]));
                    assert(gs.contains(hog));
                    let jx = choose|j: int| 0 <= j < gs.len() && gs[j] == hog;
                    assert(g0.valid(hog@));
                    let kh = choose|j: int| #[trigger] scan_hit(g0, gs, hp@, j) && gs[j] == hg;
                    assert(jx != kh);
                    // the round's groups are pairwise disjoint in membership
                    assert forall|x: int|
                        !(g0.members_of(hg@).contains(x) && g0.members_of(hog@).contains(x)) by {
                        assert(!(g0.members_of(gs[kh]@).contains(x) && g0.members_of(
                            gs[jx]@,
                        ).contains(x)));
                    }
                    assert(!g0.members_of(hog@).contains(hp@));
                }
                let num_acq = self.num_acquaint_group(hp, hog, groups);
                if num_acq == 1 {
                    let hop = self.get_acquaintance(hp, hog, groups);
                    proof {
                        assert(conflicts(p0, g0, hp@, hog@).contains(hop@));
                        assert(p0.acq_of(hp@).contains(hop@));
                        assert(p0.valid(hop@));
                        assert(g0.members_of(hog@).contains(hop@));
                        assert(hop@ != hp@);
                        assert(!g0.members_of(hg@).contains(hop@));
                    }
                    let o_num = self.num_acquaint_group(hop, hg, groups);
                    if o_num == 1 {
                        proof {
                            assert(p0.acq_of(hop@).contains(hp@));
                            assert(conflicts(p0, g0, hop@, hg@).contains(hp@));
                            p0.lemma_acq_shape(hp@);
                            p0.lemma_acq_shape(hop@);
                            lemma_conflicts_finite(p0, g0, hp@, hog@);
                            lemma_conflicts_finite(p0, g0, hop@, hg@);
                            lemma_singleton(conflicts(p0, g0, hp@, hog@), hop@);
                            lemma_singleton(conflicts(p0, g0, hop@, hg@), hp@);
                        }
                        self.swap_with(hp, hop, hg, hog, groups);
                        proof {
                            lemma_repair_ok_swap(
                                p0,
                                g0,
                                *self,
                                *groups,
                                gs,
                                hp@,
                                hop@,
                                hg@,
                                hog@,
                            );
                        }
                        return Result::Ok(hop);
                    }
                    proof {
                        // the one conflicting member cannot be traded, and the
                        // other branches ask for no conflict at all
                        assert forall|x: int|
                            (#[trigger] conflicts(p0, g0, hp@, hog@).contains(x)) implies x
                            == hop@ by {
                            p0.lemma_acq_shape(hp@);
                            lemma_conflicts_finite(p0, g0, hp@, hog@);
                            lemma_singleton(conflicts(p0, g0, hp@, hog@), hop@);
                        }
                        assert(!repair_applicable(p0, g0, hp@, hg@, hog@));
                    }
                } else if num_acq == 0 {
                    if groups.full(hog) {
                        let cnt = self.insts.len();
                        let mut q: usize = 0;
                        let mut found = false;
                        let mut hfound = HParticipant { idx: 0 };
                        while q < cnt
                            invariant
                                q <= cnt,
                                cnt == p0.spec_count(),
                                *self == *old(self),
                                *groups == *old(groups),
                                p0 == *old(self),
                                g0 == *old(groups),
                                registries_wf(p0, g0),
                                p0.valid(hp@),
                                g0.valid(hg@),
                                g0.valid(hog@),
                                cnt <= 128,
                                !found ==> forall|x: int|
                                    0 <= x < q && #[trigger] g0.members_of(hog@).contains(x)
                                        ==> conflicts(p0, g0, x, hg@).len() != 0,
                                found ==> p0.valid(hfound@) && g0.members_of(hog@).contains(
                                    hfound@,
                                ) && conflicts(p0, g0, hfound@, hg@).len() == 0,
                            decreases cnt - q,
                        {
                            if !found {
                                let hq = HParticipant { idx: q };
                                if groups.has(hog, hq) {
                                    let o_num = self.num_acquaint_group(hq, hg, groups);
                                    if o_num == 0 {
                                        found = true;
                                        hfound = hq;
                                    }
                                }
                            }
                            q = q + 1;
                        }
                        if found {
                            let hop = hfound;
                            proof {
                                assert(hop@ != hp@);
                                assert(!g0.members_of(hg@).contains(hop@));
                                p0.lemma_acq_shape(hp@);
                                p0.lemma_acq_shape(hop@);
                                lemma_conflicts_finite(p0, g0, hp@, hog@);
                                lemma_conflicts_finite(p0, g0, hop@, hg@);
                                conflicts(p0, g0, hp@, hog@).lemma_len0_is_empty();
                                conflicts(p0, g0, hop@, hg@).lemma_len0_is_empty();
                            }
                            self.swap_with(hp, hop, hg, hog, groups);
                            proof {
                                lemma_repair_ok_swap(
                                    p0,
                                    g0,
                                    *self,
                                    *groups,
                                    gs,
                                    hp@,
                                    hop@,
                                    hg@,
                                    hog@,
                                );
                            }
                            return Result::Ok(hop);
                        }
                        proof {
                            // every member of the full group conflicts with hg
                            assert forall|x: int|
                                (#[trigger] g0.members_of(hog@).contains(x)) implies conflicts(
                                p0,
                                g0,
                                x,
                                hg@,
                            ).len() != 0 by {
                                assert(p0.valid(x));
                            }
                            assert(!repair_applicable(p0, g0, hp@, hg@, hog@));
                        }
                    } else {
                        // a free compatible slot: relocate
                        proof {
                            p0.lemma_acq_shape(hp@);
                            lemma_conflicts_finite(p0, g0, hp@, hog@);
                            conflicts(p0, g0, hp@, hog@).lemma_len0_is_empty();
                        }
                        self.leave_group(hp, hg, groups);
                        let ghost p1 = *self;
                        let ghost g1 = *groups;
                        proof {
                            assert(g1.members_of(hog@) == g0.members_of(hog@));
                            assert(p1.acq_of(hp@) == p0.acq_of(hp@) - g0.members_of(hg@));
                            (*groups).lemma_count_bound();
                            assert forall|x: int| !conflicts(p1, g1, hp@, hog@).contains(x) by {
                                if conflicts(p1, g1, hp@, hog@).contains(x) {
                                    assert(p0.acq_of(hp@).contains(x));
                                    assert(g0.members_of(hog@).contains(x));
                                    assert(conflicts(p0, g0, hp@, hog@).contains(x));
                                    assert(false);
                                }
                            }
                            assert(conflicts(p1, g1, hp@, hog@) =~= Set::<int>::empty());
                            assert(conflicts(p1, g1, hp@, hog@).is_empty());
                        }
                        let ok = self.try_join(hp, hog, groups);
                        proof {
                            assert(ok);
                            lemma_repair_ok_relocate(
                                p0,
                                g0,
                                p1,
                                g1,
                                *self,
                                *groups,
                                gs,
                                hp@,
                                hg@,
                                hog@,
                            );
                        }
                        return Result::Ok(HParticipant::null());
                    }
                } else {
                    proof {
                        assert(conflicts(p0, g0, hp@, hog@).len() != 0);
                        assert(conflicts(p0, g0, hp@, hog@).len() != 1);
                        assert(!repair_applicable(p0, g0, hp@, hg@, hog@));
                    }
                }
            }
            proof {
                assert(repair_ruled_out(p0, g0, hp@, hg@, gvec@[k as int]));
            }
            k = k + 1;
        }
        proof {
            assert forall|k2: int|
                0 <= k2 < gs.len() && (#[trigger] gs[k2])@ != round_home(g0, gs, hp@) implies
                !repair_applicable(p0, g0, hp@, round_home(g0, gs, hp@), gs[k2]@) by {
                assert(gs.contains(gs[k2]));
                assert(gvec@.contains(gs[k2]));
                let j = choose|j: int| 0 <= j < gvec@.len() && gvec@[j] == gs[k2];
                assert(repair_ruled_out(p0, g0, hp@, hg@, gvec@[j]));
            }
        }
        Result::Err(())
    }

    /// Sorts participant handles ascending by index.
    pub fn sort_slice(&self, hslice: &mut Vec<HParticipant>)
        ensures
            final(hslice)@.to_multiset() == old(hslice)@.to_multiset(),
            final(hslice)@.len() == old(hslice)@.len(),
            forall|a: int, b: int|
                0 <= a < b < final(hslice)@.len() ==> final(hslice)@[a]@ <= final(hslice)@[b]@,
    {
        broadcast use vstd::seq_lib::to_multiset_update;

        let n = hslice.len();
        if n == 0 {
            return ;
        }
        let mut i: usize = 1;
        while i < n
            invariant
                1 <= i <= n,
                n == hslice@.len(),
                n == old(hslice)@.len(),
                hslice@.to_multiset() == old(hslice)@.to_multiset(),
                forall|a: int, b: int| 0 <= a < b < i ==> hslice@[a]@ <= hslice@[b]@,
            decreases n - i,
        {
            let mut j: usize = i;
            while j > 0 && hslice[j - 1].idx > hslice[j].idx
                invariant
                    0 <= j <= i < n,
                    n == hslice@.len(),
                    n == old(hslice)@.len(),
                    hslice@.to_multiset() == old(hslice)@.to_multiset(),
                    forall|a: int, b: int|
                        0 <= a < b <= i && b != j ==> hslice@[a]@ <= hslice@[b]@,
                decreases j,
            {
                let x = hslice[j - 1];
                let y = hslice[j];
                let ghost s = hslice@;
                hslice.set(j - 1, y);
                hslice.set(j, x);
                proof {
                    broadcast use vstd::seq_lib::group_to_multiset_ensures;

                    assert(hslice@ == s.update(j - 1, s[j as int]).update(j as int, s[j - 1]));
                    let ms = s.to_multiset();
                    let t = s.update(j - 1, s[j as int]);
                    assert(t.to_multiset() == ms.insert(s[j as int]).remove(s[j - 1]));
                    assert(t[j as int] == s[j as int]);
                    assert(hslice@.to_multiset() == t.to_multiset().insert(s[j - 1]).remove(
                        s[j as int],
                    ));
                    assert(s.contains(s[j - 1]));
                    assert(ms.count(s[j - 1]) > 0);
                    assert forall|x: HParticipant| hslice@.to_multiset().count(x) == ms.count(
                        x,
                    ) by {}
                    assert(hslice@.to_multiset() =~= ms);
                }
                j = j - 1;
            }
            i = i + 1;
        }
    }

    /// The acquaintance set of any participant of the registry is a finite set
    /// of at most 128 participant indices below 128.
    pub proof fn lemma_acq_shape(self, p: int)
        requires
            self.valid(p),
        ensures
            self.acq_of(p).finite(),
            self.acq_of(p).len() <= 128,
            forall|q: int| self.acq_of(p).contains(q) ==> 0 <= q < 128,
    {
        lemma_pset_view_shape(self.insts@[p].acquaintances);
    }
}

/// An iterator over the participant handles of a Participants registry, in
/// index order.
pub struct ParticipantIter {
    pub num: usize,
    pub count: usize,
}

impl ParticipantIter {
    /// Produces the next participant handle, or None once the iterator is
    /// spent.
    pub fn next(&mut self) -> (r: Option<HParticipant>)
        ensures
            final(self).num == old(self).num,
            match r {
                Some(h) => {
                    &&& old(self).count < old(self).num
                    &&& h@ == old(self).count
                    &&& final(self).count == old(self).count + 1
                },
                None => old(self).count >= old(self).num && *final(self) == *old(self),
            },
    {
        if self.count < self.num {
            self.count = self.count + 1;
            Some(HParticipant { idx: self.count - 1 })
        } else {
            None
        }
    }
}

} // verus!
