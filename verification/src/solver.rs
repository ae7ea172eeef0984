use vstd::prelude::*;

use crate::group::{Groups, HGroup};
use crate::participant::{registries_wf, HParticipant, Participants};
use crate::round::{round_wf, HRound, Rounds};

verus! {

/// Every round's group list is either unassigned (empty, with the groups of
/// its slice of the arena still empty of members) or assigned exactly its
/// slice: round `r` owns the groups `r * gps .. (r + 1) * gps`.
spec fn slices_structured(rounds: Rounds, groups: Groups, nr: int, gps: int) -> bool {
    forall|r: int|
        #![trigger rounds.groups_of(r)]
        0 <= r < nr ==> {
            let gs = rounds.groups_of(r);
            ||| (gs.len() == gps && (forall|k: int|
                0 <= k < gs.len() ==> (#[trigger] gs[k])@ == r * gps + k))
            ||| (gs.len() == 0 && (forall|g: int|
                r * gps <= g < (r + 1) * gps ==> #[trigger] groups.members_of(g) == Set::<
                int,
                >::empty()))
        }
}

/// Every round's group list is well formed: valid distinct groups with
/// pairwise disjoint member sets.
spec fn all_rounds_wf(rounds: Rounds, groups: Groups, nr: int) -> bool {
    forall|r: int| 0 <= r < nr ==> round_wf(groups, #[trigger] rounds.groups_of(r))
}

/// Participant `p` occurs among the first `i` handles of `ha`.
spec fn in_prefix(ha: Seq<HParticipant>, i: int, p: int) -> bool {
    exists|x: int| 0 <= x < i && (#[trigger] ha[x])@ == p
}

/// While round `round_i` is being filled, only participants already handled
/// (the first `i` of the fill order) are members of its groups.
spec fn prefix_placed(
    rounds: Rounds,
    groups: Groups,
    round_i: int,
    ha: Seq<HParticipant>,
    i: int,
) -> bool {
    forall|k: int, p: int|
        #![trigger groups.members_of(rounds.groups_of(round_i)[k]@).contains(p)]
        0 <= k < rounds.groups_of(round_i).len() && groups.members_of(
            rounds.groups_of(round_i)[k]@,
        ).contains(p) ==> in_prefix(ha, i, p)
}

/// The members of one group of a schedule snapshot, as a set of participant
/// indices.
pub open spec fn sched_group_set(s: Vec<Vec<Vec<usize>>>, r: int, g: int) -> Set<int> {
    Set::new(
        |p: int|
            exists|k: int| 0 <= k < s@[r]@[g]@.len() && (#[trigger] s@[r]@[g]@[k]) as int == p,
    )
}

/// Sum of the sizes of the first `k` groups of round `r` of the snapshot.
pub open spec fn sched_group_total(s: Vec<Vec<Vec<usize>>>, r: int, k: int) -> nat
    decreases k,
{
    if k <= 0 {
        0nat
    } else {
        sched_group_total(s, r, k - 1) + s@[r]@[k - 1]@.len()
    }
}

/// Sum of the sizes of all groups of the first `r` rounds of the snapshot.
pub open spec fn sched_total_prefix(s: Vec<Vec<Vec<usize>>>, r: int) -> nat
    decreases r,
{
    if r <= 0 {
        0nat
    } else {
        sched_total_prefix(s, r - 1) + sched_group_total(s, r - 1, s@[r - 1]@.len() as int)
    }
}

/// Total number of placements recorded in the snapshot.
pub open spec fn sched_total(s: Vec<Vec<Vec<usize>>>) -> nat {
    sched_total_prefix(s, s@.len() as int)
}

/// A schedule snapshot in good standing: every group lists distinct members
/// of the population in ascending order and within capacity; the groups of
/// one round are disjoint; and no two participants share a group more than
/// once anywhere in the schedule.
pub open spec fn valid_schedule(s: Vec<Vec<Vec<usize>>>, n_parts: int, gsize: int) -> bool {
    &&& forall|r: int, g: int|
        0 <= r < s@.len() && 0 <= g < s@[r]@.len() ==> (#[trigger] s@[r]@[g])@.len() <= gsize
    &&& forall|r: int, g: int, k: int|
        0 <= r < s@.len() && 0 <= g < s@[r]@.len() && 0 <= k < s@[r]@[g]@.len() ==> (
        #[trigger] s@[r]@[g]@[k]) < n_parts
    &&& forall|r: int, g: int, k1: int, k2: int|
        #![trigger s@[r]@[g]@[k1], s@[r]@[g]@[k2]]
        0 <= r < s@.len() && 0 <= g < s@[r]@.len() && 0 <= k1 < k2 < s@[r]@[g]@.len() ==> s@[r]@[g]@[k1]
            < s@[r]@[g]@[k2]
    &&& forall|r: int, g1: int, g2: int, p: int|
        #![trigger sched_group_set(s, r, g1).contains(p), sched_group_set(s, r, g2).contains(p)]
        0 <= r < s@.len() && 0 <= g1 < s@[r]@.len() && 0 <= g2 < s@[r]@.len() && g1 != g2 ==> !(
        sched_group_set(s, r, g1).contains(p) && sched_group_set(s, r, g2).contains(p))
    &&& forall|r1: int, g1: int, r2: int, g2: int, a: int, b: int|
        #![trigger sched_group_set(s, r1, g1).contains(a), sched_group_set(s, r2, g2).contains(b)]
        0 <= r1 < s@.len() && 0 <= g1 < s@[r1]@.len() && 0 <= r2 < s@.len() && 0 <= g2
            < s@[r2]@.len() && (r1 != r2 || g1 != g2) && sched_group_set(s, r1, g1).contains(a)
            && sched_group_set(s, r1, g1).contains(b) && sched_group_set(s, r2, g2).contains(a)
            && sched_group_set(s, r2, g2).contains(b) ==> a == b
}

/// The best result seen across the attempts: the number of placements, the
/// schedule that realized it (per round, per group, the members by index),
/// and whether it is a complete solution.
pub struct Best {
    pub num_grouped: u32,
    pub solved: bool,
    pub schedule: Vec<Vec<Vec<usize>>>,
}

/// The solver: the three registries, the handle lists the search works
/// through, the configuration of the run, and the best attempt seen so far.
pub struct Solver {
    parts: Participants,
    groups: Groups,
    rounds: Rounds,
    hparts_a: Vec<HParticipant>,
    hparts_b: Vec<HParticipant>,
    hgroups: Vec<HGroup>,
    hrounds: Vec<HRound>,
    n_participants: usize,
    n_groups_per_round: usize,
    n_rounds: usize,
    group_size: u32,
    b_idx: usize,
    best_num_grouped: u32,
    best_schedule: Vec<Vec<Vec<usize>>>,
    solved: bool,
}

impl Solver {
    /// The run's configuration, as the contracts see it.
    pub closed spec fn spec_participants(self) -> int {
        self.n_participants as int
    }

    /// Number of groups in every round.
    pub closed spec fn spec_groups_per_round(self) -> int {
        self.n_groups_per_round as int
    }

    /// Number of rounds of the schedule.
    pub closed spec fn spec_rounds(self) -> int {
        self.n_rounds as int
    }

    /// The uniform group capacity of the run.
    pub closed spec fn spec_group_size(self) -> int {
        self.group_size as int
    }

    /// The best snapshot recorded so far.
    pub closed spec fn spec_best(self) -> Vec<Vec<Vec<usize>>> {
        self.best_schedule
    }

    /// The placement count of the best snapshot.
    pub closed spec fn spec_best_num(self) -> int {
        self.best_num_grouped as int
    }

    /// Whether a complete solution has been recorded.
    pub closed spec fn spec_solved(self) -> bool {
        self.solved
    }

    /// The placement total of the state as it stands now: the sum of the
    /// member counts of every group of every round. A step scores this total
    /// for the attempt that just finished before it runs the next one.
    pub closed spec fn spec_current_total(self) -> int {
        self.rounds.total_grouped(self.hrounds@, self.groups) as int
    }

    spec fn config_wf(self) -> bool {
        &&& 1 <= self.n_participants <= 128
        &&& 1 <= self.n_groups_per_round <= self.n_participants
        &&& 1 <= self.n_rounds
        &&& (self.group_size as int) * (self.n_groups_per_round as int) == self.n_participants as int
        &&& 1 <= self.group_size
        &&& (self.n_rounds as int) * (self.n_groups_per_round as int) * 128 <= u32::MAX
    }

    spec fn rounds_structured(self) -> bool {
        slices_structured(
            self.rounds,
            self.groups,
            self.n_rounds as int,
            self.n_groups_per_round as int,
        )
    }

    spec fn handles_wf(self) -> bool {
        &&& self.hrounds@.len() == self.n_rounds
        &&& forall|k: int| 0 <= k < self.hrounds@.len() ==> (#[trigger] self.hrounds@[k])@ == k
        &&& self.hgroups@.len() == (self.n_rounds as int) * (self.n_groups_per_round as int)
        &&& forall|k: int| 0 <= k < self.hgroups@.len() ==> (#[trigger] self.hgroups@[k])@ == k
        &&& self.hparts_a@.len() == self.n_participants
        &&& forall|x: int|
            0 <= x < self.hparts_a@.len() ==> 0 <= (#[trigger] self.hparts_a@[x])@
                < self.n_participants
        &&& forall|x: int, y: int|
            #![trigger self.hparts_a@[x], self.hparts_a@[y]]
            0 <= x < y < self.hparts_a@.len() ==> self.hparts_a@[x]@ != self.hparts_a@[y]@
        &&& self.hparts_b@.len() == self.n_participants
        &&& forall|x: int|
            0 <= x < self.hparts_b@.len() ==> 0 <= (#[trigger] self.hparts_b@[x])@
                < self.n_participants
        &&& self.b_idx < self.n_participants
    }

    spec fn regs_wf(self) -> bool {
        &&& registries_wf(self.parts, self.groups)
        &&& self.parts.spec_count() == self.n_participants
        &&& self.groups.spec_count() == (self.n_rounds as int) * (self.n_groups_per_round as int)
        &&& self.rounds.spec_count() == self.n_rounds
        &&& forall|g: int|
            self.groups.valid(g) ==> (#[trigger] self.groups.size_of(g)) == self.group_size
        &&& self.rounds_structured()
        &&& all_rounds_wf(self.rounds, self.groups, self.n_rounds as int)
    }

    spec fn best_wf(self) -> bool {
        &&& valid_schedule(
            self.best_schedule,
            self.n_participants as int,
            self.group_size as int,
        )
        &&& self.best_num_grouped == sched_total(self.best_schedule)
        &&& (self.best_schedule@.len() == 0 || self.best_schedule@.len() == self.n_rounds)
        &&& forall|r: int|
            0 <= r < self.best_schedule@.len() ==> (#[trigger] self.best_schedule@[r])@.len()
                <= self.n_groups_per_round
        &&& (self.solved ==> self.best_num_grouped as int == (self.n_rounds as int) * (
        self.n_participants as int))
    }

    /// Everything the solver keeps true between steps.
    pub closed spec fn inv(self) -> bool {
        &&& self.config_wf()
        &&& self.handles_wf()
        &&& self.regs_wf()
        &&& self.best_wf()
    }

    /// Sets up the registries for a run: the whole population, every round's
    /// groups, and the round handles, all allocated once.
    pub fn new(n_participants: usize, n_groups_per_round: usize, n_rounds: usize) -> (s: Solver)
        requires
            1 <= n_participants <= 128,
            1 <= n_groups_per_round <= n_participants,
            n_participants % n_groups_per_round == 0,
            1 <= n_rounds,
            (n_rounds as int) * (n_groups_per_round as int) * 128 <= u32::MAX,
        ensures
            s.inv(),
            !s.spec_solved(),
            s.spec_best_num() == 0,
            s.spec_best()@.len() == 0,
            s.spec_participants() == n_participants,
            s.spec_groups_per_round() == n_groups_per_round,
            s.spec_rounds() == n_rounds,
            s.spec_group_size() == n_participants as int / n_groups_per_round as int,
    {
        proof {
            assert((n_rounds as int) * (n_groups_per_round as int) <= u32::MAX && 0 <= (
            n_rounds as int) * (n_groups_per_round as int) && (n_rounds as int) * (
            n_groups_per_round as int) == (n_groups_per_round as int) * (n_rounds as int)) by (nonlinear_arith)
                requires
                    1 <= n_rounds,
                    1 <= n_groups_per_round,
                    (n_rounds as int) * (n_groups_per_round as int) * 128 <= u32::MAX,
            ;
            vstd::arithmetic::div_mod::lemma_fundamental_div_mod(
                n_participants as int,
                n_groups_per_round as int,
            );
            assert((n_participants as int / n_groups_per_round as int) * (
            n_groups_per_round as int) == (n_groups_per_round as int) * (n_participants as int
                / n_groups_per_round as int)) by (nonlinear_arith);
        }
        let group_size: u32 = (n_participants / n_groups_per_round) as u32;
        let num_groups_total = n_groups_per_round * n_rounds;
        let mut parts = Participants::new();
        let mut groups = Groups::new();
        let mut rounds = Rounds::new();
        let hparts_a = parts.hcalloc(n_participants);
        let hparts_b = parts.handle_vec();
        let hgroups = groups.hcalloc(num_groups_total, group_size);
        let hrounds = rounds.hcalloc(n_rounds);
        let s = Solver {
            parts,
            groups,
            rounds,
            hparts_a,
            hparts_b,
            hgroups,
            hrounds,
            n_participants,
            n_groups_per_round,
            n_rounds,
            group_size,
            b_idx: 0,
            best_num_grouped: 0,
            best_schedule: Vec::new(),
            solved: false,
        };
        proof {
            assert(registries_wf(s.parts, s.groups)) by {
                assert forall|p: int| s.parts.valid(p) implies (#[trigger] s.parts.acq_of(
                    p,
                )).finite() && !s.parts.acq_of(p).contains(p) by {
                    assert(s.parts.acq_of(p) == Set::<int>::empty());
                }
                assert forall|p: int, q: int|
                    s.parts.valid(p) && (#[trigger] s.parts.acq_of(p).contains(q)) implies false by {
                    assert(s.parts.acq_of(p) == Set::<int>::empty());
                }
                assert forall|p: int, q: int|
                    s.parts.valid(p) && s.parts.valid(q) implies ((#[trigger] s.parts.acq_of(
                    p,
                ).contains(q)) <==> s.parts.acq_of(q).contains(p)) by {
                    assert(s.parts.acq_of(p) == Set::<int>::empty());
                    assert(s.parts.acq_of(q) == Set::<int>::empty());
                }
                assert forall|g: int| s.groups.valid(g) implies (#[trigger] s.groups.members_of(
                    g,
                )).finite() && s.groups.members_of(g).len() <= s.groups.size_of(g) by {
                    assert(s.groups.members_of(g) == Set::<int>::empty());
                }
                assert forall|g: int, p: int|
                    s.groups.valid(g) && (#[trigger] s.groups.members_of(g).contains(
                        p,
                    )) implies false by {
                    assert(s.groups.members_of(g) == Set::<int>::empty());
                }
                assert forall|p: int|
                    s.parts.valid(p) implies (#[trigger] s.parts.group_of(p))
                    == crate::group::null_group_idx() by {}
            }
            assert forall|g: int|
                s.groups.valid(g) implies #[trigger] s.groups.members_of(g) == Set::<
                int,
            >::empty() by {}
            assert forall|r: int| #![trigger s.rounds.groups_of(r)] 0 <= r < s.n_rounds implies {
                let gs = s.rounds.groups_of(r);
                gs.len() == 0 && (forall|g: int|
                    r * (s.n_groups_per_round as int) <= g < (r + 1) * (
                    s.n_groups_per_round as int) ==> #[trigger] s.groups.members_of(g) == Set::<
                    int,
                    >::empty())
            } by {
                assert(s.rounds.groups_of(r).len() == 0);
                assert forall|g: int|
                    r * (s.n_groups_per_round as int) <= g < (r + 1) * (
                    s.n_groups_per_round as int) implies #[trigger] s.groups.members_of(g) == Set::<
                    int,
                >::empty() by {
                    assert(0 <= g < s.groups.spec_count()) by (nonlinear_arith)
                        requires
                            0 <= r < s.n_rounds,
                            1 <= s.n_groups_per_round,
                            r * (s.n_groups_per_round as int) <= g < (r + 1) * (
                            s.n_groups_per_round as int),
                            s.groups.spec_count() == (s.n_rounds as int) * (
                            s.n_groups_per_round as int),
                    ;
                }
            }
            assert(s.rounds_structured());
            assert forall|r: int| 0 <= r < s.n_rounds implies round_wf(
                s.groups,
                #[trigger] s.rounds.groups_of(r),
            ) by {
                assert(s.rounds.groups_of(r).len() == 0);
            }
            assert(sched_total(s.best_schedule) == 0);
            assert(s.config_wf());
            assert(s.handles_wf());
            assert(s.regs_wf());
            assert(s.best_wf());
            assert(s.inv());
        }
        s
    }
}

/// One extracted group is a faithful copy of the member set of the group at
/// index `gi`: same size, ascending, and the same members.
spec fn grp_matches(gr: Vec<usize>, groups: Groups, gi: int) -> bool {
    &&& gr@.len() == groups.members_of(gi).len()
    &&& forall|k1: int, k2: int| 0 <= k1 < k2 < gr@.len() ==> gr@[k1] < gr@[k2]
    &&& forall|k: int|
        0 <= k < gr@.len() ==> groups.members_of(gi).contains((#[trigger] gr@[k]) as int)
    &&& forall|p: int|
        groups.members_of(gi).contains(p) ==> exists|k: int|
            0 <= k < gr@.len() && (#[trigger] gr@[k]) as int == p
}

/// One extracted round is a faithful copy of the member sets of the groups of
/// round `r`, in the round's group order.
spec fn row_matches(row: Vec<Vec<usize>>, groups: Groups, rounds: Rounds, r: int) -> bool {
    &&& row@.len() == rounds.groups_of(r).len()
    &&& forall|g: int|
        0 <= g < row@.len() ==> grp_matches(#[trigger] row@[g], groups, rounds.groups_of(r)[g]@)
}

/// The whole extracted schedule is a faithful copy of the registries.
spec fn snapshot_matches(s: Vec<Vec<Vec<usize>>>, groups: Groups, rounds: Rounds, nr: int) -> bool {
    &&& s@.len() == nr
    &&& forall|r: int| 0 <= r < s@.len() ==> row_matches(#[trigger] s@[r], groups, rounds, r)
}

/// The members of one group, as a row of participant indices in ascending
/// order.
fn group_row(groups: &Groups, hg: HGroup) -> (row: Vec<usize>)
    requires
        groups.valid(hg@),
    ensures
        grp_matches(row, *groups, hg@),
{
    let mv = groups.member_set(hg).member_vec();
    let n = mv.len();
    let mut row: Vec<usize> = Vec::new();
    let mut t: usize = 0;
    while t < n
        invariant
            t <= n,
            n == mv@.len(),
            row@.len() == t,
            forall|k: int| 0 <= k < t ==> (#[trigger] row@[k]) == mv@[k].idx,
        decreases n - t,
    {
        row.push(mv[t].idx);
        t = t + 1;
    }
    proof {
        let m = groups.members_of(hg@);
        assert forall|p: int| m.contains(p) implies exists|k: int|
            0 <= k < row@.len() && (#[trigger] row@[k]) as int == p by {
            let k0 = choose|k: int| 0 <= k < mv@.len() && #[trigger] mv@[k]@ == p;
            assert(row@[k0] as int == p);
        }
        assert forall|k: int| 0 <= k < row@.len() implies m.contains(
            (#[trigger] row@[k]) as int,
        ) by {
            assert(m.contains(mv@[k]@));
        }
    }
    row
}

impl Solver {
    /// Copies the member lists of one round out of the registries.
    fn round_row(&self, r: usize) -> (row: Vec<Vec<usize>>)
        requires
            self.inv(),
            r < self.n_rounds,
        ensures
            row_matches(row, self.groups, self.rounds, r as int),
    {
        let hr = self.hrounds[r];
        proof {
            assert(self.rounds.valid(hr@));
            assert(round_wf(self.groups, self.rounds.groups_of(r as int)));
        }
        let gl = self.rounds.groups(hr);
        let ng = gl.len();
        let mut row: Vec<Vec<usize>> = Vec::new();
        let mut g: usize = 0;
        while g < ng
            invariant
                g <= ng,
                self.inv(),
                r < self.n_rounds,
                hr@ == r as int,
                self.rounds.valid(hr@),
                gl@ == self.rounds.groups_of(r as int),
                ng == gl@.len(),
                round_wf(self.groups, self.rounds.groups_of(r as int)),
                row@.len() == g,
                forall|g2: int|
                    0 <= g2 < g ==> grp_matches(
                        #[trigger] row@[g2],
                        self.groups,
                        self.rounds.groups_of(r as int)[g2]@,
                    ),
            decreases ng - g,
        {
            let hg = gl[g];
            proof {
                assert(self.groups.valid(gl@[g as int]@));
            }
            let ghost row0 = row@;
            let gr = group_row(&self.groups, hg);
            row.push(gr);
            proof {
                assert forall|g2: int|
                    0 <= g2 < g + 1 implies grp_matches(
                    #[trigger] row@[g2],
                    self.groups,
                    self.rounds.groups_of(r as int)[g2]@,
                ) by {
                    if g2 < g {
                        assert(row@[g2] == row0[g2]);
                    } else {
                        assert(row@[g2] == gr);
                    }
                }
            }
            g = g + 1;
        }
        row
    }

    /// Runs one step of the search: scores the attempt that just finished and
    /// keeps it if it is the best seen, then — unless a full solution has
    /// been recorded — resets everything and runs one more attempt. Returns
    /// whether the search is over because a solution was found.
    pub fn step(&mut self) -> (done: bool)
        requires
            old(self).inv(),
        ensures
            final(self).inv(),
            done == final(self).spec_solved(),
            final(self).spec_best_num() >= old(self).spec_best_num(),
            final(self).spec_best_num() >= old(self).spec_current_total(),
            old(self).spec_current_total() == old(self).spec_rounds() * old(
                self,
            ).spec_participants() ==> final(self).spec_solved() && done,
            !done ==> final(self).spec_current_total() >= final(self).spec_participants(),
            old(self).spec_solved() ==> final(self).spec_solved(),
            final(self).spec_participants() == old(self).spec_participants(),
            final(self).spec_groups_per_round() == old(self).spec_groups_per_round(),
            final(self).spec_rounds() == old(self).spec_rounds(),
            final(self).spec_group_size() == old(self).spec_group_size(),
    {
        self.evaluate();
        if self.solved {
            return true;
        }
        self.reset_attempt();
        self.run_attempt();
        false
    }

    /// The best number of placements seen so far.
    pub fn best_num_grouped(&self) -> (r: u32)
        ensures
            r == self.spec_best_num(),
    {
        self.best_num_grouped
    }

    /// Whether a complete solution has been recorded.
    pub fn is_solved(&self) -> (r: bool)
        ensures
            r == self.spec_solved(),
    {
        self.solved
    }

    /// The best schedule seen so far: per round, per group, the member
    /// indices in ascending order.
    pub fn best_schedule(&self) -> (r: &Vec<Vec<Vec<usize>>>)
        ensures
            r == self.spec_best(),
    {
        &self.best_schedule
    }

    /// Scores the current state and keeps it as the best snapshot if it
    /// places more participants than any state seen before; marks the run
    /// solved when every participant of every round is placed.
    fn evaluate(&mut self)
        requires
            old(self).inv(),
        ensures
            final(self).inv(),
            final(self).parts == old(self).parts,
            final(self).groups == old(self).groups,
            final(self).rounds == old(self).rounds,
            final(self).hparts_a == old(self).hparts_a,
            final(self).hparts_b == old(self).hparts_b,
            final(self).hgroups == old(self).hgroups,
            final(self).hrounds == old(self).hrounds,
            final(self).n_participants == old(self).n_participants,
            final(self).n_groups_per_round == old(self).n_groups_per_round,
            final(self).n_rounds == old(self).n_rounds,
            final(self).group_size == old(self).group_size,
            final(self).b_idx == old(self).b_idx,
            old(self).solved ==> final(self).solved,
            final(self).best_num_grouped >= old(self).best_num_grouped,
            final(self).best_num_grouped >= old(self).spec_current_total(),
            old(self).spec_current_total() == (old(self).n_rounds as int) * (old(
                self,
            ).n_participants as int) ==> final(self).solved,
    {
        proof {
            assert forall|k: int|
                0 <= k < self.hrounds@.len() implies self.rounds.valid(
                (#[trigger] self.hrounds@[k])@,
            ) by {
                assert(self.hrounds@[k]@ == k);
            }
            assert forall|k: int|
                0 <= k < self.hrounds@.len() implies crate::round::all_groups_valid(
                self.groups,
                self.rounds.groups_of((#[trigger] self.hrounds@[k])@),
            ) by {
                assert(self.hrounds@[k]@ == k);
                assert(round_wf(self.groups, self.rounds.groups_of(k)));
            }
            lemma_rounds_total_bound(*self, self.n_rounds as int);
            assert((self.n_rounds as int) * (self.n_participants as int) <= u32::MAX
                && 1 <= (self.n_rounds as int) * (self.n_participants as int)
                && self.n_rounds as int <= u32::MAX && self.n_participants as int <= u32::MAX)
                by (nonlinear_arith)
                requires
                    (self.n_rounds as int) * (self.n_groups_per_round as int) * 128 <= u32::MAX,
                    (self.group_size as int) * (self.n_groups_per_round as int)
                        == self.n_participants as int,
                    1 <= self.n_groups_per_round,
                    1 <= self.group_size,
                    1 <= self.n_participants <= 128,
                    1 <= self.n_rounds,
            ;
        }
        let num = self.rounds.num_grouped(self.hrounds.as_slice(), &self.groups);
        let target = (self.n_rounds as u32) * (self.n_participants as u32);
        if num > self.best_num_grouped {
            let s = self.snapshot();
            proof {
                lemma_snapshot_valid(s, *self);
                lemma_round_totals_match(
                    s,
                    self.groups,
                    self.rounds,
                    self.hrounds@,
                    self.n_rounds as int,
                    self.n_rounds as int,
                );
                assert(sched_total(s) == num);
            }
            self.best_schedule = s;
            self.best_num_grouped = num;
        }
        if num >= target {
            proof {
                assert(num as int <= (self.n_rounds as int) * (self.n_participants as int));
                assert(num == target);
                if self.best_num_grouped != num {
                    // the recorded best can never exceed a full solution
                    assert(self.best_num_grouped >= num);
                    lemma_sched_total_bound(
                        self.best_schedule,
                        self.best_schedule@.len() as int,
                        self.n_groups_per_round as int,
                        self.group_size as int,
                    );
                    assert((self.best_schedule@.len() as int) * ((self.n_groups_per_round as int)
                        * (self.group_size as int)) <= (self.n_rounds as int) * (
                    self.n_participants as int)) by (nonlinear_arith)
                        requires
                            self.best_schedule@.len() == 0 || self.best_schedule@.len()
                                == self.n_rounds as int,
                            (self.group_size as int) * (self.n_groups_per_round as int)
                                == self.n_participants as int,
                            0 <= self.group_size as int,
                            0 <= self.n_groups_per_round as int,
                            1 <= self.n_rounds,
                    ;
                    assert(false);
                }
            }
            self.solved = true;
        }
    }

    /// No round at or after `round_i` has been given its groups yet.
    spec fn unassigned_from(self, round_i: int) -> bool {
        forall|r: int|
            round_i <= r < self.n_rounds ==> (#[trigger] self.rounds.groups_of(r)).len() == 0
    }

    /// Every acquaintance set is empty, as at the start of an attempt.
    spec fn acq_clean(self) -> bool {
        forall|p: int|
            self.parts.valid(p) ==> #[trigger] self.parts.acq_of(p) == Set::<int>::empty()
    }

    /// Every participant not yet handled in this round's fill order still has
    /// an empty acquaintance set; holds throughout the first round.
    spec fn clean_outside_prefix(self, i: int) -> bool {
        forall|p: int|
            self.parts.valid(p) && !in_prefix(self.hparts_a@, i, p)
                ==> #[trigger] self.parts.acq_of(p) == Set::<int>::empty()
    }

    /// The number of placements the first round currently holds.
    spec fn round_zero_total(self) -> int {
        crate::round::group_total(self.groups, self.rounds.groups_of(0)) as int
    }

    /// The fields one attempt never changes.
    spec fn same_run(self, other: Solver) -> bool {
        &&& self.hgroups == other.hgroups
        &&& self.hrounds == other.hrounds
        &&& self.n_participants == other.n_participants
        &&& self.n_groups_per_round == other.n_groups_per_round
        &&& self.n_rounds == other.n_rounds
        &&& self.group_size == other.group_size
        &&& self.best_num_grouped == other.best_num_grouped
        &&& self.best_schedule == other.best_schedule
        &&& self.solved == other.solved
    }

    /// Puts every registry back into the clean, all-unassigned state, and
    /// restores the canonical fill order, so a fresh attempt can begin.
    fn reset_attempt(&mut self)
        requires
            old(self).inv(),
        ensures
            final(self).inv(),
            final(self).same_run(*old(self)),
            final(self).unassigned_from(0),
            final(self).acq_clean(),
    {
        self.parts.reset();
        self.groups.reset();
        self.rounds.reset();
        let ha = self.parts.handle_vec();
        self.hparts_a = ha;
        proof {
            assert forall|p: int| self.parts.valid(p) implies #[trigger] self.parts.acq_of(p)
                == Set::<int>::empty() && self.parts.group_of(p)
                == crate::group::null_group_idx() by {}
            assert forall|g: int|
                self.groups.valid(g) implies #[trigger] self.groups.members_of(g) == Set::<
                int,
            >::empty() by {}
            lemma_wf_clean(self.parts, self.groups);
            let gps = self.n_groups_per_round as int;
            let nr = self.n_rounds as int;
            assert forall|r: int| #![trigger self.rounds.groups_of(r)] 0 <= r < nr implies {
                let gs = self.rounds.groups_of(r);
                gs.len() == 0 && (forall|g: int|
                    r * gps <= g < (r + 1) * gps ==> #[trigger] self.groups.members_of(g) == Set::<
                    int,
                    >::empty())
            } by {
                assert(self.rounds.groups_of(r).len() == 0);
                assert forall|g: int|
                    r * gps <= g < (r + 1) * gps implies #[trigger] self.groups.members_of(g)
                        == Set::<int>::empty() by {
                    assert(0 <= g < self.groups.spec_count()) by (nonlinear_arith)
                        requires
                            r * gps <= g < (r + 1) * gps,
                            0 <= r < nr,
                            1 <= gps,
                            self.groups.spec_count() == nr * gps,
                    ;
                }
            }
            assert(self.rounds_structured());
            assert forall|r: int| 0 <= r < nr implies round_wf(
                self.groups,
                #[trigger] self.rounds.groups_of(r),
            ) by {
                assert(self.rounds.groups_of(r).len() == 0);
            }
            assert(self.inv());
        }
    }

    /// Runs one full attempt from the clean state: assigns each round its
    /// groups, places every participant round by round, and on a blocked
    /// placement asks randomly chosen grouped participants to move within a
    /// randomly chosen round strictly before the one being filled; gives the
    /// attempt up when a participant cannot be placed within the repair
    /// budget, or is blocked in the first round, which has no earlier round
    /// to repair through.
    fn run_attempt(&mut self)
        requires
            old(self).inv(),
            old(self).unassigned_from(0),
            old(self).acq_clean(),
        ensures
            final(self).inv(),
            final(self).same_run(*old(self)),
            final(self).spec_current_total() >= final(self).spec_participants(),
    {
        let nr = self.n_rounds;
        let gps = self.n_groups_per_round;
        let np = self.n_participants;
        let total = self.hgroups.len();
        let mut round_i: usize = 0;
        let mut ok = true;
        while round_i < nr && ok
            invariant
                self.inv(),
                self.same_run(*old(self)),
                round_i <= nr,
                nr == self.n_rounds,
                gps == self.n_groups_per_round,
                np == self.n_participants,
                total == self.hgroups@.len(),
                self.unassigned_from(round_i as int),
                round_i == 0 ==> ok,
                round_i == 0 ==> self.acq_clean(),
                round_i >= 1 ==> self.rounds.groups_of(0).len() == gps && self.round_zero_total()
                    == np,
            decreases nr - round_i,
        {
            proof {
                assert((round_i as int) * (gps as int) + gps <= (nr as int) * (gps as int) && 0 <= (
                round_i as int) * (gps as int)) by (nonlinear_arith)
                    requires
                        round_i < nr,
                        1 <= gps,
                        0 <= round_i,
                ;
            }
            let start = round_i * gps;
            let mut gv: Vec<HGroup> = Vec::new();
            let mut k: usize = 0;
            while k < gps
                invariant
                    k <= gps,
                    total == self.hgroups@.len(),
                    start + gps <= self.hgroups@.len(),
                    forall|j: int|
                        0 <= j < self.hgroups@.len() ==> (#[trigger] self.hgroups@[j])@ == j,
                    gv@.len() == k,
                    forall|j: int| 0 <= j < k ==> (#[trigger] gv@[j])@ == start + j,
                decreases gps - k,
            {
                gv.push(self.hgroups[start + k]);
                k = k + 1;
            }
            let hround = self.hrounds[round_i];
            let ghost rounds0 = self.rounds;
            self.rounds.add_groups(hround, gv.as_slice());
            proof {
                let ri = round_i as int;
                let gpsi = gps as int;
                assert(rounds0.groups_of(ri).len() == 0);
                assert(self.rounds.groups_of(ri) =~= gv@);
                assert forall|j: int|
                    0 <= j < self.rounds.groups_of(ri).len() implies (
                #[trigger] self.rounds.groups_of(ri)[j])@ == ri * gpsi + j by {
                    assert(self.rounds.groups_of(ri)[j] == gv@[j]);
                }
                // every group of this slice is a valid, still empty group
                assert forall|j: int|
                    0 <= j < self.rounds.groups_of(ri).len() implies self.groups.valid(
                    (#[trigger] self.rounds.groups_of(ri)[j])@,
                ) && self.groups.members_of(self.rounds.groups_of(ri)[j]@) == Set::<
                    int,
                >::empty() by {
                    assert(ri * gpsi <= ri * gpsi + j < (ri + 1) * gpsi) by (nonlinear_arith)
                        requires
                            0 <= j < gpsi,
                            0 <= ri,
                    ;
                    assert(0 <= ri * gpsi + j < self.groups.spec_count()) by (nonlinear_arith)
                        requires
                            0 <= j < gpsi,
                            0 <= ri < nr as int,
                            1 <= gpsi,
                            self.groups.spec_count() == (nr as int) * gpsi,
                    ;
                }
                // the structure of every other round is untouched
                assert forall|r: int|
                    #![trigger self.rounds.groups_of(r)]
                    0 <= r < nr as int && r != ri implies self.rounds.groups_of(r)
                    == rounds0.groups_of(r) by {}
                assert(self.rounds_structured());
                assert forall|r: int| 0 <= r < nr as int implies round_wf(
                    self.groups,
                    #[trigger] self.rounds.groups_of(r),
                ) by {
                    if r != ri {
                        assert(self.rounds.groups_of(r) == rounds0.groups_of(r));
                        assert(round_wf(self.groups, rounds0.groups_of(r)));
                    } else {
                        let gs = self.rounds.groups_of(ri);
                        assert forall|k1: int, k2: int| 0 <= k1 < k2 < gs.len() implies (
                        #[trigger] gs[k1])@ != (#[trigger] gs[k2])@ by {}
                        assert forall|k1: int, k2: int, p: int|
                            #![trigger self.groups.members_of(gs[k1]@).contains(p), self.groups.members_of(gs[k2]@).contains(p)]
                            0 <= k1 < gs.len() && 0 <= k2 < gs.len() && k1 != k2 implies !(
                        self.groups.members_of(gs[k1]@).contains(p) && self.groups.members_of(
                            gs[k2]@,
                        ).contains(p)) by {
                            assert(self.groups.members_of(gs[k1]@) == Set::<int>::empty());
                        }
                    }
                }
                assert(self.inv());
                assert(self.unassigned_from(round_i as int + 1));
                assert(prefix_placed(
                    self.rounds,
                    self.groups,
                    round_i as int,
                    self.hparts_a@,
                    0,
                )) by {
                    assert forall|k2: int, p: int|
                        #![trigger self.groups.members_of(self.rounds.groups_of(round_i as int)[k2]@).contains(p)]
                        0 <= k2 < self.rounds.groups_of(round_i as int).len()
                            && self.groups.members_of(
                            self.rounds.groups_of(round_i as int)[k2]@,
                        ).contains(p) implies in_prefix(self.hparts_a@, 0, p) by {
                        assert(self.groups.members_of(self.rounds.groups_of(round_i as int)[k2]@)
                            == Set::<int>::empty());
                    }
                }
            }
            let ghost parts0 = self.parts;
            self.parts.prepare_for_new_round();
            proof {
                assert forall|p: int|
                    parts0.valid(p) implies #[trigger] self.parts.acq_of(p) == parts0.acq_of(p)
                    && self.parts.group_of(p) == crate::group::null_group_idx() by {}
                lemma_wf_after_ungroup(parts0, self.parts, self.groups);
                assert(self.inv());
            }
            if round_i > 0 {
                let ghost a0 = self.hparts_a@;
                crate::rng::shuffle_vec(&mut self.hparts_a);
                proof {
                    lemma_shuffle_keeps_handles(a0, self.hparts_a@, np as int);
                }
                let ghost b0 = self.hparts_b@;
                crate::rng::shuffle_vec(&mut self.hparts_b);
                proof {
                    lemma_shuffle_keeps_bounds(b0, self.hparts_b@, np as int);
                }
                self.b_idx = 0;
            }
            proof {
                if round_i == 0 {
                    // nobody is acquainted yet, and the fresh groups are empty
                    assert forall|p: int|
                        self.parts.valid(p) implies #[trigger] self.parts.acq_of(p) == Set::<
                        int,
                    >::empty() by {
                        assert(self.parts.acq_of(p) == parts0.acq_of(p));
                    }
                    assert forall|j: int|
                        0 <= j < self.rounds.groups_of(0).len() implies self.groups.members_of(
                        (#[trigger] self.rounds.groups_of(0)[j])@,
                    ).len() == 0 by {
                        assert(self.groups.members_of(self.rounds.groups_of(0)[j]@) == Set::<
                            int,
                        >::empty());
                    }
                    lemma_group_total_zero(
                        self.groups,
                        self.rounds.groups_of(0),
                        self.rounds.groups_of(0).len() as int,
                    );
                } else {
                    // the first round's list and totals survive the bookkeeping
                    assert(self.rounds.groups_of(0) == rounds0.groups_of(0));
                }
                assert(self.rounds.groups_of(round_i as int).len() == gps);
            }
            let max_tries = 2 * np;
            let mut i: usize = 0;
            while i < np && ok
                invariant
                    self.inv(),
                    self.same_run(*old(self)),
                    i <= np,
                    round_i < nr,
                    nr == self.n_rounds,
                    gps == self.n_groups_per_round,
                    np == self.n_participants,
                    total == self.hgroups@.len(),
                    max_tries == 2 * np,
                    hround@ == round_i as int,
                    self.unassigned_from(round_i as int + 1),
                    self.rounds.groups_of(round_i as int).len() == gps,
                    round_i == 0 ==> ok,
                    round_i == 0 ==> self.clean_outside_prefix(i as int),
                    round_i == 0 ==> crate::round::group_total(
                        self.groups,
                        self.rounds.groups_of(0),
                    ) == i,
                    round_i >= 1 ==> self.rounds.groups_of(0).len() == gps
                        && self.round_zero_total() == np,
                    ok ==> prefix_placed(
                        self.rounds,
                        self.groups,
                        round_i as int,
                        self.hparts_a@,
                        i as int,
                    ),
                decreases np - i,
            {
                let hpa = self.hparts_a[i];
                let mut placed = false;
                let mut tries: usize = 0;
                while tries < max_tries && !placed
                    invariant
                        self.inv(),
                        self.same_run(*old(self)),
                        tries <= max_tries,
                        max_tries == 2 * np,
                        i < np,
                        round_i < nr,
                        nr == self.n_rounds,
                        gps == self.n_groups_per_round,
                        np == self.n_participants,
                        hround@ == round_i as int,
                        hpa == self.hparts_a@[i as int],
                        self.unassigned_from(round_i as int + 1),
                        self.rounds.groups_of(round_i as int).len() == gps,
                        round_i == 0 ==> placed || tries == 0,
                        round_i == 0 ==> self.clean_outside_prefix(
                            i as int + (if placed {
                                1int
                            } else {
                                0int
                            }),
                        ),
                        round_i == 0 ==> crate::round::group_total(
                            self.groups,
                            self.rounds.groups_of(0),
                        ) as int == i as int + (if placed {
                            1int
                        } else {
                            0int
                        }),
                        round_i >= 1 ==> self.rounds.groups_of(0).len() == gps
                            && self.round_zero_total() == np,
                        !placed ==> prefix_placed(
                            self.rounds,
                            self.groups,
                            round_i as int,
                            self.hparts_a@,
                            i as int,
                        ),
                        placed ==> prefix_placed(
                            self.rounds,
                            self.groups,
                            round_i as int,
                            self.hparts_a@,
                            i as int + 1,
                        ),
                    ensures
                        round_i == 0 ==> placed,
                    decreases max_tries - tries,
                {
                    let ghost p_before = self.parts;
                    let ghost g_before = self.groups;
                    proof {
                        assert(!in_prefix(self.hparts_a@, i as int, hpa@)) by {
                            if in_prefix(self.hparts_a@, i as int, hpa@) {
                                let x = choose|x: int|
                                    0 <= x < i && (#[trigger] self.hparts_a@[x])@ == hpa@;
                                assert(self.hparts_a@[x]@ != self.hparts_a@[i as int]@);
                            }
                        }
                        assert(round_wf(self.groups, self.rounds.groups_of(round_i as int)));
                        assert forall|kk: int|
                            0 <= kk < self.rounds.groups_of(hround@).len() implies !self.groups.members_of(
                            (#[trigger] self.rounds.groups_of(hround@)[kk])@,
                        ).contains(hpa@) by {
                            if self.groups.members_of(
                                self.rounds.groups_of(hround@)[kk]@,
                            ).contains(hpa@) {
                                assert(in_prefix(self.hparts_a@, i as int, hpa@));
                            }
                        }
                    }
                    if self.parts.try_join_groups(hpa, hround, &self.rounds, &mut self.groups) {
                        proof {
                            let gsc = self.rounds.groups_of(round_i as int);
                            let k_star = choose|k2: int|
                                0 <= k2 < gsc.len() && #[trigger] crate::participant::can_join(
                                    p_before,
                                    g_before,
                                    hpa@,
                                    gsc[k2]@,
                                ) && (forall|j: int|
                                    0 <= j < k2 ==> !crate::participant::can_join(
                                        p_before,
                                        g_before,
                                        hpa@,
                                        (#[trigger] gsc[j])@,
                                    )) && crate::participant::join_effect(
                                    p_before,
                                    g_before,
                                    self.parts,
                                    self.groups,
                                    hpa@,
                                    gsc[k2]@,
                                );
                            let hgj = gsc[k_star]@;
                            assert(round_wf(g_before, gsc));
                            assert(g_before.valid(hgj));
                            lemma_join_keeps_structure(
                                self.rounds,
                                g_before,
                                self.groups,
                                nr as int,
                                gps as int,
                                round_i as int,
                                hgj,
                                hpa@,
                                self.hparts_a@,
                                i as int,
                            );
                            assert(self.inv());
                            if round_i == 0 {
                                // the first round's total steps by one, and
                                // the new acquaintances all lie in the prefix
                                assert(!g_before.members_of(hgj).contains(hpa@));
                                assert(g_before.members_of(hgj).finite());
                                assert(self.groups.members_of(hgj).len() as int
                                    == g_before.members_of(hgj).len() + 1);
                                assert forall|j: int|
                                    0 <= j < gsc.len() && j != k_star implies self.groups.members_of(
                                    (#[trigger] gsc[j])@,
                                ) == g_before.members_of(gsc[j]@) by {
                                    assert(gsc[j]@ != hgj);
                                    assert(g_before.valid(gsc[j]@));
                                }
                                lemma_group_total_one_change(
                                    g_before,
                                    self.groups,
                                    gsc,
                                    gsc.len() as int,
                                    k_star,
                                    1,
                                );
                                assert forall|p: int|
                                    self.parts.valid(p) && !in_prefix(
                                        self.hparts_a@,
                                        i as int + 1,
                                        p,
                                    ) implies #[trigger] self.parts.acq_of(p) == Set::<
                                    int,
                                >::empty() by {
                                    assert(0 <= i < self.hparts_a@.len() && self.hparts_a@[i as int]@
                                        == hpa@);
                                    assert(p != hpa@);
                                    assert(!in_prefix(self.hparts_a@, i as int, p)) by {
                                        if in_prefix(self.hparts_a@, i as int, p) {
                                            let x = choose|x: int|
                                                0 <= x < i && (#[trigger] self.hparts_a@[x])@ == p;
                                            assert(0 <= x < i + 1 && self.hparts_a@[x]@ == p);
                                        }
                                    }
                                    assert(!g_before.members_of(hgj).contains(p)) by {
                                        if g_before.members_of(hgj).contains(p) {
                                            assert(in_prefix(self.hparts_a@, i as int, p));
                                        }
                                    }
                                    assert(self.parts.acq_of(p) == p_before.acq_of(p));
                                    assert(p_before.acq_of(p) == Set::<int>::empty());
                                }
                            } else {
                                // the first round is untouched by this placement
                                let gs0 = self.rounds.groups_of(0);
                                assert(hgj == (round_i as int) * (gps as int) + k_star);
                                assert forall|j: int|
                                    0 <= j < gs0.len() implies self.groups.members_of(
                                    (#[trigger] gs0[j])@,
                                ) == g_before.members_of(gs0[j]@) by {
                                    assert(gs0[j]@ == 0 * (gps as int) + j);
                                    assert(j != (round_i as int) * (gps as int) + k_star)
                                        by (nonlinear_arith)
                                        requires
                                            0 <= j < gps as int,
                                            1 <= round_i as int,
                                            0 <= k_star,
                                            1 <= gps as int,
                                    ;
                                    assert(g_before.valid(gs0[j]@));
                                }
                                lemma_group_total_same(
                                    g_before,
                                    self.groups,
                                    gs0,
                                    gs0.len() as int,
                                );
                            }
                        }
                        placed = true;
                    } else {
                        if round_i == 0 {
                            proof {
                                // the first round can never block: the blocked
                                // participant knows nobody, and a slot is free
                                let gsc = self.rounds.groups_of(0);
                                assert(self.parts.acq_of(hpa@) == Set::<int>::empty());
                                assert(exists|k2: int|
                                    0 <= k2 < gsc.len() && (#[trigger] self.groups.members_of(
                                        gsc[k2]@,
                                    )).len() < self.group_size) by {
                                    if forall|k2: int|
                                        0 <= k2 < gsc.len() ==> (#[trigger] self.groups.members_of(
                                            gsc[k2]@,
                                        )).len() >= self.group_size {
                                        lemma_group_total_lower(
                                            self.groups,
                                            gsc,
                                            gsc.len() as int,
                                            self.group_size as int,
                                        );
                                        assert((gps as int) * (self.group_size as int)
                                            == np as int) by (nonlinear_arith)
                                            requires
                                                (self.group_size as int) * (gps as int)
                                                    == np as int,
                                        ;
                                        assert(false);
                                    }
                                }
                                let k2 = choose|k2: int|
                                    0 <= k2 < gsc.len() && (#[trigger] self.groups.members_of(
                                        gsc[k2]@,
                                    )).len() < self.group_size;
                                assert(round_wf(self.groups, gsc));
                                assert(self.groups.valid(gsc[k2]@));
                                assert(self.groups.size_of(gsc[k2]@) == self.group_size);
                                assert(crate::participant::conflicts(
                                    self.parts,
                                    self.groups,
                                    hpa@,
                                    gsc[k2]@,
                                ) =~= Set::<int>::empty());
                                assert(crate::participant::conflicts(
                                    self.parts,
                                    self.groups,
                                    hpa@,
                                    gsc[k2]@,
                                ).is_empty());
                                assert(crate::participant::can_join(
                                    self.parts,
                                    self.groups,
                                    hpa@,
                                    gsc[k2]@,
                                ));
                                assert(self.parts == p_before && self.groups == g_before);
                                assert(!crate::participant::can_join(
                                    p_before,
                                    g_before,
                                    hpa@,
                                    gsc[k2]@,
                                ));
                                assert(false);
                            }
                            break ;
                        }
                        let mut repaired = false;
                        let mut x: usize = 0;
                        while x < np && !repaired
                            invariant
                                self.inv(),
                                self.same_run(*old(self)),
                                x <= np,
                                1 <= round_i < nr,
                                nr == self.n_rounds,
                                gps == self.n_groups_per_round,
                                np == self.n_participants,
                                hround@ == round_i as int,
                                hpa == self.hparts_a@[i as int],
                                i < np,
                                self.unassigned_from(round_i as int + 1),
                                self.rounds.groups_of(round_i as int).len() == gps,
                                self.rounds.groups_of(0).len() == gps,
                                self.round_zero_total() == np,
                                prefix_placed(
                                    self.rounds,
                                    self.groups,
                                    round_i as int,
                                    self.hparts_a@,
                                    i as int,
                                ),
                            decreases np - x,
                        {
                            self.b_idx = self.b_idx + 1;
                            if self.b_idx >= np {
                                self.b_idx = 0;
                            }
                            let hpb = self.hparts_b[self.b_idx];
                            if self.parts.is_grouped(hpb) {
                                let rt = crate::rng::rand_index(0, round_i - 1);
                                let hrt = self.hrounds[rt];
                                let ghost p0r = self.parts;
                                let ghost g0r = self.groups;
                                proof {
                                    assert(round_wf(g0r, self.rounds.groups_of(rt as int)));
                                }
                                let res = self.parts.try_regroup(
                                    hpb,
                                    hrt,
                                    &self.rounds,
                                    &mut self.groups,
                                );
                                match res {
                                    Result::Ok(hop) => {
                                        proof {
                                            let nri = nr as int;
                                            let gpsi = gps as int;
                                            let rti = rt as int;
                                            let gs_rt = self.rounds.groups_of(rti);
                                            let hg = crate::round::round_home(g0r, gs_rt, hpb@);
                                            let hog = self.parts.group_of(hpb@);
                                            let kh = choose|k2: int|
                                                #[trigger] crate::round::scan_hit(
                                                    g0r,
                                                    gs_rt,
                                                    hpb@,
                                                    k2,
                                                );
                                            assert(crate::round::scan_hit(g0r, gs_rt, hpb@, kh));
                                            crate::round::lemma_round_home_unique(
                                                g0r,
                                                gs_rt,
                                                hpb@,
                                                kh,
                                            );
                                            assert(gs_rt[kh]@ == hg);
                                            assert(g0r.members_of(hg).contains(hpb@));
                                            assert(g0r.valid(gs_rt[kh]@));
                                            let kg = choose|k2: int|
                                                0 <= k2 < gs_rt.len() && (#[trigger] gs_rt[k2])@
                                                    == hog;
                                            assert(0 <= kg < gs_rt.len() && gs_rt[kg]@ == hog);
                                            assert(g0r.valid(gs_rt[kg]@));
                                            assert(gs_rt.len() == gpsi);
                                            assert(hg == rti * gpsi + kh);
                                            assert(hog == rti * gpsi + kg);
                                            if hop@ == crate::participant::null_part_idx() {
                                                assert(crate::participant::relocate_effect(
                                                    p0r,
                                                    g0r,
                                                    self.parts,
                                                    self.groups,
                                                    hpb@,
                                                    hg,
                                                    hog,
                                                ));
                                                lemma_confined_keeps_structure(
                                                    self.rounds,
                                                    g0r,
                                                    self.groups,
                                                    nri,
                                                    gpsi,
                                                    rti,
                                                    hg,
                                                    hog,
                                                    hpb@,
                                                    hpb@,
                                                );
                                            } else {
                                                assert(crate::participant::swap_effect(
                                                    p0r,
                                                    g0r,
                                                    self.parts,
                                                    self.groups,
                                                    hpb@,
                                                    hop@,
                                                    hg,
                                                    hog,
                                                ));
                                                assert(g0r.members_of(hog).contains(hop@));
                                                // the counterpart sat in hog, so not in hg
                                                assert(!g0r.members_of(hg).contains(hop@)) by {
                                                    if g0r.members_of(hg).contains(hop@) {
                                                        assert(g0r.members_of(
                                                            gs_rt[kh]@,
                                                        ).contains(hop@) && g0r.members_of(
                                                            gs_rt[kg]@,
                                                        ).contains(hop@));
                                                        assert(false);
                                                    }
                                                }
                                                assert(hpb@ != hop@) by {
                                                    if hpb@ == hop@ {
                                                        assert(g0r.members_of(
                                                            gs_rt[kh]@,
                                                        ).contains(hpb@) && g0r.members_of(
                                                            gs_rt[kg]@,
                                                        ).contains(hpb@));
                                                        assert(false);
                                                    }
                                                }
                                                lemma_confined_keeps_structure(
                                                    self.rounds,
                                                    g0r,
                                                    self.groups,
                                                    nri,
                                                    gpsi,
                                                    rti,
                                                    hg,
                                                    hog,
                                                    hpb@,
                                                    hop@,
                                                );
                                            }
                                            // the round being filled is untouched
                                            assert forall|k2: int, p: int|
                                                #![trigger self.groups.members_of(self.rounds.groups_of(round_i as int)[k2]@).contains(p)]
                                                0 <= k2 < self.rounds.groups_of(
                                                    round_i as int,
                                                ).len() && self.groups.members_of(
                                                    self.rounds.groups_of(round_i as int)[k2]@,
                                                ).contains(p) implies in_prefix(
                                                self.hparts_a@,
                                                i as int,
                                                p,
                                            ) by {
                                                let gsc = self.rounds.groups_of(round_i as int);
                                                assert(gsc.len() == gpsi);
                                                assert(gsc[k2]@ == (round_i as int) * gpsi + k2);
                                                assert((round_i as int) * gpsi + k2 != rti * gpsi
                                                    + kh && (round_i as int) * gpsi + k2 != rti
                                                    * gpsi + kg) by (nonlinear_arith)
                                                    requires
                                                        rti != round_i as int,
                                                        0 <= kh < gpsi,
                                                        0 <= kg < gpsi,
                                                        0 <= k2 < gpsi,
                                                        0 <= rti,
                                                        0 <= round_i as int,
                                                        1 <= gpsi,
                                                ;
                                                assert(gsc[k2]@ != hg && gsc[k2]@ != hog);
                                                assert(g0r.valid(gsc[k2]@)) by {
                                                    assert(round_wf(g0r, gsc));
                                                }
                                                assert(self.groups.members_of(gsc[k2]@)
                                                    == g0r.members_of(gsc[k2]@));
                                            }
                                            assert(self.inv());
                                            // the first round's total is kept:
                                            // a repair only trades slots
                                            let gs0 = self.rounds.groups_of(0);
                                            if rti == 0 {
                                                assert(gs_rt == gs0);
                                                assert(kh != kg);
                                                assert(!g0r.members_of(hog).contains(hpb@)) by {
                                                    if g0r.members_of(hog).contains(hpb@) {
                                                        assert(g0r.members_of(
                                                            gs_rt[kh]@,
                                                        ).contains(hpb@) && g0r.members_of(
                                                            gs_rt[kg]@,
                                                        ).contains(hpb@));
                                                        assert(false);
                                                    }
                                                }
                                                assert(g0r.members_of(hg).finite());
                                                assert(g0r.members_of(hog).finite());
                                                if hop@ == crate::participant::null_part_idx() {
                                                    assert(self.groups.members_of(hg).len() as int
                                                        == g0r.members_of(hg).len() - 1);
                                                    assert(self.groups.members_of(hog).len() as int
                                                        == g0r.members_of(hog).len() + 1);
                                                    lemma_group_total_two_changes(
                                                        g0r,
                                                        self.groups,
                                                        gs0,
                                                        gs0.len() as int,
                                                        kh,
                                                        kg,
                                                        -1,
                                                        1,
                                                    );
                                                } else {
                                                    assert(!g0r.members_of(hg).remove(
                                                        hpb@,
                                                    ).contains(hop@));
                                                    assert(self.groups.members_of(hg).len() as int
                                                        == g0r.members_of(hg).len() as int);
                                                    assert(!g0r.members_of(hog).remove(
                                                        hop@,
                                                    ).contains(hpb@));
                                                    assert(self.groups.members_of(hog).len() as int
                                                        == g0r.members_of(hog).len() as int);
                                                    lemma_group_total_two_changes(
                                                        g0r,
                                                        self.groups,
                                                        gs0,
                                                        gs0.len() as int,
                                                        kh,
                                                        kg,
                                                        0,
                                                        0,
                                                    );
                                                }
                                            } else {
                                                assert forall|j: int|
                                                    0 <= j < gs0.len() implies self.groups.members_of(
                                                    (#[trigger] gs0[j])@,
                                                ) == g0r.members_of(gs0[j]@) by {
                                                    assert(gs0[j]@ == 0 * gpsi + j);
                                                    assert(j != rti * gpsi + kh && j != rti * gpsi
                                                        + kg) by (nonlinear_arith)
                                                        requires
                                                            0 <= j < gpsi,
                                                            1 <= rti,
                                                            0 <= kh,
                                                            0 <= kg,
                                                            1 <= gpsi,
                                                    ;
                                                    assert(gs0[j]@ != hg && gs0[j]@ != hog);
                                                    assert(g0r.valid(gs0[j]@));
                                                }
                                                lemma_group_total_same(
                                                    g0r,
                                                    self.groups,
                                                    gs0,
                                                    gs0.len() as int,
                                                );
                                            }
                                        }
                                        repaired = true;
                                    },
                                    Result::Err(_) => {
                                        proof {
                                            assert(self.parts == p0r && self.groups == g0r);
                                        }
                                    },
                                }
                            }
                            x = x + 1;
                        }
                        if !repaired {
                            break ;
                        }
                    }
                    tries = tries + 1;
                }
                proof {
                    if round_i == 0 {
                        assert(placed);
                    }
                }
                if !placed {
                    ok = false;
                }
                i = i + 1;
            }
            proof {
                if round_i == 0 {
                    assert(ok && i == np);
                    assert(crate::round::group_total(self.groups, self.rounds.groups_of(0))
                        == np);
                }
            }
            round_i = round_i + 1;
        }
        proof {
            assert(round_i >= 1);
            assert(self.rounds.groups_of(0).len() == gps && self.round_zero_total() == np);
            crate::round::lemma_total_prefix_mono(
                self.rounds,
                self.hrounds@,
                self.groups,
                self.n_rounds as int,
            );
            assert(self.hrounds@[0]@ == 0);
            assert(self.rounds.total_prefix(self.hrounds@, self.groups, 0) == 0);
            assert(self.rounds.total_prefix(self.hrounds@, self.groups, 1)
                == crate::round::group_total(self.groups, self.rounds.groups_of(0)));
            assert(self.spec_current_total() >= np);
        }
    }

    /// Copies the whole current assignment out of the registries: per round,
    /// per group, the member indices in ascending order.
    fn snapshot(&self) -> (s: Vec<Vec<Vec<usize>>>)
        requires
            self.inv(),
        ensures
            snapshot_matches(s, self.groups, self.rounds, self.n_rounds as int),
    {
        let nr = self.n_rounds;
        let mut s: Vec<Vec<Vec<usize>>> = Vec::new();
        let mut r: usize = 0;
        while r < nr
            invariant
                r <= nr,
                self.inv(),
                nr == self.n_rounds,
                s@.len() == r,
                forall|r2: int|
                    0 <= r2 < r ==> row_matches(#[trigger] s@[r2], self.groups, self.rounds, r2),
            decreases nr - r,
        {
            let ghost s0 = s@;
            let row = self.round_row(r);
            s.push(row);
            proof {
                assert forall|r2: int|
                    0 <= r2 < r + 1 implies row_matches(
                    #[trigger] s@[r2],
                    self.groups,
                    self.rounds,
                    r2,
                ) by {
                    if r2 < r {
                        assert(s@[r2] == s0[r2]);
                    } else {
                        assert(s@[r2] == row);
                    }
                }
            }
            r = r + 1;
        }
        s
    }
}

/// The set of members an extracted group lists is exactly the member set of
/// the group it was copied from.
proof fn lemma_sched_set(
    s: Vec<Vec<Vec<usize>>>,
    groups: Groups,
    rounds: Rounds,
    nr: int,
    r: int,
    g: int,
)
    requires
        snapshot_matches(s, groups, rounds, nr),
        0 <= r < s@.len(),
        0 <= g < s@[r]@.len(),
    ensures
        sched_group_set(s, r, g) == groups.members_of(rounds.groups_of(r)[g]@),
{
    let gi = rounds.groups_of(r)[g]@;
    assert(row_matches(s@[r], groups, rounds, r));
    assert(grp_matches(s@[r]@[g], groups, gi));
    assert forall|p: int|
        sched_group_set(s, r, g).contains(p) == groups.members_of(gi).contains(p) by {
        if sched_group_set(s, r, g).contains(p) {
            let k = choose|k: int|
                0 <= k < s@[r]@[g]@.len() && (#[trigger] s@[r]@[g]@[k]) as int == p;
            assert(groups.members_of(gi).contains(s@[r]@[g]@[k] as int));
        }
        if groups.members_of(gi).contains(p) {
            let k = choose|k: int|
                0 <= k < s@[r]@[g]@.len() && (#[trigger] s@[r]@[g]@[k]) as int == p;
            assert(0 <= k < s@[r]@[g]@.len() && (s@[r]@[g]@[k]) as int == p);
            assert(sched_group_set(s, r, g).contains(p));
        }
    }
    assert(sched_group_set(s, r, g) =~= groups.members_of(gi));
}

/// Participant `p` is a member of one of the first `gps` groups of round `r`
/// of the snapshot.
pub open spec fn placed_in_round(s: Vec<Vec<Vec<usize>>>, gps: int, r: int, p: int) -> bool {
    exists|g: int| 0 <= g < gps && #[trigger] sched_group_set(s, r, g).contains(p)
}

/// The members listed by the first `j` groups of round `r`, as one set.
spec fn round_union(s: Vec<Vec<Vec<usize>>>, r: int, j: int) -> Set<int>
    decreases j,
{
    if j <= 0 {
        Set::<int>::empty()
    } else {
        round_union(s, r, j - 1) + sched_group_set(s, r, j - 1)
    }
}

/// A group that lists its members in strictly ascending order lists as many
/// distinct members as its length.
proof fn lemma_group_set_card(s: Vec<Vec<Vec<usize>>>, r: int, g: int, j: int)
    requires
        0 <= r < s@.len(),
        0 <= g < s@[r]@.len(),
        0 <= j <= s@[r]@[g]@.len(),
        forall|k1: int, k2: int|
            #![trigger s@[r]@[g]@[k1], s@[r]@[g]@[k2]]
            0 <= k1 < k2 < s@[r]@[g]@.len() ==> s@[r]@[g]@[k1] < s@[r]@[g]@[k2],
    ensures
        Set::new(
            |p: int| exists|k: int| 0 <= k < j && (#[trigger] s@[r]@[g]@[k]) as int == p,
        ).finite(),
        Set::new(|p: int| exists|k: int| 0 <= k < j && (#[trigger] s@[r]@[g]@[k]) as int == p).len()
            == j,
    decreases j,
{
    let sj = Set::new(|p: int| exists|k: int| 0 <= k < j && (#[trigger] s@[r]@[g]@[k]) as int == p);
    if j == 0 {
        assert(sj =~= Set::<int>::empty());
    } else {
        lemma_group_set_card(s, r, g, j - 1);
        let sj1 = Set::new(
            |p: int| exists|k: int| 0 <= k < j - 1 && (#[trigger] s@[r]@[g]@[k]) as int == p,
        );
        let v = s@[r]@[g]@[j - 1] as int;
        assert forall|p: int| #![trigger sj.contains(p)] sj.contains(p) == sj1.insert(v).contains(
            p,
        ) by {
            if sj.contains(p) {
                let k = choose|k: int| 0 <= k < j && (#[trigger] s@[r]@[g]@[k]) as int == p;
                if k < j - 1 {
                    assert(sj1.contains(p));
                }
            }
            if sj1.contains(p) {
                let k = choose|k: int| 0 <= k < j - 1 && (#[trigger] s@[r]@[g]@[k]) as int == p;
                assert(0 <= k < j && s@[r]@[g]@[k] as int == p);
                assert(sj.contains(p));
            }
            if p == v {
                assert(0 <= j - 1 < j && s@[r]@[g]@[j - 1] as int == p);
                assert(sj.contains(p));
            }
        }
        assert(sj =~= sj1.insert(v));
        assert(!sj1.contains(v)) by {
            if sj1.contains(v) {
                let k = choose|k: int| 0 <= k < j - 1 && (#[trigger] s@[r]@[g]@[k]) as int == v;
                assert(s@[r]@[g]@[k] < s@[r]@[g]@[j - 1]);
                assert(false);
            }
        }
    }
}

/// Within one round of a valid schedule, the union of the first `j` groups
/// holds exactly as many members as the groups' combined length, and each of
/// them belongs to one of those groups.
proof fn lemma_round_union_card(s: Vec<Vec<Vec<usize>>>, np: int, gsize: int, r: int, j: int)
    requires
        valid_schedule(s, np, gsize),
        0 <= r < s@.len(),
        0 <= j <= s@[r]@.len(),
    ensures
        round_union(s, r, j).finite(),
        round_union(s, r, j).len() == sched_group_total(s, r, j),
        forall|p: int|
            #[trigger] round_union(s, r, j).contains(p) <==> exists|g: int|
                0 <= g < j && #[trigger] sched_group_set(s, r, g).contains(p),
    decreases j,
{
    if j == 0 {
        assert forall|p: int| !round_union(s, r, 0).contains(p) by {}
    } else {
        lemma_round_union_card(s, np, gsize, r, j - 1);
        lemma_group_set_card(s, r, j - 1, s@[r]@[j - 1]@.len() as int);
        let last = sched_group_set(s, r, j - 1);
        assert(last =~= Set::new(
            |p: int|
                exists|k: int|
                    0 <= k < s@[r]@[j - 1]@.len() && (#[trigger] s@[r]@[j - 1]@[k]) as int == p,
        ));
        assert(last.finite() && last.len() == s@[r]@[j - 1]@.len());
        assert(round_union(s, r, j - 1).disjoint(last)) by {
            assert forall|p: int|
                round_union(s, r, j - 1).contains(p) implies !last.contains(p) by {
                let g0 = choose|g: int| 0 <= g < j - 1 && #[trigger] sched_group_set(
                    s,
                    r,
                    g,
                ).contains(p);
                assert(!(sched_group_set(s, r, g0).contains(p) && sched_group_set(
                    s,
                    r,
                    j - 1,
                ).contains(p)));
            }
        }
        vstd::set_lib::lemma_set_disjoint_lens(round_union(s, r, j - 1), last);
        assert forall|p: int| #[trigger] round_union(s, r, j).contains(p) implies exists|g: int|
            0 <= g < j && #[trigger] sched_group_set(s, r, g).contains(p) by {
            if last.contains(p) {
                assert(0 <= j - 1 < j && sched_group_set(s, r, j - 1).contains(p));
            } else {
                let g0 = choose|g: int| 0 <= g < j - 1 && #[trigger] sched_group_set(
                    s,
                    r,
                    g,
                ).contains(p);
                assert(0 <= g0 < j && sched_group_set(s, r, g0).contains(p));
            }
        }
        assert forall|p: int|
            (exists|g: int| 0 <= g < j && #[trigger] sched_group_set(s, r, g).contains(p)) implies
            #[trigger] round_union(s, r, j).contains(p) by {
            let g0 = choose|g: int| 0 <= g < j && #[trigger] sched_group_set(s, r, g).contains(p);
            if g0 < j - 1 {
                assert(round_union(s, r, j - 1).contains(p));
            }
        }
    }
}

/// A subset of a finite set with the same number of elements is the whole
/// set.
proof fn lemma_subset_same_len(s1: Set<int>, s2: Set<int>)
    requires
        s1.subset_of(s2),
        s2.finite(),
        s1.len() == s2.len(),
    ensures
        s1 == s2,
{
    if exists|p: int| s2.contains(p) && !s1.contains(p) {
        let p = choose|p: int| s2.contains(p) && !s1.contains(p);
        assert(s1.subset_of(s2.remove(p)));
        vstd::set_lib::lemma_len_subset(s1, s2.remove(p));
        assert(false);
    }
    assert(s1 =~= s2);
}

/// If a prefix of rounds reaches the per-round ceiling on average, every
/// round of the prefix reaches it exactly.
proof fn lemma_round_totals_max(s: Vec<Vec<Vec<usize>>>, gps: int, gsize: int, k: int)
    requires
        0 <= k <= s@.len(),
        0 <= gps,
        0 <= gsize,
        forall|r: int| 0 <= r < s@.len() ==> (#[trigger] s@[r])@.len() <= gps,
        forall|r: int, g: int|
            0 <= r < s@.len() && 0 <= g < s@[r]@.len() ==> (#[trigger] s@[r]@[g])@.len() <= gsize,
        sched_total_prefix(s, k) == k * (gps * gsize),
    ensures
        forall|r: int|
            0 <= r < k ==> sched_group_total(s, r, (#[trigger] s@[r])@.len() as int) == gps * gsize,
    decreases k,
{
    if k > 0 {
        lemma_sched_total_bound(s, k - 1, gps, gsize);
        lemma_sched_group_bound(s, k - 1, s@[k - 1]@.len() as int, gsize);
        assert(sched_group_total(s, k - 1, s@[k - 1]@.len() as int) <= gps * gsize)
            by (nonlinear_arith)
            requires
                sched_group_total(s, k - 1, s@[k - 1]@.len() as int) <= s@[k - 1]@.len() * gsize,
                0 <= s@[k - 1]@.len() <= gps,
                0 <= gsize,
        ;
        assert((k - 1) * (gps * gsize) + (gps * gsize) == k * (gps * gsize)) by (nonlinear_arith);
        assert(sched_total_prefix(s, k - 1) == (k - 1) * (gps * gsize));
        lemma_round_totals_max(s, gps, gsize, k - 1);
    }
}

/// If a prefix of groups reaches the per-group ceiling on average, every
/// group of the prefix is exactly full.
proof fn lemma_group_lens_max(s: Vec<Vec<Vec<usize>>>, gsize: int, r: int, j: int)
    requires
        0 <= r < s@.len(),
        0 <= j <= s@[r]@.len(),
        0 <= gsize,
        forall|g: int|
            0 <= g < s@[r]@.len() ==> (#[trigger] s@[r]@[g])@.len() <= gsize,
        sched_group_total(s, r, j) == j * gsize,
    ensures
        forall|g: int| 0 <= g < j ==> (#[trigger] s@[r]@[g])@.len() == gsize,
    decreases j,
{
    if j > 0 {
        lemma_sched_group_bound(s, r, j - 1, gsize);
        assert((j - 1) * gsize + gsize == j * gsize) by (nonlinear_arith);
        assert(sched_group_total(s, r, j - 1) == (j - 1) * gsize);
        lemma_group_lens_max(s, gsize, r, j - 1);
    }
}

/// A schedule that records a full count of placements is complete: it has
/// every round, every round has its full complement of exactly full groups,
/// and every participant is placed in every round.
pub proof fn lemma_solved_schedule_complete(
    s: Vec<Vec<Vec<usize>>>,
    np: int,
    gps: int,
    gsize: int,
    nr: int,
)
    requires
        valid_schedule(s, np, gsize),
        s@.len() == 0 || s@.len() == nr,
        forall|r: int| 0 <= r < s@.len() ==> (#[trigger] s@[r])@.len() <= gps,
        sched_total(s) == nr * np,
        np == gps * gsize,
        1 <= gps,
        1 <= gsize,
        1 <= nr,
    ensures
        s@.len() == nr,
        forall|r: int| 0 <= r < nr ==> (#[trigger] s@[r])@.len() == gps,
        forall|r: int, g: int|
            0 <= r < nr && 0 <= g < gps ==> (#[trigger] s@[r]@[g])@.len() == gsize,
        forall|r: int, p: int|
            0 <= r < nr && 0 <= p < np ==> #[trigger] placed_in_round(s, gps, r, p),
{
    assert(1 <= np) by (nonlinear_arith)
        requires
            np == gps * gsize,
            1 <= gps,
            1 <= gsize,
    ;
    assert(1 <= nr * np) by (nonlinear_arith)
        requires
            1 <= nr,
            1 <= np,
    ;
    if s@.len() == 0 {
        assert(sched_total(s) == 0);
        assert(false);
    }
    lemma_round_totals_max(s, gps, gsize, nr);
    assert forall|r: int| 0 <= r < nr implies (#[trigger] s@[r])@.len() == gps by {
        let j = s@[r]@.len() as int;
        assert(sched_group_total(s, r, j) == gps * gsize);
        lemma_sched_group_bound(s, r, j, gsize);
        if j < gps {
            assert(j * gsize < gps * gsize) by (nonlinear_arith)
                requires
                    0 <= j < gps,
                    1 <= gsize,
            ;
            assert(false);
        }
    }
    assert forall|r: int| 0 <= r < nr implies sched_group_total(s, r, gps) == gps * gsize by {
        assert(s@[r]@.len() == gps);
    }
    assert forall|r: int, g: int|
        0 <= r < nr && 0 <= g < gps implies (#[trigger] s@[r]@[g])@.len() == gsize by {
        assert(gps * gsize == gps * gsize);
        lemma_group_lens_max(s, gsize, r, gps);
    }
    assert forall|r: int, p: int| 0 <= r < nr && 0 <= p < np implies #[trigger] placed_in_round(
        s,
        gps,
        r,
        p,
    ) by {
        lemma_round_union_card(s, np, gsize, r, gps);
        let u = round_union(s, r, gps);
        assert(u.len() == gps * gsize);
        vstd::set_lib::lemma_int_range(0, np);
        assert(u.subset_of(vstd::set_lib::set_int_range(0, np))) by {
            assert forall|p2: int| u.contains(p2) implies vstd::set_lib::set_int_range(
                0,
                np,
            ).contains(p2) by {
                let g0 = choose|g: int| 0 <= g < gps && #[trigger] sched_group_set(
                    s,
                    r,
                    g,
                ).contains(p2);
                let k = choose|k: int|
                    0 <= k < s@[r]@[g0]@.len() && (#[trigger] s@[r]@[g0]@[k]) as int == p2;
                assert(s@[r]@[g0]@[k] < np);
            }
        }
        lemma_subset_same_len(u, vstd::set_lib::set_int_range(0, np));
        assert(u.contains(p));
    }
}

/// A prefix sum of member counts is unchanged when every listed group keeps
/// its member set.
proof fn lemma_group_total_same(g0: Groups, g1: Groups, gs: Seq<HGroup>, k: int)
    requires
        0 <= k <= gs.len(),
        forall|j: int|
            0 <= j < gs.len() ==> g1.members_of((#[trigger] gs[j])@) == g0.members_of(gs[j]@),
    ensures
        crate::round::group_total_prefix(g1, gs, k) == crate::round::group_total_prefix(g0, gs, k),
    decreases k,
{
    if k > 0 {
        lemma_group_total_same(g0, g1, gs, k - 1);
    }
}

/// When exactly one listed group changes its member count, by `d`, the prefix
/// sums follow it.
proof fn lemma_group_total_one_change(
    g0: Groups,
    g1: Groups,
    gs: Seq<HGroup>,
    k: int,
    j: int,
    d: int,
)
    requires
        0 <= k <= gs.len(),
        0 <= j < gs.len(),
        forall|j2: int|
            0 <= j2 < gs.len() && j2 != j ==> g1.members_of((#[trigger] gs[j2])@) == g0.members_of(
                gs[j2]@,
            ),
        g1.members_of(gs[j]@).len() as int == g0.members_of(gs[j]@).len() + d,
    ensures
        crate::round::group_total_prefix(g1, gs, k) as int == crate::round::group_total_prefix(
            g0,
            gs,
            k,
        ) as int + (if j < k {
            d
        } else {
            0
        }),
    decreases k,
{
    if k > 0 {
        lemma_group_total_one_change(g0, g1, gs, k - 1, j, d);
    }
}

/// When exactly two listed groups change their member counts, by `d1` and
/// `d2`, the prefix sums follow them.
proof fn lemma_group_total_two_changes(
    g0: Groups,
    g1: Groups,
    gs: Seq<HGroup>,
    k: int,
    j1: int,
    j2: int,
    d1: int,
    d2: int,
)
    requires
        0 <= k <= gs.len(),
        0 <= j1 < gs.len(),
        0 <= j2 < gs.len(),
        j1 != j2,
        forall|j: int|
            0 <= j < gs.len() && j != j1 && j != j2 ==> g1.members_of((#[trigger] gs[j])@)
                == g0.members_of(gs[j]@),
        g1.members_of(gs[j1]@).len() as int == g0.members_of(gs[j1]@).len() + d1,
        g1.members_of(gs[j2]@).len() as int == g0.members_of(gs[j2]@).len() + d2,
    ensures
        crate::round::group_total_prefix(g1, gs, k) as int == crate::round::group_total_prefix(
            g0,
            gs,
            k,
        ) as int + (if j1 < k {
            d1
        } else {
            0
        }) + (if j2 < k {
            d2
        } else {
            0
        }),
    decreases k,
{
    if k > 0 {
        lemma_group_total_two_changes(g0, g1, gs, k - 1, j1, j2, d1, d2);
    }
}

/// A prefix of empty groups holds no members at all.
proof fn lemma_group_total_zero(groups: Groups, gs: Seq<HGroup>, k: int)
    requires
        0 <= k <= gs.len(),
        forall|j: int|
            0 <= j < gs.len() ==> groups.members_of((#[trigger] gs[j])@).len() == 0,
    ensures
        crate::round::group_total_prefix(groups, gs, k) == 0,
    decreases k,
{
    if k > 0 {
        lemma_group_total_zero(groups, gs, k - 1);
        assert(groups.members_of(gs[k - 1]@).len() == 0);
    }
}

/// If every listed group holds at least `gsize` members, a prefix of `k`
/// groups holds at least `k * gsize` members in all.
proof fn lemma_group_total_lower(groups: Groups, gs: Seq<HGroup>, k: int, gsize: int)
    requires
        0 <= k <= gs.len(),
        0 <= gsize,
        forall|j: int|
            0 <= j < gs.len() ==> groups.members_of((#[trigger] gs[j])@).len() >= gsize,
    ensures
        crate::round::group_total_prefix(groups, gs, k) >= k * gsize,
    decreases k,
{
    if k > 0 {
        lemma_group_total_lower(groups, gs, k - 1, gsize);
        assert(groups.members_of(gs[k - 1]@).len() >= gsize);
        assert((k - 1) * gsize + gsize == k * gsize) by (nonlinear_arith);
    } else {
        assert(k * gsize == 0) by (nonlinear_arith)
            requires
                k == 0,
        ;
    }
}

/// A freshly reset state is well formed: nobody is grouped, nobody is
/// acquainted, every group is empty.
proof fn lemma_wf_clean(parts: Participants, groups: Groups)
    requires
        parts.spec_count() <= 128,
        forall|p: int| parts.valid(p) ==> #[trigger] parts.acq_of(p) == Set::<int>::empty(),
        forall|p: int|
            parts.valid(p) ==> #[trigger] parts.group_of(p) == crate::group::null_group_idx(),
        forall|g: int| groups.valid(g) ==> #[trigger] groups.members_of(g) == Set::<int>::empty(),
    ensures
        registries_wf(parts, groups),
{
    assert forall|p: int| parts.valid(p) implies (#[trigger] parts.acq_of(p)).finite()
        && !parts.acq_of(p).contains(p) by {
        assert(parts.acq_of(p) == Set::<int>::empty());
    }
    assert forall|p: int, q: int|
        parts.valid(p) && (#[trigger] parts.acq_of(p).contains(q)) implies false by {
        assert(parts.acq_of(p) == Set::<int>::empty());
    }
    assert forall|p: int, q: int|
        parts.valid(p) && parts.valid(q) implies ((#[trigger] parts.acq_of(p).contains(q))
        <==> parts.acq_of(q).contains(p)) by {
        assert(parts.acq_of(p) == Set::<int>::empty());
        assert(parts.acq_of(q) == Set::<int>::empty());
    }
    assert forall|g: int| groups.valid(g) implies (#[trigger] groups.members_of(g)).finite()
        && groups.members_of(g).len() <= groups.size_of(g) by {
        assert(groups.members_of(g) == Set::<int>::empty());
    }
    assert forall|g: int, p: int|
        groups.valid(g) && (#[trigger] groups.members_of(g).contains(p)) implies false by {
        assert(groups.members_of(g) == Set::<int>::empty());
    }
}

/// Clearing every recorded group keeps the registries well formed.
proof fn lemma_wf_after_ungroup(p0: Participants, p1: Participants, groups: Groups)
    requires
        registries_wf(p0, groups),
        p1.spec_count() == p0.spec_count(),
        forall|p: int| p0.valid(p) ==> #[trigger] p1.acq_of(p) == p0.acq_of(p),
        forall|p: int|
            p0.valid(p) ==> #[trigger] p1.group_of(p) == crate::group::null_group_idx(),
    ensures
        registries_wf(p1, groups),
{
    assert forall|p: int| p1.valid(p) implies (#[trigger] p1.acq_of(p)).finite() && !p1.acq_of(
        p,
    ).contains(p) by {
        assert(p1.acq_of(p) == p0.acq_of(p));
    }
    assert forall|p: int, q: int|
        p1.valid(p) && (#[trigger] p1.acq_of(p).contains(q)) implies p1.valid(q) by {
        assert(p1.acq_of(p) == p0.acq_of(p));
    }
    assert forall|p: int, q: int|
        p1.valid(p) && p1.valid(q) implies ((#[trigger] p1.acq_of(p).contains(q)) <==> p1.acq_of(
        q,
    ).contains(p)) by {
        assert(p1.acq_of(p) == p0.acq_of(p));
        assert(p1.acq_of(q) == p0.acq_of(q));
    }
    assert forall|g: int, p: int, q: int|
        #![trigger groups.members_of(g).contains(p), groups.members_of(g).contains(q)]
        groups.valid(g) && groups.members_of(g).contains(p) && groups.members_of(g).contains(q)
            && p != q implies p1.acq_of(p).contains(q) by {
        assert(p0.acq_of(p).contains(q));
        assert(p1.acq_of(p) == p0.acq_of(p));
    }
}

/// A membership change confined to two groups of one round's list, which
/// moves at most two participants between exactly those two groups, keeps
/// every round's slice assignment and disjointness intact.
proof fn lemma_confined_keeps_structure(
    rounds: Rounds,
    g0: Groups,
    g1: Groups,
    nr: int,
    gps: int,
    rt: int,
    hg: int,
    hog: int,
    m1: int,
    m2: int,
)
    requires
        0 <= rt < nr,
        1 <= gps,
        g0.spec_count() == nr * gps,
        slices_structured(rounds, g0, nr, gps),
        all_rounds_wf(rounds, g0, nr),
        g1.spec_count() == g0.spec_count(),
        exists|k: int|
            0 <= k < rounds.groups_of(rt).len() && (#[trigger] rounds.groups_of(rt)[k])@ == hg,
        exists|k: int|
            0 <= k < rounds.groups_of(rt).len() && (#[trigger] rounds.groups_of(rt)[k])@ == hog,
        hg != hog,
        g0.valid(hg),
        g0.valid(hog),
        forall|g: int|
            g0.valid(g) && g != hg && g != hog ==> #[trigger] g1.members_of(g) == g0.members_of(g),
        forall|p: int|
            p != m1 && p != m2 ==> ((#[trigger] g1.members_of(hg).contains(p))
                <==> g0.members_of(hg).contains(p)),
        forall|p: int|
            p != m1 && p != m2 ==> ((#[trigger] g1.members_of(hog).contains(p))
                <==> g0.members_of(hog).contains(p)),
        g0.members_of(hg).contains(m1),
        !g1.members_of(hg).contains(m1),
        g1.members_of(hog).contains(m1),
        m2 == m1 || (g0.members_of(hog).contains(m2) && !g1.members_of(hog).contains(m2)
            && g1.members_of(hg).contains(m2) && !g0.members_of(hg).contains(m2)),
    ensures
        slices_structured(rounds, g1, nr, gps),
        all_rounds_wf(rounds, g1, nr),
{
    let gsrt = rounds.groups_of(rt);
    let k1 = choose|k: int| 0 <= k < gsrt.len() && (#[trigger] gsrt[k])@ == hg;
    let k2 = choose|k: int| 0 <= k < gsrt.len() && (#[trigger] gsrt[k])@ == hog;
    assert(gsrt.len() == gps);
    assert(hg == rt * gps + k1);
    assert(hog == rt * gps + k2);
    assert forall|r: int|
        #![trigger rounds.groups_of(r)]
        0 <= r < nr implies {
        let gs = rounds.groups_of(r);
        ||| (gs.len() == gps && (forall|k: int|
            0 <= k < gs.len() ==> (#[trigger] gs[k])@ == r * gps + k))
        ||| (gs.len() == 0 && (forall|g: int|
            r * gps <= g < (r + 1) * gps ==> #[trigger] g1.members_of(g) == Set::<int>::empty()))
    } by {
        let gs = rounds.groups_of(r);
        if gs.len() == 0 {
            assert(r != rt);
            assert forall|g: int| r * gps <= g < (r + 1) * gps implies #[trigger] g1.members_of(g)
                == Set::<int>::empty() by {
                assert(g != rt * gps + k1 && g != rt * gps + k2) by (nonlinear_arith)
                    requires
                        r != rt,
                        0 <= k1 < gps,
                        0 <= k2 < gps,
                        r * gps <= g < (r + 1) * gps,
                        0 <= r,
                        0 <= rt,
                        1 <= gps,
                ;
                assert(g != hg && g != hog);
                assert(0 <= g < g0.spec_count()) by (nonlinear_arith)
                    requires
                        r * gps <= g < (r + 1) * gps,
                        0 <= r < nr,
                        1 <= gps,
                        g0.spec_count() == nr * gps,
                ;
                assert(g1.members_of(g) == g0.members_of(g));
            }
        }
    }
    assert forall|r: int| 0 <= r < nr implies round_wf(
        g1,
        #[trigger] rounds.groups_of(r),
    ) by {
        let gs = rounds.groups_of(r);
        assert(round_wf(g0, gs));
        assert forall|k: int| 0 <= k < gs.len() implies g1.valid(#[trigger] gs[k]@) by {
            assert(g0.valid(gs[k]@));
        }
        if r != rt {
            assert forall|ka: int, kb: int, p: int|
                #![trigger g1.members_of(gs[ka]@).contains(p), g1.members_of(gs[kb]@).contains(p)]
                0 <= ka < gs.len() && 0 <= kb < gs.len() && ka != kb implies !(g1.members_of(
                gs[ka]@,
            ).contains(p) && g1.members_of(gs[kb]@).contains(p)) by {
                assert(gs.len() == gps);
                assert(gs[ka]@ == r * gps + ka && gs[kb]@ == r * gps + kb);
                assert(r * gps + ka != rt * gps + k1 && r * gps + ka != rt * gps + k2 && r * gps
                    + kb != rt * gps + k1 && r * gps + kb != rt * gps + k2) by (nonlinear_arith)
                    requires
                        r != rt,
                        0 <= k1 < gps,
                        0 <= k2 < gps,
                        0 <= ka < gps,
                        0 <= kb < gps,
                        0 <= r,
                        0 <= rt,
                        1 <= gps,
                ;
                assert(gs[ka]@ != hg && gs[ka]@ != hog);
                assert(gs[kb]@ != hg && gs[kb]@ != hog);
                assert(g1.members_of(gs[ka]@) == g0.members_of(gs[ka]@));
                assert(g1.members_of(gs[kb]@) == g0.members_of(gs[kb]@));
            }
        } else {
            assert forall|ka: int, kb: int, p: int|
                #![trigger g1.members_of(gs[ka]@).contains(p), g1.members_of(gs[kb]@).contains(p)]
                0 <= ka < gs.len() && 0 <= kb < gs.len() && ka != kb implies !(g1.members_of(
                gs[ka]@,
            ).contains(p) && g1.members_of(gs[kb]@).contains(p)) by {
                if g1.members_of(gs[ka]@).contains(p) && g1.members_of(gs[kb]@).contains(p) {
                    assert(gs[ka]@ != gs[kb]@);
                    lemma_confined_one(rounds, g0, g1, nr, gps, rt, hg, hog, m1, m2, ka, p);
                    lemma_confined_one(rounds, g0, g1, nr, gps, rt, hg, hog, m1, m2, kb, p);
                    if p != m1 && p != m2 {
                        assert(g0.members_of(gs[ka]@).contains(p) && g0.members_of(
                            gs[kb]@,
                        ).contains(p));
                        assert(false);
                    } else if p == m1 {
                        assert(gs[ka]@ == hog && gs[kb]@ == hog);
                        assert(false);
                    } else {
                        assert(gs[ka]@ == hg && gs[kb]@ == hg);
                        assert(false);
                    }
                }
            }
        }
    }
}

/// Where one of the moved participants can sit after a confined change: the
/// first mover only in `hog`, the second only in `hg`; everybody else sits
/// where they sat.
proof fn lemma_confined_one(
    rounds: Rounds,
    g0: Groups,
    g1: Groups,
    nr: int,
    gps: int,
    rt: int,
    hg: int,
    hog: int,
    m1: int,
    m2: int,
    ka: int,
    p: int,
)
    requires
        0 <= rt < nr,
        1 <= gps,
        slices_structured(rounds, g0, nr, gps),
        all_rounds_wf(rounds, g0, nr),
        g1.spec_count() == g0.spec_count(),
        exists|k: int|
            0 <= k < rounds.groups_of(rt).len() && (#[trigger] rounds.groups_of(rt)[k])@ == hg,
        exists|k: int|
            0 <= k < rounds.groups_of(rt).len() && (#[trigger] rounds.groups_of(rt)[k])@ == hog,
        hg != hog,
        g0.valid(hg),
        g0.valid(hog),
        forall|g: int|
            g0.valid(g) && g != hg && g != hog ==> #[trigger] g1.members_of(g) == g0.members_of(g),
        forall|p2: int|
            p2 != m1 && p2 != m2 ==> ((#[trigger] g1.members_of(hg).contains(p2))
                <==> g0.members_of(hg).contains(p2)),
        forall|p2: int|
            p2 != m1 && p2 != m2 ==> ((#[trigger] g1.members_of(hog).contains(p2))
                <==> g0.members_of(hog).contains(p2)),
        g0.members_of(hg).contains(m1),
        !g1.members_of(hg).contains(m1),
        g1.members_of(hog).contains(m1),
        m2 == m1 || (g0.members_of(hog).contains(m2) && !g1.members_of(hog).contains(m2)
            && g1.members_of(hg).contains(m2) && !g0.members_of(hg).contains(m2)),
        0 <= ka < rounds.groups_of(rt).len(),
        g1.members_of(rounds.groups_of(rt)[ka]@).contains(p),
    ensures
        p != m1 && p != m2 ==> g0.members_of(rounds.groups_of(rt)[ka]@).contains(p),
        p == m1 ==> rounds.groups_of(rt)[ka]@ == hog,
        p == m2 && m2 != m1 ==> rounds.groups_of(rt)[ka]@ == hg,
{
    let gs = rounds.groups_of(rt);
    let ga = gs[ka]@;
    let khg = choose|k: int| 0 <= k < gs.len() && (#[trigger] gs[k])@ == hg;
    let khog = choose|k: int| 0 <= k < gs.len() && (#[trigger] gs[k])@ == hog;
    assert(round_wf(g0, gs));
    if p != m1 && p != m2 {
        if ga != hg && ga != hog {
            assert(g1.members_of(ga) == g0.members_of(ga));
        }
    } else if p == m1 {
        if ga != hog {
            if ga == hg {
                assert(false);
            } else {
                assert(g1.members_of(ga) == g0.members_of(ga));
                assert(g0.members_of(ga).contains(m1));
                // m1 sat in hg before, so it sat nowhere else in this round
                assert(g0.members_of(gs[khg]@).contains(m1));
                assert(g0.members_of(gs[ka]@).contains(m1));
                assert(ka == khg);
                assert(false);
            }
        }
    } else {
        if ga != hg {
            if ga == hog {
                assert(false);
            } else {
                assert(g1.members_of(ga) == g0.members_of(ga));
                assert(g0.members_of(ga).contains(m2));
                assert(g0.members_of(gs[khog]@).contains(m2));
                assert(g0.members_of(gs[ka]@).contains(m2));
                assert(ka == khog);
                assert(false);
            }
        }
    }
}

/// Placing a not-yet-handled participant into a group of the round being
/// filled keeps every round's slice assignment, disjointness, and the rule
/// that only handled participants occupy the current round.
proof fn lemma_join_keeps_structure(
    rounds: Rounds,
    g0: Groups,
    g1: Groups,
    nr: int,
    gps: int,
    round_i: int,
    hg: int,
    hp: int,
    ha: Seq<HParticipant>,
    i: int,
)
    requires
        0 <= round_i < nr,
        1 <= gps,
        g0.spec_count() == nr * gps,
        slices_structured(rounds, g0, nr, gps),
        all_rounds_wf(rounds, g0, nr),
        prefix_placed(rounds, g0, round_i, ha, i),
        0 <= i < ha.len(),
        ha[i]@ == hp,
        !in_prefix(ha, i, hp),
        exists|k: int|
            0 <= k < rounds.groups_of(round_i).len() && (#[trigger] rounds.groups_of(
                round_i,
            )[k])@ == hg,
        g0.valid(hg),
        g1.spec_count() == g0.spec_count(),
        g1.members_of(hg) == g0.members_of(hg).insert(hp),
        forall|g: int|
            g0.valid(g) && g != hg ==> #[trigger] g1.members_of(g) == g0.members_of(g),
    ensures
        slices_structured(rounds, g1, nr, gps),
        all_rounds_wf(rounds, g1, nr),
        prefix_placed(rounds, g1, round_i, ha, i + 1),
{
    let gsc = rounds.groups_of(round_i);
    let kh = choose|k: int| 0 <= k < gsc.len() && (#[trigger] gsc[k])@ == hg;
    assert(gsc.len() == gps);
    assert(hg == round_i * gps + kh);
    assert forall|r: int|
        #![trigger rounds.groups_of(r)]
        0 <= r < nr implies {
        let gs = rounds.groups_of(r);
        ||| (gs.len() == gps && (forall|k: int|
            0 <= k < gs.len() ==> (#[trigger] gs[k])@ == r * gps + k))
        ||| (gs.len() == 0 && (forall|g: int|
            r * gps <= g < (r + 1) * gps ==> #[trigger] g1.members_of(g) == Set::<int>::empty()))
    } by {
        let gs = rounds.groups_of(r);
        if gs.len() == 0 {
            assert(r != round_i);
            assert forall|g: int| r * gps <= g < (r + 1) * gps implies #[trigger] g1.members_of(g)
                == Set::<int>::empty() by {
                assert(g != round_i * gps + kh) by (nonlinear_arith)
                    requires
                        r != round_i,
                        0 <= kh < gps,
                        r * gps <= g < (r + 1) * gps,
                        0 <= r,
                        0 <= round_i,
                        1 <= gps,
                ;
                assert(0 <= g < g0.spec_count()) by (nonlinear_arith)
                    requires
                        r * gps <= g < (r + 1) * gps,
                        0 <= r < nr,
                        1 <= gps,
                        g0.spec_count() == nr * gps,
                ;
                assert(g1.members_of(g) == g0.members_of(g));
            }
        }
    }
    assert forall|r: int| 0 <= r < nr implies round_wf(g1, #[trigger] rounds.groups_of(r)) by {
        let gs = rounds.groups_of(r);
        assert(round_wf(g0, gs));
        assert forall|k: int| 0 <= k < gs.len() implies g1.valid(#[trigger] gs[k]@) by {
            assert(g0.valid(gs[k]@));
        }
        assert forall|ka: int, kb: int, p: int|
            #![trigger g1.members_of(gs[ka]@).contains(p), g1.members_of(gs[kb]@).contains(p)]
            0 <= ka < gs.len() && 0 <= kb < gs.len() && ka != kb implies !(g1.members_of(
            gs[ka]@,
        ).contains(p) && g1.members_of(gs[kb]@).contains(p)) by {
            if g1.members_of(gs[ka]@).contains(p) && g1.members_of(gs[kb]@).contains(p) {
                if r != round_i {
                    assert(gs.len() == gps);
                    assert(gs[ka]@ == r * gps + ka && gs[kb]@ == r * gps + kb);
                    assert(r * gps + ka != round_i * gps + kh && r * gps + kb != round_i * gps
                        + kh) by (nonlinear_arith)
                        requires
                            r != round_i,
                            0 <= kh < gps,
                            0 <= ka < gps,
                            0 <= kb < gps,
                            0 <= r,
                            0 <= round_i,
                            1 <= gps,
                    ;
                    assert(g1.members_of(gs[ka]@) == g0.members_of(gs[ka]@));
                    assert(g1.members_of(gs[kb]@) == g0.members_of(gs[kb]@));
                    assert(false);
                } else {
                    // within the current round: the only new member is hp, and
                    // hp was in no group of the round before
                    if p == hp {
                        if gs[ka]@ != hg {
                            assert(g1.members_of(gs[ka]@) == g0.members_of(gs[ka]@));
                            assert(g0.members_of(gs[ka]@).contains(hp));
                            assert(in_prefix(ha, i, hp));
                            assert(false);
                        }
                        if gs[kb]@ != hg {
                            assert(g1.members_of(gs[kb]@) == g0.members_of(gs[kb]@));
                            assert(g0.members_of(gs[kb]@).contains(hp));
                            assert(in_prefix(ha, i, hp));
                            assert(false);
                        }
                        assert(gs[ka]@ == hg && gs[kb]@ == hg);
                        assert(gs.len() == gps);
                        assert(gs[ka]@ == r * gps + ka && gs[kb]@ == r * gps + kb);
                        assert(false);
                    } else {
                        if gs[ka]@ == hg {
                            assert(g0.members_of(gs[ka]@).contains(p));
                        } else {
                            assert(g1.members_of(gs[ka]@) == g0.members_of(gs[ka]@));
                        }
                        if gs[kb]@ == hg {
                            assert(g0.members_of(gs[kb]@).contains(p));
                        } else {
                            assert(g1.members_of(gs[kb]@) == g0.members_of(gs[kb]@));
                        }
                        assert(false);
                    }
                }
            }
        }
    }
    assert forall|k: int, p: int|
        #![trigger g1.members_of(rounds.groups_of(round_i)[k]@).contains(p)]
        0 <= k < rounds.groups_of(round_i).len() && g1.members_of(
            rounds.groups_of(round_i)[k]@,
        ).contains(p) implies in_prefix(ha, i + 1, p) by {
        if p == hp {
            assert(ha[i]@ == p);
            assert(in_prefix(ha, i + 1, p));
        } else {
            if gsc[k]@ == hg {
                assert(g0.members_of(gsc[k]@).contains(p));
            } else {
                assert(g1.members_of(gsc[k]@) == g0.members_of(gsc[k]@));
            }
            assert(in_prefix(ha, i, p));
            let x = choose|x: int| 0 <= x < i && (#[trigger] ha[x])@ == p;
            assert(0 <= x < i + 1 && ha[x]@ == p);
        }
    }
}

/// A permutation of a list of distinct, in-range participant handles is
/// again a list of distinct, in-range participant handles.
proof fn lemma_shuffle_keeps_bounds(v0: Seq<HParticipant>, v1: Seq<HParticipant>, n: int)
    requires
        v1.to_multiset() == v0.to_multiset(),
        v1.len() == v0.len(),
        forall|x: int| 0 <= x < v0.len() ==> 0 <= (#[trigger] v0[x])@ < n,
    ensures
        forall|x: int| 0 <= x < v1.len() ==> 0 <= (#[trigger] v1[x])@ < n,
{
    broadcast use vstd::seq_lib::group_to_multiset_ensures;

    assert forall|x: int| 0 <= x < v1.len() implies 0 <= (#[trigger] v1[x])@ < n by {
        assert(v1.contains(v1[x]));
        assert(v1.to_multiset().count(v1[x]) > 0);
        assert(v0.contains(v1[x]));
        let y = choose|y: int| 0 <= y < v0.len() && v0[y] == v1[x];
        assert(0 <= v0[y]@ < n);
    }
}

/// A permutation of a list of distinct participant handles is again a list of
/// distinct participant handles.
proof fn lemma_shuffle_keeps_handles(v0: Seq<HParticipant>, v1: Seq<HParticipant>, n: int)
    requires
        v1.to_multiset() == v0.to_multiset(),
        v1.len() == v0.len(),
        forall|x: int| 0 <= x < v0.len() ==> 0 <= (#[trigger] v0[x])@ < n,
        forall|x: int, y: int|
            #![trigger v0[x], v0[y]]
            0 <= x < y < v0.len() ==> v0[x]@ != v0[y]@,
    ensures
        forall|x: int| 0 <= x < v1.len() ==> 0 <= (#[trigger] v1[x])@ < n,
        forall|x: int, y: int|
            #![trigger v1[x], v1[y]]
            0 <= x < y < v1.len() ==> v1[x]@ != v1[y]@,
{
    broadcast use vstd::seq_lib::group_to_multiset_ensures;

    lemma_shuffle_keeps_bounds(v0, v1, n);
    assert(v0.no_duplicates()) by {
        assert forall|i: int, j: int|
            0 <= i < v0.len() && 0 <= j < v0.len() && i != j implies v0[i] != v0[j] by {
            if i < j {
                assert(v0[i]@ != v0[j]@);
            } else {
                assert(v0[j]@ != v0[i]@);
            }
        }
    }
    v0.lemma_multiset_has_no_duplicates();
    v1.lemma_multiset_has_no_duplicates_conv();
    assert forall|x: int, y: int|
        #![trigger v1[x], v1[y]]
        0 <= x < y < v1.len() implies v1[x]@ != v1[y]@ by {
        assert(v1[x] != v1[y]);
    }
}

/// A faithful snapshot of well-formed registries is a valid schedule.
proof fn lemma_snapshot_valid(s: Vec<Vec<Vec<usize>>>, slf: Solver)
    requires
        snapshot_matches(s, slf.groups, slf.rounds, slf.n_rounds as int),
        slf.inv(),
    ensures
        valid_schedule(s, slf.n_participants as int, slf.group_size as int),
        forall|r: int| 0 <= r < s@.len() ==> (#[trigger] s@[r])@.len() <= slf.n_groups_per_round,
        s@.len() == slf.n_rounds,
{
    let gps = slf.n_groups_per_round as int;
    let nr = slf.n_rounds as int;
    assert forall|r: int| 0 <= r < s@.len() implies (#[trigger] s@[r])@.len() <= gps by {
        assert(row_matches(s@[r], slf.groups, slf.rounds, r));
        assert(slf.rounds.groups_of(r).len() == 0 || slf.rounds.groups_of(r).len() == gps);
    }
    assert forall|r: int, g: int|
        0 <= r < s@.len() && 0 <= g < s@[r]@.len() implies (#[trigger] s@[r]@[g])@.len()
        <= slf.group_size as int by {
        assert(row_matches(s@[r], slf.groups, slf.rounds, r));
        let gi = slf.rounds.groups_of(r)[g]@;
        assert(grp_matches(s@[r]@[g], slf.groups, gi));
        assert(round_wf(slf.groups, slf.rounds.groups_of(r)));
        assert(slf.groups.valid(gi));
        assert(slf.groups.members_of(gi).len() <= slf.groups.size_of(gi));
        assert(slf.groups.size_of(gi) == slf.group_size);
    }
    assert forall|r: int, g: int, k: int|
        0 <= r < s@.len() && 0 <= g < s@[r]@.len() && 0 <= k < s@[r]@[g]@.len() implies (
    #[trigger] s@[r]@[g]@[k]) < slf.n_participants as int by {
        assert(row_matches(s@[r], slf.groups, slf.rounds, r));
        let gi = slf.rounds.groups_of(r)[g]@;
        assert(grp_matches(s@[r]@[g], slf.groups, gi));
        assert(round_wf(slf.groups, slf.rounds.groups_of(r)));
        assert(slf.groups.valid(gi));
        assert(slf.groups.members_of(gi).contains(s@[r]@[g]@[k] as int));
        assert(slf.parts.valid(s@[r]@[g]@[k] as int));
    }
    assert forall|r: int, g: int, k1: int, k2: int|
        0 <= r < s@.len() && 0 <= g < s@[r]@.len() && 0 <= k1 < k2 < s@[r]@[g]@.len() implies (
    s@[r]@[g]@[k1]) < (s@[r]@[g]@[k2]) by {
        assert(row_matches(s@[r], slf.groups, slf.rounds, r));
        assert(grp_matches(s@[r]@[g], slf.groups, slf.rounds.groups_of(r)[g]@));
    }
    assert forall|r: int, g1: int, g2: int, p: int|
        0 <= r < s@.len() && 0 <= g1 < s@[r]@.len() && 0 <= g2 < s@[r]@.len() && g1 != g2 implies !(
    sched_group_set(s, r, g1).contains(p) && sched_group_set(s, r, g2).contains(p)) by {
        lemma_sched_set(s, slf.groups, slf.rounds, nr, r, g1);
        lemma_sched_set(s, slf.groups, slf.rounds, nr, r, g2);
        assert(row_matches(s@[r], slf.groups, slf.rounds, r));
        assert(round_wf(slf.groups, slf.rounds.groups_of(r)));
        let gs = slf.rounds.groups_of(r);
        if sched_group_set(s, r, g1).contains(p) && sched_group_set(s, r, g2).contains(p) {
            assert(slf.groups.members_of(gs[g1]@).contains(p) && slf.groups.members_of(
                gs[g2]@,
            ).contains(p));
            assert(false);
        }
    }
    assert forall|r1: int, g1: int, r2: int, g2: int, a: int, b: int|
        0 <= r1 < s@.len() && 0 <= g1 < s@[r1]@.len() && 0 <= r2 < s@.len() && 0 <= g2
            < s@[r2]@.len() && (r1 != r2 || g1 != g2) && #[trigger] sched_group_set(
            s,
            r1,
            g1,
        ).contains(a) && sched_group_set(s, r1, g1).contains(b) && sched_group_set(
            s,
            r2,
            g2,
        ).contains(a) && #[trigger] sched_group_set(s, r2, g2).contains(b) implies a == b by {
        lemma_sched_set(s, slf.groups, slf.rounds, nr, r1, g1);
        lemma_sched_set(s, slf.groups, slf.rounds, nr, r2, g2);
        assert(row_matches(s@[r1], slf.groups, slf.rounds, r1));
        assert(row_matches(s@[r2], slf.groups, slf.rounds, r2));
        let ga = slf.rounds.groups_of(r1)[g1]@;
        let gb = slf.rounds.groups_of(r2)[g2]@;
        assert(round_wf(slf.groups, slf.rounds.groups_of(r1)));
        assert(round_wf(slf.groups, slf.rounds.groups_of(r2)));
        assert(slf.groups.valid(ga) && slf.groups.valid(gb));
        if r1 == r2 {
            if g1 != g2 {
                assert(slf.groups.members_of(ga).contains(a) && slf.groups.members_of(
                    gb,
                ).contains(a));
                assert(false);
            }
        } else {
            // distinct rounds use distinct slices of the group arena
            assert(slf.rounds.groups_of(r1).len() == slf.n_groups_per_round);
            assert(slf.rounds.groups_of(r2).len() == slf.n_groups_per_round);
            assert(ga == r1 * gps + g1);
            assert(gb == r2 * gps + g2);
            assert(ga != gb) by (nonlinear_arith)
                requires
                    r1 != r2,
                    0 <= g1 < gps,
                    0 <= g2 < gps,
                    ga == r1 * gps + g1,
                    gb == r2 * gps + g2,
            ;
            assert(slf.groups.members_of(ga).contains(a) && slf.groups.members_of(ga).contains(b));
            assert(slf.groups.members_of(gb).contains(a) && slf.groups.members_of(gb).contains(b));
        }
    }
}

/// The extracted totals agree with the registries' totals, group by group.
proof fn lemma_group_totals_match(
    s: Vec<Vec<Vec<usize>>>,
    groups: Groups,
    rounds: Rounds,
    nr: int,
    r: int,
    k: int,
)
    requires
        snapshot_matches(s, groups, rounds, nr),
        0 <= r < s@.len(),
        0 <= k <= s@[r]@.len(),
    ensures
        sched_group_total(s, r, k) == crate::round::group_total_prefix(
            groups,
            rounds.groups_of(r),
            k,
        ),
    decreases k,
{
    assert(row_matches(s@[r], groups, rounds, r));
    if k > 0 {
        lemma_group_totals_match(s, groups, rounds, nr, r, k - 1);
        assert(grp_matches(s@[r]@[k - 1], groups, rounds.groups_of(r)[k - 1]@));
    }
}

/// The extracted totals agree with the registries' totals, round by round.
proof fn lemma_round_totals_match(
    s: Vec<Vec<Vec<usize>>>,
    groups: Groups,
    rounds: Rounds,
    hrs: Seq<HRound>,
    nr: int,
    k: int,
)
    requires
        snapshot_matches(s, groups, rounds, nr),
        hrs.len() == nr,
        forall|j: int| 0 <= j < nr ==> (#[trigger] hrs[j])@ == j,
        0 <= k <= nr,
    ensures
        sched_total_prefix(s, k) == rounds.total_prefix(hrs, groups, k),
    decreases k,
{
    if k > 0 {
        lemma_round_totals_match(s, groups, rounds, hrs, nr, k - 1);
        assert(row_matches(s@[k - 1], groups, rounds, k - 1));
        lemma_group_totals_match(s, groups, rounds, nr, k - 1, s@[k - 1]@.len() as int);
        assert(hrs[k - 1]@ == k - 1);
    }
}

/// A prefix of groups whose member counts are bounded sums to no more than
/// the bound times the prefix length.
proof fn lemma_group_total_bound(groups: Groups, gs: Seq<HGroup>, k: int, cap: int)
    requires
        0 <= k <= gs.len(),
        0 <= cap,
        forall|j: int| 0 <= j < gs.len() ==> groups.members_of((#[trigger] gs[j])@).len() <= cap,
    ensures
        crate::round::group_total_prefix(groups, gs, k) <= k * cap,
    decreases k,
{
    if k > 0 {
        lemma_group_total_bound(groups, gs, k - 1, cap);
        assert((k - 1) * cap + cap == k * cap) by (nonlinear_arith);
    }
}

/// The total number of placements across any prefix of the rounds is at most
/// the population size per round.
proof fn lemma_rounds_total_bound(slf: Solver, k: int)
    requires
        slf.inv(),
        0 <= k <= slf.n_rounds,
    ensures
        slf.rounds.total_prefix(slf.hrounds@, slf.groups, k) <= k * (slf.n_participants as int),
    decreases k,
{
    if k > 0 {
        lemma_rounds_total_bound(slf, k - 1);
        let r = k - 1;
        assert(slf.hrounds@[r]@ == r);
        let gs = slf.rounds.groups_of(r);
        assert(round_wf(slf.groups, gs));
        assert forall|j: int| 0 <= j < gs.len() implies slf.groups.members_of(
            (#[trigger] gs[j])@,
        ).len() <= slf.group_size as int by {
            assert(slf.groups.valid(gs[j]@));
            assert(slf.groups.members_of(gs[j]@).len() <= slf.groups.size_of(gs[j]@));
            assert(slf.groups.size_of(gs[j]@) == slf.group_size);
        }
        lemma_group_total_bound(slf.groups, gs, gs.len() as int, slf.group_size as int);
        assert(gs.len() == 0 || gs.len() == slf.n_groups_per_round);
        assert(gs.len() * (slf.group_size as int) <= slf.n_participants as int)
            by (nonlinear_arith)
            requires
                gs.len() == 0 || gs.len() == slf.n_groups_per_round as int,
                (slf.group_size as int) * (slf.n_groups_per_round as int)
                    == slf.n_participants as int,
                0 <= slf.group_size as int,
        ;
        assert((k - 1) * (slf.n_participants as int) + (slf.n_participants as int) == k * (
        slf.n_participants as int)) by (nonlinear_arith);
    }
}

/// One schedule round with bounded group sizes sums to no more than the
/// bound times the group count.
proof fn lemma_sched_group_bound(s: Vec<Vec<Vec<usize>>>, r: int, k: int, gsize: int)
    requires
        0 <= r < s@.len(),
        0 <= k <= s@[r]@.len(),
        0 <= gsize,
        forall|g: int| 0 <= g < s@[r]@.len() ==> (#[trigger] s@[r]@[g])@.len() <= gsize,
    ensures
        sched_group_total(s, r, k) <= k * gsize,
    decreases k,
{
    if k > 0 {
        lemma_sched_group_bound(s, r, k - 1, gsize);
        assert((k - 1) * gsize + gsize == k * gsize) by (nonlinear_arith);
    }
}

/// A schedule whose rounds hold at most `gps` groups of at most `gsize`
/// members records at most `gps * gsize` placements per round.
proof fn lemma_sched_total_bound(s: Vec<Vec<Vec<usize>>>, k: int, gps: int, gsize: int)
    requires
        0 <= k <= s@.len(),
        0 <= gps,
        0 <= gsize,
        forall|r: int| 0 <= r < s@.len() ==> (#[trigger] s@[r])@.len() <= gps,
        forall|r: int, g: int|
            0 <= r < s@.len() && 0 <= g < s@[r]@.len() ==> (#[trigger] s@[r]@[g])@.len() <= gsize,
    ensures
        sched_total_prefix(s, k) <= k * (gps * gsize),
    decreases k,
{
    if k > 0 {
        lemma_sched_total_bound(s, k - 1, gps, gsize);
        lemma_sched_group_bound(s, k - 1, s@[k - 1]@.len() as int, gsize);
        assert(sched_group_total(s, k - 1, s@[k - 1]@.len() as int) <= gps * gsize)
            by (nonlinear_arith)
            requires
                sched_group_total(s, k - 1, s@[k - 1]@.len() as int) <= s@[k - 1]@.len() * gsize,
                0 <= s@[k - 1]@.len() <= gps,
                0 <= gsize,
        ;
        assert((k - 1) * (gps * gsize) + (gps * gsize) == k * (gps * gsize)) by (nonlinear_arith);
    }
}

/// Searches for a complete schedule: runs up to `attempts` attempts, keeping
/// the best partial assignment seen, and stops early once a full solution is
/// recorded. The returned schedule never pairs two participants twice, never
/// overfills a group, and, when `solved` is reported, places every
/// participant in every round.
pub fn solve(
    attempts: usize,
    n_participants: usize,
    n_groups_per_round: usize,
    n_rounds: usize,
) -> (b: Best)
    requires
        1 <= n_participants <= 128,
        1 <= n_groups_per_round <= n_participants,
        n_participants % n_groups_per_round == 0,
        1 <= n_rounds,
        (n_rounds as int) * (n_groups_per_round as int) * 128 <= u32::MAX,
    ensures
        valid_schedule(
            b.schedule,
            n_participants as int,
            n_participants as int / n_groups_per_round as int,
        ),
        b.num_grouped == sched_total(b.schedule),
        b.schedule@.len() == 0 || b.schedule@.len() == n_rounds,
        forall|r: int|
            0 <= r < b.schedule@.len() ==> (#[trigger] b.schedule@[r])@.len()
                <= n_groups_per_round,
        attempts == 0 ==> b.num_grouped == 0 && !b.solved && b.schedule@.len() == 0,
        attempts >= 2 ==> b.num_grouped as int >= n_participants,
        b.solved ==> b.num_grouped as int == (n_rounds as int) * (n_participants as int),
        b.solved ==> b.schedule@.len() == n_rounds && (forall|r: int|
            0 <= r < n_rounds ==> (#[trigger] b.schedule@[r])@.len() == n_groups_per_round) && (
        forall|r: int, p: int|
            0 <= r < n_rounds && 0 <= p < n_participants ==> #[trigger] placed_in_round(
                b.schedule,
                n_groups_per_round as int,
                r,
                p,
            )),
{
    let mut s = Solver::new(n_participants, n_groups_per_round, n_rounds);
    let mut a: usize = 0;
    let mut finished = false;
    while a < attempts && !finished
        invariant
            s.inv(),
            s.spec_participants() == n_participants,
            s.spec_groups_per_round() == n_groups_per_round,
            s.spec_rounds() == n_rounds,
            s.spec_group_size() == n_participants as int / n_groups_per_round as int,
            a <= attempts,
            attempts == 0 ==> s.spec_best_num() == 0 && !s.spec_solved() && s.spec_best()@.len() == 0,
            finished ==> s.spec_solved(),
            !finished && a >= 1 ==> s.spec_current_total() >= s.spec_participants(),
            !finished && a >= 2 ==> s.spec_best_num() >= s.spec_participants(),
        decreases attempts - a,
    {
        finished = s.step();
        a = a + 1;
    }
    proof {
        if s.solved {
            assert(s.spec_best_num() >= n_participants) by (nonlinear_arith)
                requires
                    s.spec_best_num() == (n_rounds as int) * (n_participants as int),
                    1 <= n_rounds,
                    1 <= n_participants,
            ;
            lemma_solved_schedule_complete(
                s.best_schedule,
                s.n_participants as int,
                s.n_groups_per_round as int,
                s.group_size as int,
                s.n_rounds as int,
            );
        }
    }
    Best { num_grouped: s.best_num_grouped, solved: s.solved, schedule: s.best_schedule }
}

} // verus!
