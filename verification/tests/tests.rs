use socialx::group::{Groups, HGroup};
use socialx::participant::{HParticipant, Participants};
use socialx::participant_set::{ParticipantSet, ParticipantSetIter};
use socialx::round::{HRound, Rounds};
use socialx::solver::{solve, Solver};

fn setup(n_parts: usize, n_groups: usize, g_size: u32) -> (Participants, Groups) {
    let mut parts = Participants::new();
    let mut groups = Groups::new();
    let _hps = parts.hcalloc(n_parts);
    let _hgs = groups.hcalloc(n_groups, g_size);
    (parts, groups)
}

fn setup2(
    n_parts: usize,
    n_groups: usize,
    g_size: u32,
    n_rounds: usize,
) -> (Participants, Groups, Rounds, Vec<HParticipant>, Vec<HGroup>, Vec<HRound>) {
    let mut parts = Participants::new();
    let mut groups = Groups::new();
    let mut rounds = Rounds::new();
    let hps = parts.hcalloc(n_parts);
    let hgs = groups.hcalloc(n_groups, g_size);
    let hrs = rounds.hcalloc(n_rounds);
    (parts, groups, rounds, hps, hgs, hrs)
}

#[test]
fn test_setup() {
    let (p, g) = setup(10, 5, 2);
    assert!(p.count() == 10);
    assert!(g.count() == 5);
}

#[test]
fn participant_hget() {
    let (p, _g) = setup(10, 5, 2);
    let hp = p.hget(0);
    assert!(hp != HParticipant::null());
}

#[test]
fn participant_group() {
    let (mut p, mut g) = setup(10, 5, 2);
    let hg = g.hget(0);
    let hp = p.hget(0);
    assert!(p.group(hp) == HGroup::null());

    assert!(p.try_join(hp, hg, &mut g) == true);

    assert!(p.group(hp) == hg);
}

#[test]
fn participant_try_join() {
    let (mut p, mut g, mut r, _hps, hgs, _hrs) = setup2(10, 5, 2, 1);
    let hr = r.hget(0);
    r.add_groups(hr, &hgs);
    let mut it = p.iter();
    while let Some(hp) = it.next() {
        assert!(p.try_join_groups(hp, hr, &r, &mut g) == true);
        assert!(p.group(hp) != HGroup::null());
    }
}

#[test]
fn participant_leave_group() {
    let (mut p, mut g) = setup(10, 5, 2);
    let hp = p.hget(0);
    let hg = g.hget(0);

    assert!(p.try_join(hp, hg, &mut g) == true);
    assert!(p.group(hp) == hg);
    p.leave_group(hp, hg, &mut g);
    assert!(p.group(hp) == HGroup::null());
}

#[test]
fn participant_try_regroup() {
    let (mut p, mut g, mut r, _hps, hgs, _hrs) = setup2(10, 5, 2, 1);
    let hr = r.hget(0);
    r.add_groups(hr, &hgs);
    let hp = p.hget(0);
    let hg = g.hget(0);

    p.try_join(hp, hg, &mut g);
    match p.try_regroup(hp, hr, &r, &mut g) {
        Ok(hp2) => {
            assert!(hp2 == HParticipant::null());
            assert!(p.group(hp) != hg);
            assert!(p.group(hp) != HGroup::null());
        }
        Err(_) => {
            assert!(false, "Failed to regroup.");
        }
    }
}

#[test]
fn participant_try_regroup_when_groups_full() {
    let (mut p, mut g, mut r, _hps, hgs, _hrs) = setup2(10, 5, 2, 1);
    let hr = r.hget(0);
    r.add_groups(hr, &hgs);
    // Load up groups.
    let mut it = p.iter();
    while let Some(hp) = it.next() {
        p.try_join_groups(hp, hr, &r, &mut g);
    }
    // Get each participant to regroup.
    let mut it2 = p.iter();
    while let Some(hp) = it2.next() {
        let hg = p.group(hp);
        match p.try_regroup(hp, hr, &r, &mut g) {
            Ok(hp2) => {
                assert!(hp2 != HParticipant::null());
                assert!(p.group(hp2) == hg);
                assert!(p.group(hp) != hg);
                assert!(p.group(hp) != HGroup::null());
            }
            Err(_) => {
                assert!(false, "Failed to regroup.");
            }
        }
    }
}

#[test]
fn participant_set_has() {
    let (p, _g) = setup(10, 5, 2);
    let hp3 = p.hget(3);
    let hp5 = p.hget(5);
    let mut pset = ParticipantSet::new();

    assert!(pset.has(hp3) == false);
    pset.add(hp5);
    assert!(pset.has(hp3) == false);
    assert!(pset.has(hp5) == true);
}

#[test]
fn participant_set_counts() {
    let (p, _g) = setup(10, 5, 2);
    let mut a = ParticipantSet::new();
    let mut b = ParticipantSet::new();
    assert_eq!(a.count(), 0);
    a.add(p.hget(1));
    a.add(p.hget(4));
    a.add(p.hget(7));
    assert_eq!(a.count(), 3);
    b.add(p.hget(4));
    b.add(p.hget(9));
    assert_eq!(a.num_common(&b), 1);
    assert!(a.has_common(&b));
    let c = a.common(&b);
    assert!(c.has(p.hget(4)));
    assert!(!c.has(p.hget(1)));
    a.remove(p.hget(4));
    assert_eq!(a.count(), 2);
    assert!(!a.has_common(&b));
    a.add_set(&b);
    assert_eq!(a.count(), 4);
    a.remove_set(&b);
    assert_eq!(a.count(), 2);
    a.clear();
    assert_eq!(a.count(), 0);
}

#[test]
fn participant_set_vec_order() {
    let mut a = ParticipantSet::new();
    a.add(HParticipant { idx: 9 });
    a.add(HParticipant { idx: 2 });
    a.add(HParticipant { idx: 127 });
    let asc = a.member_vec();
    let idxs: Vec<usize> = asc.iter().map(|h| h.idx).collect();
    assert_eq!(idxs, vec![2, 9, 127]);
    // the set iterator walks from the highest index down
    let mut it = a.iter();
    assert_eq!(it.next().map(|h| h.idx), Some(127));
    assert_eq!(it.next().map(|h| h.idx), Some(9));
    assert_eq!(it.next().map(|h| h.idx), Some(2));
    assert_eq!(it.next(), None);
    let desc = ParticipantSetIter::get_vec(0b100_0000_0100u128);
    let didx: Vec<usize> = desc.iter().map(|h| h.idx).collect();
    assert_eq!(didx, vec![10, 2]);
}

#[test]
fn place_fails_without_side_effects() {
    // an attempt to place an already-acquainted participant leaves every
    // member set and every acquaintance set unchanged
    let (mut p, mut g) = setup(4, 2, 2);
    let a = p.hget(0);
    let b = p.hget(1);
    let c = p.hget(2);
    let g0 = g.hget(0);
    let g1 = g.hget(1);
    assert!(p.try_join(a, g0, &mut g));
    assert!(p.try_join(b, g0, &mut g));
    // a and b are now acquainted; b moves on to a new round's group
    p.leave_group(b, g0, &mut g);
    // withdrawing undid the acquaintance, so re-establish one first
    assert!(p.try_join(b, g0, &mut g));
    assert!(p.try_join(c, g1, &mut g));
    let before_counts = (g.num_members(g0), g.num_members(g1));
    let was_acq = p.is_acquainted_participant(a, b);
    assert!(was_acq);
    // g0 is full: placing c there fails with no effect
    assert!(!p.try_join(c, g0, &mut g));
    assert_eq!(g.num_members(g0), before_counts.0);
    assert_eq!(g.num_members(g1), before_counts.1);
    assert!(p.group(c) == g1);
}

#[test]
fn withdraw_is_inverse_of_place() {
    // place then withdraw restores membership and every acquaintance edge
    let (mut p, mut g) = setup(6, 3, 3);
    let a = p.hget(0);
    let b = p.hget(1);
    let c = p.hget(2);
    let g0 = g.hget(0);
    assert!(p.try_join(a, g0, &mut g));
    assert!(p.try_join(b, g0, &mut g));
    assert!(!p.is_acquainted_participant(a, c));
    assert!(p.try_join(c, g0, &mut g));
    assert!(p.is_acquainted_participant(a, c));
    assert!(p.is_acquainted_participant(c, a));
    assert_eq!(g.num_members(g0), 3);
    p.leave_group(c, g0, &mut g);
    assert_eq!(g.num_members(g0), 2);
    assert!(!g.has(g0, c));
    assert!(!p.is_acquainted_participant(a, c));
    assert!(!p.is_acquainted_participant(c, a));
    assert!(p.is_acquainted_participant(a, b));
    assert!(p.group(c) == HGroup::null());
}

#[test]
fn acquaintance_made_and_kept() {
    // sharing a group once acquaints two participants at once, and later
    // placements in other groups keep the acquaintance
    let (mut p, mut g, mut r, _hps, hgs, _hrs) = setup2(6, 6, 3, 2);
    let hr0 = r.hget(0);
    let hr1 = r.hget(1);
    r.add_groups(hr0, &hgs[0..3]);
    r.add_groups(hr1, &hgs[3..6]);
    let a = p.hget(0);
    let b = p.hget(1);
    assert!(p.try_join(a, hgs[0], &mut g));
    assert!(p.try_join(b, hgs[0], &mut g));
    assert!(p.is_acquainted_participant(a, b));
    assert!(p.is_acquainted_participant(b, a));
    // next round: both are separated into different groups
    p.prepare_for_new_round();
    assert!(p.try_join(a, hgs[3], &mut g));
    assert!(p.try_join(b, hgs[4], &mut g));
    assert!(p.is_acquainted_participant(a, b));
    assert!(p.is_acquainted_participant(b, a));
    // and b cannot join a's new group again
    assert!(!p.try_join(b, hgs[3], &mut g));
}

#[test]
fn single_round_fills_every_group() {
    // 10 participants into 5 groups of 2, one round: every placement succeeds
    // and every group ends exactly full
    let (mut p, mut g, mut r, hps, hgs, _hrs) = setup2(10, 5, 2, 1);
    let hr = r.hget(0);
    r.add_groups(hr, &hgs);
    let mut failures = 0;
    for hp in &hps {
        if !p.try_join_groups(*hp, hr, &r, &mut g) {
            failures += 1;
        }
    }
    assert_eq!(failures, 0);
    for hg in &hgs {
        assert_eq!(g.num_members(*hg), 2);
        assert!(g.full(*hg));
    }
    assert_eq!(r.num_grouped(&[hr], &g), 10);
}

#[test]
fn regroup_relocates_into_free_slot() {
    // a participant alone in its group, with a free compatible group in the
    // round, is relocated: its group changes, the counts move by one
    let (mut p, mut g, mut r, _hps, hgs, _hrs) = setup2(10, 5, 2, 1);
    let hr = r.hget(0);
    r.add_groups(hr, &hgs);
    let hp = p.hget(0);
    let hg = g.hget(0);
    assert!(p.try_join(hp, hg, &mut g));
    assert_eq!(g.num_members(hg), 1);
    match p.try_regroup(hp, hr, &r, &mut g) {
        Ok(hp2) => {
            assert!(hp2 == HParticipant::null());
            let new_group = p.group(hp);
            assert!(new_group != hg);
            assert!(new_group != HGroup::null());
            assert_eq!(g.num_members(hg), 0);
            assert_eq!(g.num_members(new_group), 1);
        }
        Err(_) => {
            assert!(false, "Failed to regroup.");
        }
    }
}

#[test]
fn regroup_swaps_out_of_full_round() {
    // with every group of the round full, a repair must swap: the two
    // participants exchange groups, and neither was previously acquainted
    // with any member of its new group
    let (mut p, mut g, mut r, hps, hgs, _hrs) = setup2(10, 5, 2, 1);
    let hr = r.hget(0);
    r.add_groups(hr, &hgs);
    for hp in &hps {
        assert!(p.try_join_groups(*hp, hr, &r, &mut g));
    }
    let hp = p.hget(0);
    let hg = p.group(hp);
    // record who hp knew before the swap
    let mut known_before = Vec::new();
    for other in &hps {
        if p.is_acquainted_participant(hp, *other) {
            known_before.push(other.idx);
        }
    }
    match p.try_regroup(hp, hr, &r, &mut g) {
        Ok(hp2) => {
            assert!(hp2 != HParticipant::null());
            assert!(p.group(hp2) == hg);
            let new_group = p.group(hp);
            assert!(new_group != hg);
            assert!(new_group != HGroup::null());
            assert!(g.full(hg) && g.full(new_group));
            // no member of hp's new group was known to hp before the swap
            for other in &hps {
                if *other != hp && g.has(new_group, *other) {
                    assert!(!known_before.contains(&other.idx));
                }
            }
        }
        Err(_) => {
            assert!(false, "Failed to regroup.");
        }
    }
}

fn check_no_repeats(schedule: &Vec<Vec<Vec<usize>>>) {
    // count how often each pair shares a group, across the whole schedule
    let mut pair_seen = std::collections::HashSet::new();
    for round in schedule {
        for members in round {
            for i in 0..members.len() {
                for j in (i + 1)..members.len() {
                    let pair = (members[i], members[j]);
                    assert!(
                        !pair_seen.contains(&pair),
                        "pair repeated: {:?}",
                        pair
                    );
                    pair_seen.insert(pair);
                }
            }
        }
    }
}

#[test]
fn solver_single_round_solves() {
    let best = solve(3, 10, 5, 1);
    assert!(best.solved);
    assert_eq!(best.num_grouped, 10);
    assert_eq!(best.schedule.len(), 1);
    check_no_repeats(&best.schedule);
}

#[test]
fn solver_kirkman_instance_solves() {
    // Kirkman's original instance: 15 participants, 5 groups of 3, 7 rounds.
    // The randomized search must reach a full solution well within a generous
    // attempt budget: 105 placements and no repeated pair.
    let best = solve(200_000, 15, 5, 7);
    assert!(best.solved, "no solution found within the attempt budget");
    assert_eq!(best.num_grouped, 105);
    assert_eq!(best.schedule.len(), 7);
    let mut placements = 0;
    for round in &best.schedule {
        assert_eq!(round.len(), 5);
        for members in round {
            assert!(members.len() <= 3);
            placements += members.len();
        }
    }
    assert_eq!(placements, 105);
    check_no_repeats(&best.schedule);
}

#[test]
fn solver_keeps_best_partial() {
    // even with a single attempt, the best snapshot is a consistent partial
    // schedule
    let mut s = Solver::new(12, 4, 5);
    s.step();
    s.step();
    let total: usize = s
        .best_schedule()
        .iter()
        .map(|round| round.iter().map(|m| m.len()).sum::<usize>())
        .sum();
    assert_eq!(total as u32, s.best_num_grouped());
    check_no_repeats(s.best_schedule());
    if s.is_solved() {
        assert_eq!(s.best_num_grouped(), 60);
    }
}

#[test]
fn sort_restores_handle_order() {
    let (p, _g) = setup(10, 5, 2);
    let mut hs = vec![p.hget(7), p.hget(2), p.hget(9), p.hget(0)];
    p.sort_slice(&mut hs);
    let idxs: Vec<usize> = hs.iter().map(|h| h.idx).collect();
    assert_eq!(idxs, vec![0, 2, 7, 9]);
}

#[test]
fn join_null_group_fails() {
    let (mut p, mut g) = setup(4, 2, 2);
    let hp = p.hget(0);
    assert!(p.try_join(hp, HGroup::null(), &mut g) == false);
    assert!(p.group(hp) == HGroup::null());
    assert_eq!(g.num_members(g.hget(0)), 0);
}

#[test]
fn regroup_fails_when_no_way_out() {
    // a participant with no group in the round cannot be repaired
    let (mut p, mut g, mut r, _hps, hgs, _hrs) = setup2(4, 2, 2, 1);
    let hr = r.hget(0);
    r.add_groups(hr, &hgs);
    let hp = p.hget(0);
    assert!(p.try_regroup(hp, hr, &r, &mut g).is_err());
    // a round with a single group offers no other group to move to
    let (mut p2, mut g2, mut r2, _hps2, hgs2, _hrs2) = setup2(2, 1, 2, 1);
    let hr2 = r2.hget(0);
    r2.add_groups(hr2, &hgs2);
    let hp2 = p2.hget(0);
    assert!(p2.try_join(hp2, hgs2[0], &mut g2));
    assert!(p2.try_regroup(hp2, hr2, &r2, &mut g2).is_err());
    assert!(p2.group(hp2) == hgs2[0]);
}

#[test]
fn round_lookup_and_reset() {
    let (mut p, mut g, mut r, _hps, hgs, _hrs) = setup2(4, 2, 2, 1);
    let hr = r.hget(0);
    r.add_groups(hr, &hgs);
    let hp = p.hget(0);
    assert!(r.participant_group(hr, hp, &g) == HGroup::null());
    assert!(p.try_join(hp, hgs[1], &mut g));
    assert!(r.participant_group(hr, hp, &g) == hgs[1]);
    assert_eq!(r.num_grouped(&[hr], &g), 1);
    g.reset();
    r.reset();
    p.reset();
    assert_eq!(r.num_grouped(&[hr], &g), 0);
    assert!(!p.is_grouped(hp));

    let mut g2 = Groups::new();
    let _ = g2.hcalloc(3, 2);
    assert_eq!(g2.count(), 3);
    g2.free_all();
    assert_eq!(g2.count(), 0);
    let mut r2 = Rounds::new();
    let _ = r2.hcalloc(2);
    r2.free_all();
    let mut it = g2.iter();
    assert_eq!(it.next(), None);
}

#[test]
fn solver_scores_every_attempt() {
    // an unsolvable instance: with 4 participants in pairs, a fifth partner
    // does not exist, so 4 rounds can never be completed; still, every
    // attempt fills the first round, and the driver must score it
    let best = solve(50, 4, 2, 4);
    assert!(!best.solved);
    assert!(best.num_grouped >= 4);
    check_no_repeats(&best.schedule);
}
