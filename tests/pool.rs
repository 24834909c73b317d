use std::collections::HashMap;

use bracket_pool::codec::{decode_team_slots, Bracket, Tournament, COMPLETE_MASK};
use bracket_pool::finishes::{competition_ranks, BestFinishes};
use bracket_pool::tables::{points_for_round, round_num_for_slot, seed_for_slot};

fn record(entries: &[(u64, usize)]) -> BestFinishes {
    let mut m = HashMap::new();
    for (k, v) in entries {
        m.insert(*k, *v);
    }
    BestFinishes { possible_finishes: m }
}

fn entries(b: &BestFinishes) -> Vec<(u64, usize)> {
    let mut v: Vec<(u64, usize)> = b.possible_finishes.iter().map(|(k, r)| (*k, *r)).collect();
    v.sort();
    v
}

#[test]
fn it_works() {
    assert_eq!(true, true);
}

#[test]
fn seeds_follow_pairing_order() {
    let expected = [1, 16, 8, 9, 5, 12, 4, 13, 6, 11, 3, 14, 7, 10, 2, 15];
    for i in 0..16u8 {
        assert_eq!(seed_for_slot(64 + i), expected[i as usize]);
    }
    assert_eq!(seed_for_slot(126), 2);
    assert_eq!(seed_for_slot(127), 15);
}

#[test]
fn seed_lookup_is_periodic() {
    for x in 0..=239u8 {
        assert_eq!(seed_for_slot(x), seed_for_slot(x + 16));
    }
}

#[test]
fn rounds_by_depth() {
    assert_eq!(round_num_for_slot(1), 6);
    assert_eq!(round_num_for_slot(2), 5);
    assert_eq!(round_num_for_slot(3), 5);
    assert_eq!(round_num_for_slot(7), 4);
    assert_eq!(round_num_for_slot(8), 3);
    assert_eq!(round_num_for_slot(16), 2);
    assert_eq!(round_num_for_slot(31), 2);
    assert_eq!(round_num_for_slot(32), 1);
    assert_eq!(round_num_for_slot(63), 1);
    assert_eq!(round_num_for_slot(0), 6);
}

#[test]
fn round_points_strictly_increase() {
    let pts: Vec<u8> = (1..=6u8).map(points_for_round).collect();
    assert_eq!(pts, vec![1, 2, 3, 5, 8, 13]);
    for w in pts.windows(2) {
        assert!(w[0] < w[1]);
    }
    assert_eq!(points_for_round(0), 0);
    assert_eq!(points_for_round(7), 0);
}

#[test]
fn decode_all_left_and_all_right() {
    let left = Bracket { decisions: 0 }.decision_team_slots();
    assert_eq!(left[0], None);
    assert_eq!(left[63], Some(126));
    assert_eq!(left[32], Some(64));
    assert_eq!(left[1], Some(64));
    let right = Bracket { decisions: u64::MAX }.decision_team_slots();
    assert_eq!(right[0], None);
    assert_eq!(right[1], Some(127));
    assert_eq!(right[32], Some(65));
    for i in 1..64 {
        assert!(left[i].is_some());
        assert!(right[i].is_some());
    }
}

#[test]
fn decoding_twice_gives_same_table() {
    let b = Bracket { decisions: 0x1234_5678_9ABC_DEF0 };
    assert_eq!(b.decision_team_slots(), b.decision_team_slots());
    assert_eq!(b.decision_team_slots(), decode_team_slots(COMPLETE_MASK, b.decisions));
    assert_eq!(b.mask(), COMPLETE_MASK);
    assert_eq!(b.decisions(), 0x1234_5678_9ABC_DEF0);
}

#[test]
fn first_round_depends_on_own_bit() {
    let a = decode_team_slots(COMPLETE_MASK, 1u64 << 40);
    let b = decode_team_slots(COMPLETE_MASK, (1u64 << 40) | 0x0000_00FF_0000_FFFE);
    assert_eq!(a[40], Some(81));
    assert_eq!(b[40], Some(81));
    for i in 32..64 {
        assert_eq!(a[i].unwrap() as usize, 2 * i + if i == 40 { 1 } else { 0 });
    }
}

#[test]
fn pending_games_are_absent() {
    let t = Tournament { decisions: u64::MAX, mask: 1u64 << 1 };
    let slots = t.decision_team_slots();
    assert!(slots.iter().all(|s| s.is_none()));
    assert_eq!(t.mask(), 2);
    assert_eq!(t.decisions(), u64::MAX);
}

#[test]
fn internal_game_follows_selected_child() {
    let mask = (1u64 << 1) | (1u64 << 3) | (1u64 << 7) | (1u64 << 15) | (1u64 << 31) | (1u64 << 63);
    let t = Tournament { decisions: u64::MAX, mask };
    let slots = t.decision_team_slots();
    assert_eq!(slots[1], Some(127));
    assert_eq!(slots[2], None);
    assert_eq!(slots[3], Some(127));
    let t0 = Tournament { decisions: 0, mask };
    let slots0 = t0.decision_team_slots();
    assert_eq!(slots0[1], None);
    assert_eq!(slots0[3], None);
}

#[test]
fn bit_zero_is_ignored() {
    assert_eq!(decode_team_slots(u64::MAX, 1), decode_team_slots(COMPLETE_MASK, 0));
}

#[test]
fn self_score_is_full_value() {
    let left = Bracket { decisions: 0 };
    assert_eq!(left.points_for_decisions(&left.decision_team_slots()), 392);
    let right = Bracket { decisions: u64::MAX };
    assert_eq!(right.points_for_decisions(&right.decision_team_slots()), 958);
    assert_eq!(left.points_for_decisions(&right.decision_team_slots()), 0);
}

#[test]
fn scores_lose_missed_games() {
    let actual = Bracket { decisions: 0 }.decision_team_slots();
    let expected = [392, 389, 372, 368, 344, 339, 326, 317];
    for j in 0..8 {
        let d: u64 = (0..j).map(|x| 1u64 << (63 - x)).sum();
        assert_eq!(Bracket { decisions: d }.points_for_decisions(&actual), expected[j]);
    }
}

#[test]
fn score_against_partial_table() {
    let b = Bracket { decisions: 0 };
    let t = Tournament { decisions: 0, mask: 1u64 << 63 };
    assert_eq!(b.points_for_decisions(&t.decision_team_slots()), 3);
    assert_eq!(b.points_for_decisions(&[]), 0);
}

#[test]
fn competition_ranking_shares_ties() {
    assert_eq!(competition_ranks(&[50, 50, 40, 30, 30, 30]), vec![0, 0, 2, 3, 3, 3]);
    assert_eq!(competition_ranks(&[]), Vec::<usize>::new());
    assert_eq!(competition_ranks(&[10, 20, 20, 30]), vec![3, 1, 1, 0]);
}

#[test]
fn merge_keeps_minimum_rank() {
    let mut a = record(&[(1, 1), (2, 3)]);
    a.merge(record(&[(1, 0), (3, 2)]));
    assert_eq!(entries(&a), vec![(1, 0), (2, 3), (3, 2)]);
    let mut e = BestFinishes::new();
    e.merge(BestFinishes::new());
    assert!(e.possible_finishes.is_empty());
}

#[test]
fn rankings_group_by_tier() {
    let r = record(&[(1, 0), (2, 3), (3, 2), (4, 0)]);
    let mut tiers = r.rankings();
    assert_eq!(tiers.len(), 5);
    for t in tiers.iter_mut() {
        t.sort_by_key(|b| b.decisions);
    }
    assert_eq!(tiers[0], vec![Bracket { decisions: 1 }, Bracket { decisions: 4 }]);
    assert!(tiers[1].is_empty());
    assert_eq!(tiers[2], vec![Bracket { decisions: 3 }]);
    assert_eq!(tiers[3], vec![Bracket { decisions: 2 }]);
    assert!(tiers[4].is_empty());
}

#[test]
fn settled_toy_instance_ranks_exact_pick_first() {
    let actual = Bracket { decisions: u64::MAX };
    let full = actual.decision_team_slots();
    let mut toy: Vec<Option<u8>> = full[0..3].to_vec();
    let pool = [actual];
    let r = BestFinishes::calc(&pool, &mut toy);
    assert_eq!(entries(&r), vec![(u64::MAX, 0)]);
    assert_eq!(toy, full[0..3].to_vec());
}

#[test]
fn settled_full_table_ranks_pool() {
    let actual = Bracket { decisions: 0 };
    let mut slots = actual.decision_team_slots();
    let pool: Vec<Bracket> =
        (0..7).map(|j: u64| Bracket { decisions: (0..j).map(|x| 1u64 << (63 - x)).sum() }).collect();
    let r = BestFinishes::calc(&pool, &mut slots);
    let mut expected: Vec<(u64, usize)> =
        pool.iter().enumerate().take(5).map(|(i, b)| (b.decisions, i)).collect();
    expected.sort();
    assert_eq!(entries(&r), expected);
}

#[test]
fn empty_pool_gives_empty_record() {
    let mut slots = Tournament { decisions: 0, mask: COMPLETE_MASK & !(1u64 << 1) }.decision_team_slots();
    assert_eq!(slots[1], None);
    let r = BestFinishes::calc(&[], &mut slots);
    assert!(r.possible_finishes.is_empty());
}

#[test]
fn one_pending_game_merges_both_outcomes() {
    let a = Bracket { decisions: 0 };
    let b = Bracket { decisions: 1u64 << 1 };
    let pool = [a, b];
    let mut slots = a.decision_team_slots();
    slots[1] = None;
    let before = slots;
    let r = BestFinishes::calc(&pool, &mut slots);
    assert_eq!(slots, before);

    let mut left = before;
    left[1] = before[2];
    let mut right = before;
    right[1] = before[3];
    let mut direct = BestFinishes::calc(&pool, &mut left);
    direct.merge(BestFinishes::calc(&pool, &mut right));
    assert_eq!(entries(&r), entries(&direct));
    assert_eq!(entries(&r), vec![(0, 0), (2, 0)]);
}

#[test]
fn pending_first_round_game_uses_team_slots() {
    let a = Bracket { decisions: 0 };
    let b = Bracket { decisions: 1u64 << 63 };
    let pool = [a, b];
    let mut slots = a.decision_team_slots();
    slots[63] = None;
    let r = BestFinishes::calc(&pool, &mut slots);
    assert_eq!(entries(&r), vec![(0, 0), (1u64 << 63, 0)]);
    assert_eq!(slots[63], None);
}

#[test]
fn two_pending_games_explore_all_outcomes() {
    let a = Bracket { decisions: 0 };
    let b = Bracket { decisions: 1u64 << 1 };
    let c = Bracket { decisions: 1u64 << 63 };
    let pool = [a, b, c];
    let mut slots = a.decision_team_slots();
    slots[1] = None;
    slots[63] = None;
    let r = BestFinishes::calc(&pool, &mut slots);
    let best: Vec<usize> = entries(&r).iter().map(|e| e.1).collect();
    assert_eq!(entries(&r).len(), 3);
    assert!(best.iter().all(|x| *x == 0));
}
