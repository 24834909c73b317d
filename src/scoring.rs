//! Scoring of a prediction against an actual or hypothetical outcome.
use vstd::prelude::*;
use crate::codec::{Bracket, COMPLETE_MASK, decoded_table, lemma_complete_bracket_resolves};
use crate::tables::{
    round_of,
    round_points,
    seed_of,
    seed_for_slot,
    round_num_for_slot,
    points_for_round,
    lemma_floor_log2_bounds,
};

verus! {

/// Points for correctly picking team `id` to win game `i`: the round's base
/// points plus the team's seed.
pub open spec fn game_points(i: int, id: u8) -> int {
    round_points(round_of(i)) + seed_of(id as int)
}

/// Points earned at game `i`: awarded only where both tables resolve the
/// game to the same team.
pub open spec fn points_at(pred: Seq<Option<u8>>, actual: Seq<Option<u8>>, i: int) -> int {
    match (actual[i], pred[i]) {
        (Some(t), Some(b)) => if t == b {
            game_points(i, b)
        } else {
            0
        },
        _ => 0,
    }
}

/// Points earned over the games `0..n`.
pub open spec fn score_upto(pred: Seq<Option<u8>>, actual: Seq<Option<u8>>, n: int) -> int
    decreases n,
{
    if n <= 0 {
        0
    } else {
        score_upto(pred, actual, n - 1) + points_at(pred, actual, n - 1)
    }
}

/// Score of a prediction table against an outcome table, over every game
/// index of the outcome table.
pub open spec fn score(pred: Seq<Option<u8>>, actual: Seq<Option<u8>>) -> int {
    score_upto(pred, actual, actual.len() as int)
}

/// Value of every resolved pick of `pred` over the games `0..n`.
pub open spec fn pick_value_upto(pred: Seq<Option<u8>>, n: int) -> int
    decreases n,
{
    if n <= 0 {
        0
    } else {
        pick_value_upto(pred, n - 1) + match pred[n - 1] {
            Some(b) => game_points(n - 1, b),
            None => 0,
        }
    }
}

impl Bracket {
    /// Points this bracket earns against the outcome table
    /// `tournament_team_slots`.
    pub fn points_for_decisions(&self, tournament_team_slots: &[Option<u8>]) -> (r: usize)
        requires
            tournament_team_slots@.len() <= 64,
        ensures
            r == score(decoded_table(COMPLETE_MASK, self.decisions), tournament_team_slots@),
    {
        let bracket_team_slots = self.decision_team_slots();
        let ghost pred = bracket_team_slots@;
        let ghost actual = tournament_team_slots@;
        let mut acc: usize = 0;
        let mut i: usize = 0;
        while i < tournament_team_slots.len()
            invariant
                i <= actual.len() <= 64,
                actual == tournament_team_slots@,
                pred == bracket_team_slots@,
                pred == decoded_table(COMPLETE_MASK, self.decisions),
                acc == score_upto(pred, actual, i as int),
                acc <= 29 * i,
            decreases actual.len() - i,
        {
            if let Some(t) = tournament_team_slots[i] {
                if let Some(b) = bracket_team_slots[i] {
                    if t == b {
                        let team_seed = seed_for_slot(b);
                        proof {
                            lemma_floor_log2_bounds(i as nat);
                        }
                        let round_number = round_num_for_slot(i as u8);
                        acc = acc + points_for_round(round_number) as usize + team_seed as usize;
                    }
                }
            }
            i = i + 1;
        }
        acc
    }
}

/// Scoring a bracket against its own decoded table earns the full value of
/// its picks, base points plus seed over all 63 games, and no outcome table
/// earns it more.
pub proof fn lemma_self_score_is_maximal(decisions: u64, actual: Seq<Option<u8>>)
    requires
        actual.len() <= 64,
    ensures
        score(decoded_table(COMPLETE_MASK, decisions), decoded_table(COMPLETE_MASK, decisions))
            == pick_value_upto(decoded_table(COMPLETE_MASK, decisions), 64),
        forall|i: int|
            1 <= i < 64 ==> (#[trigger] decoded_table(COMPLETE_MASK, decisions)[i]) is Some,
        score(decoded_table(COMPLETE_MASK, decisions), actual) <= score(
            decoded_table(COMPLETE_MASK, decisions),
            decoded_table(COMPLETE_MASK, decisions),
        ),
{
    let t = decoded_table(COMPLETE_MASK, decisions);
    assert forall|i: int| 1 <= i < 64 implies (#[trigger] decoded_table(COMPLETE_MASK, decisions)[i]) is Some by {
        lemma_complete_bracket_resolves(decisions, i);
    }
    lemma_score_self(t, 64);
    lemma_score_bounded(t, actual, actual.len() as int);
    lemma_pick_value_monotone(t, actual.len() as int, 64);
}

proof fn lemma_score_self(t: Seq<Option<u8>>, n: int)
    requires
        0 <= n <= t.len(),
    ensures
        score_upto(t, t, n) == pick_value_upto(t, n),
    decreases n,
{
    if n > 0 {
        lemma_score_self(t, n - 1);
    }
}

proof fn lemma_score_bounded(t: Seq<Option<u8>>, actual: Seq<Option<u8>>, n: int)
    requires
        0 <= n <= actual.len() <= t.len(),
    ensures
        score_upto(t, actual, n) <= pick_value_upto(t, n),
    decreases n,
{
    if n > 0 {
        lemma_score_bounded(t, actual, n - 1);
    }
}

proof fn lemma_pick_value_monotone(t: Seq<Option<u8>>, m: int, n: int)
    requires
        0 <= m <= n <= t.len(),
    ensures
        pick_value_upto(t, m) <= pick_value_upto(t, n),
    decreases n - m,
{
    if m < n {
        lemma_pick_value_monotone(t, m, n - 1);
        if let Some(b) = t[n - 1] {
            assert(1 <= seed_of(b as int)) by {
                crate::tables::lemma_seed_periodic(b as int);
            }
        }
    }
}

} // verus!
