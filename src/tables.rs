//! Fixed tournament metadata: the seed of each team identity and the round
//! and point value of each game index.
use vstd::prelude::*;

verus! {

/// Seed (1 to 16) of the team whose identity is congruent to `i` modulo 16,
/// following the order in which seeds are paired inside a region.
pub open spec fn seed_order(i: int) -> int {
    if i == 0 { 1 }
    else if i == 1 { 16 }
    else if i == 2 { 8 }
    else if i == 3 { 9 }
    else if i == 4 { 5 }
    else if i == 5 { 12 }
    else if i == 6 { 4 }
    else if i == 7 { 13 }
    else if i == 8 { 6 }
    else if i == 9 { 11 }
    else if i == 10 { 3 }
    else if i == 11 { 14 }
    else if i == 12 { 7 }
    else if i == 13 { 10 }
    else if i == 14 { 2 }
    else { 15 }
}

/// Seed of a team identity: the four regions repeat the same order.
pub open spec fn seed_of(slot: int) -> int {
    seed_order(slot % 16)
}

/// Largest `d` with `2^d <= n` (and 0 for 0 and 1).
pub open spec fn floor_log2(n: nat) -> nat
    decreases n,
{
    if n <= 1 {
        0
    } else {
        1 + floor_log2(n / 2)
    }
}

/// Round of a game index: its depth in the tree counted from the first
/// round (6 for the championship game 1, 1 for the games 32 to 63).
pub open spec fn round_of(slot: int) -> int {
    6 - floor_log2(slot as nat)
}

/// Base points awarded for a correct pick in a round.
pub open spec fn round_points(round: int) -> int {
    if round == 1 { 1 }
    else if round == 2 { 2 }
    else if round == 3 { 3 }
    else if round == 4 { 5 }
    else if round == 5 { 8 }
    else if round == 6 { 13 }
    else { 0 }
}

/// Seed of the team with identity `slot`.
pub fn seed_for_slot(slot: u8) -> (r: u8)
    ensures
        r == seed_of(slot as int),
        1 <= r <= 16,
{
    let i = slot % 16;
    if i == 0 { 1 }
    else if i == 1 { 16 }
    else if i == 2 { 8 }
    else if i == 3 { 9 }
    else if i == 4 { 5 }
    else if i == 5 { 12 }
    else if i == 6 { 4 }
    else if i == 7 { 13 }
    else if i == 8 { 6 }
    else if i == 9 { 11 }
    else if i == 10 { 3 }
    else if i == 11 { 14 }
    else if i == 12 { 7 }
    else if i == 13 { 10 }
    else if i == 14 { 2 }
    else { 15 }
}

/// Round number of game index `slot`: 7 minus the depth of the game in the
/// tree, the championship game having depth 1.
pub fn round_num_for_slot(slot: u8) -> (r: u8)
    requires
        slot < 128,
    ensures
        r == round_of(slot as int),
        1 <= slot < 64 ==> 1 <= r <= 6,
{
    proof {
        lemma_floor_log2_bounds(slot as nat);
    }
    let mut n: u8 = slot;
    let mut depth: u8 = 1;
    while n > 1
        invariant
            depth as nat + floor_log2(n as nat) == floor_log2(slot as nat) + 1,
            floor_log2(slot as nat) <= 6,
        decreases n,
    {
        n = n / 2;
        depth = depth + 1;
    }
    7 - depth
}

/// Base points of a round; 0 outside the rounds 1 to 6.
pub fn points_for_round(round: u8) -> (r: u8)
    ensures
        r == round_points(round as int),
        r <= 13,
{
    if round == 1 { 1 }
    else if round == 2 { 2 }
    else if round == 3 { 3 }
    else if round == 4 { 5 }
    else if round == 5 { 8 }
    else if round == 6 { 13 }
    else { 0 }
}

/// The depth of a game index below 128 is at most 6, and game indices 1 to
/// 63 lie at depth 0 to 5.
pub proof fn lemma_floor_log2_bounds(n: nat)
    requires
        n < 128,
    ensures
        floor_log2(n) <= 6,
        1 <= n < 64 ==> floor_log2(n) <= 5,
        32 <= n < 64 ==> floor_log2(n) == 5,
{
    reveal_with_fuel(floor_log2, 8);
}

/// A seed never changes when a team identity moves on by a whole region:
/// `seed_of(x) == seed_of(x + 16)`.
pub proof fn lemma_seed_periodic(x: int)
    requires
        0 <= x,
    ensures
        seed_of(x) == seed_of(x + 16),
        1 <= seed_of(x) <= 16,
{
    assert((x + 16) % 16 == x % 16);
}

/// The base points strictly increase from one round to the next, and are
/// 1, 2, 3, 5, 8 and 13 for the rounds 1 to 6.
pub proof fn lemma_round_points_increasing()
    ensures
        forall|r1: int, r2: int| 1 <= r1 < r2 <= 6 ==> round_points(r1) < round_points(r2),
        round_points(1) == 1 && round_points(2) == 2 && round_points(3) == 3,
        round_points(4) == 5 && round_points(5) == 8 && round_points(6) == 13,
{
}

} // verus!
