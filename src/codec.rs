//! Decoding of an outcome state (a settled mask and a decisions bitmask)
//! into the team identity projected to win each game.
use vstd::prelude::*;

verus! {

/// Settled mask of a complete bracket: every game 1 to 63 is decided.
pub const COMPLETE_MASK: u64 = 0xFFFF_FFFF_FFFF_FFFE;

/// Whether bit `i` of `x` is set.
pub open spec fn bit_set(x: u64, i: int) -> bool {
    (x >> (i as u64)) & 1u64 == 1u64
}

/// The decision recorded for game `i`: 1 where the right child or slot
/// advanced, 0 where the left one did.
pub open spec fn decision_of(decisions: u64, i: int) -> int {
    if bit_set(decisions, i) {
        1
    } else {
        0
    }
}

/// Team identity projected to win game `i`, or `None` where game `i` is not
/// settled or the child game it selects does not resolve.
pub open spec fn decoded_slot(mask: u64, decisions: u64, i: int) -> Option<u8>
    decreases 64 - i,
{
    if 1 <= i < 64 && bit_set(mask, i) {
        let position = 2 * i + decision_of(decisions, i);
        if i >= 32 {
            Some(position as u8)
        } else {
            decoded_slot(mask, decisions, position)
        }
    } else {
        None
    }
}

/// The whole decoded table, indices 0 to 63.
pub open spec fn decoded_table(mask: u64, decisions: u64) -> Seq<Option<u8>> {
    Seq::new(64, |i: int| decoded_slot(mask, decisions, i))
}

/// Decodes an outcome state into a table of 64 projected winners, resolving
/// each game from its children (games 63 down to 1). Bit 0 of either value
/// is ignored.
pub fn decode_team_slots(mask: u64, decisions: u64) -> (r: [Option<u8>; 64])
    ensures
        r@ == decoded_table(mask, decisions),
{
    let mut res: [Option<u8>; 64] = [None; 64];
    let mut i: u64 = 63;
    while i >= 1
        invariant
            i <= 63,
            res@.len() == 64,
            forall|j: int| 0 <= j <= i ==> res@[j] is None,
            forall|j: int| i < j < 64 ==> res@[j] == decoded_slot(mask, decisions, j),
        decreases i,
    {
        if (mask >> i) & 1u64 == 1u64 {
            let decision: u64 = if (decisions >> i) & 1u64 == 1u64 {
                1
            } else {
                0
            };
            let position: u64 = 2 * i + decision;
            if i >= 32 {
                res[i as usize] = Some(position as u8);
            } else {
                res[i as usize] = res[position as usize];
            }
        }
        assert(res@[i as int] == decoded_slot(mask, decisions, i as int));
        i = i - 1;
    }
    assert(res@ =~= decoded_table(mask, decisions));
    res
}

/// A tournament in progress: the games whose bit is set in `mask` are
/// decided as `decisions` says, the others are pending.
#[derive(Debug)]
pub struct Tournament {
    pub decisions: u64,
    pub mask: u64,
}

impl Tournament {
    pub fn decisions(&self) -> (r: u64)
        ensures
            r == self.decisions,
    {
        self.decisions
    }

    pub fn mask(&self) -> (r: u64)
        ensures
            r == self.mask,
    {
        self.mask
    }

    /// Projected winner of each game, `None` for pending games.
    pub fn decision_team_slots(&self) -> (r: [Option<u8>; 64])
        ensures
            r@ == decoded_table(self.mask, self.decisions),
    {
        decode_team_slots(self.mask, self.decisions)
    }
}

/// A complete prediction: every game 1 to 63 is decided. Two brackets are
/// equal when their decisions are.
#[derive(Debug, Clone, Copy, PartialEq, Eq, Hash, Structural)]
pub struct Bracket {
    pub decisions: u64,
}

impl Bracket {
    pub fn decisions(&self) -> (r: u64)
        ensures
            r == self.decisions,
    {
        self.decisions
    }

    pub fn mask(&self) -> (r: u64)
        ensures
            r == COMPLETE_MASK,
    {
        COMPLETE_MASK
    }

    /// Predicted winner of each game 1 to 63; entry 0 is `None`.
    pub fn decision_team_slots(&self) -> (r: [Option<u8>; 64])
        ensures
            r@ == decoded_table(COMPLETE_MASK, self.decisions),
    {
        decode_team_slots(COMPLETE_MASK, self.decisions)
    }
}

/// Decoding is a function of the mask and the decisions alone: two decodings
/// of the same outcome state give the same table.
pub proof fn lemma_decode_idempotent(mask: u64, decisions: u64, t1: Seq<Option<u8>>, t2: Seq<Option<u8>>)
    requires
        t1 == decoded_table(mask, decisions),
        t2 == decoded_table(mask, decisions),
    ensures
        t1 == t2,
{
}

/// A settled first-round game resolves to slot `2i + bit i`, whatever the
/// other bits of the decisions are.
pub proof fn lemma_first_round_depends_on_own_bit(mask: u64, d1: u64, d2: u64, i: int)
    requires
        32 <= i < 64,
        bit_set(d1, i) == bit_set(d2, i),
    ensures
        decoded_slot(mask, d1, i) == decoded_slot(mask, d2, i),
        bit_set(mask, i) ==> decoded_slot(mask, d1, i) == Some((2 * i + decision_of(d1, i)) as u8),
{
}

/// An internal game is absent when the child game its decision selects is
/// absent, and a settled internal game takes its selected child's identity.
pub proof fn lemma_internal_game_needs_selected_child(mask: u64, decisions: u64, i: int)
    requires
        1 <= i < 32,
    ensures
        decoded_slot(mask, decisions, 2 * i + decision_of(decisions, i)) is None ==> decoded_slot(
            mask,
            decisions,
            i,
        ) is None,
        bit_set(mask, i) ==> decoded_slot(mask, decisions, i) == decoded_slot(
            mask,
            decisions,
            2 * i + decision_of(decisions, i),
        ),
{
}

/// Every game 1 to 63 of a complete bracket resolves to a team identity.
pub proof fn lemma_complete_bracket_resolves(decisions: u64, i: int)
    requires
        1 <= i < 64,
    ensures
        decoded_slot(COMPLETE_MASK, decisions, i) is Some,
    decreases 64 - i,
{
    let ii = i as u64;
    assert(1 <= ii < 64 ==> (0xFFFF_FFFF_FFFF_FFFEu64 >> ii) & 1u64 == 1u64) by (bit_vector);
    if i < 32 {
        lemma_complete_bracket_resolves(decisions, 2 * i + decision_of(decisions, i));
    }
}

} // verus!
