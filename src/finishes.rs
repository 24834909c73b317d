//! Best achievable finish of each bracket of a pool, over every way the
//! pending games of a tournament can still go.
use vstd::prelude::*;
use std::collections::HashMap;
use crate::codec::{Bracket, COMPLETE_MASK, decoded_table};
use crate::scoring::score;

verus! {

broadcast use vstd::std_specs::hash::group_hash_axioms;

/// Worst rank that a rank record keeps: ranks 0 to 4, the top five tiers.
pub const TOP_RANK: usize = 4;

/// Number of rank tiers that a rank record reports.
pub const RANK_TIERS: usize = 5;

/// Per-key minimum of two rank records; a key on one side only keeps its
/// rank.
pub open spec fn merged(a: Map<u64, usize>, b: Map<u64, usize>) -> Map<u64, usize> {
    Map::new(
        |k: u64| a.contains_key(k) || b.contains_key(k),
        |k: u64|
            if !a.contains_key(k) {
                b[k]
            } else if !b.contains_key(k) {
                a[k]
            } else if b[k] < a[k] {
                b[k]
            } else {
                a[k]
            },
    )
}

/// Every rank of the record lies in the kept tiers.
pub open spec fn ranks_in_tiers(m: Map<u64, usize>) -> bool {
    forall|k: u64| #[trigger] m.contains_key(k) ==> m[k] <= TOP_RANK
}

/// Number of entries of `s` strictly greater than `x`.
pub open spec fn count_above(s: Seq<int>, x: int) -> nat
    decreases s.len(),
{
    if s.len() == 0 {
        0
    } else {
        count_above(s.drop_last(), x) + if s.last() > x {
            1nat
        } else {
            0nat
        }
    }
}

/// The decisions of each bracket of a pool.
pub open spec fn pool_keys(brackets: Seq<Bracket>) -> Seq<u64> {
    brackets.map_values(|b: Bracket| b.decisions)
}

/// Score of the complete bracket with decisions `key` against `slots`.
pub open spec fn key_score(key: u64, slots: Seq<Option<u8>>) -> int {
    score(decoded_table(COMPLETE_MASK, key), slots)
}

/// Scores of a pool against `slots`, in pool order.
pub open spec fn pool_scores(keys: Seq<u64>, slots: Seq<Option<u8>>) -> Seq<int> {
    keys.map_values(|k: u64| key_score(k, slots))
}

/// Competition rank of bracket `key` in the pool against `slots`: the
/// number of pool entries that score strictly more.
pub open spec fn rank_in_pool(keys: Seq<u64>, slots: Seq<Option<u8>>, key: u64) -> nat {
    count_above(pool_scores(keys, slots), key_score(key, slots))
}

/// Ranks of the first `n` pool entries that fall in the kept tiers.
pub open spec fn top_ranked_upto(keys: Seq<u64>, slots: Seq<Option<u8>>, n: int) -> Map<u64, usize> {
    Map::new(
        |k: u64|
            (exists|j: int| 0 <= j < n && keys[j] == k) && rank_in_pool(keys, slots, k)
                <= TOP_RANK,
        |k: u64| rank_in_pool(keys, slots, k) as usize,
    )
}

/// Rank record of one fully resolved outcome table.
pub open spec fn leaf_ranks(keys: Seq<u64>, slots: Seq<Option<u8>>) -> Map<u64, usize> {
    top_ranked_upto(keys, slots, keys.len() as int)
}

/// Value that game `k` takes when decision `d` is assumed for it: the
/// identity in the selected child's entry, or the team slot `2k + d` itself
/// where that child lies beyond the table.
pub open spec fn branch_value(slots: Seq<Option<u8>>, k: int, d: int) -> Option<u8> {
    let c = 2 * k + d;
    if c < slots.len() {
        slots[c]
    } else {
        Some(c as u8)
    }
}

/// Best ranks over every resolution of the pending entries `1..=k` of
/// `slots` (the entries above `k` being fixed).
pub open spec fn finishes_upto(keys: Seq<u64>, slots: Seq<Option<u8>>, k: int) -> Map<
    u64,
    usize,
>
    decreases k,
{
    if k <= 0 {
        leaf_ranks(keys, slots)
    } else if slots[k] is Some {
        finishes_upto(keys, slots, k - 1)
    } else {
        merged(
            finishes_upto(keys, slots.update(k, branch_value(slots, k, 0)), k - 1),
            finishes_upto(keys, slots.update(k, branch_value(slots, k, 1)), k - 1),
        )
    }
}

/// Best rank of each bracket of the pool over every way the pending games
/// of `slots` can still be resolved.
pub open spec fn best_finishes(keys: Seq<u64>, slots: Seq<Option<u8>>) -> Map<u64, usize> {
    if slots.len() == 0 {
        leaf_ranks(keys, slots)
    } else {
        finishes_upto(keys, slots, slots.len() - 1)
    }
}

/// Competition ranks of a list of scores: each score's rank is the number
/// of scores strictly above it, so tied scores share a rank and the next
/// lower score takes its position in the descending order.
pub fn competition_ranks(scores: &[usize]) -> (r: Vec<usize>)
    ensures
        r@.len() == scores@.len(),
        forall|j: int|
            0 <= j < r@.len() ==> r@[j] == count_above(
                scores@.map_values(|x: usize| x as int),
                scores@[j] as int,
            ),
{
    let ghost s = scores@.map_values(|x: usize| x as int);
    let mut ranks: Vec<usize> = Vec::new();
    let mut j: usize = 0;
    while j < scores.len()
        invariant
            j <= scores@.len(),
            s == scores@.map_values(|x: usize| x as int),
            ranks@.len() == j,
            forall|jj: int| 0 <= jj < j ==> ranks@[jj] == count_above(s, scores@[jj] as int),
        decreases scores@.len() - j,
    {
        let x = scores[j];
        let mut above: usize = 0;
        let mut i: usize = 0;
        while i < scores.len()
            invariant
                i <= scores@.len(),
                j < scores@.len(),
                x == scores@[j as int],
                s == scores@.map_values(|x: usize| x as int),
                above == count_above(s.take(i as int), x as int),
                above <= i,
            decreases scores@.len() - i,
        {
            assert(s.take(i + 1).drop_last() =~= s.take(i as int));
            if scores[i] > x {
                above = above + 1;
            }
            i = i + 1;
        }
        assert(s.take(scores@.len() as int) =~= s);
        ranks.push(above);
        j = j + 1;
    }
    ranks
}

/// Best rank reached by each bracket, keyed by the bracket's decisions.
pub struct BestFinishes {
    pub possible_finishes: HashMap<u64, usize>,
}

impl View for BestFinishes {
    type V = Map<u64, usize>;

    open spec fn view(&self) -> Map<u64, usize> {
        self.possible_finishes@
    }
}

impl BestFinishes {
    /// An empty rank record.
    pub fn new() -> (r: BestFinishes)
        ensures
            r@ == Map::<u64, usize>::empty(),
    {
        BestFinishes { possible_finishes: HashMap::new() }
    }

    /// Folds `other` into this record, keeping for each bracket the lower
    /// of its two ranks.
    pub fn merge(&mut self, other: BestFinishes)
        ensures
            final(self)@ == merged(old(self)@, other@),
            ranks_in_tiers(old(self)@) && ranks_in_tiers(other@) ==> ranks_in_tiers(final(self)@),
    {
        assert(vstd::std_specs::hash::obeys_key_model::<u64>());
        let ghost a0 = self@;
        let ghost b = other@;
        for (k, v) in it: other.possible_finishes.iter()
            invariant
                b == other@,
                self@ == merged(a0, b.restrict(seen_keys(it.seq(), it.index() as int))),
                forall|i: int|
                    0 <= i < it.seq().len() ==> b.contains_key(*it.seq()[i].0) && b[*it.seq()[i].0]
                        == *it.seq()[i].1,
                it.index() == it.seq().len() ==> self@ == merged(a0, b),
        {
            let current_rank = self.possible_finishes.get(k);
            if current_rank.is_none() || *current_rank.unwrap() > *v {
                self.possible_finishes.insert(*k, *v);
            }
            assert(seen_keys(it.seq(), it.index() + 1) =~= seen_keys(it.seq(), it.index() as int).insert(*k));
            assert(self@ =~= merged(a0, b.restrict(seen_keys(it.seq(), it.index() + 1))));
            assert(it.index() + 1 == it.seq().len() ==> seen_keys(it.seq(), it.seq().len() as int) =~= b.dom());
            assert(b.restrict(b.dom()) =~= b);
        }
    }

    /// The brackets of each rank tier 0 to 4, in tier order; the order
    /// inside a tier is unspecified.
    pub fn rankings(&self) -> (r: Vec<Vec<Bracket>>)
        ensures
            r@.len() == RANK_TIERS,
            forall|t: int, b: Bracket|
                0 <= t < RANK_TIERS ==> (#[trigger] r@[t]@.contains(b) <==> (self@.contains_key(
                    b.decisions,
                ) && self@[b.decisions] == t)),
            forall|t: int| 0 <= t < RANK_TIERS ==> (#[trigger] r@[t]@).no_duplicates(),
    {
        let mut ret: Vec<Vec<Bracket>> = Vec::new();
        let mut t: usize = 0;
        while t < RANK_TIERS
            invariant
                t <= RANK_TIERS,
                ret@.len() == t,
                forall|tt: int, b: Bracket|
                    0 <= tt < t ==> (#[trigger] ret@[tt]@.contains(b) <==> (self@.contains_key(
                        b.decisions,
                    ) && self@[b.decisions] == tt)),
                forall|tt: int| 0 <= tt < t ==> (#[trigger] ret@[tt]@).no_duplicates(),
            decreases RANK_TIERS - t,
        {
            let tier = self.tier(t);
            ret.push(tier);
            t = t + 1;
        }
        ret
    }

    /// The brackets whose rank is `t`.
    fn tier(&self, t: usize) -> (r: Vec<Bracket>)
        ensures
            forall|b: Bracket|
                #[trigger] r@.contains(b) <==> (self@.contains_key(b.decisions) && self@[b.decisions]
                    == t),
            r@.no_duplicates(),
    {
        assert(vstd::std_specs::hash::obeys_key_model::<u64>());
        let ghost m = self@;
        let mut tier: Vec<Bracket> = Vec::new();
        for (k, rank) in it: self.possible_finishes.iter()
            invariant
                m == self@,
                forall|i: int|
                    0 <= i < it.seq().len() ==> m.contains_key(*it.seq()[i].0) && m[*it.seq()[i].0]
                        == *it.seq()[i].1,
                it.seq().no_duplicates(),
                forall|b: Bracket|
                    #[trigger] tier@.contains(b) <==> (exists|i: int|
                        0 <= i < it.index() && *it.seq()[i].0 == b.decisions && *it.seq()[i].1 == t),
                tier@.no_duplicates(),
                it.index() == it.seq().len() ==> forall|b: Bracket|
                    #[trigger] tier@.contains(b) <==> (m.contains_key(b.decisions) && m[b.decisions] == t),
        {
            assert(*it.seq()[it.index() as int].0 == *k && *it.seq()[it.index() as int].1 == *rank);
            assert(forall|i: int| 0 <= i < it.index() ==> *it.seq()[i].0 != *k);
            let ghost before = tier@;
            if *rank == t {
                tier.push(Bracket { decisions: *k });
                assert(!before.contains(Bracket { decisions: *k }));
            }
            assert forall|b: Bracket| #[trigger] tier@.contains(b) <==> (exists|i: int|
                0 <= i < it.index() + 1 && *it.seq()[i].0 == b.decisions && *it.seq()[i].1 == t) by {
                if b.decisions == *k && *rank == t {
                    assert(tier@.last() == b);
                    assert(tier@.contains(b));
                } else if *rank == t {
                    assert(tier@ == before.push(Bracket { decisions: *k }));
                    if tier@.contains(b) {
                        let w = choose|w: int| 0 <= w < tier@.len() && tier@[w] == b;
                        assert(w < before.len());
                        assert(before[w] == b);
                    }
                    if before.contains(b) {
                        let w = choose|w: int| 0 <= w < before.len() && before[w] == b;
                        assert(tier@[w] == b);
                    }
                }
            }
        }
        tier
    }

    /// Best rank of each bracket of `brackets` over every resolution of the
    /// pending (`None`) entries of `tournament_team_slots` at indices 1 and up.
    /// The table is used as a scratch buffer and is given back unchanged.
    pub fn calc(brackets: &[Bracket], tournament_team_slots: &mut [Option<u8>]) -> (r: BestFinishes)
        requires
            old(tournament_team_slots)@.len() <= 64,
        ensures
            final(tournament_team_slots)@ == old(tournament_team_slots)@,
            r@ == best_finishes(pool_keys(brackets@), old(tournament_team_slots)@),
            ranks_in_tiers(r@),
    {
        let n = tournament_team_slots.len();
        if n == 0 {
            BestFinishes::leaf(brackets, tournament_team_slots)
        } else {
            BestFinishes::calc_upto(brackets, tournament_team_slots, n - 1)
        }
    }

    fn calc_upto(brackets: &[Bracket], slots: &mut [Option<u8>], k: usize) -> (r: BestFinishes)
        requires
            old(slots)@.len() <= 64,
            k < old(slots)@.len(),
        ensures
            final(slots)@ == old(slots)@,
            r@ == finishes_upto(pool_keys(brackets@), old(slots)@, k as int),
            ranks_in_tiers(r@),
        decreases k,
    {
        if k == 0 {
            return BestFinishes::leaf(brackets, slots);
        }
        if slots[k].is_some() {
            return BestFinishes::calc_upto(brackets, slots, k - 1);
        }
        let ghost s0 = slots@;
        let left = branch_entry(slots, k, 0);
        slots[k] = left;
        assert(slots@ == s0.update(k as int, branch_value(s0, k as int, 0)));
        let child_results = BestFinishes::calc_upto(brackets, slots, k - 1);
        let mut best_finishes = BestFinishes::new();
        best_finishes.merge(child_results);
        let right = branch_entry(slots, k, 1);
        slots[k] = right;
        assert(slots@ == s0.update(k as int, branch_value(s0, k as int, 1)));
        let child_results = BestFinishes::calc_upto(brackets, slots, k - 1);
        best_finishes.merge(child_results);
        slots[k] = None;
        assert(slots@ =~= s0);
        proof {
            lemma_merge_empty(finishes_upto(pool_keys(brackets@), s0.update(k as int, branch_value(s0, k as int, 0)), k - 1));
        }
        best_finishes
    }

    /// Rank record of a fully resolved table: competition ranks of the pool's
    /// scores, keeping the top tiers.
    fn leaf(brackets: &[Bracket], slots: &[Option<u8>]) -> (r: BestFinishes)
        requires
            slots@.len() <= 64,
        ensures
            r@ == leaf_ranks(pool_keys(brackets@), slots@),
            ranks_in_tiers(r@),
    {
        let ghost keys = pool_keys(brackets@);
        let mut scores: Vec<usize> = Vec::new();
        let mut j: usize = 0;
        while j < brackets.len()
            invariant
                j <= brackets@.len(),
                keys == pool_keys(brackets@),
                slots@.len() <= 64,
                scores@.len() == j,
                forall|jj: int| 0 <= jj < j ==> scores@[jj] as int == key_score(keys[jj], slots@),
            decreases brackets@.len() - j,
        {
            scores.push(brackets[j].points_for_decisions(slots));
            j = j + 1;
        }
        assert(scores@.map_values(|x: usize| x as int) =~= pool_scores(keys, slots@));
        let ranks = competition_ranks(scores.as_slice());
        let mut best_finishes = BestFinishes::new();
        assert(vstd::std_specs::hash::obeys_key_model::<u64>());
        let mut j: usize = 0;
        while j < brackets.len()
            invariant
                j <= brackets@.len(),
                keys == pool_keys(brackets@),
                ranks@.len() == brackets@.len(),
                forall|jj: int| 0 <= jj < ranks@.len() ==> ranks@[jj] == rank_in_pool(keys, slots@, #[trigger] keys[jj]),
                best_finishes@ == top_ranked_upto(keys, slots@, j as int),
            decreases brackets@.len() - j,
        {
            let rank = ranks[j];
            let key = brackets[j].decisions;
            assert(keys[j as int] == key);
            assert(rank == rank_in_pool(keys, slots@, key));
            let ghost before = best_finishes@;
            if rank <= TOP_RANK {
                best_finishes.possible_finishes.insert(key, rank);
            }
            proof {
                let next = top_ranked_upto(keys, slots@, j + 1);
                assert forall|k: u64| #[trigger] best_finishes@.contains_key(k) implies next.contains_key(k) by {
                    if k != key {
                        assert(before.contains_key(k));
                        let w = choose|w: int| 0 <= w < j && keys[w] == k;
                        assert(0 <= w < j + 1 && keys[w] == k);
                    }
                }
                assert forall|k: u64| #[trigger] next.contains_key(k) implies best_finishes@.contains_key(k) by {
                    if k != key {
                        let w = choose|w: int| 0 <= w < j + 1 && keys[w] == k;
                        assert(w != j);
                        assert(before.contains_key(k));
                    }
                }
                assert(best_finishes@ =~= next);
            }
            j = j + 1;
        }
        best_finishes
    }
}

/// Entry that game `k` of `slots` takes when decision `d` is assumed for it.
fn branch_entry(slots: &[Option<u8>], k: usize, d: usize) -> (r: Option<u8>)
    requires
        slots@.len() <= 64,
        1 <= k < slots@.len(),
        d <= 1,
    ensures
        r == branch_value(slots@, k as int, d as int),
{
    let c = 2 * k + d;
    if c < slots.len() {
        slots[c]
    } else {
        Some(c as u8)
    }
}

/// Keys among the first `n` entries of an iteration over a map.
pub open spec fn seen_keys(s: Seq<(&u64, &usize)>, n: int) -> Set<u64> {
    Set::new(|k: u64| exists|i: int| 0 <= i < n && *s[i].0 == k)
}

/// Merging a rank record into an empty one gives that record.
pub proof fn lemma_merge_empty(a: Map<u64, usize>)
    ensures
        merged(Map::empty(), a) == a,
{
    assert(merged(Map::empty(), a) =~= a);
}

/// Merging keeps, for each bracket, the minimum of its ranks over both
/// records, holds the union of their brackets, and does not depend on the
/// order of the two records.
pub proof fn lemma_merge_minimum(a: Map<u64, usize>, b: Map<u64, usize>, k: u64)
    ensures
        merged(a, b).contains_key(k) <==> a.contains_key(k) || b.contains_key(k),
        a.contains_key(k) ==> merged(a, b)[k] <= a[k],
        b.contains_key(k) ==> merged(a, b)[k] <= b[k],
        merged(a, b).contains_key(k) ==> (a.contains_key(k) && merged(a, b)[k] == a[k]) || (
        b.contains_key(k) && merged(a, b)[k] == b[k]),
        merged(a, b) == merged(b, a),
{
    assert(merged(a, b) =~= merged(b, a));
}

} // verus!

verus! {

/// Entries `lo + 1 ..= hi` that are already resolved add no branching: the
/// search from `hi` is the search from `lo`.
pub proof fn lemma_resolved_entries_skip(keys: Seq<u64>, slots: Seq<Option<u8>>, lo: int, hi: int)
    requires
        0 <= lo <= hi < slots.len(),
        forall|i: int| lo < i <= hi ==> (#[trigger] slots[i]) is Some,
    ensures
        finishes_upto(keys, slots, hi) == finishes_upto(keys, slots, lo),
    decreases hi - lo,
{
    if lo < hi {
        lemma_resolved_entries_skip(keys, slots, lo, hi - 1);
    }
}

/// With every game resolved, the best finishes are the ranks of that one
/// outcome.
pub proof fn lemma_settled_table_is_leaf(keys: Seq<u64>, slots: Seq<Option<u8>>)
    requires
        forall|i: int| 1 <= i < slots.len() ==> (#[trigger] slots[i]) is Some,
    ensures
        best_finishes(keys, slots) == leaf_ranks(keys, slots),
{
    if slots.len() > 0 {
        lemma_resolved_entries_skip(keys, slots, 0, slots.len() - 1);
    }
}

/// With exactly one pending game `k`, the best finishes are the merge of the
/// ranks of the two outcomes in which `k` is decided each way.
pub proof fn lemma_one_pending_game(keys: Seq<u64>, slots: Seq<Option<u8>>, k: int)
    requires
        1 <= k < slots.len() <= 64,
        slots[k] is None,
        forall|i: int| 1 <= i < slots.len() && i != k ==> (#[trigger] slots[i]) is Some,
    ensures
        best_finishes(keys, slots) == merged(
            leaf_ranks(keys, slots.update(k, branch_value(slots, k, 0))),
            leaf_ranks(keys, slots.update(k, branch_value(slots, k, 1))),
        ),
{
    lemma_resolved_entries_skip(keys, slots, k, slots.len() - 1);
    let s0 = slots.update(k, branch_value(slots, k, 0));
    let s1 = slots.update(k, branch_value(slots, k, 1));
    assert forall|i: int| 0 < i <= k - 1 implies (#[trigger] s0[i]) is Some by {}
    assert forall|i: int| 0 < i <= k - 1 implies (#[trigger] s1[i]) is Some by {}
    lemma_resolved_entries_skip(keys, s0, 0, k - 1);
    lemma_resolved_entries_skip(keys, s1, 0, k - 1);
}

} // verus!
