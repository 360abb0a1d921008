//! Players in the queue and the state each of them is in.

use vstd::prelude::*;

use crate::fixed::SECOND;

verus! {

/// Waiting for a match.
pub const STATE_WAITING: u8 = 0;

/// Claimed for a match that is being formed.
pub const STATE_RESERVED: u8 = 1;

/// In a match.
pub const STATE_MATCHED: u8 = 2;

/// What a client sends to join the queue.
#[derive(Debug)]
pub struct JoinRequest {
    pub player_id: String,
    /// Rating, in rating units.
    pub mmr: i64,
    pub region: String,
}

/// The region of a player who names none.
pub fn default_region() -> (region: String)
    ensures
        region@ == "us-east"@,
{
    String::from_str("us-east")
}

/// A player in the queue.
///
/// An entry outside the queue is a value of its own: changing its state does not
/// change that of the player in the queue, for which the queue has functions of its
/// own that go by id.
#[derive(Debug)]
pub struct PlayerEntry {
    pub player_id: String,
    /// Rating, in rating units.
    pub mmr: i64,
    pub region: String,
    /// When the player joined, in nanoseconds on the engine's clock.
    pub joined_at: u64,
    /// One of the three states.
    pub state: u8,
}

/// A player as listed in a match.
#[derive(Debug)]
pub struct MatchedPlayer {
    pub player_id: String,
    /// Rating, in rating units.
    pub mmr: i64,
    pub region: String,
}

impl Clone for PlayerEntry {
    fn clone(&self) -> (r: Self)
        ensures
            r == *self,
    {
        PlayerEntry {
            player_id: self.player_id.clone(),
            mmr: self.mmr,
            region: self.region.clone(),
            joined_at: self.joined_at,
            state: self.state,
        }
    }
}

impl Clone for MatchedPlayer {
    fn clone(&self) -> (r: Self)
        ensures
            r == *self,
    {
        MatchedPlayer {
            player_id: self.player_id.clone(),
            mmr: self.mmr,
            region: self.region.clone(),
        }
    }
}

/// How long a player who joined at `joined_at` has waited at `now`, in nanoseconds.
pub open spec fn waited(joined_at: u64, now: u64) -> u64 {
    if now >= joined_at {
        (now - joined_at) as u64
    } else {
        0
    }
}

/// The rating tolerance after a wait: it starts at `base`, grows by `rate` a
/// second, and stops growing at `max`.
pub open spec fn relaxed_range(base: u64, rate: u64, max: u64, wait: u64) -> u64 {
    let grown = base + wait * rate / SECOND as int;
    if grown < max {
        grown as u64
    } else {
        max
    }
}

impl PlayerEntry {
    /// Whether the player is free to be matched.
    pub open spec fn waiting(self) -> bool {
        self.state == STATE_WAITING
    }

    /// The player in another state.
    pub open spec fn in_state(self, state: u8) -> PlayerEntry {
        PlayerEntry { state, ..self }
    }

    /// A player who starts to wait at `joined_at`.
    pub fn new(player_id: String, mmr: i64, region: String, joined_at: u64) -> (entry: Self)
        ensures
            entry == (PlayerEntry { player_id, mmr, region, joined_at, state: STATE_WAITING }),
            entry.player_id == player_id,
            entry.mmr == mmr,
            entry.region == region,
            entry.joined_at == joined_at,
            entry.state == STATE_WAITING,
    {
        PlayerEntry { player_id, mmr, region, joined_at, state: STATE_WAITING }
    }

    /// How long the player has waited at `now`, in billionths of a second.
    pub fn wait_secs(&self, now: u64) -> (wait: u64)
        ensures
            wait == waited(self.joined_at, now),
            now >= self.joined_at ==> wait == now - self.joined_at,
            now < self.joined_at ==> wait == 0,
    {
        if now >= self.joined_at {
            now - self.joined_at
        } else {
            0
        }
    }

    /// The rating tolerance of this player at `now`: `base` plus `rate` for each
    /// second waited, but no more than `max`.
    pub fn effective_range(&self, base: u64, rate: u64, max: u64, now: u64) -> (range: u64)
        ensures
            range == relaxed_range(base, rate, max, waited(self.joined_at, now)),
            now >= self.joined_at ==> range == (if base + (now - self.joined_at) * rate / (SECOND as int) < max {
                base + (now - self.joined_at) * rate / (SECOND as int)
            } else {
                max as int
            }),
            now < self.joined_at ==> range == (if base < max {
                base
            } else {
                max
            }),
    {
        let wait: u64 = self.wait_secs(now);
        assert(0 * rate == 0) by (nonlinear_arith);
        assert(wait * rate <= u64::MAX * u64::MAX) by (nonlinear_arith)
            requires
                wait <= u64::MAX,
                rate <= u64::MAX,
        ;
        let grown: u128 = base as u128 + (wait as u128 * rate as u128) / SECOND as u128;
        if grown < max as u128 {
            grown as u64
        } else {
            max
        }
    }

    /// Claims this entry for a match. Succeeds only if it is waiting.
    pub fn try_reserve(&mut self) -> (won: bool)
        ensures
            won == old(self).waiting(),
            *final(self) == old(self).in_state(state_after(old(self).state, StateOp::TryReserve)),
            won == (old(self).state == STATE_WAITING),
            final(self).state == (if won {
                STATE_RESERVED
            } else {
                old(self).state
            }),
            final(self).player_id == old(self).player_id,
            final(self).mmr == old(self).mmr,
            final(self).region == old(self).region,
            final(self).joined_at == old(self).joined_at,
    {
        if self.state == STATE_WAITING {
            self.state = STATE_RESERVED;
            true
        } else {
            false
        }
    }

    /// Sets this entry back to waiting.
    pub fn release(&mut self)
        ensures
            *final(self) == old(self).in_state(state_after(old(self).state, StateOp::Release)),
            final(self).state == STATE_WAITING,
            final(self).player_id == old(self).player_id,
            final(self).mmr == old(self).mmr,
            final(self).region == old(self).region,
            final(self).joined_at == old(self).joined_at,
    {
        self.state = STATE_WAITING;
    }

    /// Marks this entry as matched.
    pub fn confirm_match(&mut self)
        ensures
            *final(self) == old(self).in_state(state_after(old(self).state, StateOp::Confirm)),
            final(self).state == STATE_MATCHED,
            final(self).player_id == old(self).player_id,
            final(self).mmr == old(self).mmr,
            final(self).region == old(self).region,
            final(self).joined_at == old(self).joined_at,
    {
        self.state = STATE_MATCHED;
    }

    /// Whether the player is free to be matched.
    pub fn is_waiting(&self) -> (b: bool)
        ensures
            b == self.waiting(),
            b == (self.state == STATE_WAITING),
    {
        self.state == STATE_WAITING
    }
}

/// The tolerance never shrinks while a player waits, starts at the base (or at the
/// largest tolerance, where that is smaller) and never exceeds the largest one.
pub proof fn law_tolerance_only_grows(base: u64, rate: u64, max: u64, earlier: u64, later: u64)
    requires
        earlier <= later,
    ensures
        relaxed_range(base, rate, max, earlier) <= relaxed_range(base, rate, max, later) <= max,
        relaxed_range(base, rate, max, 0) == (if base < max {
            base
        } else {
            max
        }),
{
    assert(0 <= earlier * rate <= later * rate) by (nonlinear_arith)
        requires
            0 <= earlier <= later,
            0 <= rate,
    ;
    assert(0 * rate == 0) by (nonlinear_arith);
}

/// A player who waits long enough has the largest tolerance: nobody is held to a
/// smaller one for ever.
pub proof fn law_tolerance_reaches_the_largest(base: u64, rate: u64, max: u64, wait: u64)
    requires
        wait * rate >= (max - base) * SECOND,
    ensures
        relaxed_range(base, rate, max, wait) == max,
{
    assert(0 <= wait * rate) by (nonlinear_arith);
    if max >= base {
        assert((wait * rate) / SECOND as int >= max - base);
    }
}

/// Something done to a player's state.
pub enum StateOp {
    /// A worker tries to claim the player.
    TryReserve,
    /// A worker gives the player back.
    Release,
    /// A worker confirms the player's match.
    Confirm,
}

/// The state after an operation.
pub open spec fn state_after(state: u8, op: StateOp) -> u8 {
    match op {
        StateOp::TryReserve => if state == STATE_WAITING {
            STATE_RESERVED
        } else {
            state
        },
        StateOp::Release => STATE_WAITING,
        StateOp::Confirm => STATE_MATCHED,
    }
}

/// The state after the first `k` of a sequence of operations.
pub open spec fn state_after_ops(state: u8, ops: Seq<StateOp>, k: nat) -> u8
    decreases k,
{
    if k == 0 {
        state
    } else {
        state_after(state_after_ops(state, ops, (k - 1) as nat), ops[k - 1])
    }
}

/// Operation `k` is a claim that succeeds.
pub open spec fn claims(state: u8, ops: Seq<StateOp>, k: int) -> bool {
    &&& 0 <= k < ops.len()
    &&& ops[k] is TryReserve
    &&& state_after_ops(state, ops, k as nat) == STATE_WAITING
}

proof fn lemma_claimed_until_release(state: u8, ops: Seq<StateOp>, i: nat, j: nat)
    requires
        i <= j <= ops.len(),
        state_after_ops(state, ops, i) != STATE_WAITING,
        forall|k: int| i <= k < j ==> !(#[trigger] ops[k] is Release),
    ensures
        state_after_ops(state, ops, j) != STATE_WAITING,
    decreases j,
{
    if i < j {
        lemma_claimed_until_release(state, ops, i, (j - 1) as nat);
        assert(!(ops[j - 1] is Release));
    }
}

/// Of all workers that try to claim a player, one wins: whatever they do, and in
/// whatever order, a second claim succeeds only after a release.
pub proof fn law_one_claim_wins(state: u8, ops: Seq<StateOp>, i: int, j: int)
    requires
        i < j,
        claims(state, ops, i),
        claims(state, ops, j),
    ensures
        exists|k: int| i < k < j && #[trigger] ops[k] is Release,
{
    assert(state_after_ops(state, ops, (i + 1) as nat) == STATE_RESERVED);
    if forall|k: int| i < k < j ==> !(#[trigger] ops[k] is Release) {
        lemma_claimed_until_release(state, ops, (i + 1) as nat, j as nat);
    }
}

} // verus!
