//! What a matching cycle does, step by step.
//!
//! A cycle goes through a list of players in the order of their waits. Each
//! player in turn is the anchor: if ten players are free within the anchor's
//! tolerance, the ten closest to the anchor in rating form a match.

use vstd::prelude::*;

use crate::balance::{abs, MATCH_SIZE};
use crate::clock::{calendar_reads, stamp_at, Clock, Stamp, TimeSource};
use crate::config::Config;
use crate::match_id::match_id_text;
use crate::metrics::{wrapped_sum, Metrics};
use crate::player::{relaxed_range, waited, PlayerEntry};
use crate::pool::{all_free, distinct_ids, is_snapshot, waiting_in};
use crate::record::{average_wait, is_match_of, pushed, GameMatch};

verus! {

/// What outlives a cycle: the queue, the number of the next match, the metrics
/// and the latest matches.
pub struct QueueState {
    pub pool: Map<Seq<char>, PlayerEntry>,
    pub next_seq: u64,
    pub metrics: Metrics,
    pub recent: Seq<GameMatch>,
}

/// The state within a cycle: beside what outlives it, which of the listed
/// players are out of consideration.
pub struct CycleState {
    pub queue: QueueState,
    pub used: Seq<bool>,
}

/// A match formed in a cycle: the positions of its players in the list, closest
/// to the anchor first, and its record.
pub struct Formed {
    pub group: Seq<usize>,
    /// When its players' waits were taken.
    pub now: u64,
    pub record: GameMatch,
}

/// The listed players, the settings and a time. Players and settings stay the same
/// throughout a cycle; of a cycle as a whole, the time is that of its beginning.
pub struct Round {
    pub players: Seq<PlayerEntry>,
    pub config: Config,
    pub now: u64,
}

/// The players are listed in the order of their ratings.
pub open spec fn sorted_by_mmr(players: Seq<PlayerEntry>) -> bool {
    forall|i: int, j: int| 0 <= i <= j < players.len() ==> (#[trigger] players[i]).mmr <= (#[trigger] players[j]).mmr
}

/// `order` names each of the first `n` positions once.
pub open spec fn is_permutation(order: Seq<usize>, n: nat) -> bool {
    &&& order.len() == n
    &&& order.no_duplicates()
    &&& forall|k: int| 0 <= k < order.len() ==> (#[trigger] order[k]) < n
}

/// The players of `snapshot` in the given order.
pub open spec fn rearranged(snapshot: Seq<PlayerEntry>, order: Seq<usize>) -> Seq<PlayerEntry> {
    order.map_values(|i: usize| snapshot[i as int])
}

/// `listed` holds the players of `snapshot` in the order of their ratings.
pub open spec fn is_sorted_copy(snapshot: Seq<PlayerEntry>, listed: Seq<PlayerEntry>) -> bool {
    &&& sorted_by_mmr(listed)
    &&& exists|order: Seq<usize>| #[trigger] is_permutation(order, snapshot.len()) && listed == rearranged(snapshot, order)
}

/// The order in which players become anchors: longest wait first.
pub open spec fn is_priority_order(players: Seq<PlayerEntry>, now: u64, order: Seq<usize>) -> bool {
    &&& is_permutation(order, players.len())
    &&& forall|k: int, l: int| 0 <= k <= l < order.len() ==>
        waited(players[(#[trigger] order[k]) as int].joined_at, now)
            >= waited(players[(#[trigger] order[l]) as int].joined_at, now)
}

/// The players at the given positions.
pub open spec fn members_at(players: Seq<PlayerEntry>, group: Seq<usize>) -> Seq<PlayerEntry> {
    group.map_values(|i: usize| players[i as int])
}

/// The ids of the players at the given positions.
pub open spec fn names_at(players: Seq<PlayerEntry>, group: Seq<usize>) -> Seq<Seq<char>> {
    group.map_values(|i: usize| players[i as int].player_id@)
}

impl Round {
    /// The same players and settings at another time.
    pub open spec fn at(self, now: u64) -> Round {
        Round { now, ..self }
    }

    /// The rating tolerance of the player at position `a`.
    pub open spec fn range(self, a: usize) -> u64 {
        relaxed_range(
            self.config.base_mmr_range,
            self.config.relaxation_rate_per_sec,
            self.config.max_mmr_range,
            waited(self.players[a as int].joined_at, self.now),
        )
    }

    /// How far the rating of player `i` is from that of player `a`.
    pub open spec fn distance(self, a: usize, i: usize) -> int {
        abs(self.players[i as int].mmr - self.players[a as int].mmr)
    }

    /// Whether player `i` may be matched around anchor `a`: within the anchor's
    /// tolerance, not out of consideration, in the queue and waiting.
    pub open spec fn is_available(self, st: CycleState, a: usize, i: usize) -> bool {
        &&& i < self.players.len()
        &&& self.distance(a, i) <= self.range(a)
        &&& !st.used[i as int]
        &&& waiting_in(st.queue.pool, self.players[i as int].player_id@)
    }

    /// Those of the first `n` listed players who may be matched around anchor `a`.
    pub open spec fn available(self, st: CycleState, a: usize, n: nat) -> Seq<usize>
        decreases n,
    {
        if n == 0 {
            Seq::empty()
        } else {
            let rest = self.available(st, a, (n - 1) as nat);
            if self.is_available(st, a, (n - 1) as usize) {
                rest.push((n - 1) as usize)
            } else {
                rest
            }
        }
    }

    /// How many players may be matched around anchor `a`.
    pub open spec fn available_count(self, st: CycleState, a: usize) -> nat {
        self.available(st, a, self.players.len()).len()
    }

    /// `group` is ten of those available, closest to the anchor first, and none
    /// of the others available is closer than one of them.
    pub open spec fn is_closest_group(self, st: CycleState, a: usize, group: Seq<usize>) -> bool {
        &&& group.len() == MATCH_SIZE
        &&& group.no_duplicates()
        &&& forall|k: int| 0 <= k < group.len() ==> self.is_available(st, a, #[trigger] group[k])
        &&& forall|k: int, l: int| 0 <= k <= l < group.len() ==>
            self.distance(a, #[trigger] group[k]) <= self.distance(a, #[trigger] group[l])
        &&& forall|k: int, i: usize| 0 <= k < group.len() && #[trigger] self.is_available(st, a, i) && !group.contains(i) ==>
            self.distance(a, #[trigger] group[k]) <= self.distance(a, i)
    }

    /// The players at the given positions.
    pub open spec fn members(self, group: Seq<usize>) -> Seq<PlayerEntry> {
        members_at(self.players, group)
    }

    /// The ids of the players at the given positions.
    pub open spec fn names(self, group: Seq<usize>) -> Seq<Seq<char>> {
        names_at(self.players, group)
    }

    /// The anchor is still free: not out of consideration, in the queue and waiting.
    pub open spec fn anchor_free(self, st: CycleState, a: usize) -> bool {
        &&& !st.used[a as int]
        &&& waiting_in(st.queue.pool, self.players[a as int].player_id@)
    }

    /// `record` is the match of a group, under the next number and with the time of
    /// a stamp in its id and in its field for the time.
    pub open spec fn is_record_at(
        self,
        queue: QueueState,
        group: Seq<usize>,
        stamp: Stamp,
        record: GameMatch,
    ) -> bool {
        &&& is_match_of(record, self.members(group))
        &&& record.match_id@ == match_id_text(stamp.micros as nat, queue.next_seq as nat)
        &&& record.timestamp_ms == stamp.millis
    }

    /// `record` is the match of a group, under the next number and with the time of
    /// one reading of the calendar clock.
    pub open spec fn is_next_record(self, queue: QueueState, group: Seq<usize>, record: GameMatch) -> bool {
        exists|reading: Option<u128>| calendar_reads(reading)
            && self.is_record_at(queue, group, #[trigger] stamp_at(reading), record)
    }

    /// The queue after the match of a group: its players have left, and the match
    /// has been counted and listed.
    pub open spec fn committed(self, queue: QueueState, group: Seq<usize>, record: GameMatch) -> QueueState {
        QueueState {
            pool: queue.pool.remove_keys(self.names(group).to_set()),
            next_seq: wrapped_sum(queue.next_seq, 1),
            metrics: queue.metrics.after_match(record.quality_score, average_wait(self.members(group), self.now)),
            recent: pushed(queue.recent, record),
        }
    }

    /// `outcome` is a right outcome for anchor `a`. A match is formed exactly if
    /// the anchor is free and at least ten players are available; it is then the
    /// match of ten of them that are closest, under the next number.
    pub open spec fn step_ok(self, st: CycleState, a: usize, outcome: Option<Formed>) -> bool {
        let can_form = self.anchor_free(st, a) && self.available_count(st, a) >= MATCH_SIZE;
        match outcome {
            Some(f) => {
                &&& can_form
                &&& self.is_closest_group(st, a, f.group)
                &&& self.is_next_record(st.queue, f.group, f.record)
            },
            None => !can_form,
        }
    }

    /// The state after anchor `a` has had the given outcome. The players of a
    /// match leave the queue. An anchor who turned out not to be free is out of
    /// consideration.
    pub open spec fn step(self, st: CycleState, a: usize, outcome: Option<Formed>) -> CycleState {
        match outcome {
            Some(f) => CycleState {
                queue: self.at(f.now).committed(st.queue, f.group, f.record),
                used: marked(st.used, f.group),
            },
            None => if !st.used[a as int] && !self.anchor_free(st, a) {
                CycleState { used: st.used.update(a as int, true), ..st }
            } else {
                st
            },
        }
    }

    /// The state before the first anchor: nobody is out of consideration.
    pub open spec fn start(self, queue: QueueState) -> CycleState {
        CycleState { queue, used: Seq::new(self.players.len(), |i: int| false) }
    }

    /// The state after the first `k` anchors of `order` have had their outcomes.
    pub open spec fn run(
        self,
        queue: QueueState,
        order: Seq<usize>,
        outcomes: Seq<Option<Formed>>,
        k: nat,
    ) -> CycleState
        decreases k,
    {
        if k == 0 {
            self.start(queue)
        } else {
            self.step(self.run(queue, order, outcomes, (k - 1) as nat), order[k - 1], outcomes[k - 1])
        }
    }

    /// The first `outcomes.len()` anchors of `order` have had right outcomes, each
    /// with the tolerance of its own time.
    pub open spec fn run_ok(
        self,
        queue: QueueState,
        order: Seq<usize>,
        times: Seq<u64>,
        outcomes: Seq<Option<Formed>>,
    ) -> bool {
        &&& times.len() == outcomes.len() <= order.len()
        &&& forall|k: int| 0 <= k < outcomes.len() ==>
            self.at(times[k]).step_ok(self.run(queue, order, outcomes, k as nat), order[k], #[trigger] outcomes[k])
    }

    /// A whole cycle: every player has been the anchor, in the order of their waits
    /// when the cycle began.
    pub open spec fn cycle_ok(
        self,
        queue: QueueState,
        order: Seq<usize>,
        times: Seq<u64>,
        outcomes: Seq<Option<Formed>>,
    ) -> bool {
        &&& is_priority_order(self.players, self.now, order)
        &&& outcomes.len() == order.len()
        &&& self.run_ok(queue, order, times, outcomes)
    }

    /// What a whole cycle leaves behind.
    pub open spec fn result(
        self,
        queue: QueueState,
        order: Seq<usize>,
        outcomes: Seq<Option<Formed>>,
    ) -> QueueState {
        self.run(queue, order, outcomes, outcomes.len()).queue
    }
}

/// `outcome` is a right outcome for anchor `a`, and brings `before` to `after`.
pub open spec fn step_with(
    round: Round,
    before: CycleState,
    a: usize,
    outcome: Option<Formed>,
    after: CycleState,
) -> bool {
    &&& round.step_ok(before, a, outcome)
    &&& after == round.step(before, a, outcome)
}

/// Forming the match `record` of a group at a stamp brings the queue from `before`
/// to `after`.
pub open spec fn commit_at_with(
    round: Round,
    before: QueueState,
    group: Seq<usize>,
    stamp: Stamp,
    record: GameMatch,
    after: QueueState,
) -> bool {
    &&& round.is_record_at(before, group, stamp, record)
    &&& after == round.committed(before, group, record)
}

/// An attempt to form a match of a group at a stamp: it is won exactly if its
/// players are all in the queue and waiting, and no id is in it twice. An attempt
/// that is not won changes nothing.
pub open spec fn is_commit_at(
    round: Round,
    before: QueueState,
    group: Seq<usize>,
    stamp: Stamp,
    after: QueueState,
    won: bool,
) -> bool {
    &&& won == all_free(before.pool, round.names(group))
    &&& won ==> exists|record: GameMatch| #[trigger] commit_at_with(round, before, group, stamp, record, after)
    &&& !won ==> after == before
}

/// Forming the match `record` of a group brings the queue from `before` to `after`.
pub open spec fn commit_with(
    round: Round,
    before: QueueState,
    group: Seq<usize>,
    record: GameMatch,
    after: QueueState,
) -> bool {
    &&& round.is_next_record(before, group, record)
    &&& after == round.committed(before, group, record)
}

/// An attempt to form a match of a group at the time that one reading of the
/// calendar clock gives: it is won exactly if its players are all in the queue and
/// waiting, and no id is in it twice. An attempt that is not won changes nothing.
pub open spec fn is_commit(
    round: Round,
    before: QueueState,
    group: Seq<usize>,
    after: QueueState,
    won: bool,
) -> bool {
    &&& won == all_free(before.pool, round.names(group))
    &&& won ==> exists|record: GameMatch| #[trigger] commit_with(round, before, group, record, after)
    &&& !won ==> after == before
}

/// The positions that are out of consideration once those of `group` are too.
pub open spec fn marked(used: Seq<bool>, group: Seq<usize>) -> Seq<bool> {
    Seq::new(used.len(), |i: int| used[i] || group.contains(i as usize))
}

/// How many of the outcomes are matches.
pub open spec fn formed_count(outcomes: Seq<Option<Formed>>) -> nat
    decreases outcomes.len(),
{
    if outcomes.len() == 0 {
        0
    } else {
        formed_count(outcomes.drop_last()) + (if outcomes.last() is Some {
            1nat
        } else {
            0nat
        })
    }
}

/// A cycle over the players of `snapshot`, listed by rating, takes the queue from
/// `before` to `after` and forms `formed` matches, where the anchors come in the
/// given order, at the given times, and have the given outcomes.
pub open spec fn is_cycle_with(
    snapshot: Seq<PlayerEntry>,
    round: Round,
    before: QueueState,
    after: QueueState,
    formed: nat,
    order: Seq<usize>,
    times: Seq<u64>,
    outcomes: Seq<Option<Formed>>,
) -> bool {
    &&& is_sorted_copy(snapshot, round.players)
    &&& round.cycle_ok(before, order, times, outcomes)
    &&& after == round.result(before, order, outcomes)
    &&& formed == formed_count(outcomes)
}

/// Every time in a cycle comes from the source: that of its beginning, that of each
/// anchor's turn and that of each match.
pub open spec fn times_from(
    source: TimeSource,
    clock: Clock,
    round: Round,
    times: Seq<u64>,
    outcomes: Seq<Option<Formed>>,
) -> bool {
    &&& source.gives(clock, round.now)
    &&& forall|k: int| 0 <= k < times.len() ==> source.gives(clock, #[trigger] times[k])
    &&& forall|k: int| 0 <= k < outcomes.len() ==>
        ((#[trigger] outcomes[k]) matches Some(f) ==> source.gives(clock, f.now))
}

/// A cycle over the players of `snapshot`, with times from the given source, takes
/// the queue from `before` to `after` and forms `formed` matches.
pub open spec fn is_cycle(
    snapshot: Seq<PlayerEntry>,
    config: Config,
    source: TimeSource,
    clock: Clock,
    before: QueueState,
    after: QueueState,
    formed: nat,
) -> bool {
    exists|round: Round, order: Seq<usize>, times: Seq<u64>, outcomes: Seq<Option<Formed>>| {
        &&& #[trigger] is_cycle_with(snapshot, round, before, after, formed, order, times, outcomes)
        &&& round.config == config
        &&& times_from(source, clock, round, times, outcomes)
    }
}

/// A cycle over all waiting players, with times from the given source, takes the
/// queue from `before` to `after` and forms `formed` matches. With fewer than ten of
/// them nothing happens.
pub open spec fn is_queue_cycle(
    config: Config,
    source: TimeSource,
    clock: Clock,
    before: QueueState,
    after: QueueState,
    formed: nat,
) -> bool {
    exists|snapshot: Seq<PlayerEntry>| {
        &&& #[trigger] is_snapshot(before.pool, snapshot)
        &&& snapshot.len() < MATCH_SIZE ==> formed == 0 && after == before
        &&& snapshot.len() >= MATCH_SIZE ==> is_cycle(snapshot, config, source, clock, before, after, formed)
    }
}

/// The state after some anchors depends on their outcomes alone.
pub proof fn lemma_run_prefix(
    round: Round,
    queue: QueueState,
    order: Seq<usize>,
    outcomes: Seq<Option<Formed>>,
    more: Seq<Option<Formed>>,
    k: nat,
)
    requires
        k <= outcomes.len() <= more.len(),
        forall|i: int| 0 <= i < outcomes.len() ==> outcomes[i] == #[trigger] more[i],
    ensures
        round.run(queue, order, more, k) == round.run(queue, order, outcomes, k),
    decreases k,
{
    if k > 0 {
        lemma_run_prefix(round, queue, order, outcomes, more, (k - 1) as nat);
        assert(outcomes[k - 1] == more[k - 1]);
    }
}

/// One more right outcome extends a run.
pub proof fn lemma_run_extends(
    round: Round,
    queue: QueueState,
    order: Seq<usize>,
    times: Seq<u64>,
    outcomes: Seq<Option<Formed>>,
    time: u64,
    outcome: Option<Formed>,
)
    requires
        round.run_ok(queue, order, times, outcomes),
        outcomes.len() < order.len(),
        round.at(time).step_ok(round.run(queue, order, outcomes, outcomes.len()), order[outcomes.len() as int], outcome),
    ensures
        round.run_ok(queue, order, times.push(time), outcomes.push(outcome)),
        round.run(queue, order, outcomes.push(outcome), outcomes.len() + 1)
            == round.step(round.run(queue, order, outcomes, outcomes.len()), order[outcomes.len() as int], outcome),
        formed_count(outcomes.push(outcome)) == formed_count(outcomes) + (if outcome is Some {
            1nat
        } else {
            0nat
        }),
{
    let more = outcomes.push(outcome);
    let more_times = times.push(time);
    assert(more.drop_last() =~= outcomes);
    lemma_run_prefix(round, queue, order, outcomes, more, outcomes.len());
    assert forall|k: int| 0 <= k < more.len() implies
        round.at(more_times[k]).step_ok(round.run(queue, order, more, k as nat), order[k], #[trigger] more[k]) by {
        lemma_run_prefix(round, queue, order, outcomes, more, k as nat);
        if k < outcomes.len() {
            assert(more[k] == outcomes[k]);
        }
    }
}

/// A group names nobody twice.
pub proof fn lemma_names_distinct(round: Round, st: CycleState, a: usize, group: Seq<usize>)
    requires
        distinct_ids(round.players),
        round.is_closest_group(st, a, group),
    ensures
        round.names(group).no_duplicates(),
{
    let names = round.names(group);
    assert forall|k: int, l: int| 0 <= k < names.len() && 0 <= l < names.len() && k != l implies names[k] != names[l] by {
        assert(round.is_available(st, a, group[k]));
        assert(round.is_available(st, a, group[l]));
        let i = group[k] as int;
        let j = group[l] as int;
        assert(i != j);
        if i < j {
            assert(round.players[i].player_id@ != round.players[j].player_id@);
        } else {
            assert(round.players[j].player_id@ != round.players[i].player_id@);
        }
    }
}

/// Players with different ids still have different ids when listed by rating.
pub proof fn lemma_sorted_copy_is_distinct(snapshot: Seq<PlayerEntry>, listed: Seq<PlayerEntry>)
    requires
        is_sorted_copy(snapshot, listed),
        distinct_ids(snapshot),
    ensures
        distinct_ids(listed),
{
    let order = choose|order: Seq<usize>| #[trigger] is_permutation(order, snapshot.len()) && listed == rearranged(snapshot, order);
    assert forall|i: int, j: int| 0 <= i < j < listed.len()
        implies (#[trigger] listed[i]).player_id@ != (#[trigger] listed[j]).player_id@ by {
        let x = order[i] as int;
        let y = order[j] as int;
        assert(x != y);
        if x < y {
            assert(snapshot[x].player_id@ != snapshot[y].player_id@);
        } else {
            assert(snapshot[y].player_id@ != snapshot[x].player_id@);
        }
    }
}

/// The list of those available holds exactly those, in ascending order.
pub proof fn lemma_available_is_listed(round: Round, st: CycleState, a: usize, n: nat)
    requires
        n <= round.players.len() <= usize::MAX,
    ensures
        forall|i: usize| #[trigger] round.available(st, a, n).contains(i) <==> i < n && round.is_available(st, a, i),
        forall|k: int, l: int| 0 <= k < l < round.available(st, a, n).len() ==>
            (#[trigger] round.available(st, a, n)[k]) < (#[trigger] round.available(st, a, n)[l]),
    decreases n,
{
    let all = round.available(st, a, n);
    if n > 0 {
        let m = (n - 1) as nat;
        let rest = round.available(st, a, m);
        lemma_available_is_listed(round, st, a, m);
        let last = (n - 1) as usize;
        assert(all == if round.is_available(st, a, last) {
            rest.push(last)
        } else {
            rest
        });
        assert forall|i: usize| #[trigger] all.contains(i) <==> i < n && round.is_available(st, a, i) by {
            if all.contains(i) {
                let k = choose|k: int| 0 <= k < all.len() && all[k] == i;
                if k < rest.len() {
                    assert(rest[k] == i);
                    assert(rest.contains(i));
                } else {
                    assert(i == last);
                }
            }
            if i < n && round.is_available(st, a, i) {
                if i == m {
                    assert(all[rest.len() as int] == i);
                } else {
                    assert(rest.contains(i));
                    let k = choose|k: int| 0 <= k < rest.len() && rest[k] == i;
                    assert(all[k] == i);
                }
            }
        }
        assert forall|k: int, l: int| 0 <= k < l < all.len() implies (#[trigger] all[k]) < (#[trigger] all[l]) by {
            if l < rest.len() {
                assert(rest[k] < rest[l]);
            } else {
                assert(rest.contains(rest[k]));
                assert(all[k] == rest[k]);
                assert(all[l] == last);
            }
        }
    }
}

} // verus!
