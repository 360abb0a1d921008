//! What holds of each turn of a cycle, said of the players, the queue and the settings
//! themselves.

use vstd::prelude::*;

use crate::clock::{calendar_reads, stamp_at, Stamp};
use crate::cycle::{
    commit_at_with, commit_with, formed_count, is_commit, is_commit_at, is_permutation, is_priority_order, is_sorted_copy,
    lemma_available_is_listed, marked, rearranged, CycleState, Formed, QueueState, Round,
};
use crate::engine::MatchmakingEngine;
use crate::fixed::SECOND;
use crate::match_id::match_id_text;
use crate::pass::{CyclePass, Plan};
use crate::player::{PlayerEntry, STATE_WAITING};
use crate::pool::{all_free, waiting_in};
use crate::record::{average_wait, is_match_of, GameMatch};

verus! {

/// The tolerance of an anchor, said in full.
proof fn lemma_tolerance(round: Round, a: usize, tolerance: int)
    requires
        tolerance == ({
            let wait = if round.now >= round.players[a as int].joined_at {
                round.now - round.players[a as int].joined_at
            } else {
                0
            };
            let grown = round.config.base_mmr_range + wait * round.config.relaxation_rate_per_sec / (SECOND as int);
            if grown < round.config.max_mmr_range {
                grown
            } else {
                round.config.max_mmr_range as int
            }
        }),
    ensures
        round.range(a) == tolerance,
{
    assert(0 * round.config.relaxation_rate_per_sec == 0) by (nonlinear_arith);
    let wait = if round.now >= round.players[a as int].joined_at {
        round.now - round.players[a as int].joined_at
    } else {
        0
    };
    assert(0 <= wait * round.config.relaxation_rate_per_sec) by (nonlinear_arith)
        requires
            wait >= 0,
    ;
}

/// Ten different players in reach of the anchor are ten who are available.
proof fn lemma_ten_are_enough(round: Round, st: CycleState, a: usize, tolerance: int, ten: Seq<usize>)
    requires
        round.players.len() <= usize::MAX,
        a < round.players.len(),
        tolerance == ({
            let wait = if round.now >= round.players[a as int].joined_at {
                round.now - round.players[a as int].joined_at
            } else {
                0
            };
            let grown = round.config.base_mmr_range + wait * round.config.relaxation_rate_per_sec / (SECOND as int);
            if grown < round.config.max_mmr_range {
                grown
            } else {
                round.config.max_mmr_range as int
            }
        }),
        ten.len() == 10,
        ten.no_duplicates(),
        forall|k: int| 0 <= k < ten.len() ==> {
            &&& (#[trigger] ten[k]) < round.players.len()
            &&& !st.used[ten[k] as int]
            &&& st.queue.pool.contains_key(round.players[ten[k] as int].player_id@)
            &&& st.queue.pool[round.players[ten[k] as int].player_id@].state == STATE_WAITING
            &&& round.players[ten[k] as int].mmr - round.players[a as int].mmr <= tolerance
            &&& round.players[a as int].mmr - round.players[ten[k] as int].mmr <= tolerance
        },
    ensures
        round.available_count(st, a) >= 10,
{
    lemma_tolerance(round, a, tolerance);
    let n = round.players.len();
    let all = round.available(st, a, n);
    lemma_available_is_listed(round, st, a, n);
    assert(all.no_duplicates()) by {
        assert forall|k: int, l: int| 0 <= k < all.len() && 0 <= l < all.len() && k != l implies all[k] != all[l] by {
            if k < l {
                assert(all[k] < all[l]);
            } else {
                assert(all[l] < all[k]);
            }
        }
    }
    assert forall|i: usize| ten.to_set().contains(i) implies all.to_set().contains(i) by {
        let k = choose|k: int| 0 <= k < ten.len() && ten[k] == i;
        assert(round.is_available(st, a, ten[k]));
        assert(all.contains(i));
    }
    ten.unique_seq_to_set();
    all.unique_seq_to_set();
    vstd::set_lib::lemma_len_subset(ten.to_set(), all.to_set());
}

/// If the anchor has not been used, is in the queue and is waiting, and so are ten
/// different listed players whose ratings are within the anchor's tolerance, then the
/// turn forms a match, whatever else their entries hold. The tolerance is the base
/// and the rate for each second waited, but at most the largest.
pub proof fn law_ten_in_reach_make_a_match(
    round: Round,
    st: CycleState,
    a: usize,
    outcome: Option<Formed>,
    tolerance: int,
    ten: Seq<usize>,
)
    requires
        round.players.len() <= usize::MAX,
        a < round.players.len(),
        round.step_ok(st, a, outcome),
        tolerance == ({
            let wait = if round.now >= round.players[a as int].joined_at {
                round.now - round.players[a as int].joined_at
            } else {
                0
            };
            let grown = round.config.base_mmr_range + wait * round.config.relaxation_rate_per_sec / (SECOND as int);
            if grown < round.config.max_mmr_range {
                grown
            } else {
                round.config.max_mmr_range as int
            }
        }),
        !st.used[a as int],
        st.queue.pool.contains_key(round.players[a as int].player_id@),
        st.queue.pool[round.players[a as int].player_id@].state == STATE_WAITING,
        ten.len() == 10,
        ten.no_duplicates(),
        forall|k: int| 0 <= k < ten.len() ==> {
            &&& (#[trigger] ten[k]) < round.players.len()
            &&& !st.used[ten[k] as int]
            &&& st.queue.pool.contains_key(round.players[ten[k] as int].player_id@)
            &&& st.queue.pool[round.players[ten[k] as int].player_id@].state == STATE_WAITING
            &&& round.players[ten[k] as int].mmr - round.players[a as int].mmr <= tolerance
            &&& round.players[a as int].mmr - round.players[ten[k] as int].mmr <= tolerance
        },
    ensures
        outcome is Some,
{
    lemma_ten_are_enough(round, st, a, tolerance, ten);
}

proof fn lemma_closest(round: Round, st: CycleState, a: usize, tolerance: int, group: Seq<usize>)
    requires
        tolerance == ({
            let wait = if round.now >= round.players[a as int].joined_at {
                round.now - round.players[a as int].joined_at
            } else {
                0
            };
            let grown = round.config.base_mmr_range + wait * round.config.relaxation_rate_per_sec / (SECOND as int);
            if grown < round.config.max_mmr_range {
                grown
            } else {
                round.config.max_mmr_range as int
            }
        }),
        round.is_closest_group(st, a, group),
    ensures
        group.len() == 10,
        group.no_duplicates(),
        forall|k: int| 0 <= k < group.len() ==> {
            &&& (#[trigger] group[k]) < round.players.len()
            &&& !st.used[group[k] as int]
            &&& st.queue.pool.contains_key(round.players[group[k] as int].player_id@)
            &&& st.queue.pool[round.players[group[k] as int].player_id@].state == STATE_WAITING
            &&& round.players[group[k] as int].mmr - round.players[a as int].mmr <= tolerance
            &&& round.players[a as int].mmr - round.players[group[k] as int].mmr <= tolerance
        },
        forall|k: int, i: usize| #![trigger group[k], round.players[i as int]] 0 <= k < group.len() && !group.contains(i) && {
            &&& i < round.players.len()
            &&& !st.used[i as int]
            &&& st.queue.pool.contains_key(round.players[i as int].player_id@)
            &&& st.queue.pool[round.players[i as int].player_id@].state == STATE_WAITING
            &&& round.players[i as int].mmr - round.players[a as int].mmr <= tolerance
            &&& round.players[a as int].mmr - round.players[i as int].mmr <= tolerance
        } ==> (if round.players[group[k] as int].mmr < round.players[a as int].mmr {
                round.players[a as int].mmr - round.players[group[k] as int].mmr
            } else {
                round.players[group[k] as int].mmr - round.players[a as int].mmr
            })
            <= (if round.players[i as int].mmr < round.players[a as int].mmr {
                round.players[a as int].mmr - round.players[i as int].mmr
            } else {
                round.players[i as int].mmr - round.players[a as int].mmr
            }),
        forall|k: int, l: int| 0 <= k <= l < group.len() ==> (if round.players[(#[trigger] group[k]) as int].mmr < round.players[a as int].mmr {
                round.players[a as int].mmr - round.players[group[k] as int].mmr
            } else {
                round.players[group[k] as int].mmr - round.players[a as int].mmr
            })
            <= (if round.players[(#[trigger] group[l]) as int].mmr < round.players[a as int].mmr {
                round.players[a as int].mmr - round.players[group[l] as int].mmr
            } else {
                round.players[group[l] as int].mmr - round.players[a as int].mmr
            }),
{
    lemma_tolerance(round, a, tolerance);
    assert forall|k: int| 0 <= k < group.len() implies {
            &&& (#[trigger] group[k]) < round.players.len()
            &&& !st.used[group[k] as int]
            &&& st.queue.pool.contains_key(round.players[group[k] as int].player_id@)
            &&& st.queue.pool[round.players[group[k] as int].player_id@].state == STATE_WAITING
            &&& round.players[group[k] as int].mmr - round.players[a as int].mmr <= tolerance
            &&& round.players[a as int].mmr - round.players[group[k] as int].mmr <= tolerance
        } by {
        assert(round.is_available(st, a, group[k]));
    }
    assert forall|k: int, i: usize| #![trigger group[k], round.players[i as int]] 0 <= k < group.len() && !group.contains(i) && {
            &&& i < round.players.len()
            &&& !st.used[i as int]
            &&& st.queue.pool.contains_key(round.players[i as int].player_id@)
            &&& st.queue.pool[round.players[i as int].player_id@].state == STATE_WAITING
            &&& round.players[i as int].mmr - round.players[a as int].mmr <= tolerance
            &&& round.players[a as int].mmr - round.players[i as int].mmr <= tolerance
        } implies (if round.players[group[k] as int].mmr < round.players[a as int].mmr {
                round.players[a as int].mmr - round.players[group[k] as int].mmr
            } else {
                round.players[group[k] as int].mmr - round.players[a as int].mmr
            })
            <= (if round.players[i as int].mmr < round.players[a as int].mmr {
                round.players[a as int].mmr - round.players[i as int].mmr
            } else {
                round.players[i as int].mmr - round.players[a as int].mmr
            }) by {
        assert(round.is_available(st, a, i));
        assert(round.distance(a, group[k]) <= round.distance(a, i));
    }
    assert forall|k: int, l: int| 0 <= k <= l < group.len() implies (if round.players[(#[trigger] group[k]) as int].mmr < round.players[a as int].mmr {
                round.players[a as int].mmr - round.players[group[k] as int].mmr
            } else {
                round.players[group[k] as int].mmr - round.players[a as int].mmr
            })
            <= (if round.players[(#[trigger] group[l]) as int].mmr < round.players[a as int].mmr {
                round.players[a as int].mmr - round.players[group[l] as int].mmr
            } else {
                round.players[group[l] as int].mmr - round.players[a as int].mmr
            }) by {
        assert(round.distance(a, group[k]) <= round.distance(a, group[l]));
    }
}

/// A match is formed only around an anchor who has not been used, is in the queue and
/// is waiting, and only of ten different listed players of whom the same holds and
/// whose ratings are within the anchor's tolerance. Nobody else of whom that holds is
/// closer to the anchor in rating than one of the ten, and the ten are listed closest
/// first. The record is the match of these ten, under the next number and with the
/// time of one reading of the calendar clock.
pub proof fn law_match_is_of_the_ten_closest(round: Round, st: CycleState, a: usize, f: Formed, tolerance: int)
    requires
        round.step_ok(st, a, Some(f)),
        tolerance == ({
            let wait = if round.now >= round.players[a as int].joined_at {
                round.now - round.players[a as int].joined_at
            } else {
                0
            };
            let grown = round.config.base_mmr_range + wait * round.config.relaxation_rate_per_sec / (SECOND as int);
            if grown < round.config.max_mmr_range {
                grown
            } else {
                round.config.max_mmr_range as int
            }
        }),
    ensures
        !st.used[a as int],
        st.queue.pool.contains_key(round.players[a as int].player_id@),
        st.queue.pool[round.players[a as int].player_id@].state == STATE_WAITING,
        ({
            let group = f.group;
            &&& group.len() == 10
            &&& group.no_duplicates()
            &&& forall|k: int| 0 <= k < group.len() ==> {
                &&& (#[trigger] group[k]) < round.players.len()
            &&& !st.used[group[k] as int]
            &&& st.queue.pool.contains_key(round.players[group[k] as int].player_id@)
            &&& st.queue.pool[round.players[group[k] as int].player_id@].state == STATE_WAITING
            &&& round.players[group[k] as int].mmr - round.players[a as int].mmr <= tolerance
            &&& round.players[a as int].mmr - round.players[group[k] as int].mmr <= tolerance
            }
            &&& forall|k: int, i: usize| #![trigger group[k], round.players[i as int]] 0 <= k < group.len() && !group.contains(i) && {
                &&& i < round.players.len()
            &&& !st.used[i as int]
            &&& st.queue.pool.contains_key(round.players[i as int].player_id@)
            &&& st.queue.pool[round.players[i as int].player_id@].state == STATE_WAITING
            &&& round.players[i as int].mmr - round.players[a as int].mmr <= tolerance
            &&& round.players[a as int].mmr - round.players[i as int].mmr <= tolerance
            } ==> (if round.players[group[k] as int].mmr < round.players[a as int].mmr {
                round.players[a as int].mmr - round.players[group[k] as int].mmr
            } else {
                round.players[group[k] as int].mmr - round.players[a as int].mmr
            })
                <= (if round.players[i as int].mmr < round.players[a as int].mmr {
                round.players[a as int].mmr - round.players[i as int].mmr
            } else {
                round.players[i as int].mmr - round.players[a as int].mmr
            })
            &&& forall|k: int, l: int| 0 <= k <= l < group.len() ==> (if round.players[(#[trigger] group[k]) as int].mmr < round.players[a as int].mmr {
                round.players[a as int].mmr - round.players[group[k] as int].mmr
            } else {
                round.players[group[k] as int].mmr - round.players[a as int].mmr
            })
                <= (if round.players[(#[trigger] group[l]) as int].mmr < round.players[a as int].mmr {
                round.players[a as int].mmr - round.players[group[l] as int].mmr
            } else {
                round.players[group[l] as int].mmr - round.players[a as int].mmr
            })
            &&& is_match_of(f.record, group.map_values(|i: usize| round.players[i as int]))
            &&& exists|reading: Option<u128>| {
                &&& calendar_reads(reading)
                &&& f.record.match_id@ == match_id_text((#[trigger] stamp_at(reading)).micros as nat, st.queue.next_seq as nat)
                &&& f.record.timestamp_ms == stamp_at(reading).millis
            }
        }),
{
    lemma_closest(round, st, a, tolerance, f.group);
    assert(f.group.map_values(|i: usize| round.players[i as int]) =~= round.members(f.group));
    let reading = choose|reading: Option<u128>| calendar_reads(reading)
        && round.is_record_at(st.queue, f.group, #[trigger] stamp_at(reading), f.record);
    assert(f.record.timestamp_ms == stamp_at(reading).millis);
}

/// What forming a match changes: exactly its players leave the queue, the number goes
/// up by one, the match is counted and averaged, and it is added to the latest.
proof fn lemma_committed(round: Round, before: QueueState, group: Seq<usize>, record: GameMatch)
    ensures
        ({
            let after = round.committed(before, group, record);
            &&& forall|id: Seq<char>| #[trigger] after.pool.contains_key(id) <==> before.pool.contains_key(id)
                && (forall|k: int| 0 <= k < group.len() ==> round.players[(#[trigger] group[k]) as int].player_id@ != id)
            &&& forall|id: Seq<char>| #[trigger] after.pool.contains_key(id) ==> after.pool[id] == before.pool[id]
            &&& after.next_seq == (before.next_seq + 1) % 0x1_0000_0000_0000_0000
            &&& before.recent.len() < 200 ==> after.recent == before.recent.push(record)
            &&& before.recent.len() >= 200 ==> after.recent == before.recent.skip(1).push(record)
            &&& after.metrics == before.metrics.after_match(
                record.quality_score,
                average_wait(group.map_values(|i: usize| round.players[i as int]), round.now),
            )
        }),
{
    let after = round.committed(before, group, record);
    let names = round.names(group);
    assert(group.map_values(|i: usize| round.players[i as int]) =~= round.members(group));
    assert forall|id: Seq<char>| names.to_set().contains(id) <==> !forall|k: int| 0 <= k < group.len() ==>
        round.players[(#[trigger] group[k]) as int].player_id@ != id by {
        if names.contains(id) {
            let k = choose|k: int| 0 <= k < names.len() && names[k] == id;
            assert(round.players[group[k] as int].player_id@ == id);
        }
        if !forall|k: int| 0 <= k < group.len() ==> round.players[(#[trigger] group[k]) as int].player_id@ != id {
            let k = choose|k: int| 0 <= k < group.len() && round.players[(#[trigger] group[k]) as int].player_id@ == id;
            assert(names[k] == id);
        }
    }
    if before.recent.len() >= 200 {
        assert(before.recent.remove(0) =~= before.recent.skip(1));
    }
}

/// What a turn changes. A match takes its ten players, and nobody else, out of the
/// queue and out of consideration, counts and averages it, and adds it to the latest.
/// A turn without a match leaves the queue as it is, and takes an anchor who is not
/// in the queue, or not waiting, out of consideration.
pub proof fn law_turn_changes_only_its_players(round: Round, st: CycleState, a: usize, outcome: Option<Formed>)
    requires
        a < round.players.len() == st.used.len(),
    ensures
        ({
            let next = round.step(st, a, outcome);
            &&& next.used.len() == st.used.len()
            &&& outcome is None ==> next.queue == st.queue
            &&& outcome is None ==> forall|i: int| 0 <= i < st.used.len() ==> #[trigger] next.used[i] == (st.used[i] || (i == a && !(
                st.queue.pool.contains_key(round.players[a as int].player_id@)
                && st.queue.pool[round.players[a as int].player_id@].state == STATE_WAITING
            )))
        }),
        outcome matches Some(f) ==> ({
            let next = round.step(st, a, outcome);
            let record = f.record;
            &&& forall|i: int| 0 <= i < st.used.len() ==> #[trigger] next.used[i] == (st.used[i] || f.group.contains(i as usize))
            &&& forall|id: Seq<char>| #[trigger] next.queue.pool.contains_key(id) <==> st.queue.pool.contains_key(id)
                && (forall|k: int| 0 <= k < f.group.len() ==> round.players[(#[trigger] f.group[k]) as int].player_id@ != id)
            &&& forall|id: Seq<char>| #[trigger] next.queue.pool.contains_key(id) ==> next.queue.pool[id] == st.queue.pool[id]
            &&& next.queue.next_seq == (st.queue.next_seq + 1) % 0x1_0000_0000_0000_0000
            &&& st.queue.recent.len() < 200 ==> next.queue.recent == st.queue.recent.push(record)
            &&& st.queue.recent.len() >= 200 ==> next.queue.recent == st.queue.recent.skip(1).push(record)
            &&& next.queue.metrics == st.queue.metrics.after_match(
                record.quality_score,
                average_wait(f.group.map_values(|i: usize| round.players[i as int]), f.now),
            )
        }),
{
    if outcome is Some {
        let f = outcome->0;
        lemma_committed(round.at(f.now), st.queue, f.group, f.record);
        assert(f.group.map_values(|i: usize| round.at(f.now).players[i as int]) =~= f.group.map_values(|i: usize| round.players[i as int]));
    }
}

/// A cycle goes turn by turn. It begins with the queue as it is and nobody out of
/// consideration, each turn starts from where the one before has left off, and the
/// outcome of each is right for its anchor at the time of that turn.
pub proof fn law_cycle_goes_turn_by_turn(
    round: Round,
    queue: QueueState,
    order: Seq<usize>,
    times: Seq<u64>,
    outcomes: Seq<Option<Formed>>,
    k: int,
)
    requires
        round.cycle_ok(queue, order, times, outcomes),
        0 <= k < round.players.len(),
    ensures
        round.run(queue, order, outcomes, 0).queue == queue,
        round.run(queue, order, outcomes, 0).used.len() == round.players.len(),
        forall|i: int| 0 <= i < round.players.len() ==> !#[trigger] round.run(queue, order, outcomes, 0).used[i],
        order.len() == round.players.len(),
        times.len() == round.players.len(),
        outcomes.len() == round.players.len(),
        round.run(queue, order, outcomes, (k + 1) as nat)
            == round.step(round.run(queue, order, outcomes, k as nat), order[k], outcomes[k]),
        (Round { players: round.players, config: round.config, now: times[k] }).step_ok(
            round.run(queue, order, outcomes, k as nat),
            order[k],
            outcomes[k],
        ),
        round.result(queue, order, outcomes) == round.run(queue, order, outcomes, round.players.len()).queue,
{
    assert(round.at(times[k]).step_ok(round.run(queue, order, outcomes, k as nat), order[k], outcomes[k]));
}

/// Everybody has one turn, and nobody who has waited less comes before somebody who
/// has waited longer.
pub proof fn law_turns_go_by_wait(players: Seq<PlayerEntry>, now: u64, order: Seq<usize>)
    requires
        is_priority_order(players, now, order),
    ensures
        order.len() == players.len(),
        order.no_duplicates(),
        forall|k: int| 0 <= k < order.len() ==> (#[trigger] order[k]) < players.len(),
        forall|k: int, l: int| 0 <= k < l < order.len() ==> {
            let first = players[(#[trigger] order[k]) as int].joined_at;
            let second = players[(#[trigger] order[l]) as int].joined_at;
            first <= second || (first >= now && second >= now)
        },
{
}

/// Listing players by rating neither adds nor drops nor changes any: `order` says
/// where in the list they were before.
pub proof fn law_listing_keeps_the_players(snapshot: Seq<PlayerEntry>, listed: Seq<PlayerEntry>) -> (order: Seq<usize>)
    requires
        is_sorted_copy(snapshot, listed),
    ensures
        listed.len() == snapshot.len(),
        order.len() == snapshot.len(),
        order.no_duplicates(),
        forall|k: int| 0 <= k < order.len() ==> (#[trigger] order[k]) < snapshot.len(),
        forall|k: int| 0 <= k < listed.len() ==> #[trigger] listed[k] == snapshot[order[k] as int],
        forall|k: int, l: int| 0 <= k < l < listed.len() ==> (#[trigger] listed[k]).mmr <= (#[trigger] listed[l]).mmr,
{
    choose|order: Seq<usize>| #[trigger] is_permutation(order, snapshot.len()) && listed == rearranged(snapshot, order)
}

/// The number of matches is the number of turns that formed one.
pub proof fn law_matches_are_counted(outcomes: Seq<Option<Formed>>)
    ensures
        Set::new(|k: int| 0 <= k < outcomes.len() && outcomes[k] is Some).finite(),
        formed_count(outcomes) == Set::new(|k: int| 0 <= k < outcomes.len() && outcomes[k] is Some).len(),
    decreases outcomes.len(),
{
    let all = Set::new(|k: int| 0 <= k < outcomes.len() && outcomes[k] is Some);
    if outcomes.len() == 0 {
        assert(all =~= Set::empty());
    } else {
        let rest = outcomes.drop_last();
        let last = outcomes.len() - 1;
        let some = Set::new(|k: int| 0 <= k < rest.len() && rest[k] is Some);
        law_matches_are_counted(rest);
        if outcomes[last] is Some {
            assert(all =~= some.insert(last));
        } else {
            assert(all =~= some);
        }
    }
}

/// An attempt to form a match is won exactly if the ids are different and each is in
/// the queue and waiting. A lost attempt changes nothing; one that is won changes what
/// the match of these players changes, and is recorded with the time of one reading
/// of the calendar clock.
pub proof fn law_attempt_is_all_or_nothing(
    round: Round,
    before: QueueState,
    group: Seq<usize>,
    after: QueueState,
    won: bool,
) -> (record: GameMatch)
    requires
        is_commit(round, before, group, after, won),
    ensures
        won == {
            &&& forall|k: int, l: int| 0 <= k < l < group.len() ==>
                round.players[(#[trigger] group[k]) as int].player_id@ != round.players[(#[trigger] group[l]) as int].player_id@
            &&& forall|k: int| 0 <= k < group.len() ==> {
                &&& before.pool.contains_key(round.players[(#[trigger] group[k]) as int].player_id@)
                &&& before.pool[round.players[group[k] as int].player_id@].state == STATE_WAITING
            }
        },
        !won ==> after == before,
        won ==> is_match_of(record, group.map_values(|i: usize| round.players[i as int])),
        won ==> exists|reading: Option<u128>| {
            &&& calendar_reads(reading)
            &&& record.match_id@ == match_id_text((#[trigger] stamp_at(reading)).micros as nat, before.next_seq as nat)
            &&& record.timestamp_ms == stamp_at(reading).millis
        },
        won ==> {
            &&& forall|id: Seq<char>| #[trigger] after.pool.contains_key(id) <==> before.pool.contains_key(id)
                && (forall|k: int| 0 <= k < group.len() ==> round.players[(#[trigger] group[k]) as int].player_id@ != id)
            &&& forall|id: Seq<char>| #[trigger] after.pool.contains_key(id) ==> after.pool[id] == before.pool[id]
            &&& after.next_seq == (before.next_seq + 1) % 0x1_0000_0000_0000_0000
            &&& before.recent.len() < 200 ==> after.recent == before.recent.push(record)
            &&& before.recent.len() >= 200 ==> after.recent == before.recent.skip(1).push(record)
            &&& after.metrics == before.metrics.after_match(
                record.quality_score,
                average_wait(group.map_values(|i: usize| round.players[i as int]), round.now),
            )
        },
{
    lemma_names_free(round, before, group);
    let record = choose|record: GameMatch| #[trigger] commit_with(round, before, group, record, after);
    if won {
        lemma_committed(round, before, group, record);
        assert(group.map_values(|i: usize| round.players[i as int]) =~= round.members(group));
        let reading = choose|reading: Option<u128>| calendar_reads(reading)
            && round.is_record_at(before, group, #[trigger] stamp_at(reading), record);
        assert(record.timestamp_ms == stamp_at(reading).millis);
    }
    record
}

/// The same of an attempt at a given time, which its record carries.
pub proof fn law_attempt_carries_its_stamp(
    round: Round,
    before: QueueState,
    group: Seq<usize>,
    stamp: Stamp,
    after: QueueState,
    won: bool,
) -> (record: GameMatch)
    requires
        is_commit_at(round, before, group, stamp, after, won),
    ensures
        won == {
            &&& forall|k: int, l: int| 0 <= k < l < group.len() ==>
                round.players[(#[trigger] group[k]) as int].player_id@ != round.players[(#[trigger] group[l]) as int].player_id@
            &&& forall|k: int| 0 <= k < group.len() ==> {
                &&& before.pool.contains_key(round.players[(#[trigger] group[k]) as int].player_id@)
                &&& before.pool[round.players[group[k] as int].player_id@].state == STATE_WAITING
            }
        },
        !won ==> after == before,
        won ==> is_match_of(record, group.map_values(|i: usize| round.players[i as int])),
        won ==> record.match_id@ == match_id_text(stamp.micros as nat, before.next_seq as nat),
        won ==> record.timestamp_ms == stamp.millis,
        won ==> {
            &&& forall|id: Seq<char>| #[trigger] after.pool.contains_key(id) <==> before.pool.contains_key(id)
                && (forall|k: int| 0 <= k < group.len() ==> round.players[(#[trigger] group[k]) as int].player_id@ != id)
            &&& forall|id: Seq<char>| #[trigger] after.pool.contains_key(id) ==> after.pool[id] == before.pool[id]
            &&& after.next_seq == (before.next_seq + 1) % 0x1_0000_0000_0000_0000
            &&& before.recent.len() < 200 ==> after.recent == before.recent.push(record)
            &&& before.recent.len() >= 200 ==> after.recent == before.recent.skip(1).push(record)
            &&& after.metrics == before.metrics.after_match(
                record.quality_score,
                average_wait(group.map_values(|i: usize| round.players[i as int]), round.now),
            )
        },
{
    lemma_names_free(round, before, group);
    let record = choose|record: GameMatch| #[trigger] commit_at_with(round, before, group, stamp, record, after);
    if won {
        lemma_committed(round, before, group, record);
        assert(group.map_values(|i: usize| round.players[i as int]) =~= round.members(group));
    }
    record
}

proof fn lemma_names_free(round: Round, queue: QueueState, group: Seq<usize>)
    ensures
        all_free(queue.pool, round.names(group)) == {
            &&& forall|k: int, l: int| 0 <= k < l < group.len() ==>
                round.players[(#[trigger] group[k]) as int].player_id@ != round.players[(#[trigger] group[l]) as int].player_id@
            &&& forall|k: int| 0 <= k < group.len() ==> {
                &&& queue.pool.contains_key(round.players[(#[trigger] group[k]) as int].player_id@)
                &&& queue.pool[round.players[group[k] as int].player_id@].state == STATE_WAITING
            }
        },
{
    let names = round.names(group);
    let different = forall|k: int, l: int| 0 <= k < l < group.len() ==>
        round.players[(#[trigger] group[k]) as int].player_id@ != round.players[(#[trigger] group[l]) as int].player_id@;
    assert(forall|k: int| 0 <= k < group.len() ==> names[k] == round.players[(#[trigger] group[k]) as int].player_id@);
    if different {
        assert forall|k: int, l: int| 0 <= k < names.len() && 0 <= l < names.len() && k != l implies names[k] != names[l] by {
            if k < l {
                assert(round.players[group[k] as int].player_id@ != round.players[group[l] as int].player_id@);
            } else {
                assert(round.players[group[l] as int].player_id@ != round.players[group[k] as int].player_id@);
            }
        }
    } else {
        let (k, l) = choose|k: int, l: int| 0 <= k < l < group.len()
            && round.players[(#[trigger] group[k]) as int].player_id@ == round.players[(#[trigger] group[l]) as int].player_id@;
        assert(names[k] == names[l]);
    }
    if all_free(queue.pool, names) {
        assert forall|k: int| 0 <= k < group.len() implies {
                &&& queue.pool.contains_key(round.players[(#[trigger] group[k]) as int].player_id@)
                &&& queue.pool[round.players[group[k] as int].player_id@].state == STATE_WAITING
            } by {
            assert(waiting_in(queue.pool, names[k]));
        }
    } else if different {
        let k = choose|k: int| 0 <= k < names.len() && !waiting_in(queue.pool, #[trigger] names[k]);
        assert(names[k] == round.players[group[k] as int].player_id@);
    }
}

/// A plan is to form a match whenever the anchor has not been used, is in the queue
/// and is waiting, and so are ten different listed players within the anchor's
/// tolerance, whatever else their entries hold.
pub proof fn law_ten_in_reach_are_planned(
    round: Round,
    st: CycleState,
    a: usize,
    plan: Plan,
    tolerance: int,
    ten: Seq<usize>,
)
    requires
        round.players.len() <= usize::MAX,
        a < round.players.len(),
        plan.is_right(round, st, a),
        tolerance == ({
            let wait = if round.now >= round.players[a as int].joined_at {
                round.now - round.players[a as int].joined_at
            } else {
                0
            };
            let grown = round.config.base_mmr_range + wait * round.config.relaxation_rate_per_sec / (SECOND as int);
            if grown < round.config.max_mmr_range {
                grown
            } else {
                round.config.max_mmr_range as int
            }
        }),
        !st.used[a as int],
        st.queue.pool.contains_key(round.players[a as int].player_id@),
        st.queue.pool[round.players[a as int].player_id@].state == STATE_WAITING,
        ten.len() == 10,
        ten.no_duplicates(),
        forall|k: int| 0 <= k < ten.len() ==> {
            &&& (#[trigger] ten[k]) < round.players.len()
            &&& !st.used[ten[k] as int]
            &&& st.queue.pool.contains_key(round.players[ten[k] as int].player_id@)
            &&& st.queue.pool[round.players[ten[k] as int].player_id@].state == STATE_WAITING
            &&& round.players[ten[k] as int].mmr - round.players[a as int].mmr <= tolerance
            &&& round.players[a as int].mmr - round.players[ten[k] as int].mmr <= tolerance
        },
    ensures
        plan is Group,
{
    lemma_ten_are_enough(round, st, a, tolerance, ten);
}

/// A plan to form a match is for a free anchor and the ten closest in reach. An anchor
/// who has not been used is dropped exactly if not in the queue or not waiting.
pub proof fn law_plan_is_for_the_ten_closest(round: Round, st: CycleState, a: usize, plan: Plan, tolerance: int)
    requires
        plan.is_right(round, st, a),
        tolerance == ({
            let wait = if round.now >= round.players[a as int].joined_at {
                round.now - round.players[a as int].joined_at
            } else {
                0
            };
            let grown = round.config.base_mmr_range + wait * round.config.relaxation_rate_per_sec / (SECOND as int);
            if grown < round.config.max_mmr_range {
                grown
            } else {
                round.config.max_mmr_range as int
            }
        }),
    ensures
        plan is Drop <==> !st.used[a as int] && !(st.queue.pool.contains_key(round.players[a as int].player_id@)
            && st.queue.pool[round.players[a as int].player_id@].state == STATE_WAITING),
        plan matches Plan::Group(positions) ==> {
            let group = positions@;
            &&& !st.used[a as int]
            &&& st.queue.pool.contains_key(round.players[a as int].player_id@)
            &&& st.queue.pool[round.players[a as int].player_id@].state == STATE_WAITING
            &&& group.len() == 10
            &&& group.no_duplicates()
            &&& forall|k: int| 0 <= k < group.len() ==> {
                &&& (#[trigger] group[k]) < round.players.len()
            &&& !st.used[group[k] as int]
            &&& st.queue.pool.contains_key(round.players[group[k] as int].player_id@)
            &&& st.queue.pool[round.players[group[k] as int].player_id@].state == STATE_WAITING
            &&& round.players[group[k] as int].mmr - round.players[a as int].mmr <= tolerance
            &&& round.players[a as int].mmr - round.players[group[k] as int].mmr <= tolerance
            }
            &&& forall|k: int, i: usize| #![trigger group[k], round.players[i as int]] 0 <= k < group.len() && !group.contains(i) && {
                &&& i < round.players.len()
            &&& !st.used[i as int]
            &&& st.queue.pool.contains_key(round.players[i as int].player_id@)
            &&& st.queue.pool[round.players[i as int].player_id@].state == STATE_WAITING
            &&& round.players[i as int].mmr - round.players[a as int].mmr <= tolerance
            &&& round.players[a as int].mmr - round.players[i as int].mmr <= tolerance
            } ==> (if round.players[group[k] as int].mmr < round.players[a as int].mmr {
                round.players[a as int].mmr - round.players[group[k] as int].mmr
            } else {
                round.players[group[k] as int].mmr - round.players[a as int].mmr
            })
                <= (if round.players[i as int].mmr < round.players[a as int].mmr {
                round.players[a as int].mmr - round.players[i as int].mmr
            } else {
                round.players[i as int].mmr - round.players[a as int].mmr
            })
        },
{
    if plan is Group {
        lemma_closest(round, st, a, tolerance, plan->Group_0@);
    }
}

/// The state that contracts speak of is the whole of the queue, the number, the
/// metrics and the latest matches, and that of a pass has its marks beside them.
pub proof fn law_states_are_complete(engine: MatchmakingEngine, pass: CyclePass, queue: QueueState, now: u64)
    ensures
        engine.state().pool == engine.pool@,
        engine.state().next_seq == engine.next_seq,
        engine.state().metrics == engine.metrics,
        engine.state().recent == engine.recent_matches@,
        pass.state(queue).queue == queue,
        pass.state(queue).used == pass.used@,
        pass.round(engine.config, now).players == pass.players@,
        pass.round(engine.config, now).config == engine.config,
        pass.round(engine.config, now).now == now,
{
}

/// Passes of the same round go over the same players in the same order.
pub proof fn law_same_round_is_the_same_list(pass: CyclePass, other: CyclePass)
    requires
        pass.same_round(&other),
    ensures
        pass.players@ == other.players@,
        pass.order@ == other.order@,
{
}

/// Marking a group takes exactly its positions out of consideration.
pub proof fn law_marks_are_the_group(used: Seq<bool>, group: Seq<usize>, i: int)
    requires
        0 <= i < used.len(),
    ensures
        marked(used, group).len() == used.len(),
        marked(used, group)[i] == (used[i] || group.contains(i as usize)),
{
}

} // verus!
