//! What holds of whole cycles, and of any number of workers at once.

use vstd::prelude::*;

use crate::balance::{ratings, MATCH_SIZE};
use crate::clock::{Clock, TimeSource};
use crate::config::Config;
use crate::cycle::{
    formed_count, is_commit, is_cycle, is_cycle_with, is_permutation, is_queue_cycle, is_sorted_copy, lemma_names_distinct,
    lemma_run_prefix, lemma_sorted_copy_is_distinct, times_from, CycleState, Formed, QueueState, Round,
};
use crate::fixed::SECOND;
use crate::player::{waited, PlayerEntry, STATE_WAITING};
use crate::pool::{all_free, distinct_ids, is_snapshot, joined, waiting_in, waiting_names, with_state, with_states};
use crate::record::{has_teams, highest, lemma_extremes_taken, lowest};
use crate::sorting::lemma_reaches_all;
use crate::turns::{law_cycle_goes_turn_by_turn, law_listing_keeps_the_players, law_ten_in_reach_make_a_match};

verus! {

/// How a cycle went: the players it started from, those players listed by rating
/// with the settings and the time of the beginning, the order of the anchors, the
/// times of their turns and the outcomes.
pub struct CycleTrace {
    pub snapshot: Seq<PlayerEntry>,
    pub round: Round,
    pub order: Seq<usize>,
    pub times: Seq<u64>,
    pub outcomes: Seq<Option<Formed>>,
}

/// A list of the waiting players has as many entries as there are ids waiting.
proof fn lemma_snapshot_len(pool: Map<Seq<char>, PlayerEntry>, snapshot: Seq<PlayerEntry>)
    requires
        is_snapshot(pool, snapshot),
    ensures
        waiting_names(pool).finite(),
        waiting_names(pool).len() == snapshot.len(),
{
    let ids = snapshot.map_values(|p: PlayerEntry| p.player_id@);
    assert forall|i: int, j: int| 0 <= i < ids.len() && 0 <= j < ids.len() && i != j implies ids[i] != ids[j] by {
        if i < j {
            assert(snapshot[i].player_id@ != snapshot[j].player_id@);
        } else {
            assert(snapshot[j].player_id@ != snapshot[i].player_id@);
        }
    }
    ids.unique_seq_to_set();
    assert forall|id: Seq<char>| waiting_names(pool).contains(id) <==> ids.to_set().contains(id) by {
        if waiting_names(pool).contains(id) {
            assert(waiting_in(pool, id));
            let i = choose|i: int| 0 <= i < snapshot.len() && (#[trigger] snapshot[i]).player_id@ == id;
            assert(ids[i] == id);
        }
        if ids.to_set().contains(id) {
            let i = choose|i: int| 0 <= i < ids.len() && ids[i] == id;
            assert(waiting_in(pool, snapshot[i].player_id@));
        }
    }
    assert(waiting_names(pool) =~= ids.to_set());
}

/// A cycle over the queue in which ten or more players wait is a round of right
/// outcomes over exactly those players, each of them listed once. What is said of
/// such rounds below therefore holds of it.
pub proof fn law_queue_cycle_is_a_round(
    config: Config,
    source: TimeSource,
    clock: Clock,
    before: QueueState,
    after: QueueState,
    formed: nat,
) -> (trace: CycleTrace)
    requires
        is_queue_cycle(config, source, clock, before, after, formed),
        waiting_names(before.pool).len() >= MATCH_SIZE,
    ensures
        is_snapshot(before.pool, trace.snapshot),
        forall|i: int| 0 <= i < trace.snapshot.len() ==> {
            &&& before.pool.contains_key((#[trigger] trace.snapshot[i]).player_id@)
            &&& before.pool[trace.snapshot[i].player_id@] == trace.snapshot[i]
            &&& trace.snapshot[i].state == STATE_WAITING
        },
        forall|id: Seq<char>| #[trigger] before.pool.contains_key(id) && before.pool[id].state == STATE_WAITING ==>
            exists|i: int| 0 <= i < trace.snapshot.len() && #[trigger] trace.snapshot[i] == before.pool[id],
        source matches TimeSource::At(moment) ==> {
            &&& trace.round.now == moment
            &&& forall|k: int| 0 <= k < trace.times.len() ==> #[trigger] trace.times[k] == moment
            &&& forall|k: int| 0 <= k < trace.outcomes.len() && (#[trigger] trace.outcomes[k]) is Some ==>
                trace.outcomes[k]->0.now == moment
        },
        source is Clock ==> {
            &&& clock.reads(trace.round.now)
            &&& forall|k: int| 0 <= k < trace.times.len() ==> clock.reads(#[trigger] trace.times[k])
            &&& forall|k: int| 0 <= k < trace.outcomes.len() && (#[trigger] trace.outcomes[k]) is Some ==>
                clock.reads(trace.outcomes[k]->0.now)
        },
        is_sorted_copy(trace.snapshot, trace.round.players),
        distinct_ids(trace.round.players),
        trace.round.config == config,
        trace.round.cycle_ok(before, trace.order, trace.times, trace.outcomes),
        times_from(source, clock, trace.round, trace.times, trace.outcomes),
        after == trace.round.result(before, trace.order, trace.outcomes),
        formed == formed_count(trace.outcomes),
{
    let snapshot = choose|snapshot: Seq<PlayerEntry>| {
        &&& #[trigger] is_snapshot(before.pool, snapshot)
        &&& snapshot.len() < MATCH_SIZE ==> formed == 0 && after == before
        &&& snapshot.len() >= MATCH_SIZE ==> is_cycle(snapshot, config, source, clock, before, after, formed)
    };
    lemma_snapshot_len(before.pool, snapshot);
    let (round, order, times, outcomes) = choose|
        round: Round,
        order: Seq<usize>,
        times: Seq<u64>,
        outcomes: Seq<Option<Formed>>,
    | {
        &&& #[trigger] is_cycle_with(snapshot, round, before, after, formed, order, times, outcomes)
        &&& round.config == config
        &&& times_from(source, clock, round, times, outcomes)
    };
    lemma_sorted_copy_is_distinct(snapshot, round.players);
    assert forall|id: Seq<char>| #[trigger] before.pool.contains_key(id) && before.pool[id].state == STATE_WAITING implies
        exists|i: int| 0 <= i < snapshot.len() && #[trigger] snapshot[i] == before.pool[id] by {
        assert(waiting_in(before.pool, id));
        let i = choose|i: int| 0 <= i < snapshot.len() && (#[trigger] snapshot[i]).player_id@ == id;
        assert(snapshot[i] == before.pool[id]);
    }
    assert forall|i: int| 0 <= i < snapshot.len() implies {
            &&& before.pool.contains_key((#[trigger] snapshot[i]).player_id@)
            &&& before.pool[snapshot[i].player_id@] == snapshot[i]
            &&& snapshot[i].state == STATE_WAITING
        } by {
        assert(waiting_in(before.pool, snapshot[i].player_id@));
    }
    CycleTrace { snapshot, round, order, times, outcomes }
}

/// A cycle over the queue in which fewer than ten players wait changes nothing.
pub proof fn law_small_queue_is_left_alone(
    config: Config,
    source: TimeSource,
    clock: Clock,
    before: QueueState,
    after: QueueState,
    formed: nat,
)
    requires
        is_queue_cycle(config, source, clock, before, after, formed),
        waiting_names(before.pool).len() < MATCH_SIZE,
    ensures
        formed == 0,
        after == before,
{
    let snapshot = choose|snapshot: Seq<PlayerEntry>| {
        &&& #[trigger] is_snapshot(before.pool, snapshot)
        &&& snapshot.len() < MATCH_SIZE ==> formed == 0 && after == before
        &&& snapshot.len() >= MATCH_SIZE ==> is_cycle(snapshot, config, source, clock, before, after, formed)
    };
    lemma_snapshot_len(before.pool, snapshot);
}

/// Without a match, a cycle over players who all wait leaves everything as it is.
proof fn lemma_idle_run(round: Round, queue: QueueState, order: Seq<usize>, outcomes: Seq<Option<Formed>>, k: nat)
    requires
        is_permutation(order, round.players.len()),
        k <= order.len() == outcomes.len(),
        forall|i: int| 0 <= i < outcomes.len() ==> (#[trigger] outcomes[i]) is None,
        forall|i: int| 0 <= i < round.players.len() ==> waiting_in(queue.pool, (#[trigger] round.players[i]).player_id@),
    ensures
        round.run(queue, order, outcomes, k) == round.start(queue),
    decreases k,
{
    if k > 0 {
        lemma_idle_run(round, queue, order, outcomes, (k - 1) as nat);
        let a = order[k - 1];
        assert(outcomes[k - 1] is None);
        assert(waiting_in(queue.pool, round.players[a as int].player_id@));
    }
}

proof fn lemma_none_formed(outcomes: Seq<Option<Formed>>)
    requires
        formed_count(outcomes) == 0,
    ensures
        forall|i: int| 0 <= i < outcomes.len() ==> (#[trigger] outcomes[i]) is None,
    decreases outcomes.len(),
{
    if outcomes.len() > 0 {
        let rest = outcomes.drop_last();
        lemma_none_formed(rest);
        assert forall|i: int| 0 <= i < outcomes.len() implies (#[trigger] outcomes[i]) is None by {
            if i < rest.len() {
                assert(rest[i] == outcomes[i]);
            }
        }
    }
}

/// Where a waiting player stands in the list of a cycle.
proof fn lemma_listed(pool: Map<Seq<char>, PlayerEntry>, snapshot: Seq<PlayerEntry>, listed: Seq<PlayerEntry>, id: Seq<char>) -> (i: usize)
    requires
        is_snapshot(pool, snapshot),
        is_sorted_copy(snapshot, listed),
        listed.len() <= usize::MAX,
        pool.contains_key(id),
        pool[id].state == STATE_WAITING,
    ensures
        i < listed.len(),
        listed[i as int] == pool[id],
        listed[i as int].player_id@ == id,
{
    assert(waiting_in(pool, id));
    let j = choose|j: int| 0 <= j < snapshot.len() && (#[trigger] snapshot[j]).player_id@ == id;
    assert(waiting_in(pool, snapshot[j].player_id@));
    let order = law_listing_keeps_the_players(snapshot, listed);
    lemma_reaches_all(order, snapshot.len(), j as usize);
    let i = choose|i: int| 0 <= i < order.len() && order[i] == j as usize;
    assert(listed[i] == snapshot[order[i] as int]);
    i as usize
}

/// If one player waits in the queue, and ten different ones who wait there too are
/// within that player's tolerance, then a cycle at that time forms a match, whatever
/// else their entries hold.
pub proof fn law_cycle_forms_a_match_if_it_can(
    config: Config,
    now: u64,
    clock: Clock,
    before: QueueState,
    after: QueueState,
    formed: nat,
    anchor: Seq<char>,
    tolerance: int,
    ten: Seq<Seq<char>>,
)
    requires
        is_queue_cycle(config, TimeSource::At(now), clock, before, after, formed),
        waiting_names(before.pool).len() <= usize::MAX,
        before.pool.contains_key(anchor),
        before.pool[anchor].state == STATE_WAITING,
        tolerance == ({
            let wait = if now >= before.pool[anchor].joined_at {
                now - before.pool[anchor].joined_at
            } else {
                0
            };
            let grown = config.base_mmr_range + wait * config.relaxation_rate_per_sec / (SECOND as int);
            if grown < config.max_mmr_range {
                grown
            } else {
                config.max_mmr_range as int
            }
        }),
        ten.len() == 10,
        ten.no_duplicates(),
        forall|k: int| 0 <= k < ten.len() ==> {
            &&& before.pool.contains_key(#[trigger] ten[k])
            &&& before.pool[ten[k]].state == STATE_WAITING
            &&& before.pool[ten[k]].mmr - before.pool[anchor].mmr <= tolerance
            &&& before.pool[anchor].mmr - before.pool[ten[k]].mmr <= tolerance
        },
    ensures
        formed >= 1,
{
    let some = choose|snapshot: Seq<PlayerEntry>| #[trigger] is_snapshot(before.pool, snapshot);
    lemma_snapshot_len(before.pool, some);
    ten.unique_seq_to_set();
    assert forall|id: Seq<char>| ten.to_set().contains(id) implies waiting_names(before.pool).contains(id) by {
        let k = choose|k: int| 0 <= k < ten.len() && ten[k] == id;
        assert(before.pool.contains_key(ten[k]));
    }
    vstd::set_lib::lemma_len_subset(ten.to_set(), waiting_names(before.pool));
    let trace = law_queue_cycle_is_a_round(config, TimeSource::At(now), clock, before, after, formed);
    let round = trace.round;
    lemma_snapshot_len(before.pool, trace.snapshot);
    let moved = law_listing_keeps_the_players(trace.snapshot, round.players);
    if formed == 0 {
        lemma_none_formed(trace.outcomes);
        assert forall|i: int| 0 <= i < round.players.len() implies
            waiting_in(before.pool, (#[trigger] round.players[i]).player_id@) by {
            assert(round.players[i] == trace.snapshot[moved[i] as int]);
        }
        let a = lemma_listed(before.pool, trace.snapshot, round.players, anchor);
        lemma_reaches_all(trace.order, round.players.len(), a);
        let k = choose|k: int| 0 <= k < trace.order.len() && trace.order[k] == a;
        lemma_idle_run(round, before, trace.order, trace.outcomes, k as nat);
        law_cycle_goes_turn_by_turn(round, before, trace.order, trace.times, trace.outcomes, k);
        let places = Seq::new(10, |x: int| choose|i: usize| i < round.players.len() && #[trigger] round.players[i as int].player_id@ == ten[x]);
        assert forall|x: int| 0 <= x < 10 implies (#[trigger] places[x]) < round.players.len()
            && round.players[places[x] as int] == before.pool[ten[x]] && round.players[places[x] as int].player_id@ == ten[x] by {
            let i = lemma_listed(before.pool, trace.snapshot, round.players, ten[x]);
            assert(round.players[i as int].player_id@ == ten[x]);
            let j = places[x];
            assert(round.players[j as int] == trace.snapshot[moved[j as int] as int]);
        }
        assert forall|x: int, y: int| 0 <= x < 10 && 0 <= y < 10 && x != y implies places[x] != places[y] by {
            assert(ten[x] != ten[y]);
        }
        let st = round.start(before);
        law_ten_in_reach_make_a_match(round.at(now), st, a, trace.outcomes[k], tolerance, places);
    }
}

/// The ids of all players matched by the first `k` outcomes.
pub open spec fn matched_names(round: Round, outcomes: Seq<Option<Formed>>, k: nat) -> Set<Seq<char>>
    decreases k,
{
    if k == 0 {
        Set::empty()
    } else {
        let before = matched_names(round, outcomes, (k - 1) as nat);
        match outcomes[k - 1] {
            Some(f) => before.union(round.names(f.group).to_set()),
            None => before,
        }
    }
}

/// What is in the queue and under consideration can only become less.
proof fn lemma_step_shrinks(round: Round, st: CycleState, a: usize, outcome: Option<Formed>)
    requires
        st.used.len() == round.players.len(),
        a < round.players.len(),
    ensures
        round.step(st, a, outcome).used.len() == round.players.len(),
        forall|i: int| 0 <= i < round.players.len() && st.used[i] ==> #[trigger] round.step(st, a, outcome).used[i],
        round.step(st, a, outcome).queue.pool.submap_of(st.queue.pool),
        outcome matches Some(f) ==>
            forall|id: Seq<char>| round.names(f.group).contains(id) ==>
            !#[trigger] round.step(st, a, outcome).queue.pool.contains_key(id),
{
    match outcome {
        Some(f) => {
            let names = round.names(f.group);
            assert forall|id: Seq<char>| names.contains(id)
                implies !#[trigger] round.step(st, a, outcome).queue.pool.contains_key(id) by {
                assert(names.to_set().contains(id));
            }
        },
        None => {},
    }
}

proof fn lemma_run_shrinks(
    round: Round,
    queue: QueueState,
    order: Seq<usize>,
    outcomes: Seq<Option<Formed>>,
    j: nat,
    k: nat,
)
    requires
        is_permutation(order, round.players.len()),
        j <= k <= order.len(),
    ensures
        round.run(queue, order, outcomes, k).used.len() == round.players.len(),
        forall|i: int| 0 <= i < round.players.len() && round.run(queue, order, outcomes, j).used[i] ==>
            #[trigger] round.run(queue, order, outcomes, k).used[i],
        round.run(queue, order, outcomes, k).queue.pool.submap_of(round.run(queue, order, outcomes, j).queue.pool),
    decreases k,
{
    if j < k {
        let m = (k - 1) as nat;
        lemma_run_shrinks(round, queue, order, outcomes, j, m);
        lemma_step_shrinks(round, round.run(queue, order, outcomes, m), order[k - 1], outcomes[k - 1]);
        let a = round.run(queue, order, outcomes, j);
        let b = round.run(queue, order, outcomes, m);
        let c = round.run(queue, order, outcomes, k);
        assert forall|i: int| 0 <= i < round.players.len() && a.used[i] implies #[trigger] c.used[i] by {
            assert(b.used[i]);
        }
    } else if k > 0 {
        lemma_run_shrinks(round, queue, order, outcomes, (k - 1) as nat, (k - 1) as nat);
        lemma_step_shrinks(round, round.run(queue, order, outcomes, (k - 1) as nat), order[k - 1], outcomes[k - 1]);
    }
}

/// Once matched, a player is out of consideration for the rest of the cycle.
proof fn lemma_matched_stay_used(
    round: Round,
    queue: QueueState,
    order: Seq<usize>,
    outcomes: Seq<Option<Formed>>,
    j: nat,
    k: nat,
)
    requires
        is_permutation(order, round.players.len()),
        j < k <= order.len(),
        outcomes[j as int] is Some,
    ensures
        forall|i: usize| i < round.players.len() && (#[trigger] outcomes[j as int]->0.group.contains(i)) ==>
            round.run(queue, order, outcomes, k).used[i as int],
{
    lemma_run_shrinks(round, queue, order, outcomes, j, j);
    lemma_run_shrinks(round, queue, order, outcomes, j + 1, k);
    let f = outcomes[j as int]->0;
    let next = round.run(queue, order, outcomes, j + 1);
    assert forall|i: usize| i < round.players.len() && (#[trigger] f.group.contains(i))
        implies round.run(queue, order, outcomes, k).used[i as int] by {
        assert(next.used[i as int]);
    }
}

/// Nobody is matched twice in a cycle: no two of its matches share a player, and
/// no match lists a player twice. Everyone matched was in the queue and waiting
/// when the cycle began, and is not in the queue when it has ended.
pub proof fn law_nobody_is_matched_twice(
    round: Round,
    queue: QueueState,
    order: Seq<usize>,
    times: Seq<u64>,
    outcomes: Seq<Option<Formed>>,
)
    requires
        distinct_ids(round.players),
        round.cycle_ok(queue, order, times, outcomes),
    ensures
        forall|j: int, k: int, id: Seq<char>| #![trigger outcomes[j], outcomes[k], round.names(outcomes[j]->0.group).contains(id)]
            0 <= j < k < outcomes.len() && outcomes[j] is Some && outcomes[k] is Some && round.names(outcomes[j]->0.group).contains(id)
                ==> !round.names(outcomes[k]->0.group).contains(id),
        forall|k: int| 0 <= k < outcomes.len() && #[trigger] outcomes[k] is Some ==>
            round.names(outcomes[k]->0.group).no_duplicates(),
        forall|k: int, id: Seq<char>| 0 <= k < outcomes.len() && outcomes[k] is Some && #[trigger] round.names(outcomes[k]->0.group).contains(id)
            ==> waiting_in(queue.pool, id) && !round.result(queue, order, outcomes).pool.contains_key(id),
{
    assert forall|j: int, k: int, id: Seq<char>| #![trigger outcomes[j], outcomes[k], round.names(outcomes[j]->0.group).contains(id)]
        0 <= j < k < outcomes.len() && outcomes[j] is Some && outcomes[k] is Some && round.names(outcomes[j]->0.group).contains(id)
        implies !round.names(outcomes[k]->0.group).contains(id) by {
        lemma_gone_after_match(round, queue, order, outcomes, j as nat, k as nat, id);
        if round.names(outcomes[k]->0.group).contains(id) {
            lemma_waiting_before_match(round, queue, order, outcomes, times[k], k as nat, id);
        }
    }
    assert forall|k: int| 0 <= k < outcomes.len() && #[trigger] outcomes[k] is Some
        implies round.names(outcomes[k]->0.group).no_duplicates() by {
        let st = round.run(queue, order, outcomes, k as nat);
        lemma_names_distinct(round.at(times[k]), st, order[k], outcomes[k]->0.group);
    }
    assert forall|k: int, id: Seq<char>| 0 <= k < outcomes.len() && outcomes[k] is Some && #[trigger] round.names(outcomes[k]->0.group).contains(id)
        implies waiting_in(queue.pool, id) && !round.result(queue, order, outcomes).pool.contains_key(id) by {
        lemma_waiting_before_match(round, queue, order, outcomes, times[k], k as nat, id);
        lemma_gone_after_match(round, queue, order, outcomes, k as nat, outcomes.len(), id);
    }
}

/// A player who has been matched is not in the queue for the rest of the cycle.
proof fn lemma_gone_after_match(
    round: Round,
    queue: QueueState,
    order: Seq<usize>,
    outcomes: Seq<Option<Formed>>,
    j: nat,
    k: nat,
    id: Seq<char>,
)
    requires
        is_permutation(order, round.players.len()),
        j < k <= order.len(),
        outcomes[j as int] is Some,
        round.names(outcomes[j as int]->0.group).contains(id),
    ensures
        !round.run(queue, order, outcomes, k).queue.pool.contains_key(id),
{
    lemma_run_shrinks(round, queue, order, outcomes, j, j);
    lemma_step_shrinks(round, round.run(queue, order, outcomes, j), order[j as int], outcomes[j as int]);
    lemma_run_shrinks(round, queue, order, outcomes, j + 1, k);
    let next = round.run(queue, order, outcomes, j + 1);
    let last = round.run(queue, order, outcomes, k);
    assert(!next.queue.pool.contains_key(id));
    if last.queue.pool.contains_key(id) {
        assert(last.queue.pool.dom().contains(id));
    }
}

/// A player who is matched is in the queue until then, and was there, waiting,
/// when the cycle began.
proof fn lemma_waiting_before_match(
    round: Round,
    queue: QueueState,
    order: Seq<usize>,
    outcomes: Seq<Option<Formed>>,
    time: u64,
    k: nat,
    id: Seq<char>,
)
    requires
        is_permutation(order, round.players.len()),
        k < order.len(),
        outcomes[k as int] is Some,
        round.at(time).step_ok(round.run(queue, order, outcomes, k), order[k as int], outcomes[k as int]),
        round.names(outcomes[k as int]->0.group).contains(id),
    ensures
        waiting_in(round.run(queue, order, outcomes, k).queue.pool, id),
        waiting_in(queue.pool, id),
{
    let st = round.run(queue, order, outcomes, k);
    let g = outcomes[k as int]->0.group;
    let x = choose|x: int| 0 <= x < g.len() && round.names(g)[x] == id;
    assert(round.at(time).is_available(st, order[k as int], g[x]));
    lemma_run_shrinks(round, queue, order, outcomes, 0, k);
    assert(round.run(queue, order, outcomes, 0) == round.start(queue));
    assert(st.queue.pool.dom().contains(id));
}

/// A cycle removes those it matches from the queue and leaves everyone else as
/// they are.
pub proof fn law_cycle_removes_exactly_the_matched(
    round: Round,
    queue: QueueState,
    order: Seq<usize>,
    outcomes: Seq<Option<Formed>>,
    k: nat,
)
    requires
        k <= outcomes.len(),
    ensures
        round.run(queue, order, outcomes, k).queue.pool == queue.pool.remove_keys(matched_names(round, outcomes, k)),
    decreases k,
{
    let after = round.run(queue, order, outcomes, k).queue.pool;
    if k > 0 {
        law_cycle_removes_exactly_the_matched(round, queue, order, outcomes, (k - 1) as nat);
    }
    assert(after =~= queue.pool.remove_keys(matched_names(round, outcomes, k)));
}

/// One for a match, nothing for none.
spec fn gain(outcome: Option<Formed>) -> nat {
    if outcome is Some {
        1
    } else {
        0
    }
}

proof fn lemma_step_counts(round: Round, time: u64, st: CycleState, a: usize, outcome: Option<Formed>)
    requires
        distinct_ids(round.players),
        round.at(time).step_ok(st, a, outcome),
        st.queue.pool.dom().finite(),
    ensures
        round.step(st, a, outcome).queue.pool.dom().finite(),
        round.step(st, a, outcome).queue.pool.len() + 10 * gain(outcome) == st.queue.pool.len(),
        round.step(st, a, outcome).queue.next_seq == (st.queue.next_seq + gain(outcome)) % 0x1_0000_0000_0000_0000,
        round.step(st, a, outcome).queue.metrics.matches_formed
            == (st.queue.metrics.matches_formed + gain(outcome)) % 0x1_0000_0000_0000_0000,
        round.step(st, a, outcome).queue.metrics.players_matched
            == (st.queue.metrics.players_matched + 10 * gain(outcome)) % 0x1_0000_0000_0000_0000,
        round.step(st, a, outcome).queue.metrics.cycle_count == st.queue.metrics.cycle_count,
{
    if outcome is Some {
        let f = outcome->0;
        let names = round.names(f.group);
        lemma_names_distinct(round.at(time), st, a, f.group);
        assert forall|id: Seq<char>| names.to_set().contains(id) implies st.queue.pool.dom().contains(id) by {
            let x = choose|x: int| 0 <= x < names.len() && names[x] == id;
            assert(round.at(time).is_available(st, a, f.group[x]));
        }
        names.unique_seq_to_set();
        st.queue.pool.lemma_remove_keys_len(names.to_set());
        assert(round.step(st, a, outcome).queue.pool.dom() =~= st.queue.pool.dom().difference(names.to_set()));
    }
}

/// A cycle takes ten players out of the queue for each match it forms, numbers
/// its matches one after the other, and counts them and their players.
pub proof fn law_cycle_counts(
    round: Round,
    queue: QueueState,
    order: Seq<usize>,
    times: Seq<u64>,
    outcomes: Seq<Option<Formed>>,
)
    requires
        distinct_ids(round.players),
        is_permutation(order, round.players.len()),
        round.run_ok(queue, order, times, outcomes),
        queue.pool.dom().finite(),
    ensures
        round.result(queue, order, outcomes).pool.dom().finite(),
        round.result(queue, order, outcomes).pool.len() + 10 * formed_count(outcomes) == queue.pool.len(),
        round.result(queue, order, outcomes).next_seq == (queue.next_seq + formed_count(outcomes)) % 0x1_0000_0000_0000_0000,
        round.result(queue, order, outcomes).metrics.matches_formed
            == (queue.metrics.matches_formed + formed_count(outcomes)) % 0x1_0000_0000_0000_0000,
        round.result(queue, order, outcomes).metrics.players_matched
            == (queue.metrics.players_matched + 10 * formed_count(outcomes)) % 0x1_0000_0000_0000_0000,
        round.result(queue, order, outcomes).metrics.cycle_count == queue.metrics.cycle_count,
    decreases outcomes.len(),
{
    let n = outcomes.len();
    if n > 0 {
        let rest = outcomes.drop_last();
        lemma_run_ok_prefix(round, queue, order, times, outcomes);
        law_cycle_counts(round, queue, order, times.drop_last(), rest);
        lemma_run_prefix(round, queue, order, rest, outcomes, (n - 1) as nat);
        let st = round.run(queue, order, outcomes, (n - 1) as nat);
        let g = gain(outcomes[n - 1]);
        let c = formed_count(rest);
        lemma_step_counts(round, times[n - 1], st, order[n - 1], outcomes[n - 1]);
        assert(formed_count(outcomes) == c + g);
        lemma_wrapped_twice(queue.next_seq as int, c as int, g as int);
        lemma_wrapped_twice(queue.metrics.matches_formed as int, c as int, g as int);
        lemma_wrapped_twice(queue.metrics.players_matched as int, (10 * c) as int, (10 * g) as int);
    }
}

proof fn lemma_wrapped_twice(x: int, c: int, g: int)
    ensures
        ((x + c) % 0x1_0000_0000_0000_0000 + g) % 0x1_0000_0000_0000_0000 == (x + (c + g)) % 0x1_0000_0000_0000_0000,
{
}

proof fn lemma_run_ok_prefix(
    round: Round,
    queue: QueueState,
    order: Seq<usize>,
    times: Seq<u64>,
    outcomes: Seq<Option<Formed>>,
)
    requires
        round.run_ok(queue, order, times, outcomes),
        outcomes.len() > 0,
    ensures
        round.run_ok(queue, order, times.drop_last(), outcomes.drop_last()),
        round.at(times[outcomes.len() - 1]).step_ok(
            round.run(queue, order, outcomes, (outcomes.len() - 1) as nat),
            order[outcomes.len() - 1],
            outcomes[outcomes.len() - 1],
        ),
{
    let rest = outcomes.drop_last();
    let rest_times = times.drop_last();
    assert forall|k: int| 0 <= k < rest.len() implies
        round.at(rest_times[k]).step_ok(round.run(queue, order, rest, k as nat), order[k], #[trigger] rest[k]) by {
        lemma_run_prefix(round, queue, order, rest, outcomes, k as nat);
        assert(outcomes[k] == rest[k]);
    }
    assert(round.at(times[outcomes.len() - 1]).step_ok(
        round.run(queue, order, outcomes, (outcomes.len() - 1) as nat),
        order[outcomes.len() - 1],
        outcomes[outcomes.len() - 1],
    ));
}

/// The anchor of a match plays in it, unless ten others have exactly the anchor's
/// rating.
pub proof fn law_anchor_plays_or_ten_are_equal(round: Round, st: CycleState, a: usize, f: Formed)
    requires
        a < round.players.len(),
        round.step_ok(st, a, Some(f)),
    ensures
        f.group.contains(a) || forall|k: int| 0 <= k < f.group.len() ==>
            round.players[(#[trigger] f.group[k]) as int].mmr == round.players[a as int].mmr,
{
    if !f.group.contains(a) {
        assert(round.is_available(st, a, a));
        assert forall|k: int| 0 <= k < f.group.len()
            implies round.players[(#[trigger] f.group[k]) as int].mmr == round.players[a as int].mmr by {
            assert(round.distance(a, f.group[k]) <= round.distance(a, a));
        }
    }
}

/// All players of a match are within the anchor's tolerance, so their ratings are
/// no further apart than twice that, and never further than twice the largest
/// tolerance.
pub proof fn law_match_is_within_tolerance(round: Round, st: CycleState, a: usize, f: Formed)
    requires
        a < round.players.len(),
        round.step_ok(st, a, Some(f)),
    ensures
        forall|k: int| 0 <= k < f.group.len() ==> round.distance(a, #[trigger] f.group[k]) <= round.range(a),
        f.record.mmr_spread <= 2 * round.range(a),
        round.range(a) <= round.config.max_mmr_range,
{
    let group = round.members(f.group);
    let mmrs = ratings(group);
    let (x, y) = choose|x: Seq<usize>, y: Seq<usize>| has_teams(f.record, group, x, y);
    assert forall|k: int| 0 <= k < f.group.len() implies round.distance(a, #[trigger] f.group[k]) <= round.range(a) by {
        assert(round.is_available(st, a, f.group[k]));
    }
    lemma_extremes_taken(mmrs, MATCH_SIZE as nat);
    let low = choose|i: int| 0 <= i < MATCH_SIZE && #[trigger] mmrs[i] == lowest(mmrs, MATCH_SIZE as nat);
    let high = choose|i: int| 0 <= i < MATCH_SIZE && #[trigger] mmrs[i] == highest(mmrs, MATCH_SIZE as nat);
    assert(round.distance(a, f.group[low]) <= round.range(a));
    assert(round.distance(a, f.group[high]) <= round.range(a));
}

/// The player who had waited longest when the cycle began has the first turn: if
/// that player is in the queue and waiting, and ten are available within the
/// tolerance at that turn, a match is formed around that player before any other.
pub proof fn law_longest_wait_is_served_first(
    round: Round,
    queue: QueueState,
    order: Seq<usize>,
    times: Seq<u64>,
    outcomes: Seq<Option<Formed>>,
    a: usize,
)
    requires
        round.cycle_ok(queue, order, times, outcomes),
        a < round.players.len(),
        forall|i: int| 0 <= i < round.players.len() && i != a ==>
            waited((#[trigger] round.players[i]).joined_at, round.now) < waited(round.players[a as int].joined_at, round.now),
    ensures
        order[0] == a,
        outcomes[0] is Some <==> {
            &&& waiting_in(queue.pool, round.players[a as int].player_id@)
            &&& round.at(times[0]).available_count(round.start(queue), a) >= MATCH_SIZE
        },
{
    let first = order[0];
    lemma_reaches_all(order, round.players.len(), a);
    let k = choose|k: int| 0 <= k < order.len() && order[k] == a;
    assert(order[0] < round.players.len());
    if first != a {
        assert(waited(round.players[order[0] as int].joined_at, round.now)
            >= waited(round.players[order[k] as int].joined_at, round.now));
        assert(waited(round.players[first as int].joined_at, round.now) < waited(round.players[a as int].joined_at, round.now));
    }
    assert(round.run(queue, order, outcomes, 0) == round.start(queue));
    assert(round.at(times[0]).step_ok(round.run(queue, order, outcomes, 0), order[0], outcomes[0]));
}

/// Who waits in a part of the queue waits in the queue.
proof fn lemma_waiting_in_part(
    part: Map<Seq<char>, PlayerEntry>,
    whole: Map<Seq<char>, PlayerEntry>,
    id: Seq<char>,
)
    requires
        part.submap_of(whole),
        waiting_in(part, id),
    ensures
        waiting_in(whole, id),
{
    assert(part.dom().contains(id) ==> whole.dom().contains(id));
}

/// Who is available later was available before.
proof fn lemma_available_shrinks(round: Round, early: CycleState, late: CycleState, a: usize, n: nat)
    requires
        n <= round.players.len(),
        round.players.len() <= usize::MAX,
        late.queue.pool.submap_of(early.queue.pool),
        forall|i: int| 0 <= i < round.players.len() && early.used[i] ==> #[trigger] late.used[i],
    ensures
        round.available(late, a, n).len() <= round.available(early, a, n).len(),
    decreases n,
{
    if n > 0 {
        lemma_available_shrinks(round, early, late, a, (n - 1) as nat);
        let i = (n - 1) as usize;
        if round.is_available(late, a, i) {
            let id = round.players[i as int].player_id@;
            lemma_waiting_in_part(late.queue.pool, early.queue.pool, id);
            assert(!late.used[i as int]);
            assert(round.is_available(early, a, i));
        }
    }
}

/// A cycle leaves no match behind that it could have formed: once it has ended,
/// for each listed player who is still free, fewer than ten players are available
/// within the tolerance that the player had at their turn, unless that turn formed
/// a match of ten others with exactly the same rating.
pub proof fn law_cycle_leaves_no_match_behind(
    round: Round,
    queue: QueueState,
    order: Seq<usize>,
    times: Seq<u64>,
    outcomes: Seq<Option<Formed>>,
    a: usize,
)
    requires
        round.players.len() <= usize::MAX,
        round.cycle_ok(queue, order, times, outcomes),
        a < round.players.len(),
        round.anchor_free(round.run(queue, order, outcomes, outcomes.len()), a),
    ensures
        exists|k: int| {
            &&& 0 <= k < outcomes.len()
            &&& #[trigger] order[k] == a
            &&& {
                ||| round.at(times[k]).available_count(round.run(queue, order, outcomes, outcomes.len()), a) < MATCH_SIZE
                ||| outcomes[k] matches Some(f) && forall|i: int| 0 <= i < f.group.len() ==>
                    round.players[(#[trigger] f.group[i]) as int].mmr == round.players[a as int].mmr
            }
        },
{
    lemma_reaches_all(order, round.players.len(), a);
    let k = choose|k: int| 0 <= k < order.len() && order[k] == a;
    assert(round.at(times[k]).step_ok(round.run(queue, order, outcomes, k as nat), order[k], outcomes[k]));
    lemma_free_after_turn(round, queue, order, outcomes, times[k], k as nat);
}

/// What the turn of a player was like who is free at the end.
proof fn lemma_free_after_turn(
    round: Round,
    queue: QueueState,
    order: Seq<usize>,
    outcomes: Seq<Option<Formed>>,
    time: u64,
    k: nat,
)
    requires
        round.players.len() <= usize::MAX,
        is_permutation(order, round.players.len()),
        outcomes.len() == order.len(),
        k < order.len(),
        round.at(time).step_ok(round.run(queue, order, outcomes, k), order[k as int], outcomes[k as int]),
        round.anchor_free(round.run(queue, order, outcomes, outcomes.len()), order[k as int]),
    ensures
        outcomes[k as int] is None ==>
            round.at(time).available_count(round.run(queue, order, outcomes, outcomes.len()), order[k as int]) < MATCH_SIZE,
        outcomes[k as int] matches Some(f) ==> forall|i: int| 0 <= i < f.group.len() ==>
            round.players[(#[trigger] f.group[i]) as int].mmr == round.players[order[k as int] as int].mmr,
{
    let a = order[k as int];
    let early = round.run(queue, order, outcomes, k);
    let late = round.run(queue, order, outcomes, outcomes.len());
    lemma_run_shrinks(round, queue, order, outcomes, k, outcomes.len());
    lemma_waiting_in_part(late.queue.pool, early.queue.pool, round.players[a as int].player_id@);
    if early.used[a as int] {
        assert(late.used[a as int]);
    }
    match outcomes[k as int] {
        Some(f) => {
            law_anchor_plays_or_ten_are_equal(round.at(time), early, a, f);
            if f.group.contains(a) {
                lemma_matched_stay_used(round, queue, order, outcomes, k, outcomes.len());
                assert(outcomes[k as int]->0.group.contains(a));
            }
        },
        None => {
            lemma_available_shrinks(round.at(time), early, late, a, round.players.len());
        },
    }
}

/// A cycle leaves nobody waiting who could have played: if a listed player has not
/// been used, is in the queue and is waiting when the cycle has ended, and so are ten
/// different listed players within the tolerance that the player had at their turn,
/// then that turn formed a match of ten others with exactly the same rating.
pub proof fn law_nobody_left_could_have_played(
    round: Round,
    queue: QueueState,
    order: Seq<usize>,
    times: Seq<u64>,
    outcomes: Seq<Option<Formed>>,
    k: int,
    a: usize,
    tolerance: int,
    ten: Seq<usize>,
)
    requires
        round.players.len() <= usize::MAX,
        round.cycle_ok(queue, order, times, outcomes),
        0 <= k < order.len(),
        a == order[k],
        tolerance == ({
            let wait = if times[k] >= round.players[a as int].joined_at {
                times[k] - round.players[a as int].joined_at
            } else {
                0
            };
            let grown = round.config.base_mmr_range + wait * round.config.relaxation_rate_per_sec / (SECOND as int);
            if grown < round.config.max_mmr_range {
                grown
            } else {
                round.config.max_mmr_range as int
            }
        }),
        ({
            let end = round.run(queue, order, outcomes, outcomes.len());
            &&& !end.used[a as int]
            &&& end.queue.pool.contains_key(round.players[a as int].player_id@)
            &&& end.queue.pool[round.players[a as int].player_id@].state == STATE_WAITING
            &&& forall|x: int| 0 <= x < ten.len() ==> {
                &&& (#[trigger] ten[x]) < round.players.len()
                &&& !end.used[ten[x] as int]
                &&& end.queue.pool.contains_key(round.players[ten[x] as int].player_id@)
                &&& end.queue.pool[round.players[ten[x] as int].player_id@].state == STATE_WAITING
                &&& round.players[ten[x] as int].mmr - round.players[a as int].mmr <= tolerance
                &&& round.players[a as int].mmr - round.players[ten[x] as int].mmr <= tolerance
            }
        }),
        ten.len() == 10,
        ten.no_duplicates(),
    ensures
        outcomes[k] is Some,
        outcomes[k]->0.group.len() == 10,
        !outcomes[k]->0.group.contains(a),
        forall|i: int| 0 <= i < 10 ==>
            round.players[(#[trigger] outcomes[k]->0.group[i]) as int].mmr == round.players[a as int].mmr,
{
    let early = round.run(queue, order, outcomes, k as nat);
    let end = round.run(queue, order, outcomes, outcomes.len());
    let turn = round.at(times[k]);
    assert(turn.step_ok(early, order[k], outcomes[k]));
    lemma_run_shrinks(round, queue, order, outcomes, k as nat, outcomes.len());
    lemma_waiting_in_part(end.queue.pool, early.queue.pool, round.players[a as int].player_id@);
    if early.used[a as int] {
        assert(end.used[a as int]);
    }
    assert forall|x: int| 0 <= x < ten.len() implies {
            &&& (#[trigger] ten[x]) < turn.players.len()
            &&& !early.used[ten[x] as int]
            &&& early.queue.pool.contains_key(turn.players[ten[x] as int].player_id@)
            &&& early.queue.pool[turn.players[ten[x] as int].player_id@].state == STATE_WAITING
        } by {
        lemma_waiting_in_part(end.queue.pool, early.queue.pool, round.players[ten[x] as int].player_id@);
        if early.used[ten[x] as int] {
            assert(end.used[ten[x] as int]);
        }
    }
    law_ten_in_reach_make_a_match(turn, early, a, outcomes[k], tolerance, ten);
    lemma_free_after_turn(round, queue, order, outcomes, times[k], k as nat);
    if outcomes[k]->0.group.contains(a) {
        lemma_matched_stay_used(round, queue, order, outcomes, k as nat, outcomes.len());
    }
}

/// Something that happens to the queue.
pub enum QueueEvent {
    /// A player asks to join.
    Join { entry: PlayerEntry },
    /// A player asks to leave.
    Leave { id: Seq<char> },
    /// A worker tries to form a match of the named players.
    Match { names: Seq<Seq<char>> },
    /// A player is claimed, given back or confirmed.
    SetState { id: Seq<char>, state: u8 },
    /// Several players are claimed, given back or confirmed.
    SetStates { names: Seq<Seq<char>>, state: u8 },
    /// Players are removed.
    Evict { names: Seq<Seq<char>> },
}

/// The queue after an event.
pub open spec fn after_event(
    pool: Map<Seq<char>, PlayerEntry>,
    event: QueueEvent,
) -> Map<Seq<char>, PlayerEntry> {
    match event {
        QueueEvent::Join { entry } => joined(pool, entry),
        QueueEvent::Leave { id } => pool.remove(id),
        QueueEvent::Match { names } => if all_free(pool, names) {
            pool.remove_keys(names.to_set())
        } else {
            pool
        },
        QueueEvent::SetState { id, state } => with_state(pool, id, state),
        QueueEvent::SetStates { names, state } => with_states(pool, names, state),
        QueueEvent::Evict { names } => pool.remove_keys(names.to_set()),
    }
}

/// An attempt to form a match, won or lost, is one event of the queue.
pub proof fn law_commit_is_one_event(
    round: Round,
    before: QueueState,
    group: Seq<usize>,
    after: QueueState,
    won: bool,
)
    requires
        is_commit(round, before, group, after, won),
    ensures
        after.pool == after_event(before.pool, QueueEvent::Match { names: round.names(group) }),
        won == all_free(before.pool, round.names(group)),
{
}

/// The queue after the first `k` of a sequence of events.
pub open spec fn after_events(
    pool: Map<Seq<char>, PlayerEntry>,
    events: Seq<QueueEvent>,
    k: nat,
) -> Map<Seq<char>, PlayerEntry>
    decreases k,
{
    if k == 0 {
        pool
    } else {
        after_event(after_events(pool, events, (k - 1) as nat), events[k - 1])
    }
}

/// Event `k` is a match that was formed, with the player called `id` in it.
pub open spec fn matches_player(
    pool: Map<Seq<char>, PlayerEntry>,
    events: Seq<QueueEvent>,
    k: int,
    id: Seq<char>,
) -> bool {
    &&& 0 <= k < events.len()
    &&& events[k] matches QueueEvent::Match { names } && names.contains(id) && all_free(after_events(pool, events, k as nat), names)
}

/// Event `k` is the player called `id` asking to join.
pub open spec fn joins_player(events: Seq<QueueEvent>, k: int, id: Seq<char>) -> bool {
    events[k] matches QueueEvent::Join { entry } && entry.player_id@ == id
}

proof fn lemma_absent_until_join(
    pool: Map<Seq<char>, PlayerEntry>,
    events: Seq<QueueEvent>,
    i: nat,
    j: nat,
    id: Seq<char>,
)
    requires
        i <= j <= events.len(),
        !after_events(pool, events, i).contains_key(id),
        forall|k: int| i <= k < j ==> !#[trigger] joins_player(events, k, id),
    ensures
        !after_events(pool, events, j).contains_key(id),
    decreases j,
{
    if i < j {
        lemma_absent_until_join(pool, events, i, (j - 1) as nat, id);
        assert(!joins_player(events, j - 1, id));
    }
}

/// However many workers form matches while players come and go, and whatever else
/// is done to the queue, each player is in one match only: whoever is matched twice
/// has joined again in between.
pub proof fn law_rematched_only_after_joining_again(
    pool: Map<Seq<char>, PlayerEntry>,
    events: Seq<QueueEvent>,
    i: int,
    j: int,
    id: Seq<char>,
)
    requires
        i < j,
        matches_player(pool, events, i, id),
        matches_player(pool, events, j, id),
    ensures
        exists|k: int| i < k < j && #[trigger] joins_player(events, k, id),
{
    let names = events[i]->Match_names;
    assert(names.to_set().contains(id));
    assert(!after_events(pool, events, (i + 1) as nat).contains_key(id));
    let later = events[j]->Match_names;
    let x = choose|x: int| 0 <= x < later.len() && later[x] == id;
    assert(waiting_in(after_events(pool, events, j as nat), later[x]));
    if forall|k: int| i < k < j ==> !#[trigger] joins_player(events, k, id) {
        lemma_absent_until_join(pool, events, (i + 1) as nat, j as nat, id);
    }
}

/// Leaving undoes joining: a player who was not in the queue, joins and leaves,
/// leaves the queue as it was.
pub proof fn law_leaving_undoes_joining(pool: Map<Seq<char>, PlayerEntry>, entry: PlayerEntry)
    requires
        !pool.contains_key(entry.player_id@),
    ensures
        joined(pool, entry).remove(entry.player_id@) == pool,
{
    assert(joined(pool, entry).remove(entry.player_id@) =~= pool);
}

/// Joining a second time changes nothing, whatever else the second request says.
pub proof fn law_joining_twice_is_joining_once(
    pool: Map<Seq<char>, PlayerEntry>,
    entry: PlayerEntry,
    again: PlayerEntry,
)
    requires
        again.player_id@ == entry.player_id@,
    ensures
        joined(joined(pool, entry), again) == joined(pool, entry),
{
}

} // verus!
