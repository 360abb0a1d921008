//! One pass over a list of players, a turn at a time.
//!
//! A turn has two halves. Planning only reads the queue. Applying a plan changes
//! it, and copes with a queue that has changed in between: several workers can
//! plan at the same time.

use vstd::prelude::*;

use crate::balance::MATCH_SIZE;
use crate::clock::TimeSource;
use crate::config::Config;
use crate::cycle::{
    commit_with, formed_count, is_commit, is_cycle, is_cycle_with, is_permutation, is_priority_order, is_sorted_copy,
    lemma_available_is_listed, lemma_names_distinct, lemma_run_extends, lemma_sorted_copy_is_distinct, marked, rearranged, sorted_by_mmr, step_with,
    times_from, CycleState, Formed, QueueState, Round,
};
use crate::engine::MatchmakingEngine;
use crate::player::{waited, PlayerEntry};
use crate::pool::{all_free, distinct_ids, lemma_take_next, waiting_in, PlayerPool};
use crate::record::GameMatch;
use crate::sorting::{lemma_same_items, sort_by_key};

verus! {

/// What to do about an anchor.
pub enum Plan {
    /// Nothing: the anchor is out of consideration, or too few players are available.
    Pass,
    /// Leave the anchor out of consideration: the anchor is not free any more.
    Drop,
    /// Form a match of the players at these positions.
    Group(Vec<usize>),
}

impl Plan {
    /// The plan is the right one for anchor `a`.
    pub open spec fn is_right(self, round: Round, st: CycleState, a: usize) -> bool {
        let enough = round.available_count(st, a) >= MATCH_SIZE;
        match self {
            Plan::Pass => st.used[a as int] || (round.anchor_free(st, a) && !enough),
            Plan::Drop => !st.used[a as int] && !round.anchor_free(st, a),
            Plan::Group(group) => round.anchor_free(st, a) && enough && round.is_closest_group(st, a, group@),
        }
    }

    /// A group that is planned has ten players out of `n` listed ones.
    pub open spec fn fits(self, n: nat) -> bool {
        match self {
            Plan::Group(group) => group@.len() == MATCH_SIZE && forall|k: int| 0 <= k < group@.len() ==>
                (#[trigger] group@[k]) < n,
            _ => true,
        }
    }
}

proof fn lemma_order_from_items(items: Seq<(i128, usize)>, out: Seq<(i128, usize)>, n: nat)
    requires
        items.len() == n,
        n <= usize::MAX,
        forall|k: int| 0 <= k < n ==> (#[trigger] items[k]).1 == k,
        out.to_multiset() == items.to_multiset(),
    ensures
        out.len() == n,
        is_permutation(out.map_values(|x: (i128, usize)| x.1), n),
        forall|k: int| 0 <= k < n ==> (#[trigger] out[k]).1 < n && out[k] == items[out[k].1 as int],
{
    lemma_same_items(items, out);
    let order = out.map_values(|x: (i128, usize)| x.1);
    assert forall|k: int| 0 <= k < n implies (#[trigger] out[k]).1 < n && out[k] == items[out[k].1 as int] by {
        assert(out.contains(out[k]));
        let j = choose|j: int| 0 <= j < items.len() && items[j] == out[k];
    }
    assert forall|k: int, l: int| 0 <= k < order.len() && 0 <= l < order.len() && k != l implies order[k] != order[l] by {
        if k < l {
            assert(out[k].1 != out[l].1);
        } else {
            assert(out[l].1 != out[k].1);
        }
    }
}

/// Lists the players in the order of their ratings.
fn order_by_mmr(snapshot: &Vec<PlayerEntry>) -> (listed: Vec<PlayerEntry>)
    ensures
        is_sorted_copy(snapshot@, listed@),
        listed.len() == snapshot.len(),
{
    let n: usize = snapshot.len();
    let mut items: Vec<(i128, usize)> = Vec::with_capacity(n);
    let mut i: usize = 0;
    while i < n
        invariant
            n == snapshot.len(),
            i <= n,
            items.len() == i,
            forall|k: int| 0 <= k < i ==> #[trigger] items@[k] == (snapshot@[k].mmr as i128, k as usize),
        decreases n - i,
    {
        items.push((snapshot[i].mmr as i128, i));
        i = i + 1;
    }
    let sorted: Vec<(i128, usize)> = sort_by_key(items);
    let ghost order = sorted@.map_values(|x: (i128, usize)| x.1);
    proof {
        lemma_order_from_items(items@, sorted@, n as nat);
    }
    let mut listed: Vec<PlayerEntry> = Vec::with_capacity(n);
    let mut k: usize = 0;
    while k < n
        invariant
            n == snapshot.len(),
            n == sorted.len(),
            k <= n,
            order == sorted@.map_values(|x: (i128, usize)| x.1),
            forall|j: int| 0 <= j < n ==> (#[trigger] sorted@[j]).1 < n,
            listed@ == rearranged(snapshot@, order).take(k as int),
        decreases n - k,
    {
        listed.push(snapshot[sorted[k].1].clone());
        assert(listed@ =~= rearranged(snapshot@, order).take(k + 1));
        k = k + 1;
    }
    proof {
        assert(listed@ =~= rearranged(snapshot@, order));
        assert forall|x: int, y: int| 0 <= x <= y < listed@.len()
            implies (#[trigger] listed@[x]).mmr <= (#[trigger] listed@[y]).mmr by {
            assert(sorted@[x].0 <= sorted@[y].0);
            assert(sorted@[x] == items@[sorted@[x].1 as int]);
            assert(sorted@[y] == items@[sorted@[y].1 as int]);
        }
    }
    listed
}

/// The positions of the players, longest wait first.
fn order_by_wait(players: &Vec<PlayerEntry>, now: u64) -> (order: Vec<usize>)
    ensures
        is_priority_order(players@, now, order@),
{
    let n: usize = players.len();
    let mut items: Vec<(i128, usize)> = Vec::with_capacity(n);
    let mut i: usize = 0;
    while i < n
        invariant
            n == players.len(),
            i <= n,
            items.len() == i,
            forall|k: int| 0 <= k < i ==>
                #[trigger] items@[k] == (-(waited(players@[k].joined_at, now) as int) as i128, k as usize),
        decreases n - i,
    {
        items.push((-(players[i].wait_secs(now) as i128), i));
        i = i + 1;
    }
    let sorted: Vec<(i128, usize)> = sort_by_key(items);
    proof {
        lemma_order_from_items(items@, sorted@, n as nat);
    }
    let mut order: Vec<usize> = Vec::with_capacity(n);
    let mut k: usize = 0;
    while k < n
        invariant
            n == sorted.len(),
            k <= n,
            order@ == sorted@.map_values(|x: (i128, usize)| x.1).take(k as int),
        decreases n - k,
    {
        order.push(sorted[k].1);
        assert(order@ =~= sorted@.map_values(|x: (i128, usize)| x.1).take(k + 1));
        k = k + 1;
    }
    proof {
        assert(order@ =~= sorted@.map_values(|x: (i128, usize)| x.1));
        assert forall|k: int, l: int| 0 <= k <= l < order@.len() implies
            waited(players@[(#[trigger] order@[k]) as int].joined_at, now)
                >= waited(players@[(#[trigger] order@[l]) as int].joined_at, now) by {
            assert(sorted@[k].0 <= sorted@[l].0);
            assert(sorted@[k] == items@[sorted@[k].1 as int]);
            assert(sorted@[l] == items@[sorted@[l].1 as int]);
        }
    }
    order
}

/// How many of the players, listed by rating, are rated below `bound`, or, where
/// `inclusive`, at most `bound`.
fn count_rated_below(players: &Vec<PlayerEntry>, bound: i128, inclusive: bool) -> (p: usize)
    requires
        sorted_by_mmr(players@),
    ensures
        p <= players.len(),
        forall|i: int| 0 <= i < p ==> (#[trigger] players@[i]).mmr < bound || (inclusive && players@[i].mmr == bound),
        forall|i: int| p <= i < players@.len() ==>
            (#[trigger] players@[i]).mmr > bound || (!inclusive && players@[i].mmr == bound),
{
    let mut low: usize = 0;
    let mut high: usize = players.len();
    while low < high
        invariant
            sorted_by_mmr(players@),
            low <= high <= players.len(),
            forall|i: int| 0 <= i < low ==> (#[trigger] players@[i]).mmr < bound || (inclusive && players@[i].mmr == bound),
            forall|i: int| high <= i < players@.len() ==>
                (#[trigger] players@[i]).mmr > bound || (!inclusive && players@[i].mmr == bound),
        decreases high - low,
    {
        let mid: usize = low + (high - low) / 2;
        let m: i128 = players[mid].mmr as i128;
        if m < bound || (inclusive && m == bound) {
            low = mid + 1;
        } else {
            high = mid;
        }
    }
    low
}

proof fn lemma_none_available_between(round: Round, st: CycleState, a: usize, from: nat, to: nat)
    requires
        from <= to <= round.players.len() <= usize::MAX,
        forall|i: usize| from <= i < to ==> !round.is_available(st, a, i),
    ensures
        round.available(st, a, to) == round.available(st, a, from),
    decreases to,
{
    if from < to {
        lemma_none_available_between(round, st, a, from, (to - 1) as nat);
        assert(!round.is_available(st, a, (to - 1) as usize));
    }
}

/// The players who may be matched around an anchor, each with the distance of
/// their rating from the anchor's.
fn find_available(
    pool: &PlayerPool,
    players: &Vec<PlayerEntry>,
    used: &Vec<bool>,
    anchor: usize,
    range: u64,
    Ghost(round): Ghost<Round>,
    Ghost(st): Ghost<CycleState>,
) -> (out: Vec<(i128, usize)>)
    requires
        round.players == players@,
        sorted_by_mmr(players@),
        anchor < players.len(),
        used.len() == players.len(),
        st.queue.pool == pool@,
        st.used == used@,
        range == round.range(anchor),
    ensures
        out@.map_values(|x: (i128, usize)| x.1) == round.available(st, anchor, players@.len()),
        forall|k: int| 0 <= k < out@.len() ==> (#[trigger] out@[k]).0 == round.distance(anchor, out@[k].1),
{
    let center: i128 = players[anchor].mmr as i128;
    let low: i128 = center - range as i128;
    let high: i128 = center + range as i128;
    let start: usize = count_rated_below(players, low, false);
    let end: usize = count_rated_below(players, high, true);
    let mut out: Vec<(i128, usize)> = Vec::new();
    proof {
        assert(start <= end) by {
            if start > end {
                assert(players@[end as int].mmr < low);
                assert(players@[end as int].mmr > high);
            }
        }
        lemma_none_available_between(round, st, anchor, 0, start as nat);
        assert(out@.map_values(|x: (i128, usize)| x.1) =~= round.available(st, anchor, start as nat));
    }
    let mut i: usize = start;
    while i < end
        invariant
            round.players == players@,
            anchor < players.len(),
            used.len() == players.len(),
            st.queue.pool == pool@,
            st.used == used@,
            range == round.range(anchor),
            center == players@[anchor as int].mmr,
            low == center - range,
            high == center + range,
            start <= i <= end <= players.len(),
            forall|k: int| start <= k < players@.len() ==> (#[trigger] players@[k]).mmr >= low,
            forall|k: int| 0 <= k < end ==> (#[trigger] players@[k]).mmr <= high,
            out@.map_values(|x: (i128, usize)| x.1) == round.available(st, anchor, i as nat),
            forall|k: int| 0 <= k < out@.len() ==> (#[trigger] out@[k]).0 == round.distance(anchor, out@[k].1),
        decreases end - i,
    {
        let ghost before = out@;
        if !used[i] && pool.is_waiting(players[i].player_id.as_str()) {
            let difference: i128 = players[i].mmr as i128 - center;
            let distance: i128 = if difference < 0 {
                -difference
            } else {
                difference
            };
            out.push((distance, i));
            assert(round.is_available(st, anchor, i));
            assert(out@.map_values(|x: (i128, usize)| x.1) =~= before.map_values(|x: (i128, usize)| x.1).push(i));
        }
        i = i + 1;
    }
    proof {
        lemma_none_available_between(round, st, anchor, end as nat, players@.len());
    }
    out
}

/// The ten of those available who are closest to the anchor, closest first.
fn closest_group(
    available: Vec<(i128, usize)>,
    anchor: usize,
    Ghost(round): Ghost<Round>,
    Ghost(st): Ghost<CycleState>,
) -> (group: Vec<usize>)
    requires
        round.players.len() <= usize::MAX,
        available.len() >= MATCH_SIZE,
        available@.map_values(|x: (i128, usize)| x.1) == round.available(st, anchor, round.players.len()),
        forall|k: int| 0 <= k < available@.len() ==> (#[trigger] available@[k]).0 == round.distance(anchor, available@[k].1),
    ensures
        round.is_closest_group(st, anchor, group@),
{
    let ghost items = available@;
    let ranked: Vec<(i128, usize)> = sort_by_key(available);
    proof {
        let values = round.available(st, anchor, round.players.len());
        lemma_available_is_listed(round, st, anchor, round.players.len());
        assert forall|i: int, j: int| 0 <= i < j < items.len()
            implies (#[trigger] items[i]).1 != (#[trigger] items[j]).1 by {
            assert(values[i] < values[j]);
        }
        lemma_same_items(items, ranked@);
        assert forall|k: int| 0 <= k < ranked@.len() implies
            (#[trigger] ranked@[k]).0 == round.distance(anchor, ranked@[k].1) && round.is_available(st, anchor, ranked@[k].1) by {
            assert(ranked@.contains(ranked@[k]));
            let j = choose|j: int| 0 <= j < items.len() && items[j] == ranked@[k];
            assert(values[j] == ranked@[k].1);
            assert(values.contains(ranked@[k].1));
        }
    }
    let mut group: Vec<usize> = Vec::with_capacity(MATCH_SIZE);
    let mut k: usize = 0;
    while k < MATCH_SIZE
        invariant
            ranked.len() >= MATCH_SIZE,
            k <= MATCH_SIZE,
            group.len() == k,
            forall|j: int| 0 <= j < k ==> #[trigger] group@[j] == ranked@[j].1,
        decreases MATCH_SIZE - k,
    {
        group.push(ranked[k].1);
        k = k + 1;
    }
    proof {
        let g = group@;
        let values = round.available(st, anchor, round.players.len());
        assert forall|x: int, y: int| 0 <= x < g.len() && 0 <= y < g.len() && x != y implies g[x] != g[y] by {
            if x < y {
                assert(ranked@[x].1 != ranked@[y].1);
            } else {
                assert(ranked@[y].1 != ranked@[x].1);
            }
        }
        assert forall|x: int, y: int| 0 <= x <= y < g.len()
            implies round.distance(anchor, #[trigger] g[x]) <= round.distance(anchor, #[trigger] g[y]) by {
            assert(ranked@[x].0 <= ranked@[y].0);
        }
        assert forall|x: int, i: usize| 0 <= x < g.len() && #[trigger] round.is_available(st, anchor, i) && !g.contains(i) implies
            round.distance(anchor, #[trigger] g[x]) <= round.distance(anchor, i) by {
            assert(values.contains(i));
            let j = choose|j: int| 0 <= j < values.len() && values[j] == i;
            assert(items.contains(items[j]));
            assert(ranked@.contains(items[j]));
            let y = choose|y: int| 0 <= y < ranked@.len() && ranked@[y] == items[j];
            if y < MATCH_SIZE {
                assert(g[y] == i);
            }
            assert(ranked@[x].0 <= ranked@[y].0);
        }
    }
    group
}

/// Takes the players of a group out of consideration.
fn mark_used(used: &mut Vec<bool>, group: &Vec<usize>)
    requires
        forall|k: int| 0 <= k < group@.len() ==> (#[trigger] group@[k]) < old(used).len(),
    ensures
        final(used)@ == marked(old(used)@, group@),
{
    let ghost before = used@;
    assert(used@ =~= marked(before, group@.take(0)));
    let mut k: usize = 0;
    while k < group.len()
        invariant
            k <= group.len(),
            used.len() == before.len(),
            forall|k: int| 0 <= k < group@.len() ==> (#[trigger] group@[k]) < before.len(),
            used@ == marked(before, group@.take(k as int)),
        decreases group.len() - k,
    {
        used.set(group[k], true);
        proof {
            let next = group@.take(k + 1);
            lemma_take_next(group@, k as int);
            assert(used@ =~= marked(before, next));
        }
        k = k + 1;
    }
    assert(group@.take(group@.len() as int) =~= group@);
}

proof fn lemma_group_is_free(round: Round, st: CycleState, a: usize, group: Seq<usize>)
    requires
        distinct_ids(round.players),
        round.is_closest_group(st, a, group),
    ensures
        all_free(st.queue.pool, round.names(group)),
{
    let names = round.names(group);
    assert forall|k: int| 0 <= k < names.len() implies waiting_in(st.queue.pool, #[trigger] names[k]) by {
        assert(round.is_available(st, a, group[k]));
    }
    lemma_names_distinct(round, st, a, group);
}

/// A pass: the players it goes over, and how far it has come.
pub struct CyclePass {
    /// The players, listed by rating.
    pub players: Vec<PlayerEntry>,
    /// Their positions, longest wait first.
    pub order: Vec<usize>,
    /// Which of them are out of consideration.
    pub used: Vec<bool>,
    /// How many of them have been the anchor.
    pub position: usize,
    /// How many matches have been formed.
    pub formed: usize,
}

impl CyclePass {
    pub open spec fn wf(&self) -> bool {
        &&& sorted_by_mmr(self.players@)
        &&& distinct_ids(self.players@)
        &&& is_permutation(self.order@, self.players@.len())
        &&& self.used@.len() == self.players@.len()
        &&& self.position <= self.order@.len()
        &&& self.formed <= self.position
    }

    /// The round that the pass plays, at a time.
    pub open spec fn round(&self, config: Config, now: u64) -> Round {
        Round { players: self.players@, config, now }
    }

    /// The state of the cycle, given the queue.
    pub open spec fn state(&self, queue: QueueState) -> CycleState {
        CycleState { queue, used: self.used@ }
    }

    /// The same players and order.
    pub open spec fn same_round(&self, other: &CyclePass) -> bool {
        &&& self.players == other.players
        &&& self.order == other.order
    }

    /// Begins a pass over a list of players, in the order of their waits at `now`.
    /// There is none over fewer than ten.
    pub fn begin(snapshot: &Vec<PlayerEntry>, now: u64) -> (pass: Option<CyclePass>)
        requires
            distinct_ids(snapshot@),
        ensures
            pass is None <==> snapshot@.len() < MATCH_SIZE,
            pass matches Some(p) ==> {
                &&& p.wf()
                &&& is_sorted_copy(snapshot@, p.players@)
                &&& is_priority_order(p.players@, now, p.order@)
                &&& forall|i: int| 0 <= i < p.used@.len() ==> !#[trigger] p.used@[i]
                &&& p.position == 0
                &&& p.formed == 0
            },
    {
        if snapshot.len() < MATCH_SIZE {
            return None;
        }
        let players: Vec<PlayerEntry> = order_by_mmr(snapshot);
        let n: usize = players.len();
        let order: Vec<usize> = order_by_wait(&players, now);
        let used: Vec<bool> = vec![false; n];
        proof {
            lemma_sorted_copy_is_distinct(snapshot@, players@);
        }
        Some(CyclePass { players, order, used, position: 0, formed: 0 })
    }

    /// Whether every player has been the anchor.
    pub fn is_done(&self) -> (done: bool)
        ensures
            done == (self.position >= self.order@.len()),
    {
        self.position >= self.order.len()
    }

    /// What to do about the next anchor, as the queue stands and with the tolerance
    /// that the anchor has at `now`.
    pub fn plan(&self, engine: &MatchmakingEngine, now: u64) -> (plan: Plan)
        requires
            self.wf(),
            self.position < self.order@.len(),
        ensures
            plan.is_right(self.round(engine.config, now), self.state(engine.state()), self.order@[self.position as int]),
            plan.fits(self.players@.len()),
    {
        let ghost round = self.round(engine.config, now);
        let ghost st = self.state(engine.state());
        let anchor: usize = self.order[self.position];
        if self.used[anchor] {
            return Plan::Pass;
        }
        if !engine.pool.is_waiting(self.players[anchor].player_id.as_str()) {
            return Plan::Drop;
        }
        let range: u64 = self.players[anchor].effective_range(
            engine.config.base_mmr_range,
            engine.config.relaxation_rate_per_sec,
            engine.config.max_mmr_range,
            now,
        );
        let available: Vec<(i128, usize)> = find_available(
            &engine.pool,
            &self.players,
            &self.used,
            anchor,
            range,
            Ghost(round),
            Ghost(st),
        );
        assert(available@.len() == available@.map_values(|x: (i128, usize)| x.1).len());
        if available.len() < MATCH_SIZE {
            return Plan::Pass;
        }
        assert(self.players.len() == self.players@.len());
        let group: Vec<usize> = closest_group(available, anchor, Ghost(round), Ghost(st));
        proof {
            assert forall|k: int| 0 <= k < group@.len() implies (#[trigger] group@[k]) < self.players@.len() by {
                assert(round.is_available(st, anchor, group@[k]));
            }
        }
        Plan::Group(group)
    }

    /// Carries out a plan for the next anchor at `now`, and goes on to the one after.
    /// Says whether a match was formed. The queue may have changed since the plan was
    /// made: a group of whom one has been taken or has left is given up, and the
    /// queue stays as it is.
    pub fn apply(&mut self, engine: &mut MatchmakingEngine, plan: Plan, now: u64) -> (won: bool)
        requires
            old(self).wf(),
            old(self).position < old(self).order@.len(),
            old(engine).wf(),
            plan.fits(old(self).players@.len()),
        ensures
            final(self).wf(),
            final(engine).wf(),
            final(engine).config == old(engine).config,
            final(engine).clock == old(engine).clock,
            final(self).same_round(old(self)),
            final(self).position == old(self).position + 1,
            final(self).formed == old(self).formed + (if won {
                1int
            } else {
                0int
            }),
            plan is Group ==> is_commit(
                old(self).round(old(engine).config, now),
                old(engine).state(),
                plan->Group_0@,
                final(engine).state(),
                won,
            ),
            !(plan is Group) ==> !won && final(engine).state() == old(engine).state(),
            final(self).used@ == (if won {
                marked(old(self).used@, plan->Group_0@)
            } else if plan is Drop {
                old(self).used@.update(old(self).order@[old(self).position as int] as int, true)
            } else {
                old(self).used@
            }),
    {
        let n: usize = self.order.len();
        let anchor: usize = self.order[self.position];
        assert(self.position < n);
        self.position = self.position + 1;
        match plan {
            Plan::Pass => false,
            Plan::Drop => {
                self.used.set(anchor, true);
                false
            }
            Plan::Group(group) => {
                let won: bool = engine.commit_group(&self.players, &group, now);
                if won {
                    mark_used(&mut self.used, &group);
                    self.formed = self.formed + 1;
                }
                won
            }
        }
    }

    /// Takes a pass that has just begun at `start` to its end, and returns how many
    /// matches it formed. The time is taken anew for each anchor and each match.
    pub(crate) fn finish(
        self,
        engine: &mut MatchmakingEngine,
        source: TimeSource,
        start: u64,
        Ghost(snapshot): Ghost<Seq<PlayerEntry>>,
    ) -> (formed: usize)
        requires
            self.wf(),
            old(engine).wf(),
            source.gives(old(engine).clock, start),
            is_sorted_copy(snapshot, self.players@),
            is_priority_order(self.players@, start, self.order@),
            forall|i: int| 0 <= i < self.used@.len() ==> !#[trigger] self.used@[i],
            self.position == 0,
            self.formed == 0,
        ensures
            final(engine).wf(),
            final(engine).config == old(engine).config,
            final(engine).clock == old(engine).clock,
            is_cycle(
                snapshot,
                old(engine).config,
                source,
                old(engine).clock,
                old(engine).state(),
                final(engine).state(),
                formed as nat,
            ),
    {
        let ghost round = self.round(engine.config, start);
        let ghost queue = engine.state();
        let ghost order = self.order@;
        let ghost mut times: Seq<u64> = Seq::empty();
        let ghost mut outcomes: Seq<Option<Formed>> = Seq::empty();
        let mut pass: CyclePass = self;
        assert(pass.used@ =~= round.start(queue).used);
        while !pass.is_done()
            invariant
                pass.wf(),
                engine.wf(),
                engine.config == old(engine).config,
                engine.clock == old(engine).clock,
                round == pass.round(engine.config, start),
                order == pass.order@,
                outcomes.len() == pass.position,
                pass.formed == formed_count(outcomes),
                round.run_ok(queue, order, times, outcomes),
                round.run(queue, order, outcomes, pass.position as nat) == pass.state(engine.state()),
                times_from(source, engine.clock, round, times, outcomes),
            decreases pass.order@.len() - pass.position,
        {
            let ghost before = pass.state(engine.state());
            let ghost anchor = order[pass.position as int];
            let turn: u64 = source.next(&engine.clock);
            let plan: Plan = pass.plan(engine, turn);
            let ghost planned = plan;
            let matched: u64 = source.next(&engine.clock);
            let won: bool = pass.apply(engine, plan, matched);
            proof {
                let after = pass.state(engine.state());
                let outcome = lemma_turn_is_step(round.at(turn), before, anchor, planned, matched, after, won);
                assert(round.at(turn).step(before, anchor, outcome) == round.step(before, anchor, outcome));
                lemma_run_extends(round, queue, order, times, outcomes, turn, outcome);
                let more = outcomes.push(outcome);
                assert forall|k: int| 0 <= k < more.len() implies
                    ((#[trigger] more[k]) matches Some(f) ==> source.gives(engine.clock, f.now)) by {
                    if k < outcomes.len() {
                        assert(more[k] == outcomes[k]);
                    }
                }
                times = times.push(turn);
                outcomes = more;
            }
        }
        proof {
            assert(is_cycle_with(snapshot, round, queue, engine.state(), pass.formed as nat, order, times, outcomes));
        }
        pass.formed
    }
}

/// A plan that is applied to the queue it was made for is a right step.
proof fn lemma_turn_is_step(
    round: Round,
    before: CycleState,
    a: usize,
    plan: Plan,
    matched: u64,
    after: CycleState,
    won: bool,
) -> (outcome: Option<Formed>)
    requires
        distinct_ids(round.players),
        plan.is_right(round, before, a),
        plan is Group ==> is_commit(round.at(matched), before.queue, plan->Group_0@, after.queue, won),
        !(plan is Group) ==> !won && after.queue == before.queue,
        after.used == (if won {
            marked(before.used, plan->Group_0@)
        } else if plan is Drop {
            before.used.update(a as int, true)
        } else {
            before.used
        }),
    ensures
        step_with(round, before, a, outcome, after),
        won == (outcome is Some),
        outcome matches Some(f) ==> f.now == matched,
{
    match plan {
        Plan::Group(group) => {
            lemma_group_is_free(round, before, a, group@);
            let record = choose|record: GameMatch| #[trigger]
                commit_with(round.at(matched), before.queue, group@, record, after.queue);
            Some(Formed { group: group@, now: matched, record })
        },
        _ => None,
    }
}

} // verus!
