//! The engine: the queue, its metrics and its latest matches.

use vstd::prelude::*;

use crate::balance::MATCH_SIZE;
use crate::clock::{calendar_reads, stamp_at, stamp_now, Clock, Stamp, TimeSource};
use crate::config::Config;
use crate::cycle::{commit_at_with, commit_with, is_commit, is_commit_at, is_cycle, is_queue_cycle, QueueState, Round};
use crate::match_id::next_match_id;
use crate::metrics::Metrics;
use crate::pass::CyclePass;
use crate::player::PlayerEntry;
use crate::pool::{distinct_ids, is_snapshot, names_of, no_players, PlayerPool};
use crate::record::{build_match, group_wait, law_match_scores, push_recent, RECENT_LIMIT};

pub use crate::record::GameMatch;

verus! {

/// The matchmaker.
pub struct MatchmakingEngine {
    pub pool: PlayerPool,
    pub metrics: Metrics,
    pub config: Config,
    /// The latest matches, oldest first.
    pub recent_matches: Vec<GameMatch>,
    /// The number of the next match. Each engine numbers its own matches from one, so
    /// it is within an engine that numbers, and with them ids, are not given twice.
    pub next_seq: u64,
    /// The clock that waits are measured on.
    pub clock: Clock,
}

impl MatchmakingEngine {
    pub open spec fn wf(&self) -> bool {
        &&& self.pool.wf()
        &&& self.metrics.wf()
        &&& self.recent_matches@.len() <= RECENT_LIMIT
    }

    /// The part of the engine that cycles work on.
    pub open spec fn state(&self) -> QueueState {
        QueueState {
            pool: self.pool@,
            next_seq: self.next_seq,
            metrics: self.metrics,
            recent: self.recent_matches@,
        }
    }

    /// Apart from the queue, the engine is as `other` is.
    pub open spec fn only_pool_differs(self, other: MatchmakingEngine) -> bool {
        &&& self.metrics == other.metrics
        &&& self.config == other.config
        &&& self.recent_matches == other.recent_matches
        &&& self.next_seq == other.next_seq
        &&& self.clock == other.clock
    }

    /// An engine with an empty queue.
    pub fn new(config: Config) -> (engine: Self)
        ensures
            engine.wf(),
            engine.config == config,
            engine.pool@ == no_players(),
            forall|id: Seq<char>| !#[trigger] engine.pool@.contains_key(id),
            engine.recent_matches@ == Seq::<GameMatch>::empty(),
            engine.next_seq == 1,
            engine.metrics == Metrics::initial(),
    {
        MatchmakingEngine {
            pool: PlayerPool::new(),
            metrics: Metrics::new(),
            config,
            recent_matches: Vec::with_capacity(RECENT_LIMIT),
            next_seq: 1,
            clock: Clock::new(),
        }
    }
}

/// The players at the given positions.
fn pick_members(
    players: &Vec<PlayerEntry>,
    group: &Vec<usize>,
    Ghost(round): Ghost<Round>,
) -> (members: Vec<PlayerEntry>)
    requires
        round.players == players@,
        forall|k: int| 0 <= k < group@.len() ==> (#[trigger] group@[k]) < players.len(),
    ensures
        members@ == round.members(group@),
{
    let mut members: Vec<PlayerEntry> = Vec::with_capacity(group.len());
    let mut k: usize = 0;
    while k < group.len()
        invariant
            round.players == players@,
            forall|k: int| 0 <= k < group@.len() ==> (#[trigger] group@[k]) < players.len(),
            k <= group.len(),
            members@ == round.members(group@).take(k as int),
        decreases group.len() - k,
    {
        members.push(players[group[k]].clone());
        assert(members@ =~= round.members(group@).take(k + 1));
        k = k + 1;
    }
    assert(members@ =~= round.members(group@));
    members
}

/// The ids of some players.
fn list_ids(members: &Vec<PlayerEntry>) -> (ids: Vec<String>)
    ensures
        names_of(ids@) == members@.map_values(|p: PlayerEntry| p.player_id@),
{
    let mut ids: Vec<String> = Vec::with_capacity(members.len());
    let mut k: usize = 0;
    while k < members.len()
        invariant
            k <= members.len(),
            names_of(ids@) == members@.map_values(|p: PlayerEntry| p.player_id@).take(k as int),
        decreases members.len() - k,
    {
        let ghost before = ids@;
        ids.push(members[k].player_id.clone());
        assert(names_of(ids@) =~= names_of(before).push(members@[k as int].player_id@));
        assert(names_of(ids@) =~= members@.map_values(|p: PlayerEntry| p.player_id@).take(k + 1));
        k = k + 1;
    }
    assert(names_of(ids@) =~= members@.map_values(|p: PlayerEntry| p.player_id@));
    ids
}

impl MatchmakingEngine {
    /// Forms a match of ten listed players, if all of them can be claimed. Says
    /// whether they could. If not, nothing has changed: another match may have
    /// taken one of them since they were chosen, or one of them has left. The
    /// record of the match carries the stamp.
    pub fn commit_group_at(
        &mut self,
        players: &Vec<PlayerEntry>,
        group: &Vec<usize>,
        now: u64,
        stamp: Stamp,
    ) -> (won: bool)
        requires
            old(self).wf(),
            group.len() == MATCH_SIZE,
            forall|k: int| 0 <= k < group@.len() ==> (#[trigger] group@[k]) < players.len(),
        ensures
            final(self).wf(),
            final(self).config == old(self).config,
            final(self).clock == old(self).clock,
            is_commit_at(
                Round { players: players@, config: old(self).config, now },
                old(self).state(),
                group@,
                stamp,
                final(self).state(),
                won,
            ),
    {
        let ghost round = Round { players: players@, config: self.config, now };
        let ghost before = self.state();
        let members: Vec<PlayerEntry> = pick_members(players, group, Ghost(round));
        let ids: Vec<String> = list_ids(&members);
        assert(names_of(ids@) =~= round.names(group@));
        if !self.pool.reserve_all(ids.as_slice()) {
            return false;
        }
        self.pool.confirm_all(ids.as_slice());
        self.pool.evict_matched(ids.as_slice());
        assert(self.pool@ =~= before.pool.remove_keys(round.names(group@).to_set()));
        let match_id: String = next_match_id(&mut self.next_seq, stamp.micros);
        let record: GameMatch = build_match(&members, match_id, stamp.millis);
        let avg_wait: u64 = group_wait(&members, now);
        proof {
            law_match_scores(record, members@);
        }
        self.metrics.record_match(record.quality_score, avg_wait);
        push_recent(&mut self.recent_matches, record);
        proof {
            let after = round.committed(before, group@, record);
            assert(self.state().pool == after.pool);
            assert(self.state().metrics == after.metrics);
            assert(self.state().recent == after.recent);
            assert(round.is_record_at(before, group@, stamp, record));
            assert(commit_at_with(round, before, group@, stamp, record, self.state()));
        }
        true
    }

    /// Forms a match of ten listed players, if all of them can be claimed, as
    /// [`Self::commit_group_at`] does. The stamp is what the calendar clock reads.
    pub fn commit_group(&mut self, players: &Vec<PlayerEntry>, group: &Vec<usize>, now: u64) -> (won: bool)
        requires
            old(self).wf(),
            group.len() == MATCH_SIZE,
            forall|k: int| 0 <= k < group@.len() ==> (#[trigger] group@[k]) < players.len(),
        ensures
            final(self).wf(),
            final(self).config == old(self).config,
            final(self).clock == old(self).clock,
            is_commit(
                Round { players: players@, config: old(self).config, now },
                old(self).state(),
                group@,
                final(self).state(),
                won,
            ),
    {
        let ghost round = Round { players: players@, config: self.config, now };
        let ghost before = self.state();
        let stamp: Stamp = stamp_now();
        let won: bool = self.commit_group_at(players, group, now, stamp);
        proof {
            let reading = choose|reading: Option<u128>| calendar_reads(reading) && stamp == #[trigger] stamp_at(reading);
            if won {
                let record = choose|record: GameMatch| #[trigger]
                    commit_at_with(round, before, group@, stamp, record, self.state());
                assert(round.is_record_at(before, group@, stamp_at(reading), record));
                assert(commit_with(round, before, group@, record, self.state()));
            }
        }
        won
    }

    /// Forms as many matches as one pass over a list of players allows, and
    /// returns how many. With fewer than ten players nothing happens.
    ///
    /// The list may be older than the queue: its players are looked up by id, and
    /// those who are not there or not waiting any more are passed over. The time is
    /// taken when the pass begins, at each anchor's turn and at each match.
    pub fn match_snapshot(&mut self, snapshot: &Vec<PlayerEntry>, source: TimeSource) -> (formed: usize)
        requires
            old(self).wf(),
            distinct_ids(snapshot@),
        ensures
            final(self).wf(),
            final(self).config == old(self).config,
            final(self).clock == old(self).clock,
            snapshot@.len() < MATCH_SIZE ==> formed == 0 && final(self).state() == old(self).state(),
            snapshot@.len() >= MATCH_SIZE ==> is_cycle(
                snapshot@,
                old(self).config,
                source,
                old(self).clock,
                old(self).state(),
                final(self).state(),
                formed as nat,
            ),
    {
        let start: u64 = source.next(&self.clock);
        match CyclePass::begin(snapshot, start) {
            None => 0,
            Some(pass) => pass.finish(self, source, start, Ghost(snapshot@)),
        }
    }

    /// Runs one cycle: takes all waiting players and forms as many matches from
    /// them as one pass allows.
    pub fn run_matching_cycle(&mut self, source: TimeSource) -> (formed: usize)
        requires
            old(self).wf(),
        ensures
            final(self).wf(),
            final(self).config == old(self).config,
            final(self).clock == old(self).clock,
            is_queue_cycle(
                old(self).config,
                source,
                old(self).clock,
                old(self).state(),
                final(self).state(),
                formed as nat,
            ),
    {
        let snapshot: Vec<PlayerEntry> = self.pool.snapshot_waiting();
        let formed: usize = self.match_snapshot(&snapshot, source);
        assert(is_snapshot(old(self).state().pool, snapshot@));
        formed
    }
}

/// What a worker does between two cycles.
#[derive(Debug, Clone, Copy, PartialEq, Eq, Structural)]
pub enum Pause {
    /// Sleep for so many milliseconds.
    Sleep(u64),
    /// Let other tasks run, then go on at once.
    Yield,
}

/// How a worker pauses after a cycle: it sleeps if the cycle formed no match.
pub open spec fn pause_after(config: Config, formed: usize) -> Pause {
    if formed == 0 {
        Pause::Sleep(config.idle_sleep_ms)
    } else {
        Pause::Yield
    }
}

impl MatchmakingEngine {
    /// Closes a cycle that formed so many matches and took so long: records it,
    /// and says how the worker goes on.
    pub fn finish_cycle(&mut self, formed: usize, duration_micros: u64) -> (pause: Pause)
        requires
            old(self).wf(),
            duration_micros * 100 <= u64::MAX,
        ensures
            final(self).wf(),
            final(self).config == old(self).config,
            final(self).clock == old(self).clock,
            final(self).state()
                == (QueueState { metrics: old(self).metrics.after_cycle(duration_micros), ..old(self).state() }),
            pause == pause_after(old(self).config, formed),
            formed == 0 ==> pause == Pause::Sleep(old(self).config.idle_sleep_ms),
            formed > 0 ==> pause == Pause::Yield,
            final(self).pool == old(self).pool,
            final(self).recent_matches == old(self).recent_matches,
            final(self).next_seq == old(self).next_seq,
            final(self).metrics == old(self).metrics.after_cycle(duration_micros),
    {
        self.metrics.record_cycle(duration_micros);
        if formed == 0 {
            Pause::Sleep(self.config.idle_sleep_ms)
        } else {
            Pause::Yield
        }
    }
}

} // verus!
