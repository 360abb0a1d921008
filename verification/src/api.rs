//! What each request to the matchmaker does and is answered.

use vstd::prelude::*;

use crate::clock::Clock;
use crate::engine::MatchmakingEngine;
use crate::fixed::Ratio;
use crate::metrics::MetricsSnapshot;
use crate::player::{waited, JoinRequest, PlayerEntry, STATE_WAITING};
use crate::pool::{has_key_count, joined};
use crate::record::{same_match, GameMatch};

verus! {

/// The highest rating that a player may join with: ten thousand points.
pub const MAX_MMR: i64 = 5_629_499_534_213_120_000;

/// How a request ended.
#[derive(Debug, Clone, Copy, PartialEq, Eq, Structural)]
pub enum Status {
    /// It was carried out.
    Done,
    /// It makes no sense.
    BadRequest,
    /// The player is not in the queue.
    NotFound,
    /// The player is in the queue already.
    Conflict,
}

/// The status code of HTTP for a status.
pub open spec fn http_code(status: Status) -> u16 {
    match status {
        Status::Done => 200,
        Status::BadRequest => 400,
        Status::NotFound => 404,
        Status::Conflict => 409,
    }
}

impl Status {
    /// The status code of HTTP.
    pub fn code(&self) -> (code: u16)
        ensures
            code == http_code(*self),
    {
        match self {
            Status::Done => 200,
            Status::BadRequest => 400,
            Status::NotFound => 404,
            Status::Conflict => 409,
        }
    }
}

/// The answer to a player who has joined.
#[derive(Debug)]
pub struct JoinReply {
    pub status: String,
    pub player_id: String,
    /// Rating, in rating units.
    pub mmr: i64,
    pub region: String,
}

/// The answer to a health check.
#[derive(Debug)]
pub struct Health {
    pub status: String,
    pub pool_size: usize,
    pub matches_formed: u64,
    pub avg_quality: Ratio,
    pub avg_wait_ms: Ratio,
}

/// Whether a request to join makes sense: it names a player, whose rating is in
/// the allowed range.
pub open spec fn is_valid_request(req: JoinRequest) -> bool {
    req.player_id@.len() > 0 && 0 <= req.mmr <= MAX_MMR
}

/// The player that a request to join at `now` puts in the queue.
pub open spec fn requested_entry(req: JoinRequest, now: u64) -> PlayerEntry {
    PlayerEntry { player_id: req.player_id, mmr: req.mmr, region: req.region, joined_at: now, state: STATE_WAITING }
}

/// What a request to join is answered, given who is in the queue.
pub open spec fn is_join_answer(in_queue: bool, req: JoinRequest, reply: Result<JoinReply, Status>) -> bool {
    if !is_valid_request(req) {
        reply == Err::<JoinReply, Status>(Status::BadRequest)
    } else if in_queue {
        reply == Err::<JoinReply, Status>(Status::Conflict)
    } else {
        &&& reply matches Ok(r)
        &&& r.status@ == "queued"@
        &&& r.player_id == req.player_id
        &&& r.mmr == req.mmr
        &&& r.region == req.region
    }
}

/// What a request to join at `now` does: a valid one from a player who is not in
/// the queue adds that player, any other changes nothing.
pub open spec fn is_join(
    before: MatchmakingEngine,
    req: JoinRequest,
    now: u64,
    after: MatchmakingEngine,
) -> bool {
    &&& after.pool@ == (if is_valid_request(req) {
        joined(before.pool@, requested_entry(req, now))
    } else {
        before.pool@
    })
    &&& after.only_pool_differs(before)
}

/// A player asks to join at `now`.
pub fn join_player_at(
    engine: &mut MatchmakingEngine,
    req: &JoinRequest,
    now: u64,
) -> (reply: Result<JoinReply, Status>)
    requires
        old(engine).wf(),
    ensures
        final(engine).wf(),
        is_join_answer(old(engine).pool@.contains_key(req.player_id@), *req, reply),
        is_join(*old(engine), *req, now, *final(engine)),
        req.player_id@.len() == 0 || req.mmr < 0 || req.mmr > MAX_MMR ==> reply == Err::<JoinReply, Status>(Status::BadRequest),
        req.player_id@.len() > 0 && 0 <= req.mmr <= MAX_MMR && old(engine).pool@.contains_key(req.player_id@) ==>
            reply == Err::<JoinReply, Status>(Status::Conflict),
        req.player_id@.len() > 0 && 0 <= req.mmr <= MAX_MMR && !old(engine).pool@.contains_key(req.player_id@) ==> reply is Ok,
        reply matches Ok(r) ==> {
            &&& r.status@ == "queued"@
            &&& r.player_id@ == req.player_id@
            &&& r.mmr == req.mmr
            &&& r.region@ == req.region@
        },
        reply is Err ==> final(engine).pool@ == old(engine).pool@,
        reply is Ok ==> {
            &&& final(engine).pool@.contains_key(req.player_id@)
            &&& final(engine).pool@.remove(req.player_id@) == old(engine).pool@
            &&& final(engine).pool@[req.player_id@].player_id@ == req.player_id@
            &&& final(engine).pool@[req.player_id@].mmr == req.mmr
            &&& final(engine).pool@[req.player_id@].region@ == req.region@
            &&& final(engine).pool@[req.player_id@].state == STATE_WAITING
        },
        reply is Ok ==> final(engine).pool@[req.player_id@].joined_at == now,
        final(engine).metrics == old(engine).metrics,
        final(engine).config == old(engine).config,
        final(engine).recent_matches == old(engine).recent_matches,
        final(engine).next_seq == old(engine).next_seq,
        final(engine).clock == old(engine).clock,
{
    if req.player_id.as_str().unicode_len() == 0 {
        return Err(Status::BadRequest);
    }
    if req.mmr < 0 || req.mmr > MAX_MMR {
        return Err(Status::BadRequest);
    }
    let entry: PlayerEntry = PlayerEntry::new(req.player_id.clone(), req.mmr, req.region.clone(), now);
    if engine.pool.join(entry) {
        assert(engine.pool@.remove(req.player_id@) =~= old(engine).pool@);
        Ok(JoinReply {
            status: String::from_str("queued"),
            player_id: req.player_id.clone(),
            mmr: req.mmr,
            region: req.region.clone(),
        })
    } else {
        Err(Status::Conflict)
    }
}

/// A player asks to join. The wait starts at what the engine's clock reads during the
/// request.
pub fn join_player(engine: &mut MatchmakingEngine, req: &JoinRequest) -> (reply: Result<JoinReply, Status>)
    requires
        old(engine).wf(),
    ensures
        final(engine).wf(),
        is_join_answer(old(engine).pool@.contains_key(req.player_id@), *req, reply),
        exists|now: u64| old(engine).clock.reads(now) && #[trigger] is_join(*old(engine), *req, now, *final(engine)),
        req.player_id@.len() == 0 || req.mmr < 0 || req.mmr > MAX_MMR ==> reply == Err::<JoinReply, Status>(Status::BadRequest),
        req.player_id@.len() > 0 && 0 <= req.mmr <= MAX_MMR && old(engine).pool@.contains_key(req.player_id@) ==>
            reply == Err::<JoinReply, Status>(Status::Conflict),
        req.player_id@.len() > 0 && 0 <= req.mmr <= MAX_MMR && !old(engine).pool@.contains_key(req.player_id@) ==> reply is Ok,
        reply matches Ok(r) ==> {
            &&& r.status@ == "queued"@
            &&& r.player_id@ == req.player_id@
            &&& r.mmr == req.mmr
            &&& r.region@ == req.region@
        },
        reply is Err ==> final(engine).pool@ == old(engine).pool@,
        reply is Ok ==> {
            &&& final(engine).pool@.contains_key(req.player_id@)
            &&& final(engine).pool@.remove(req.player_id@) == old(engine).pool@
            &&& final(engine).pool@[req.player_id@].player_id@ == req.player_id@
            &&& final(engine).pool@[req.player_id@].mmr == req.mmr
            &&& final(engine).pool@[req.player_id@].region@ == req.region@
            &&& final(engine).pool@[req.player_id@].state == STATE_WAITING
        },
        reply is Ok ==> old(engine).clock.reads(final(engine).pool@[req.player_id@].joined_at),
        reply is Ok ==> call_ensures(Clock::now, (&old(engine).clock,), final(engine).pool@[req.player_id@].joined_at),
        final(engine).metrics == old(engine).metrics,
        final(engine).config == old(engine).config,
        final(engine).recent_matches == old(engine).recent_matches,
        final(engine).next_seq == old(engine).next_seq,
        final(engine).clock == old(engine).clock,
{
    let now: u64 = engine.clock.now();
    join_player_at(engine, req, now)
}

/// A player asks to leave.
pub fn leave_player(engine: &mut MatchmakingEngine, id: &str) -> (status: Status)
    requires
        old(engine).wf(),
    ensures
        final(engine).wf(),
        status == (if old(engine).pool@.contains_key(id@) {
            Status::Done
        } else {
            Status::NotFound
        }),
        final(engine).pool@ == old(engine).pool@.remove(id@),
        final(engine).only_pool_differs(*old(engine)),
        final(engine).metrics == old(engine).metrics,
        final(engine).config == old(engine).config,
        final(engine).recent_matches == old(engine).recent_matches,
        final(engine).next_seq == old(engine).next_seq,
        final(engine).clock == old(engine).clock,
{
    if engine.pool.leave(id) {
        Status::Done
    } else {
        Status::NotFound
    }
}

/// The health check.
pub fn health(engine: &MatchmakingEngine) -> (health: Health)
    ensures
        health.status@ == "ok"@,
        has_key_count(engine.pool@, health.pool_size as nat),
        health.matches_formed == engine.metrics.matches_formed,
        health.avg_quality == engine.metrics.reported().avg_quality,
        health.avg_wait_ms == engine.metrics.reported().avg_wait_ms,
        health.pool_size == engine.pool@.len(),
        health.avg_quality.num == engine.metrics.ema_quality_x10000 && health.avg_quality.den == 10_000,
        health.avg_wait_ms.num == engine.metrics.ema_wait_ms_x1000 && health.avg_wait_ms.den == 1_000,
{
    let snap: MetricsSnapshot = engine.metrics.snapshot();
    Health {
        status: String::from_str("ok"),
        pool_size: engine.pool.len(),
        matches_formed: snap.matches_formed,
        avg_quality: snap.avg_quality,
        avg_wait_ms: snap.avg_wait_ms,
    }
}

/// All metrics.
pub fn metrics_handler(engine: &MatchmakingEngine) -> (snapshot: MetricsSnapshot)
    ensures
        snapshot == engine.metrics.reported(),
        snapshot.matches_formed == engine.metrics.matches_formed,
        snapshot.players_matched == engine.metrics.players_matched,
        snapshot.cycle_count == engine.metrics.cycle_count,
        snapshot.avg_wait_ms.num == engine.metrics.ema_wait_ms_x1000 && snapshot.avg_wait_ms.den == 1_000,
        snapshot.avg_quality.num == engine.metrics.ema_quality_x10000 && snapshot.avg_quality.den == 10_000,
        snapshot.avg_cycle_us.num == engine.metrics.ema_cycle_us_x100 && snapshot.avg_cycle_us.den == 100,
{
    engine.metrics.snapshot()
}

/// Copies of the latest matches, oldest first.
pub fn recent_matches(engine: &MatchmakingEngine) -> (matches: Vec<GameMatch>)
    ensures
        matches@.len() == engine.recent_matches@.len(),
        forall|i: int| 0 <= i < matches@.len() ==> same_match(#[trigger] matches@[i], engine.recent_matches@[i]),
        forall|i: int| 0 <= i < matches@.len() ==> {
            &&& (#[trigger] matches@[i]).match_id == engine.recent_matches@[i].match_id
            &&& matches@[i].team_a@ == engine.recent_matches@[i].team_a@
            &&& matches@[i].team_b@ == engine.recent_matches@[i].team_b@
            &&& matches@[i].team_a_avg_mmr == engine.recent_matches@[i].team_a_avg_mmr
            &&& matches@[i].team_b_avg_mmr == engine.recent_matches@[i].team_b_avg_mmr
            &&& matches@[i].mmr_spread == engine.recent_matches@[i].mmr_spread
            &&& matches@[i].quality_score == engine.recent_matches@[i].quality_score
            &&& matches@[i].timestamp_ms == engine.recent_matches@[i].timestamp_ms
        },
{
    let mut matches: Vec<GameMatch> = Vec::with_capacity(engine.recent_matches.len());
    let mut i: usize = 0;
    while i < engine.recent_matches.len()
        invariant
            i <= engine.recent_matches@.len(),
            matches@.len() == i,
            forall|k: int| 0 <= k < i ==> same_match(#[trigger] matches@[k], engine.recent_matches@[k]),
        decreases engine.recent_matches@.len() - i,
    {
        matches.push(engine.recent_matches[i].clone());
        i = i + 1;
    }
    matches
}

/// How many players are in the queue.
pub fn pool_size(engine: &MatchmakingEngine) -> (size: usize)
    ensures
        has_key_count(engine.pool@, size as nat),
        engine.pool@.dom().finite(),
        size == engine.pool@.len(),
{
    engine.pool.len()
}

/// A valid request from a player who is not in the queue adds that player, with the
/// id, rating and region of the request, waiting from the time of the request on, and
/// changes nobody else. From then on the wait is the time that has passed since.
pub proof fn law_wait_starts_with_the_request(
    before: MatchmakingEngine,
    req: JoinRequest,
    now: u64,
    after: MatchmakingEngine,
    later: u64,
)
    requires
        is_join(before, req, now, after),
        req.player_id@.len() > 0,
        0 <= req.mmr <= MAX_MMR,
        !before.pool@.contains_key(req.player_id@),
        later >= now,
    ensures
        after.pool@.contains_key(req.player_id@),
        after.pool@[req.player_id@].player_id@ == req.player_id@,
        after.pool@[req.player_id@].mmr == req.mmr,
        after.pool@[req.player_id@].region@ == req.region@,
        after.pool@[req.player_id@].state == STATE_WAITING,
        after.pool@[req.player_id@].joined_at == now,
        waited(after.pool@[req.player_id@].joined_at, later) == later - now,
        after.pool@.remove(req.player_id@) == before.pool@,
{
    assert(after.pool@.remove(req.player_id@) =~= before.pool@);
}

/// The listing shows each stored match in its place, with the same teams, player by
/// player: if the players of a stored match have different ids, so have those of the
/// listed one.
pub proof fn law_listed_matches_are_the_stored_ones(listed: GameMatch, stored: GameMatch, i: int, j: int)
    requires
        same_match(listed, stored),
        0 <= i < j < (stored.team_a@ + stored.team_b@).len(),
        (stored.team_a@ + stored.team_b@)[i].player_id@ != (stored.team_a@ + stored.team_b@)[j].player_id@,
    ensures
        (listed.team_a@ + listed.team_b@).len() == (stored.team_a@ + stored.team_b@).len(),
        (listed.team_a@ + listed.team_b@)[i].player_id@ == (stored.team_a@ + stored.team_b@)[i].player_id@,
        (listed.team_a@ + listed.team_b@)[i].player_id@ != (listed.team_a@ + listed.team_b@)[j].player_id@,
{
}

/// A request to join that is refused changes nothing. A player who is told to be
/// queued is in the queue, and has waited since the moment of the request.
pub proof fn law_join_answer_is_true(
    before: MatchmakingEngine,
    req: JoinRequest,
    now: u64,
    reply: Result<JoinReply, Status>,
    after: MatchmakingEngine,
)
    requires
        is_join_answer(before.pool@.contains_key(req.player_id@), req, reply),
        is_join(before, req, now, after),
    ensures
        reply is Err ==> after.state() == before.state(),
        reply is Ok ==> after.pool@.contains_key(req.player_id@) && after.pool@[req.player_id@] == requested_entry(req, now),
{
}

} // verus!
