use matchmaker::api::{
    health, join_player, join_player_at, leave_player, metrics_handler, pool_size, recent_matches, Status,
};
use matchmaker::clock::TimeSource;
use matchmaker::config::Config;
use matchmaker::engine::MatchmakingEngine;
use matchmaker::player::{JoinRequest, STATE_WAITING};

const POINT: i64 = 562_949_953_421_312;

fn request(id: &str, mmr: i64) -> JoinRequest {
    JoinRequest { player_id: id.to_string(), mmr, region: "eu-west".to_string() }
}

fn new_engine() -> MatchmakingEngine {
    MatchmakingEngine::new(Config::default())
}

#[test]
fn a_player_is_queued() {
    let mut engine = new_engine();
    let reply = join_player_at(&mut engine, &request("player123", 1500 * POINT), 99).unwrap();
    assert_eq!(reply.status, "queued");
    assert_eq!(reply.player_id, "player123");
    assert_eq!(reply.mmr, 1500 * POINT);
    assert_eq!(reply.region, "eu-west");
    let all = engine.pool.snapshot_waiting();
    assert_eq!(all.len(), 1);
    assert_eq!(all[0].player_id, "player123");
    assert_eq!(all[0].region, "eu-west");
    assert_eq!(all[0].joined_at, 99);
    assert_eq!(all[0].state, STATE_WAITING);
}

#[test]
fn a_second_request_is_a_conflict() {
    let mut engine = new_engine();
    assert!(join_player(&mut engine, &request("ann", 1)).is_ok());
    assert_eq!(join_player(&mut engine, &request("ann", 2)).unwrap_err(), Status::Conflict);
    assert_eq!(pool_size(&engine), 1);
    assert_eq!(engine.pool.snapshot_waiting()[0].mmr, 1);
}

#[test]
fn a_request_without_a_name_is_bad() {
    let mut engine = new_engine();
    assert_eq!(join_player(&mut engine, &request("", 1)).unwrap_err(), Status::BadRequest);
    assert_eq!(pool_size(&engine), 0);
}

#[test]
fn ratings_have_bounds() {
    let mut engine = new_engine();
    assert_eq!(join_player(&mut engine, &request("a", -1)).unwrap_err(), Status::BadRequest);
    assert_eq!(join_player(&mut engine, &request("b", 10_000 * POINT + 1)).unwrap_err(), Status::BadRequest);
    assert_eq!(join_player(&mut engine, &request("c", i64::MIN)).unwrap_err(), Status::BadRequest);
    assert_eq!(pool_size(&engine), 0);
    assert!(join_player(&mut engine, &request("d", 0)).is_ok());
    assert!(join_player(&mut engine, &request("e", 10_000 * POINT)).is_ok());
    assert_eq!(pool_size(&engine), 2);
}

#[test]
fn a_bad_request_is_bad_before_it_conflicts() {
    let mut engine = new_engine();
    assert!(join_player(&mut engine, &request("ann", 5)).is_ok());
    assert_eq!(join_player(&mut engine, &request("ann", -5)).unwrap_err(), Status::BadRequest);
}

#[test]
fn leaving_answers_whether_the_player_was_there() {
    let mut engine = new_engine();
    assert!(join_player(&mut engine, &request("ann", 5)).is_ok());
    assert_eq!(leave_player(&mut engine, "bob"), Status::NotFound);
    assert_eq!(leave_player(&mut engine, "ann"), Status::Done);
    assert_eq!(leave_player(&mut engine, "ann"), Status::NotFound);
    assert_eq!(pool_size(&engine), 0);
}

#[test]
fn statuses_have_codes() {
    assert_eq!(Status::Done.code(), 200);
    assert_eq!(Status::BadRequest.code(), 400);
    assert_eq!(Status::NotFound.code(), 404);
    assert_eq!(Status::Conflict.code(), 409);
}

#[test]
fn reports_follow_the_engine() {
    let mut engine = new_engine();
    let h = health(&engine);
    assert_eq!(h.status, "ok");
    assert_eq!((h.pool_size, h.matches_formed), (0, 0));
    assert_eq!((h.avg_quality.num, h.avg_quality.den), (10_000, 10_000));
    assert!(recent_matches(&engine).is_empty());
    for i in 0..12 {
        assert!(join_player_at(&mut engine, &request(&format!("p{}", i), 1500 * POINT), 0).is_ok());
    }
    assert_eq!(pool_size(&engine), 12);
    assert_eq!(engine.run_matching_cycle(TimeSource::At(1_000_000_000)), 1);
    engine.finish_cycle(1, 100);
    let h = health(&engine);
    assert_eq!((h.pool_size, h.matches_formed), (2, 1));
    assert_eq!((h.avg_wait_ms.num, h.avg_wait_ms.den), (100_000, 1_000));
    let m = metrics_handler(&engine);
    assert_eq!((m.matches_formed, m.players_matched, m.cycle_count), (1, 10, 1));
    assert_eq!((m.avg_cycle_us.num, m.avg_cycle_us.den), (500, 100));
    let listed = recent_matches(&engine);
    assert_eq!(listed.len(), 1);
    assert_eq!(listed[0].match_id, engine.recent_matches[0].match_id);
    assert_eq!(listed[0].team_a.len() + listed[0].team_b.len(), 10);
}
