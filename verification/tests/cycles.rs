use matchmaker::clock::{Stamp, TimeSource};
use matchmaker::config::Config;
use matchmaker::engine::{MatchmakingEngine, Pause};
use matchmaker::pass::{CyclePass, Plan};
use matchmaker::player::PlayerEntry;
use matchmaker::record::GameMatch;

const POINT: i64 = 562_949_953_421_312;
const SECOND: u64 = 1_000_000_000;

fn join(engine: &mut MatchmakingEngine, id: &str, points: i64, joined_at: u64) {
    let entry = PlayerEntry::new(id.to_string(), points * POINT, "us-east".to_string(), joined_at);
    assert!(engine.pool.join(entry));
}

/// An engine whose players all joined at zero, with the given ratings.
fn engine_with(points: &[i64]) -> MatchmakingEngine {
    let mut engine = MatchmakingEngine::new(Config::default());
    for (i, p) in points.iter().enumerate() {
        join(&mut engine, &format!("p{}", i), *p, 0);
    }
    engine
}

fn ids_in(m: &GameMatch) -> Vec<String> {
    let mut ids: Vec<String> = m.team_a.iter().chain(m.team_b.iter()).map(|p| p.player_id.clone()).collect();
    ids.sort();
    ids
}

fn waiting(engine: &MatchmakingEngine) -> Vec<String> {
    let mut ids: Vec<String> = engine.pool.snapshot_waiting().iter().map(|p| p.player_id.clone()).collect();
    ids.sort();
    ids
}

#[test]
fn an_engine_starts_empty() {
    let engine = MatchmakingEngine::new(Config::default());
    assert_eq!(engine.pool.len(), 0);
    assert!(engine.recent_matches.is_empty());
    assert_eq!(engine.next_seq, 1);
    assert_eq!(engine.metrics.matches_formed, 0);
    assert_eq!(engine.metrics.ema_quality_x10000, 10_000);
    assert_eq!(engine.config.port, 3000);
}

#[test]
fn nine_players_form_no_match() {
    let mut engine = engine_with(&[1500; 9]);
    assert_eq!(engine.run_matching_cycle(TimeSource::At(60 * SECOND)), 0);
    assert_eq!(engine.pool.len(), 9);
    assert!(engine.recent_matches.is_empty());
    assert_eq!(engine.next_seq, 1);
}

#[test]
fn ten_equal_players_form_a_match() {
    let mut engine = engine_with(&[1500; 10]);
    assert_eq!(engine.run_matching_cycle(TimeSource::At(2 * SECOND)), 1);
    assert_eq!(engine.pool.len(), 0);
    assert_eq!(engine.next_seq, 2);
    assert_eq!((engine.metrics.matches_formed, engine.metrics.players_matched), (1, 10));
    assert_eq!(engine.metrics.ema_wait_ms_x1000, 200_000);
    assert_eq!(engine.metrics.ema_quality_x10000, 10_000);
    assert_eq!(engine.metrics.cycle_count, 0);
    assert_eq!(engine.recent_matches.len(), 1);
    let m = &engine.recent_matches[0];
    assert!(m.match_id.starts_with("match-") && m.match_id.ends_with("-00000001"));
    let mut expected: Vec<String> = (0..10).map(|i| format!("p{}", i)).collect();
    expected.sort();
    assert_eq!(ids_in(m), expected);
    assert_eq!(m.mmr_spread, 0);
    assert!(m.timestamp_ms > 1_577_836_800_000);
}

#[test]
fn as_many_matches_as_possible_are_formed() {
    let mut engine = engine_with(&[1500; 25]);
    assert_eq!(engine.run_matching_cycle(TimeSource::At(0)), 2);
    assert_eq!(engine.pool.len(), 5);
    assert_eq!(engine.next_seq, 3);
    assert_eq!(engine.run_matching_cycle(TimeSource::At(0)), 0);
    assert_eq!(engine.pool.len(), 5);
}

#[test]
fn tolerance_includes_its_bounds() {
    let mut at_limit = engine_with(&[1000, 1000, 1000, 1000, 1000, 1000, 1000, 1000, 1000, 1150]);
    assert_eq!(at_limit.run_matching_cycle(TimeSource::At(0)), 1);
    let mut below = engine_with(&[1000, 1000, 1000, 1000, 1000, 1000, 1000, 1000, 1000, 850]);
    assert_eq!(below.run_matching_cycle(TimeSource::At(0)), 1);
    let mut beyond = engine_with(&[1000, 1000, 1000, 1000, 1000, 1000, 1000, 1000, 1000, 1151]);
    assert_eq!(beyond.run_matching_cycle(TimeSource::At(0)), 0);
    assert_eq!(beyond.pool.len(), 10);
    assert_eq!(beyond.run_matching_cycle(TimeSource::At(SECOND / 25 - 1)), 0);
    assert_eq!(beyond.run_matching_cycle(TimeSource::At(SECOND / 25)), 1);
}

#[test]
fn too_far_apart_is_never_matched() {
    let mut engine = engine_with(&[1000, 1000, 1000, 1000, 1000, 1000, 1000, 1000, 1000, 1601]);
    assert_eq!(engine.run_matching_cycle(TimeSource::At(24 * 3600 * SECOND)), 0);
    let mut just = engine_with(&[1000, 1000, 1000, 1000, 1000, 1000, 1000, 1000, 1000, 1600]);
    assert_eq!(just.run_matching_cycle(TimeSource::At(18 * SECOND - 1)), 0);
    assert_eq!(just.run_matching_cycle(TimeSource::At(18 * SECOND)), 1);
}

#[test]
fn separate_ratings_form_separate_matches() {
    let mut points = vec![1000; 10];
    points.extend(vec![5000; 10]);
    let mut engine = engine_with(&points);
    assert_eq!(engine.run_matching_cycle(TimeSource::At(SECOND)), 2);
    for m in &engine.recent_matches {
        assert_eq!(m.mmr_spread, 0);
    }
    assert_eq!(engine.pool.len(), 0);
}

#[test]
fn the_ten_closest_are_taken() {
    let mut engine = MatchmakingEngine::new(Config::default());
    join(&mut engine, "anchor", 1000, 0);
    for i in 1..=9 {
        join(&mut engine, &format!("near{}", i), 1000 + 10 * i, 5 * SECOND);
    }
    join(&mut engine, "far", 900, 5 * SECOND);
    join(&mut engine, "further", 1120, 5 * SECOND);
    assert_eq!(engine.run_matching_cycle(TimeSource::At(5 * SECOND)), 1);
    assert_eq!(waiting(&engine), ["far", "further"]);
    assert_eq!(engine.recent_matches[0].mmr_spread, 90 * POINT as u64);
}

#[test]
fn the_longest_wait_is_served_first() {
    // Ten around each of two ratings share one player in the middle.
    let mut engine = MatchmakingEngine::new(Config::default());
    for i in 0..9 {
        join(&mut engine, &format!("low{}", i), 1000, 1 + i);
    }
    for i in 0..8 {
        join(&mut engine, &format!("high{}", i), 1200, 2 + i);
    }
    join(&mut engine, "middle", 1100, 50);
    join(&mut engine, "patient", 1200, 0);
    assert_eq!(engine.run_matching_cycle(TimeSource::At(100)), 1);
    let ids = ids_in(&engine.recent_matches[0]);
    assert!(ids.contains(&"patient".to_string()));
    assert!(ids.contains(&"middle".to_string()));
    assert!(ids.iter().all(|id| !id.starts_with("low")));
}

#[test]
fn a_cycle_leaves_no_match_behind() {
    let points: Vec<i64> = (0..97).map(|i| (i * 7919) % 3000).collect();
    let mut engine = engine_with(&points);
    for second in 0..30 {
        engine.run_matching_cycle(TimeSource::At(second * SECOND));
        assert_eq!(engine.run_matching_cycle(TimeSource::At(second * SECOND)), 0);
    }
}

#[test]
fn nobody_is_in_two_matches() {
    let points: Vec<i64> = (0..300).map(|i| (i * 6271) % 4000).collect();
    let mut engine = engine_with(&points);
    let mut formed = 0;
    for second in 0..30 {
        formed += engine.run_matching_cycle(TimeSource::At(second * SECOND));
    }
    assert!(formed > 20);
    assert_eq!(engine.recent_matches.len(), formed);
    assert_eq!(engine.pool.len(), 300 - 10 * formed);
    assert_eq!(engine.metrics.players_matched, 10 * formed as u64);
    let mut all: Vec<String> = engine.recent_matches.iter().flat_map(|m| ids_in(m)).collect();
    all.extend(waiting(&engine));
    all.sort();
    all.dedup();
    assert_eq!(all.len(), 300);
    let mut match_ids: Vec<String> = engine.recent_matches.iter().map(|m| m.match_id.clone()).collect();
    match_ids.sort();
    match_ids.dedup();
    assert_eq!(match_ids.len(), formed);
    for m in &engine.recent_matches {
        assert!(m.mmr_spread <= 1200 * POINT as u64);
        assert!(0 < m.quality_score.num && m.quality_score.num <= m.quality_score.den as i128);
    }
}

#[test]
fn only_the_latest_matches_are_listed() {
    let mut engine = MatchmakingEngine::new(Config::default());
    for round in 0..203 {
        for i in 0..10 {
            join(&mut engine, &format!("p{}", i), 1500, round);
        }
        assert_eq!(engine.run_matching_cycle(TimeSource::At(round)), 1);
    }
    assert_eq!(engine.recent_matches.len(), 200);
    assert!(engine.recent_matches[0].match_id.ends_with("-00000004"));
    assert!(engine.recent_matches[199].match_id.ends_with("-000000cb"));
    assert_eq!(engine.metrics.matches_formed, 203);
}

#[test]
fn of_two_passes_one_gets_the_players() {
    let mut engine = engine_with(&[1500; 10]);
    let snapshot = engine.pool.snapshot_waiting();
    let mut first = CyclePass::begin(&snapshot, SECOND).unwrap();
    let mut second = CyclePass::begin(&snapshot, SECOND).unwrap();
    let first_plan = first.plan(&engine, SECOND);
    let second_plan = second.plan(&engine, SECOND);
    assert!(matches!(first_plan, Plan::Group(_)));
    assert!(matches!(second_plan, Plan::Group(_)));
    assert!(first.apply(&mut engine, first_plan, SECOND));
    assert!(!second.apply(&mut engine, second_plan, SECOND));
    assert_eq!((first.formed, second.formed), (1, 0));
    assert_eq!(engine.recent_matches.len(), 1);
    assert_eq!(engine.next_seq, 2);
    while !second.is_done() {
        let plan = second.plan(&engine, SECOND);
        assert!(matches!(plan, Plan::Drop));
        assert!(!second.apply(&mut engine, plan, SECOND));
    }
    assert_eq!(engine.metrics.matches_formed, 1);
}

#[test]
fn a_group_that_lost_a_player_is_given_up() {
    let mut engine = engine_with(&[1500; 11]);
    let mut pass = CyclePass::begin(&engine.pool.snapshot_waiting(), SECOND).unwrap();
    let plan = pass.plan(&engine, SECOND);
    let gone = match &plan {
        Plan::Group(group) => pass.players[group[3]].player_id.clone(),
        _ => panic!("a group was expected"),
    };
    assert!(engine.pool.leave(&gone));
    assert!(!pass.apply(&mut engine, plan, SECOND));
    assert_eq!(engine.pool.len(), 10);
    assert_eq!(waiting(&engine).len(), 10);
    assert!(engine.recent_matches.is_empty());
    let mut formed = 0;
    while !pass.is_done() {
        let plan = pass.plan(&engine, SECOND);
        if pass.apply(&mut engine, plan, SECOND) {
            formed += 1;
        }
    }
    assert_eq!(formed, 1);
    assert!(!ids_in(&engine.recent_matches[0]).contains(&gone));
}

#[test]
fn each_turn_has_its_own_time() {
    // Nine players and one 151 points away, whom the tolerance reaches after 40 ms.
    let mut engine = engine_with(&[1000, 1000, 1000, 1000, 1000, 1000, 1000, 1000, 1000, 1151]);
    let mut pass = CyclePass::begin(&engine.pool.snapshot_waiting(), 0).unwrap();
    let plan = pass.plan(&engine, SECOND / 25 - 1);
    assert!(matches!(plan, Plan::Pass));
    assert!(!pass.apply(&mut engine, plan, SECOND / 25 - 1));
    let plan = pass.plan(&engine, SECOND / 25);
    assert!(matches!(plan, Plan::Group(_)));
    // The waits are those of the moment when the match is formed.
    assert!(pass.apply(&mut engine, plan, 3 * SECOND));
    assert_eq!(engine.metrics.ema_wait_ms_x1000, 300_000);
    assert_eq!(pass.formed, 1);
}

#[test]
fn a_listed_player_is_a_copy() {
    let engine = engine_with(&[1500]);
    let mut listed = engine.pool.snapshot_waiting();
    assert!(listed[0].try_reserve());
    assert!(engine.pool.is_waiting("p0"));
}

#[test]
fn no_pass_begins_with_nine() {
    let engine = engine_with(&[1500; 9]);
    assert!(CyclePass::begin(&engine.pool.snapshot_waiting(), 0).is_none());
}

#[test]
fn an_old_list_is_checked_against_the_queue() {
    let mut engine = engine_with(&[1500; 12]);
    let snapshot = engine.pool.snapshot_waiting();
    assert!(engine.pool.leave("p0"));
    assert!(engine.pool.try_reserve("p1"));
    assert_eq!(engine.match_snapshot(&snapshot, TimeSource::At(SECOND)), 1);
    assert_eq!(engine.pool.len(), 1);
    assert!(!engine.pool.is_waiting("p1"));
    assert_eq!(engine.match_snapshot(&snapshot, TimeSource::At(SECOND)), 0);
}

#[test]
fn a_group_is_committed_once() {
    let mut engine = engine_with(&[1000, 1010, 1020, 1030, 1040, 1050, 1060, 1070, 1080, 1090]);
    let players = engine.pool.snapshot_waiting();
    let group: Vec<usize> = (0..10).collect();
    assert!(engine.commit_group(&players, &group, 7_000));
    assert_eq!(engine.metrics.ema_wait_ms_x1000, 0);
    assert!(!engine.commit_group(&players, &group, 7_000));
    assert_eq!(engine.metrics.matches_formed, 1);
    let repeated: Vec<usize> = vec![0; 10];
    join(&mut engine, &players[0].player_id, 1000, 0);
    assert!(!engine.commit_group(&players, &repeated, 7_000));
    assert_eq!(engine.pool.len(), 1);
}

#[test]
fn a_record_carries_its_stamp() {
    let mut engine = engine_with(&[1500; 10]);
    let players = engine.pool.snapshot_waiting();
    let group: Vec<usize> = (0..10).collect();
    let stamp = Stamp { micros: 0x0001_a2b3_c4d5_e6f7, millis: 77 };
    assert!(engine.commit_group_at(&players, &group, 0, stamp));
    let m = &engine.recent_matches[0];
    assert_eq!(m.match_id, "match-0001a2b3c4d5e6f7-00000001");
    assert_eq!(m.timestamp_ms, 77);
    assert!(!engine.commit_group_at(&players, &group, 0, stamp));
    assert_eq!(engine.next_seq, 2);
    assert_eq!(engine.recent_matches.len(), 1);
}

#[test]
fn the_two_times_of_a_record_agree() {
    let mut engine = engine_with(&[1500; 10]);
    assert_eq!(engine.run_matching_cycle(TimeSource::At(0)), 1);
    let m = &engine.recent_matches[0];
    let micros = u64::from_str_radix(&m.match_id[6..22], 16).unwrap();
    assert_eq!(m.timestamp_ms, micros / 1_000);
}

#[test]
fn close_ratings_are_told_apart() {
    // Two players a millionth of a millionth of a point apart: the nearer is taken.
    let mut engine = MatchmakingEngine::new(Config::default());
    join(&mut engine, "anchor", 1000, 0);
    for i in 1..=8 {
        join(&mut engine, &format!("near{}", i), 1000, 5);
    }
    for (id, units) in [("nearer", 563), ("further", 1126)] {
        let entry = PlayerEntry::new(id.to_string(), 1010 * POINT + units, "us-east".to_string(), 5);
        assert!(engine.pool.join(entry));
    }
    assert_eq!(engine.run_matching_cycle(TimeSource::At(10)), 1);
    assert_eq!(waiting(&engine), ["further"]);
}

#[test]
fn a_worker_sleeps_after_an_empty_cycle() {
    let mut engine = MatchmakingEngine::new(Config::default());
    assert_eq!(engine.finish_cycle(0, 200), Pause::Sleep(50));
    assert_eq!(engine.finish_cycle(3, 200), Pause::Yield);
    assert_eq!(engine.metrics.cycle_count, 2);
    assert_eq!(engine.metrics.ema_cycle_us_x100, 1_950);
}

#[test]
fn a_cycle_runs_at_the_present_time() {
    let mut engine = engine_with(&[1500; 10]);
    assert_eq!(engine.run_matching_cycle(TimeSource::Clock), 1);
    assert_eq!(engine.pool.len(), 0);
}
