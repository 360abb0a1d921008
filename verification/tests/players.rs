use matchmaker::player::{
    default_region, MatchedPlayer, PlayerEntry, STATE_MATCHED, STATE_RESERVED, STATE_WAITING,
};

const POINT: u64 = 562_949_953_421_312;
const SECOND: u64 = 1_000_000_000;

fn player(joined_at: u64) -> PlayerEntry {
    PlayerEntry::new("ann".to_string(), 1500 * POINT as i64, "us-east".to_string(), joined_at)
}

fn range_after(nanos: u64) -> u64 {
    player(5 * SECOND).effective_range(150 * POINT, 25 * POINT, 600 * POINT, 5 * SECOND + nanos)
}

#[test]
fn a_new_player_waits() {
    let p = player(42);
    assert_eq!(p.player_id, "ann");
    assert_eq!(p.mmr, 1500 * POINT as i64);
    assert_eq!(p.region, "us-east");
    assert_eq!(p.joined_at, 42);
    assert_eq!(p.state, STATE_WAITING);
    assert!(p.is_waiting());
}

#[test]
fn tolerance_grows_with_the_wait() {
    assert_eq!(range_after(0), 150 * POINT);
    assert_eq!(range_after(6 * SECOND), 300 * POINT);
    assert_eq!(range_after(10 * SECOND), 400 * POINT);
    assert_eq!(range_after(12 * SECOND), 450 * POINT);
    assert_eq!(range_after(18 * SECOND), 600 * POINT);
    assert_eq!(range_after(20 * SECOND), 600 * POINT);
    assert_eq!(range_after(3600 * SECOND), 600 * POINT);
}

#[test]
fn tolerance_grows_within_a_second() {
    assert_eq!(range_after(SECOND / 2), 162 * POINT + POINT / 2);
    assert_eq!(range_after(SECOND / 25), 151 * POINT);
    // A nanosecond adds 25 billionths of a point, 14,073,748.8 units.
    assert_eq!(range_after(1), 150 * POINT + 14_073_748);
    assert_eq!(range_after(2), 150 * POINT + 28_147_497);
}

#[test]
fn tolerance_never_exceeds_the_largest() {
    let p = player(0);
    assert_eq!(p.effective_range(700, 1, 600, 0), 600);
    assert_eq!(p.effective_range(u64::MAX, u64::MAX, u64::MAX, u64::MAX), u64::MAX);
    assert_eq!(p.effective_range(0, 0, 600, u64::MAX), 0);
}

#[test]
fn waits_are_measured_from_joining() {
    assert_eq!(player(100).wait_secs(350), 250);
    assert_eq!(player(100).wait_secs(100), 0);
    assert_eq!(player(100).wait_secs(99), 0);
}

#[test]
fn one_claim_wins_until_release() {
    let mut p = player(0);
    assert!(p.try_reserve());
    assert_eq!(p.state, STATE_RESERVED);
    assert!(!p.is_waiting());
    assert!(!p.try_reserve());
    assert_eq!(p.state, STATE_RESERVED);
    p.release();
    assert_eq!(p.state, STATE_WAITING);
    assert!(p.try_reserve());
    p.confirm_match();
    assert_eq!(p.state, STATE_MATCHED);
    assert!(!p.try_reserve());
    assert_eq!(p.state, STATE_MATCHED);
}

#[test]
fn region_has_a_default() {
    assert_eq!(default_region(), "us-east");
}

#[test]
fn copies_are_alike() {
    let mut p = player(9);
    p.confirm_match();
    let q = p.clone();
    assert_eq!(q.player_id, "ann");
    assert_eq!(q.joined_at, 9);
    assert_eq!(q.state, STATE_MATCHED);
    let m = MatchedPlayer { player_id: "bob".to_string(), mmr: -3, region: "eu".to_string() };
    let n = m.clone();
    assert_eq!((n.player_id.as_str(), n.mmr, n.region.as_str()), ("bob", -3, "eu"));
}
