use matchmaker::balance::balance_teams;
use matchmaker::player::PlayerEntry;
use matchmaker::record::{build_match, group_wait, push_recent, GameMatch, RECENT_LIMIT};
use matchmaker::sorting::sort_by_key;

const POINT: i64 = 562_949_953_421_312;

fn group(points: [i64; 10]) -> Vec<PlayerEntry> {
    points
        .iter()
        .enumerate()
        .map(|(i, p)| PlayerEntry::new(format!("p{}", i), p * POINT, format!("r{}", i), i as u64 * 10))
        .collect()
}

fn sum(points: &[i64; 10], team: &[usize]) -> i64 {
    team.iter().map(|i| points[*i]).sum()
}

/// The smallest distance between team sums, found by trying every choice of five.
fn smallest_gap(points: &[i64; 10]) -> i64 {
    let total: i64 = points.iter().sum();
    let mut best = i64::MAX;
    for mask in 0u32..1024 {
        if mask.count_ones() == 5 {
            let a: i64 = (0..10).filter(|j| mask >> j & 1 == 1).map(|j| points[j]).sum();
            best = best.min((total - 2 * a).abs());
        }
    }
    best
}

#[test]
fn teams_are_as_even_as_can_be() {
    let cases = [
        [1000, 1010, 1020, 1030, 1040, 1050, 1060, 1070, 1080, 1090],
        [0, 0, 0, 0, 0, 0, 0, 0, 0, 10_000],
        [1, 2, 4, 8, 16, 32, 64, 128, 256, 512],
        [1500, 1500, 1500, 1500, 1500, 1500, 1500, 1500, 1500, 1500],
        [3, 1, 4, 1, 5, 9, 2, 6, 5, 3],
    ];
    for points in cases {
        let (a, b) = balance_teams(&group(points));
        assert_eq!((a.len(), b.len()), (5, 5));
        let mut all: Vec<usize> = a.iter().chain(b.iter()).copied().collect();
        all.sort();
        assert_eq!(all, (0..10).collect::<Vec<usize>>());
        assert_eq!((sum(&points, &a) - sum(&points, &b)).abs(), smallest_gap(&points));
    }
}

#[test]
fn the_first_of_the_best_splits_is_taken() {
    let (a, b) = balance_teams(&group([1500; 10]));
    assert_eq!(a, vec![0, 1, 2, 3, 4]);
    assert_eq!(b, vec![5, 6, 7, 8, 9]);
    let (a, b) = balance_teams(&group([0, 0, 0, 0, 0, 0, 0, 0, 0, 10_000]));
    assert_eq!(a, vec![0, 1, 2, 3, 4]);
    assert_eq!(b, vec![5, 6, 7, 8, 9]);
    let (a, b) = balance_teams(&group([1, 2, 4, 8, 16, 32, 64, 128, 256, 512]));
    assert_eq!(a, vec![4, 5, 6, 7, 8]);
    assert_eq!(b, vec![0, 1, 2, 3, 9]);
}

#[test]
fn a_match_lists_its_teams() {
    let m = build_match(&group([1500; 10]), "match-x".to_string(), 77);
    assert_eq!(m.match_id, "match-x");
    assert_eq!(m.timestamp_ms, 77);
    let a: Vec<&str> = m.team_a.iter().map(|p| p.player_id.as_str()).collect();
    let b: Vec<&str> = m.team_b.iter().map(|p| p.player_id.as_str()).collect();
    assert_eq!(a, ["p0", "p1", "p2", "p3", "p4"]);
    assert_eq!(b, ["p5", "p6", "p7", "p8", "p9"]);
    assert_eq!(m.team_b[1].region, "r6");
    assert_eq!(m.team_b[1].mmr, 1500 * POINT);
    assert_eq!(m.mmr_spread, 0);
    assert_eq!((m.team_a_avg_mmr.num, m.team_a_avg_mmr.den), (7500 * POINT as i128, 5 * POINT as u128));
    assert_eq!(m.quality_score.num, m.quality_score.den as i128);
}

#[test]
fn quality_falls_with_the_distance_of_the_averages() {
    // Sums 496 and 527: averages 31 / 5 apart, spread 511, so 1 - 31 / (5 * 512).
    let m = build_match(&group([1, 2, 4, 8, 16, 32, 64, 128, 256, 512]), String::new(), 0);
    assert_eq!(m.mmr_spread, 511 * POINT as u64);
    assert_eq!((m.team_a_avg_mmr.num, m.team_a_avg_mmr.den), (496 * POINT as i128, 5 * POINT as u128));
    assert_eq!((m.team_b_avg_mmr.num, m.team_b_avg_mmr.den), (527 * POINT as i128, 5 * POINT as u128));
    assert_eq!((m.quality_score.num, m.quality_score.den), (2529 * POINT as i128, 2560 * POINT as u128));
}

#[test]
fn waits_are_averaged_over_ten() {
    let g = group([0; 10]);
    // Joined at 0, 10, .. 90.
    assert_eq!(group_wait(&g, 100), 55);
    assert_eq!(group_wait(&g, 91), 46);
    assert_eq!(group_wait(&g, 5), 0);
    assert_eq!(group_wait(&g, 10), 1);
}

#[test]
fn the_latest_matches_are_kept() {
    let mut recent: Vec<GameMatch> = Vec::new();
    for i in 0..RECENT_LIMIT + 5 {
        push_recent(&mut recent, build_match(&group([0; 10]), format!("m{}", i), i as u64));
        assert_eq!(recent.len(), (i + 1).min(200));
    }
    assert_eq!(recent[0].match_id, "m5");
    assert_eq!(recent[199].match_id, "m204");
    for (k, m) in recent.iter().enumerate() {
        assert_eq!(m.timestamp_ms, k as u64 + 5);
    }
}

#[test]
fn a_copied_match_is_the_same() {
    let m = build_match(&group([1, 2, 4, 8, 16, 32, 64, 128, 256, 512]), "id".to_string(), 3);
    let n = m.clone();
    assert_eq!(n.match_id, "id");
    assert_eq!(n.timestamp_ms, 3);
    assert_eq!(n.mmr_spread, m.mmr_spread);
    assert_eq!(n.quality_score.num, m.quality_score.num);
    let a: Vec<&str> = n.team_a.iter().map(|p| p.player_id.as_str()).collect();
    assert_eq!(a, ["p4", "p5", "p6", "p7", "p8"]);
}

#[test]
fn sorting_orders_by_key() {
    let sorted = sort_by_key(vec![(5, 0), (-1, 1), (3, 2), (-1, 3), (0, 4)]);
    let keys: Vec<i128> = sorted.iter().map(|x| x.0).collect();
    assert_eq!(keys, [-1, -1, 0, 3, 5]);
    let mut values: Vec<usize> = sorted.iter().map(|x| x.1).collect();
    values.sort();
    assert_eq!(values, [0, 1, 2, 3, 4]);
    assert!(sort_by_key(Vec::new()).is_empty());
}
