use matchmaker::player::{PlayerEntry, STATE_MATCHED, STATE_RESERVED, STATE_WAITING};
use matchmaker::pool::PlayerPool;

fn player(id: &str, mmr: i64) -> PlayerEntry {
    PlayerEntry::new(id.to_string(), mmr, "us-east".to_string(), 0)
}

fn ids(names: &[&str]) -> Vec<String> {
    names.iter().map(|n| n.to_string()).collect()
}

fn waiting_ids(pool: &PlayerPool) -> Vec<String> {
    let mut found: Vec<String> = pool.snapshot_waiting().iter().map(|p| p.player_id.clone()).collect();
    found.sort();
    found
}

#[test]
fn a_new_queue_is_empty() {
    let pool = PlayerPool::new();
    assert_eq!(pool.len(), 0);
    assert!(pool.snapshot_waiting().is_empty());
    assert!(!pool.is_waiting("ann"));
}

#[test]
fn joining_twice_keeps_the_first() {
    let mut pool = PlayerPool::new();
    assert!(pool.join(player("ann", 1)));
    assert!(!pool.join(player("ann", 2)));
    assert_eq!(pool.len(), 1);
    let all = pool.snapshot_waiting();
    assert_eq!(all.len(), 1);
    assert_eq!(all[0].mmr, 1);
}

#[test]
fn leaving_undoes_joining() {
    let mut pool = PlayerPool::new();
    assert!(pool.join(player("bob", 7)));
    assert!(pool.join(player("ann", 1)));
    assert!(pool.leave("ann"));
    assert_eq!(waiting_ids(&pool), ids(&["bob"]));
    assert!(!pool.leave("ann"));
    assert!(pool.join(player("ann", 3)));
    assert_eq!(pool.len(), 2);
}

#[test]
fn snapshot_lists_each_waiting_player_once() {
    let mut pool = PlayerPool::new();
    for i in 0..100 {
        assert!(pool.join(player(&format!("p{:03}", i), i)));
    }
    assert!(pool.try_reserve("p007"));
    pool.confirm_match("p008");
    let found = waiting_ids(&pool);
    let expected: Vec<String> = (0..100).filter(|i| *i != 7 && *i != 8).map(|i| format!("p{:03}", i)).collect();
    assert_eq!(found, expected);
    assert_eq!(pool.len(), 100);
}

#[test]
fn claims_in_the_queue_are_won_once() {
    let mut pool = PlayerPool::new();
    pool.join(player("ann", 1));
    assert!(pool.is_waiting("ann"));
    assert!(pool.try_reserve("ann"));
    assert!(!pool.is_waiting("ann"));
    assert!(!pool.try_reserve("ann"));
    assert!(!pool.try_reserve("nobody"));
    pool.release("ann");
    assert!(pool.is_waiting("ann"));
    pool.release("nobody");
    pool.confirm_match("nobody");
    assert_eq!(pool.len(), 1);
}

#[test]
fn a_group_is_claimed_as_a_whole() {
    let mut pool = PlayerPool::new();
    for name in ["a", "b", "c"] {
        pool.join(player(name, 1));
    }
    assert!(pool.reserve_all(&ids(&["a", "c"])));
    assert_eq!(waiting_ids(&pool), ids(&["b"]));
    pool.confirm_all(&ids(&["a", "c"]));
    assert_eq!(waiting_ids(&pool), ids(&["b"]));
    assert_eq!(pool.len(), 3);
    pool.evict_matched(&ids(&["a", "c"]));
    assert_eq!(pool.len(), 1);
}

#[test]
fn a_claim_that_fails_is_undone() {
    let mut pool = PlayerPool::new();
    for name in ["a", "b", "c"] {
        pool.join(player(name, 1));
    }
    assert!(pool.try_reserve("c"));
    assert!(!pool.reserve_all(&ids(&["a", "b", "c"])));
    assert_eq!(waiting_ids(&pool), ids(&["a", "b"]));
    assert!(!pool.reserve_all(&ids(&["a", "gone", "b"])));
    assert!(!pool.reserve_all(&ids(&["a", "a"])));
    assert_eq!(waiting_ids(&pool), ids(&["a", "b"]));
    assert!(pool.reserve_all(&Vec::new()));
}

#[test]
fn eviction_ignores_who_is_missing() {
    let mut pool = PlayerPool::new();
    pool.join(player("a", 1));
    pool.join(player("b", 1));
    pool.evict_matched(&ids(&["a", "zed", "a"]));
    assert_eq!(waiting_ids(&pool), ids(&["b"]));
}

#[test]
fn states_are_three_numbers() {
    assert_eq!((STATE_WAITING, STATE_RESERVED, STATE_MATCHED), (0, 1, 2));
}
