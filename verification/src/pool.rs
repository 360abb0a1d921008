//! The waiting room: every queued player, found by id.

use dashmap::mapref::entry::Entry;
use dashmap::DashMap;
use vstd::prelude::*;

use crate::player::{PlayerEntry, STATE_MATCHED, STATE_RESERVED, STATE_WAITING};

verus! {

/// Players the waiting room has space for from the start.
pub const INITIAL_CAPACITY: usize = 16_384;

/// The concurrent hash map of the `dashmap` crate.
#[verifier::external_type_specification]
#[verifier::external_body]
#[verifier::reject_recursive_types(K)]
#[verifier::reject_recursive_types(V)]
#[verifier::reject_recursive_types(S)]
pub struct ExDashMap<K, V, S>(dashmap::DashMap<K, V, S>);

/// What a `DashMap` of players holds: for each key, the player stored under it.
pub uninterp spec fn dash_contents(map: DashMap<String, PlayerEntry>) -> Map<Seq<char>, PlayerEntry>;

/// `DashMap::with_capacity`: makes an empty map. The bound keeps the capacity,
/// rounded up to a whole number per shard, within what a table can allocate.
#[verifier::external_body]
fn dash_with_capacity(capacity: usize) -> (empty: DashMap<String, PlayerEntry>)
    requires
        capacity <= 1_048_576,
    ensures
        dash_contents(empty) == no_players(),
{
    DashMap::with_capacity(capacity)
}

/// `DashMap::entry` with `VacantEntry::insert`: stores the player if nothing is
/// stored under the key, and says whether it did; a key that is taken keeps its
/// player.
#[verifier::external_body]
fn dash_insert_if_vacant(
    map: &mut DashMap<String, PlayerEntry>,
    key: String,
    value: PlayerEntry,
) -> (added: bool)
    ensures
        added == !dash_contents(*old(map)).contains_key(key@),
        dash_contents(*final(map)) == (if added {
            dash_contents(*old(map)).insert(key@, value)
        } else {
            dash_contents(*old(map))
        }),
{
    match map.entry(key) {
        Entry::Vacant(slot) => {
            slot.insert(value);
            true
        }
        Entry::Occupied(_) => false,
    }
}

/// `DashMap::insert`: stores the player under the key, in place of the one that
/// was there, if any.
#[verifier::external_body]
fn dash_insert(map: &mut DashMap<String, PlayerEntry>, key: String, value: PlayerEntry)
    ensures
        dash_contents(*final(map)) == dash_contents(*old(map)).insert(key@, value),
{
    map.insert(key, value);
}

/// `DashMap::remove`: takes out what is stored under the key, and says whether
/// there was anything.
#[verifier::external_body]
fn dash_remove(map: &mut DashMap<String, PlayerEntry>, key: &str) -> (removed: bool)
    ensures
        removed == dash_contents(*old(map)).contains_key(key@),
        dash_contents(*final(map)) == dash_contents(*old(map)).remove(key@),
{
    map.remove(key).is_some()
}

/// `DashMap::get`: a copy of the player stored under the key, if there is one.
#[verifier::external_body]
fn dash_get(map: &DashMap<String, PlayerEntry>, key: &str) -> (value: Option<PlayerEntry>)
    ensures
        value == (if dash_contents(*map).contains_key(key@) {
            Some(dash_contents(*map)[key@])
        } else {
            None
        }),
{
    map.get(key).map(|entry| entry.value().clone())
}

/// `DashMap::iter`: a copy of every stored player, one for each key, in an order
/// that the map does not promise.
#[verifier::external_body]
fn dash_values(map: &DashMap<String, PlayerEntry>) -> (values: Vec<PlayerEntry>)
    ensures
        lists_values(dash_contents(*map), values@),
{
    map.iter().map(|entry| entry.value().clone()).collect()
}

/// `DashMap::len`: how many keys the map holds.
#[verifier::external_body]
fn dash_len(map: &DashMap<String, PlayerEntry>) -> (len: usize)
    ensures
        has_key_count(dash_contents(*map), len as nat),
{
    map.len()
}

/// A queue with nobody in it.
pub open spec fn no_players() -> Map<Seq<char>, PlayerEntry> {
    Map::empty()
}

/// `values` holds the value of each key of `contents` once.
pub open spec fn lists_values(contents: Map<Seq<char>, PlayerEntry>, values: Seq<PlayerEntry>) -> bool {
    exists|keys: Seq<Seq<char>>| {
        &&& #[trigger] keys.no_duplicates()
        &&& keys.to_set() == contents.dom()
        &&& keys.len() == values.len()
        &&& forall|i: int| 0 <= i < keys.len() ==> #[trigger] values[i] == contents[keys[i]]
    }
}

/// `contents` has exactly `n` keys.
pub open spec fn has_key_count(contents: Map<Seq<char>, PlayerEntry>, n: nat) -> bool {
    contents.dom().finite() && contents.len() == n
}

/// Whether the player called `id` is in the queue and waiting.
pub open spec fn waiting_in(pool: Map<Seq<char>, PlayerEntry>, id: Seq<char>) -> bool {
    pool.contains_key(id) && pool[id].waiting()
}

/// The queue after a player has asked to join: one whose id is taken is not added.
pub open spec fn joined(
    pool: Map<Seq<char>, PlayerEntry>,
    entry: PlayerEntry,
) -> Map<Seq<char>, PlayerEntry> {
    if pool.contains_key(entry.player_id@) {
        pool
    } else {
        pool.insert(entry.player_id@, entry)
    }
}

/// The queue after the player called `id`, if there, has gone into a state.
pub open spec fn with_state(
    pool: Map<Seq<char>, PlayerEntry>,
    id: Seq<char>,
    state: u8,
) -> Map<Seq<char>, PlayerEntry> {
    if pool.contains_key(id) {
        pool.insert(id, pool[id].in_state(state))
    } else {
        pool
    }
}

/// The queue after every player in it who is named has gone into a state.
pub open spec fn with_states(
    pool: Map<Seq<char>, PlayerEntry>,
    names: Seq<Seq<char>>,
    state: u8,
) -> Map<Seq<char>, PlayerEntry> {
    pool.map_entries(|id: Seq<char>, entry: PlayerEntry| if names.contains(id) {
        entry.in_state(state)
    } else {
        entry
    })
}

/// The ids of the players in the queue who are waiting.
pub open spec fn waiting_names(pool: Map<Seq<char>, PlayerEntry>) -> Set<Seq<char>> {
    pool.dom().filter(|id: Seq<char>| pool[id].waiting())
}

/// Taking one item more of a list adds that item.
pub proof fn lemma_take_next<T>(list: Seq<T>, k: int)
    requires
        0 <= k < list.len(),
    ensures
        list.take(k + 1) == list.take(k).push(list[k]),
        forall|x: T| #[trigger] list.take(k + 1).contains(x) <==> list.take(k).contains(x) || x == list[k],
{
    let done = list.take(k);
    let next = list.take(k + 1);
    assert(next =~= done.push(list[k]));
    assert forall|x: T| #[trigger] next.contains(x) <==> done.contains(x) || x == list[k] by {
        if done.contains(x) {
            let j = choose|j: int| 0 <= j < done.len() && done[j] == x;
            assert(next[j] == x);
        }
        if x == list[k] {
            assert(next[k] == x);
        }
    }
}

/// Whether the names are of different players who are all in the queue and waiting.
pub open spec fn all_free(pool: Map<Seq<char>, PlayerEntry>, names: Seq<Seq<char>>) -> bool {
    &&& names.no_duplicates()
    &&& forall|i: int| 0 <= i < names.len() ==> waiting_in(pool, #[trigger] names[i])
}

/// `players` lists the waiting players of the queue, each of them once.
pub open spec fn is_snapshot(pool: Map<Seq<char>, PlayerEntry>, players: Seq<PlayerEntry>) -> bool {
    &&& distinct_ids(players)
    &&& forall|i: int| 0 <= i < players.len() ==> {
        &&& waiting_in(pool, (#[trigger] players[i]).player_id@)
        &&& pool[players[i].player_id@] == players[i]
    }
    &&& forall|id: Seq<char>| #[trigger] waiting_in(pool, id) ==>
        exists|i: int| 0 <= i < players.len() && (#[trigger] players[i]).player_id@ == id
}

/// No two of the players have the same id.
pub open spec fn distinct_ids(players: Seq<PlayerEntry>) -> bool {
    forall|i: int, j: int| 0 <= i < j < players.len() ==>
        (#[trigger] players[i]).player_id@ != (#[trigger] players[j]).player_id@
}

/// The names in a list.
pub open spec fn names_of(ids: Seq<String>) -> Seq<Seq<char>> {
    ids.map_values(|id: String| id@)
}

/// The queue that contracts speak of is all that the map holds.
proof fn law_queue_is_the_map(pool: PlayerPool)
    ensures
        pool@ == dash_contents(pool.inner),
{
}

/// The names in a list are those of its items, place by place.
proof fn lemma_names_of(ids: Seq<String>)
    ensures
        names_of(ids).len() == ids.len(),
        forall|i: int| 0 <= i < ids.len() ==> names_of(ids)[i] == (#[trigger] ids[i])@,
        forall|i: int| 0 <= i < ids.len() ==> names_of(ids).contains((#[trigger] ids[i])@),
        forall|id: Seq<char>| #[trigger] names_of(ids).contains(id) <==> !forall|i: int| 0 <= i < ids.len() ==> (#[trigger] ids[i])@ != id,
{
    let names = names_of(ids);
    assert forall|i: int| 0 <= i < ids.len() implies names.contains((#[trigger] ids[i])@) by {
        assert(names[i] == ids[i]@);
    }
    assert forall|id: Seq<char>| #[trigger] names.contains(id) <==> !forall|i: int| 0 <= i < ids.len() ==> (#[trigger] ids[i])@ != id by {
        if names.contains(id) {
            let k = choose|k: int| 0 <= k < names.len() && names[k] == id;
            assert(ids[k]@ == id);
        }
    }
}

/// A list is all free exactly if its items are different and each is in the queue,
/// waiting.
proof fn lemma_all_free(pool: Map<Seq<char>, PlayerEntry>, ids: Seq<String>)
    ensures
        all_free(pool, names_of(ids)) == {
            &&& forall|i: int, j: int| 0 <= i < j < ids.len() ==> (#[trigger] ids[i])@ != (#[trigger] ids[j])@
            &&& forall|i: int| 0 <= i < ids.len() ==> pool.contains_key((#[trigger] ids[i])@) && pool[ids[i]@].state == STATE_WAITING
        },
{
    let names = names_of(ids);
    lemma_names_of(ids);
    if all_free(pool, names) {
        assert forall|i: int, j: int| 0 <= i < j < ids.len() implies (#[trigger] ids[i])@ != (#[trigger] ids[j])@ by {
            assert(names[i] != names[j]);
        }
        assert forall|i: int| 0 <= i < ids.len() implies
            pool.contains_key((#[trigger] ids[i])@) && pool[ids[i]@].state == STATE_WAITING by {
            assert(waiting_in(pool, names[i]));
        }
    } else if forall|i: int, j: int| 0 <= i < j < ids.len() ==> (#[trigger] ids[i])@ != (#[trigger] ids[j])@ {
        assert forall|i: int, j: int| 0 <= i < names.len() && 0 <= j < names.len() && i != j implies names[i] != names[j] by {
            if i < j {
                assert(ids[i]@ != ids[j]@);
            } else {
                assert(ids[j]@ != ids[i]@);
            }
        }
        let k = choose|k: int| 0 <= k < names.len() && !waiting_in(pool, #[trigger] names[k]);
        assert(ids[k]@ == names[k]);
    }
}

/// The waiting room.
pub struct PlayerPool {
    inner: DashMap<String, PlayerEntry>,
}

impl View for PlayerPool {
    type V = Map<Seq<char>, PlayerEntry>;

    closed spec fn view(&self) -> Map<Seq<char>, PlayerEntry> {
        dash_contents(self.inner)
    }
}

impl PlayerPool {
    /// Every player is stored under the player's own id.
    pub open spec fn wf(&self) -> bool {
        forall|id: Seq<char>| #[trigger] self@.contains_key(id) ==> self@[id].player_id@ == id
    }

    /// An empty waiting room.
    pub fn new() -> (pool: Self)
        ensures
            pool.wf(),
            pool@ == no_players(),
            forall|id: Seq<char>| !#[trigger] pool@.contains_key(id),
    {
        PlayerPool { inner: dash_with_capacity(INITIAL_CAPACITY) }
    }

    /// Adds a player, unless one with the same id is in the queue. Says whether
    /// the player was added.
    pub fn join(&mut self, entry: PlayerEntry) -> (added: bool)
        requires
            old(self).wf(),
        ensures
            final(self).wf(),
            added == !old(self)@.contains_key(entry.player_id@),
            final(self)@ == joined(old(self)@, entry),
            final(self)@ == (if old(self)@.contains_key(entry.player_id@) {
                old(self)@
            } else {
                old(self)@.insert(entry.player_id@, entry)
            }),
    {
        let id: String = entry.player_id.clone();
        let added: bool = dash_insert_if_vacant(&mut self.inner, id, entry);
        proof {
            assert forall|k: Seq<char>| #[trigger] self@.contains_key(k) implies self@[k].player_id@ == k by {
                assert(old(self)@.contains_key(k) || k == entry.player_id@);
            }
        }
        added
    }

    /// Removes a player who no longer wants to wait. Says whether the player was
    /// in the queue.
    pub fn leave(&mut self, player_id: &str) -> (removed: bool)
        requires
            old(self).wf(),
        ensures
            final(self).wf(),
            removed == old(self)@.contains_key(player_id@),
            final(self)@ == old(self)@.remove(player_id@),
    {
        let removed: bool = dash_remove(&mut self.inner, player_id);
        proof {
            assert forall|k: Seq<char>| #[trigger] self@.contains_key(k) implies self@[k].player_id@ == k by {
                assert(old(self)@.contains_key(k));
            }
        }
        removed
    }

    /// Every waiting player, once, in no particular order.
    ///
    /// What is listed are copies. A player in the queue is claimed, given back and
    /// confirmed through the queue, by id; doing so to a copy leaves the queue as it
    /// is.
    pub fn snapshot_waiting(&self) -> (players: Vec<PlayerEntry>)
        requires
            self.wf(),
        ensures
            is_snapshot(self@, players@),
            forall|i: int, j: int| 0 <= i < j < players@.len() ==>
                (#[trigger] players@[i]).player_id@ != (#[trigger] players@[j]).player_id@,
            forall|i: int| 0 <= i < players@.len() ==> {
                &&& self@.contains_key((#[trigger] players@[i]).player_id@)
                &&& self@[players@[i].player_id@] == players@[i]
                &&& players@[i].state == STATE_WAITING
            },
            forall|id: Seq<char>| #[trigger] self@.contains_key(id) && self@[id].state == STATE_WAITING ==>
                exists|i: int| 0 <= i < players@.len() && #[trigger] players@[i] == self@[id],
    {
        let all: Vec<PlayerEntry> = dash_values(&self.inner);
        let mut players: Vec<PlayerEntry> = Vec::new();
        let ghost keys = choose|keys: Seq<Seq<char>>| {
            &&& #[trigger] keys.no_duplicates()
            &&& keys.to_set() == self@.dom()
            &&& keys.len() == all@.len()
            &&& forall|i: int| 0 <= i < keys.len() ==> #[trigger] all@[i] == self@[keys[i]]
        };
        proof {
            assert forall|i: int| 0 <= i < keys.len() implies self@.contains_key(#[trigger] keys[i]) by {
                assert(keys.to_set().contains(keys[i]));
            }
            assert forall|i: int| 0 <= i < keys.len() implies (#[trigger] all@[i]).player_id@ == keys[i] by {
                assert(self@.contains_key(keys[i]));
            }
        }
        let mut i: usize = 0;
        while i < all.len()
            invariant
                i <= all.len(),
                keys.len() == all@.len(),
                keys.no_duplicates(),
                forall|k: int| 0 <= k < keys.len() ==> self@.contains_key(#[trigger] keys[k]),
                forall|k: int| 0 <= k < keys.len() ==> (#[trigger] all@[k]).player_id@ == keys[k],
                forall|k: int| 0 <= k < keys.len() ==> #[trigger] all@[k] == self@[keys[k]],
                distinct_ids(players@),
                forall|k: int| 0 <= k < players@.len() ==> {
                    &&& waiting_in(self@, (#[trigger] players@[k]).player_id@)
                    &&& self@[players@[k].player_id@] == players@[k]
                },
                forall|k: int, l: int| 0 <= k < players@.len() && i <= l < all@.len() ==>
                    (#[trigger] players@[k]).player_id@ != (#[trigger] all@[l]).player_id@,
                forall|l: int| 0 <= l < i && (#[trigger] all@[l]).waiting() ==>
                    exists|k: int| 0 <= k < players@.len() && (#[trigger] players@[k]).player_id@ == all@[l].player_id@,
            decreases all.len() - i,
        {
            let ghost before = players@;
            if all[i].is_waiting() {
                players.push(all[i].clone());
                assert(players@ == before.push(all@[i as int]));
            }
            proof {
                assert forall|l: int| 0 <= l < i + 1 && (#[trigger] all@[l]).waiting()
                    implies exists|k: int| 0 <= k < players@.len() && (#[trigger] players@[k]).player_id@ == all@[l].player_id@ by {
                    if l == i {
                        assert(players@[before.len() as int].player_id@ == all@[l].player_id@);
                    } else {
                        let k = choose|k: int| 0 <= k < before.len() && (#[trigger] before[k]).player_id@ == all@[l].player_id@;
                        assert(players@[k] == before[k]);
                    }
                }
            }
            i = i + 1;
        }
        proof {
            assert forall|id: Seq<char>| #[trigger] waiting_in(self@, id)
                implies exists|i: int| 0 <= i < players@.len() && (#[trigger] players@[i]).player_id@ == id by {
                assert(keys.to_set().contains(id));
                let l = choose|l: int| 0 <= l < keys.len() && keys[l] == id;
                assert(all@[l].waiting());
            }
            assert forall|id: Seq<char>| #[trigger] self@.contains_key(id) && self@[id].state == STATE_WAITING implies
                exists|i: int| 0 <= i < players@.len() && #[trigger] players@[i] == self@[id] by {
                assert(waiting_in(self@, id));
                let i = choose|i: int| 0 <= i < players@.len() && (#[trigger] players@[i]).player_id@ == id;
                assert(players@[i] == self@[id]);
            }
        }
        players
    }

    /// Whether a player is in the queue and waiting.
    pub fn is_waiting(&self, player_id: &str) -> (b: bool)
        ensures
            b == waiting_in(self@, player_id@),
            b == (self@.contains_key(player_id@) && self@[player_id@].state == STATE_WAITING),
    {
        match dash_get(&self.inner, player_id) {
            Some(entry) => entry.is_waiting(),
            None => false,
        }
    }

    /// Claims a player for a match. Succeeds only on a player who is in the queue
    /// and waiting, and changes nothing otherwise.
    pub fn try_reserve(&mut self, player_id: &str) -> (won: bool)
        requires
            old(self).wf(),
        ensures
            final(self).wf(),
            won == waiting_in(old(self)@, player_id@),
            final(self)@ == (if won {
                with_state(old(self)@, player_id@, STATE_RESERVED)
            } else {
                old(self)@
            }),
            won == (old(self)@.contains_key(player_id@) && old(self)@[player_id@].state == STATE_WAITING),
            won ==> final(self)@ == old(self)@.insert(
                player_id@,
                (PlayerEntry { state: STATE_RESERVED, ..old(self)@[player_id@] }),
            ),
    {
        match dash_get(&self.inner, player_id) {
            Some(found) => {
                let mut entry: PlayerEntry = found;
                let won: bool = entry.try_reserve();
                dash_insert(&mut self.inner, entry.player_id.clone(), entry);
                proof {
                    assert(old(self)@[player_id@].player_id@ == player_id@);
                    if !won {
                        assert(self@ =~= old(self)@);
                    }
                }
                won
            }
            None => false,
        }
    }

    /// Gives a player back to the queue.
    pub fn release(&mut self, player_id: &str)
        requires
            old(self).wf(),
        ensures
            final(self).wf(),
            final(self)@ == with_state(old(self)@, player_id@, STATE_WAITING),
            !old(self)@.contains_key(player_id@) ==> final(self)@ == old(self)@,
            old(self)@.contains_key(player_id@) ==> final(self)@ == old(self)@.insert(
                player_id@,
                (PlayerEntry { state: STATE_WAITING, ..old(self)@[player_id@] }),
            ),
    {
        match dash_get(&self.inner, player_id) {
            Some(found) => {
                let mut entry: PlayerEntry = found;
                entry.release();
                assert(old(self)@[player_id@].player_id@ == player_id@);
                dash_insert(&mut self.inner, entry.player_id.clone(), entry);
            }
            None => {}
        }
    }

    /// Marks a player as matched.
    pub fn confirm_match(&mut self, player_id: &str)
        requires
            old(self).wf(),
        ensures
            final(self).wf(),
            final(self)@ == with_state(old(self)@, player_id@, STATE_MATCHED),
            !old(self)@.contains_key(player_id@) ==> final(self)@ == old(self)@,
            old(self)@.contains_key(player_id@) ==> final(self)@ == old(self)@.insert(
                player_id@,
                (PlayerEntry { state: STATE_MATCHED, ..old(self)@[player_id@] }),
            ),
    {
        match dash_get(&self.inner, player_id) {
            Some(found) => {
                let mut entry: PlayerEntry = found;
                entry.confirm_match();
                assert(old(self)@[player_id@].player_id@ == player_id@);
                dash_insert(&mut self.inner, entry.player_id.clone(), entry);
            }
            None => {}
        }
    }

    /// Claims a whole group, or nobody: if one of the players cannot be claimed,
    /// those claimed before are given back and the queue is as it was.
    pub fn reserve_all(&mut self, player_ids: &[String]) -> (won: bool)
        requires
            old(self).wf(),
        ensures
            final(self).wf(),
            won == all_free(old(self)@, names_of(player_ids@)),
            final(self)@ == (if won {
                with_states(old(self)@, names_of(player_ids@), STATE_RESERVED)
            } else {
                old(self)@
            }),
            won == {
                &&& forall|i: int, j: int| 0 <= i < j < player_ids@.len() ==>
                    (#[trigger] player_ids@[i])@ != (#[trigger] player_ids@[j])@
                &&& forall|i: int| 0 <= i < player_ids@.len() ==>
                    old(self)@.contains_key((#[trigger] player_ids@[i])@) && old(self)@[player_ids@[i]@].state == STATE_WAITING
            },
            final(self)@.dom() == old(self)@.dom(),
            won ==> forall|i: int| 0 <= i < player_ids@.len() ==> final(self)@[(#[trigger] player_ids@[i])@]
                == (PlayerEntry { state: STATE_RESERVED, ..old(self)@[player_ids@[i]@] }),
            forall|id: Seq<char>| old(self)@.contains_key(id)
                && (!won || forall|i: int| 0 <= i < player_ids@.len() ==> (#[trigger] player_ids@[i])@ != id) ==>
                #[trigger] final(self)@[id] == old(self)@[id],
    {
        let ghost names = names_of(player_ids@);
        assert(self@ =~= with_states(old(self)@, names.take(0), STATE_RESERVED));
        let mut i: usize = 0;
        while i < player_ids.len()
            invariant
                i <= player_ids.len(),
                names == names_of(player_ids@),
                self.wf(),
                all_free(old(self)@, names.take(i as int)),
                self@ == with_states(old(self)@, names.take(i as int), STATE_RESERVED),
            decreases player_ids.len() - i,
        {
            let ghost before = self@;
            let ghost done = names.take(i as int);
            let won: bool = self.try_reserve(player_ids[i].as_str());
            assert(names[i as int] == player_ids@[i as int]@);
            if !won {
                proof {
                    if all_free(old(self)@, names) {
                        assert(waiting_in(old(self)@, names[i as int]));
                        if done.contains(names[i as int]) {
                            let k = choose|k: int| 0 <= k < done.len() && done[k] == names[i as int];
                            assert(names[k] == names[i as int]);
                        }
                    }
                }
                self.release_first(player_ids, i, Ghost(old(self)@));
                proof {
                    lemma_all_free(old(self)@, player_ids@);
                }
                return false;
            }
            proof {
                let next = names.take(i + 1);
                lemma_take_next(names, i as int);
                assert(self@ =~= with_states(old(self)@, next, STATE_RESERVED));
                assert(!done.contains(names[i as int]));
                assert(next.no_duplicates());
            }
            i = i + 1;
        }
        assert(names.take(names.len() as int) =~= names);
        proof {
            lemma_names_of(player_ids@);
            lemma_all_free(old(self)@, player_ids@);
        }
        true
    }

    /// Gives the first `count` of a list of claimed players back, which brings
    /// the queue to what it was before they were claimed.
    fn release_first(
        &mut self,
        player_ids: &[String],
        count: usize,
        Ghost(before): Ghost<Map<Seq<char>, PlayerEntry>>,
    )
        requires
            old(self).wf(),
            count <= player_ids.len(),
            all_free(before, names_of(player_ids@).take(count as int)),
            old(self)@ == with_states(before, names_of(player_ids@).take(count as int), STATE_RESERVED),
        ensures
            final(self).wf(),
            final(self)@ == before,
    {
        let ghost names = names_of(player_ids@);
        let mut j: usize = 0;
        assert(names.subrange(0, count as int) =~= names.take(count as int));
        while j < count
            invariant
                j <= count <= player_ids.len(),
                names == names_of(player_ids@),
                self.wf(),
                all_free(before, names.take(count as int)),
                self@ == with_states(before, names.subrange(j as int, count as int), STATE_RESERVED),
            decreases count - j,
        {
            let ghost left = names.subrange(j as int, count as int);
            self.release(player_ids[j].as_str());
            proof {
                let name = names[j as int];
                let next = names.subrange(j + 1, count as int);
                assert(name == player_ids@[j as int]@);
                assert(left =~= seq![name] + next);
                assert(names.take(count as int)[j as int] == name);
                assert(waiting_in(before, name));
                assert forall|k: Seq<char>| left.contains(k) <==> next.contains(k) || k == name by {
                    if next.contains(k) {
                        let l = choose|l: int| 0 <= l < next.len() && next[l] == k;
                        assert(left[l + 1] == k);
                    }
                    if k == name {
                        assert(left[0] == k);
                    }
                }
                if next.contains(name) {
                    let l = choose|l: int| 0 <= l < next.len() && next[l] == name;
                    assert(names.take(count as int)[l + j + 1] == name);
                }
                assert(before[name].in_state(STATE_RESERVED).in_state(STATE_WAITING) == before[name]);
                assert(self@ =~= with_states(before, next, STATE_RESERVED));
            }
            j = j + 1;
        }
        assert(self@ =~= before);
    }

    /// Marks a whole group as matched.
    pub fn confirm_all(&mut self, player_ids: &[String])
        requires
            old(self).wf(),
        ensures
            final(self).wf(),
            final(self)@ == with_states(old(self)@, names_of(player_ids@), STATE_MATCHED),
            final(self)@.dom() == old(self)@.dom(),
            forall|i: int| 0 <= i < player_ids@.len() && old(self)@.contains_key((#[trigger] player_ids@[i])@) ==>
                final(self)@[player_ids@[i]@] == (PlayerEntry { state: STATE_MATCHED, ..old(self)@[player_ids@[i]@] }),
            forall|id: Seq<char>| old(self)@.contains_key(id)
                && (forall|i: int| 0 <= i < player_ids@.len() ==> (#[trigger] player_ids@[i])@ != id) ==>
                #[trigger] final(self)@[id] == old(self)@[id],
    {
        let ghost names = names_of(player_ids@);
        assert(self@ =~= with_states(old(self)@, names.take(0), STATE_MATCHED));
        let mut i: usize = 0;
        while i < player_ids.len()
            invariant
                i <= player_ids.len(),
                names == names_of(player_ids@),
                self.wf(),
                self@ == with_states(old(self)@, names.take(i as int), STATE_MATCHED),
            decreases player_ids.len() - i,
        {
            self.confirm_match(player_ids[i].as_str());
            proof {
                let next = names.take(i + 1);
                assert(names[i as int] == player_ids@[i as int]@);
                lemma_take_next(names, i as int);
                assert(self@ =~= with_states(old(self)@, next, STATE_MATCHED));
            }
            i = i + 1;
        }
        assert(names.take(names.len() as int) =~= names);
        proof {
            lemma_names_of(player_ids@);
        }
    }

    /// Removes the players of a finished match. Ids that are not in the queue are
    /// passed over.
    pub fn evict_matched(&mut self, player_ids: &[String])
        requires
            old(self).wf(),
        ensures
            final(self).wf(),
            final(self)@ == old(self)@.remove_keys(names_of(player_ids@).to_set()),
            forall|id: Seq<char>| #[trigger] final(self)@.contains_key(id) <==> old(self)@.contains_key(id)
                && (forall|i: int| 0 <= i < player_ids@.len() ==> (#[trigger] player_ids@[i])@ != id),
            forall|id: Seq<char>| #[trigger] final(self)@.contains_key(id) ==> final(self)@[id] == old(self)@[id],
    {
        let ghost names = names_of(player_ids@);
        let mut i: usize = 0;
        assert(self@ =~= old(self)@.remove_keys(names.take(0).to_set()));
        while i < player_ids.len()
            invariant
                i <= player_ids.len(),
                names == names_of(player_ids@),
                self.wf(),
                self@ == old(self)@.remove_keys(names.take(i as int).to_set()),
            decreases player_ids.len() - i,
        {
            dash_remove(&mut self.inner, player_ids[i].as_str());
            proof {
                assert(names.take(i + 1) =~= names.take(i as int).push(names[i as int]));
                assert(names.take(i + 1).to_set() =~= names.take(i as int).to_set().insert(names[i as int])) by {
                    broadcast use vstd::seq_lib::group_seq_properties;
                }
                assert(self@ =~= old(self)@.remove_keys(names.take(i + 1).to_set()));
            }
            i = i + 1;
        }
        assert(names.take(names.len() as int) =~= names);
        proof {
            lemma_names_of(player_ids@);
            assert forall|id: Seq<char>| names.to_set().contains(id) <==> names.contains(id) by {}
        }
    }

    /// How many players are in the queue, in whatever state.
    pub fn len(&self) -> (n: usize)
        ensures
            has_key_count(self@, n as nat),
            self@.dom().finite(),
            n == self@.len(),
    {
        dash_len(&self.inner)
    }
}

} // verus!
