//! Match records, and the list of the latest of them.

use vstd::prelude::*;

use crate::balance::{
    abs, are_best_teams, balance_teams, law_teams_are_the_most_even, law_teams_partition_the_group, lemma_positions_below,
    lemma_sum_of_five, ratings, sum_at, MATCH_SIZE, TEAM_SIZE,
};
use crate::fixed::{Ratio, MMR_POINT};
use crate::player::{waited, MatchedPlayer, PlayerEntry};

verus! {

/// How many of the latest matches are kept.
pub const RECENT_LIMIT: usize = 200;

/// A match: two teams and how well they fit together.
#[derive(Debug)]
pub struct GameMatch {
    pub match_id: String,
    pub team_a: Vec<MatchedPlayer>,
    pub team_b: Vec<MatchedPlayer>,
    /// Average ratings, in points.
    pub team_a_avg_mmr: Ratio,
    pub team_b_avg_mmr: Ratio,
    /// Between the highest and the lowest rating, in rating units.
    pub mmr_spread: u64,
    /// One for teams of equal average, less the further apart they are.
    pub quality_score: Ratio,
    /// When the match was formed, in milliseconds since the start of 1970.
    pub timestamp_ms: u64,
}

/// A player as listed in a match.
pub open spec fn listed(p: PlayerEntry) -> MatchedPlayer {
    MatchedPlayer { player_id: p.player_id, mmr: p.mmr, region: p.region }
}

/// The players of a group at the given positions, as listed in a match.
pub open spec fn team_list(group: Seq<PlayerEntry>, team: Seq<usize>) -> Seq<MatchedPlayer> {
    team.map_values(|i: usize| listed(group[i as int]))
}

/// The lowest of the first `n` ratings.
pub open spec fn lowest(mmrs: Seq<i64>, n: nat) -> i64
    decreases n,
{
    if n <= 1 {
        mmrs[0]
    } else if mmrs[n - 1] < lowest(mmrs, (n - 1) as nat) {
        mmrs[n - 1]
    } else {
        lowest(mmrs, (n - 1) as nat)
    }
}

/// The highest of the first `n` ratings.
pub open spec fn highest(mmrs: Seq<i64>, n: nat) -> i64
    decreases n,
{
    if n <= 1 {
        mmrs[0]
    } else if mmrs[n - 1] > highest(mmrs, (n - 1) as nat) {
        mmrs[n - 1]
    } else {
        highest(mmrs, (n - 1) as nat)
    }
}

/// The distance between the highest and the lowest of ten ratings.
pub open spec fn spread(mmrs: Seq<i64>) -> int {
    highest(mmrs, MATCH_SIZE as nat) - lowest(mmrs, MATCH_SIZE as nat)
}

/// The average rating of a team of five whose ratings add up to `sum`, in points.
pub open spec fn team_average(sum: int) -> Ratio {
    Ratio { num: sum as i128, den: (TEAM_SIZE * MMR_POINT) as u128 }
}

/// The quality of a match: one, less the distance between the two averages taken
/// as a part of the spread and one point more, but never less than nothing.
pub open spec fn quality(mmrs: Seq<i64>, a: Seq<usize>, b: Seq<usize>) -> Ratio {
    let gap = abs(sum_at(mmrs, a) - sum_at(mmrs, b));
    let whole = TEAM_SIZE * (spread(mmrs) + MMR_POINT);
    Ratio {
        num: (if gap < whole {
            whole - gap
        } else {
            0
        }) as i128,
        den: whole as u128,
    }
}

/// The waits of the first `n` players of a group at `now`, added up.
pub open spec fn total_wait(group: Seq<PlayerEntry>, now: u64, n: nat) -> int
    decreases n,
{
    if n == 0 {
        0
    } else {
        total_wait(group, now, (n - 1) as nat) + waited(group[n - 1].joined_at, now)
    }
}

/// The average wait of ten players at `now`, in whole billionths of a second.
pub open spec fn average_wait(group: Seq<PlayerEntry>, now: u64) -> u64 {
    (total_wait(group, now, MATCH_SIZE as nat) / MATCH_SIZE as int) as u64
}

/// `m` is the match of these ten players in the two teams `a` and `b`.
pub open spec fn has_teams(m: GameMatch, group: Seq<PlayerEntry>, a: Seq<usize>, b: Seq<usize>) -> bool {
    let mmrs = ratings(group);
    &&& are_best_teams(mmrs, a, b)
    &&& m.team_a@ == team_list(group, a)
    &&& m.team_b@ == team_list(group, b)
    &&& m.team_a_avg_mmr == team_average(sum_at(mmrs, a))
    &&& m.team_b_avg_mmr == team_average(sum_at(mmrs, b))
    &&& m.quality_score == quality(mmrs, a, b)
    &&& m.mmr_spread == spread(mmrs)
}

/// `m` is the match of these ten players, in the best two teams they can form.
pub open spec fn is_match_of(m: GameMatch, group: Seq<PlayerEntry>) -> bool {
    exists|a: Seq<usize>, b: Seq<usize>| has_teams(m, group, a, b)
}

pub proof fn lemma_extremes(mmrs: Seq<i64>, n: nat)
    requires
        1 <= n <= mmrs.len(),
    ensures
        forall|i: int| 0 <= i < n ==> lowest(mmrs, n) <= #[trigger] mmrs[i] <= highest(mmrs, n),
    decreases n,
{
    if n > 1 {
        lemma_extremes(mmrs, (n - 1) as nat);
    }
}

pub proof fn lemma_extremes_taken(mmrs: Seq<i64>, n: nat)
    requires
        1 <= n <= mmrs.len(),
    ensures
        exists|i: int| 0 <= i < n && #[trigger] mmrs[i] == lowest(mmrs, n),
        exists|i: int| 0 <= i < n && #[trigger] mmrs[i] == highest(mmrs, n),
    decreases n,
{
    if n > 1 {
        lemma_extremes_taken(mmrs, (n - 1) as nat);
        assert(mmrs[n - 1] == mmrs[n - 1]);
    } else {
        assert(mmrs[0] == lowest(mmrs, n));
        assert(mmrs[0] == highest(mmrs, n));
    }
}

proof fn lemma_sum_at_bounds(mmrs: Seq<i64>, team: Seq<usize>, low: int, high: int)
    requires
        forall|k: int| 0 <= k < team.len() ==> (#[trigger] team[k]) < mmrs.len(),
        forall|i: int| 0 <= i < mmrs.len() ==> low <= #[trigger] mmrs[i] <= high,
    ensures
        low * team.len() <= sum_at(mmrs, team) <= high * team.len(),
    decreases team.len(),
{
    if team.len() > 0 {
        let rest = team.drop_last();
        assert forall|k: int| 0 <= k < rest.len() implies (#[trigger] rest[k]) < mmrs.len() by {
            assert(rest[k] == team[k]);
        }
        lemma_sum_at_bounds(mmrs, rest, low, high);
        assert(team.last() == team[team.len() - 1]);
        assert(low * team.len() == low * rest.len() + low) by (nonlinear_arith)
            requires
                team.len() == rest.len() + 1,
        ;
        assert(high * team.len() == high * rest.len() + high) by (nonlinear_arith)
            requires
                team.len() == rest.len() + 1,
        ;
    }
}

proof fn lemma_total_wait_bounds(group: Seq<PlayerEntry>, now: u64, n: nat)
    ensures
        0 <= total_wait(group, now, n) <= n * u64::MAX,
    decreases n,
{
    if n > 0 {
        lemma_total_wait_bounds(group, now, (n - 1) as nat);
    }
}

/// A match of ten players scores more than nothing and at most one, and its
/// teams score exactly one when their ratings add up to the same.
pub proof fn law_quality_is_a_score(mmrs: Seq<i64>, a: Seq<usize>, b: Seq<usize>)
    requires
        mmrs.len() == MATCH_SIZE,
        are_best_teams(mmrs, a, b),
    ensures
        0 < quality(mmrs, a, b).num <= quality(mmrs, a, b).den,
        quality(mmrs, a, b).num == quality(mmrs, a, b).den <==> sum_at(mmrs, a) == sum_at(mmrs, b),
        quality(mmrs, a, b).den == TEAM_SIZE * (spread(mmrs) + MMR_POINT),
        quality(mmrs, a, b).num == quality(mmrs, a, b).den - abs(sum_at(mmrs, a) - sum_at(mmrs, b)),
        quality(mmrs, a, b).den < 0x8_0000_0000_0000_0000,
{
    let low = lowest(mmrs, MATCH_SIZE as nat) as int;
    let high = highest(mmrs, MATCH_SIZE as nat) as int;
    lemma_extremes(mmrs, MATCH_SIZE as nat);
    law_teams_partition_the_group(mmrs, a, b);
    let ab = a + b;
    assert forall|k: int| 0 <= k < a.len() implies (#[trigger] a[k]) < mmrs.len() by {
        assert(ab[k] == a[k]);
        assert(ab.contains(a[k]));
    }
    assert forall|k: int| 0 <= k < b.len() implies (#[trigger] b[k]) < mmrs.len() by {
        assert(ab[k + a.len()] == b[k]);
        assert(ab.contains(b[k]));
    }
    lemma_sum_at_bounds(mmrs, a, low, high);
    lemma_sum_at_bounds(mmrs, b, low, high);
    assert(mmrs[0] >= low && mmrs[0] <= high);
}

/// Every match of ten players scores more than nothing and at most one.
pub proof fn law_match_scores(m: GameMatch, group: Seq<PlayerEntry>)
    requires
        group.len() == MATCH_SIZE,
        is_match_of(m, group),
    ensures
        m.quality_score.wf(),
        0 < m.quality_score.num <= m.quality_score.den,
        m.quality_score.den < 0x8_0000_0000_0000_0000,
{
    let (a, b) = choose|a: Seq<usize>, b: Seq<usize>| has_teams(m, group, a, b);
    law_quality_is_a_score(ratings(group), a, b);
}

/// A match lists the ten players it is of, each of them once: `p` says where in the
/// group the players of team A, and then those of team B, come from.
pub proof fn law_match_lists_its_players(m: GameMatch, group: Seq<PlayerEntry>) -> (p: Seq<usize>)
    requires
        group.len() == 10,
        is_match_of(m, group),
    ensures
        m.team_a@.len() == 5,
        m.team_b@.len() == 5,
        p.len() == 10,
        p.no_duplicates(),
        forall|k: int| 0 <= k < 10 ==> (#[trigger] p[k]) < 10,
        forall|k: int| 0 <= k < 5 ==> {
            &&& (#[trigger] m.team_a@[k]).player_id == group[p[k] as int].player_id
            &&& m.team_a@[k].mmr == group[p[k] as int].mmr
            &&& m.team_a@[k].region == group[p[k] as int].region
        },
        forall|k: int| 0 <= k < 5 ==> {
            &&& (#[trigger] m.team_b@[k]).player_id == group[p[k + 5] as int].player_id
            &&& m.team_b@[k].mmr == group[p[k + 5] as int].mmr
            &&& m.team_b@[k].region == group[p[k + 5] as int].region
        },
        forall|k: int, l: int| 0 <= k < l < 5 ==> (#[trigger] p[k]) < (#[trigger] p[l]),
        forall|k: int, l: int| 5 <= k < l < 10 ==> (#[trigger] p[k]) < (#[trigger] p[l]),
{
    let (a, b) = choose|a: Seq<usize>, b: Seq<usize>| has_teams(m, group, a, b);
    law_teams_partition_the_group(ratings(group), a, b);
    lemma_positions_below(ratings(group), a, b);
    a + b
}

/// The figures of a match are those of the players it lists: the averages are a fifth
/// of each team's ratings added up, the spread is the largest difference between two
/// ratings, and the quality is one, less the distance of the averages as a part of
/// the spread and one point more.
pub proof fn law_match_figures_are_its_players(m: GameMatch, group: Seq<PlayerEntry>)
    requires
        group.len() == 10,
        is_match_of(m, group),
    ensures
        ({
            let all = m.team_a@ + m.team_b@;
            let sum_a = m.team_a@[0].mmr + m.team_a@[1].mmr + m.team_a@[2].mmr + m.team_a@[3].mmr + m.team_a@[4].mmr;
            let sum_b = m.team_b@[0].mmr + m.team_b@[1].mmr + m.team_b@[2].mmr + m.team_b@[3].mmr + m.team_b@[4].mmr;
            let gap = if sum_a < sum_b {
                sum_b - sum_a
            } else {
                sum_a - sum_b
            };
            &&& m.team_a_avg_mmr.num == sum_a
            &&& m.team_a_avg_mmr.den == 5 * MMR_POINT
            &&& m.team_b_avg_mmr.num == sum_b
            &&& m.team_b_avg_mmr.den == 5 * MMR_POINT
            &&& forall|i: int, j: int| 0 <= i < 10 && 0 <= j < 10 ==>
                (#[trigger] all[i]).mmr - (#[trigger] all[j]).mmr <= m.mmr_spread
            &&& exists|i: int, j: int| 0 <= i < 10 && 0 <= j < 10
                && (#[trigger] all[i]).mmr - (#[trigger] all[j]).mmr == m.mmr_spread
            &&& m.quality_score.den == 5 * (m.mmr_spread + MMR_POINT)
            &&& m.quality_score.num == m.quality_score.den - gap
        }),
{
    let (a, b) = choose|a: Seq<usize>, b: Seq<usize>| has_teams(m, group, a, b);
    let mmrs = ratings(group);
    let all = m.team_a@ + m.team_b@;
    law_teams_partition_the_group(mmrs, a, b);
    lemma_positions_below(mmrs, a, b);
    law_quality_is_a_score(mmrs, a, b);
    lemma_sum_of_five(mmrs, a);
    lemma_sum_of_five(mmrs, b);
    assert(forall|i: int| 0 <= i < 10 ==> mmrs[i] == group[i].mmr);
    assert(forall|k: int| 0 <= k < 5 ==> (#[trigger] m.team_a@[k]).mmr == mmrs[a[k] as int]);
    assert(forall|k: int| 0 <= k < 5 ==> (#[trigger] m.team_b@[k]).mmr == mmrs[b[k] as int]);
    let ab = a + b;
    assert forall|i: int| 0 <= i < 10 implies (#[trigger] all[i]).mmr == mmrs[ab[i] as int] by {
        if i < 5 {
            assert(all[i] == m.team_a@[i]);
        } else {
            assert(all[i] == m.team_b@[i - 5]);
        }
    }
    assert forall|i: int| 0 <= i < 10 implies (#[trigger] ab[i]) < 10 by {
        assert(ab.contains(ab[i]));
    }
    lemma_extremes(mmrs, 10);
    lemma_extremes_taken(mmrs, 10);
    let high = choose|i: int| 0 <= i < 10 && #[trigger] mmrs[i] == highest(mmrs, 10);
    let low = choose|i: int| 0 <= i < 10 && #[trigger] mmrs[i] == lowest(mmrs, 10);
    assert(ab.contains(high as usize) && ab.contains(low as usize));
    let x = choose|x: int| 0 <= x < ab.len() && ab[x] == high as usize;
    let y = choose|y: int| 0 <= y < ab.len() && ab[y] == low as usize;
    assert(all[x].mmr - all[y].mmr == m.mmr_spread);
    lemma_sum_fits(mmrs, a);
    lemma_sum_fits(mmrs, b);
}

/// However the ten players that a match lists are put into two teams of five, the two
/// sums of ratings are no closer together than those of its own teams. `q` names the
/// ten in any order, the first five for one team and the last five for the other.
pub proof fn law_match_has_the_most_even_teams(m: GameMatch, group: Seq<PlayerEntry>, q: Seq<usize>)
    requires
        group.len() == 10,
        is_match_of(m, group),
        q.len() == 10,
        q.no_duplicates(),
        forall|k: int| 0 <= k < q.len() ==> (#[trigger] q[k]) < 10,
    ensures
        ({
            let all = m.team_a@ + m.team_b@;
            let gap = (m.team_a@[0].mmr + m.team_a@[1].mmr + m.team_a@[2].mmr + m.team_a@[3].mmr + m.team_a@[4].mmr) - (
                m.team_b@[0].mmr + m.team_b@[1].mmr + m.team_b@[2].mmr + m.team_b@[3].mmr + m.team_b@[4].mmr);
            let other = (all[q[0] as int].mmr + all[q[1] as int].mmr + all[q[2] as int].mmr + all[q[3] as int].mmr
                + all[q[4] as int].mmr) - (
                all[q[5] as int].mmr + all[q[6] as int].mmr + all[q[7] as int].mmr + all[q[8] as int].mmr + all[q[9] as int].mmr);
            (if gap < 0 { -gap } else { gap }) <= (if other < 0 { -other } else { other })
        }),
{
    let (a, b) = choose|a: Seq<usize>, b: Seq<usize>| has_teams(m, group, a, b);
    let mmrs = ratings(group);
    let all = m.team_a@ + m.team_b@;
    let ab = a + b;
    let p = q.map_values(|k: usize| ab[k as int]);
    law_teams_partition_the_group(mmrs, a, b);
    lemma_positions_below(mmrs, a, b);
    assert forall|k: int, l: int| 0 <= k < p.len() && 0 <= l < p.len() && k != l implies p[k] != p[l] by {
        assert(q[k] != q[l]);
        assert(ab[q[k] as int] != ab[q[l] as int]);
    }
    assert forall|k: int| 0 <= k < p.len() implies (#[trigger] p[k]) < 10 by {
        assert(ab.contains(ab[q[k] as int]));
    }
    law_teams_are_the_most_even(group, a, b, p);
    assert forall|i: int| 0 <= i < 10 implies (#[trigger] all[i]).mmr == group[ab[i] as int].mmr by {
        if i < 5 {
            assert(all[i] == m.team_a@[i]);
        } else {
            assert(all[i] == m.team_b@[i - 5]);
        }
    }
    assert forall|k: int| 0 <= k < 10 implies all[(#[trigger] q[k]) as int].mmr == group[p[k] as int].mmr by {}
    assert(forall|k: int| 0 <= k < 5 ==> (#[trigger] m.team_a@[k]).mmr == group[a[k] as int].mmr);
    assert(forall|k: int| 0 <= k < 5 ==> (#[trigger] m.team_b@[k]).mmr == group[b[k] as int].mmr);
}

proof fn lemma_sum_fits(mmrs: Seq<i64>, t: Seq<usize>)
    requires
        t.len() == 5,
    ensures
        sum_at(mmrs, t) as i128 == sum_at(mmrs, t),
{
    lemma_sum_of_five(mmrs, t);
}

/// Adds up the ratings of the players at the given positions.
fn sum_team(group: &Vec<PlayerEntry>, team: &Vec<usize>) -> (sum: i128)
    requires
        group.len() == MATCH_SIZE,
        team.len() <= MATCH_SIZE,
        forall|k: int| 0 <= k < team@.len() ==> (#[trigger] team@[k]) < MATCH_SIZE,
    ensures
        sum == sum_at(ratings(group@), team@),
{
    let ghost mmrs = ratings(group@);
    let mut sum: i128 = 0;
    let mut k: usize = 0;
    while k < team.len()
        invariant
            group.len() == MATCH_SIZE,
            team.len() <= MATCH_SIZE,
            mmrs == ratings(group@),
            forall|k: int| 0 <= k < team@.len() ==> (#[trigger] team@[k]) < MATCH_SIZE,
            k <= team.len(),
            -0x8000_0000_0000_0000 * k <= sum <= 0x8000_0000_0000_0000 * k,
            sum == sum_at(mmrs, team@.take(k as int)),
        decreases team.len() - k,
    {
        proof {
            assert(team@.take(k + 1).drop_last() =~= team@.take(k as int));
            assert(mmrs[team@[k as int] as int] == group@[team@[k as int] as int].mmr);
        }
        sum = sum + group[team[k]].mmr as i128;
        k = k + 1;
    }
    assert(team@.take(team@.len() as int) =~= team@);
    sum
}

/// The players at the given positions, as listed in a match.
fn list_team(group: &Vec<PlayerEntry>, team: &Vec<usize>) -> (out: Vec<MatchedPlayer>)
    requires
        forall|k: int| 0 <= k < team@.len() ==> (#[trigger] team@[k]) < group.len(),
    ensures
        out@ == team_list(group@, team@),
{
    let mut out: Vec<MatchedPlayer> = Vec::with_capacity(team.len());
    let mut k: usize = 0;
    while k < team.len()
        invariant
            forall|k: int| 0 <= k < team@.len() ==> (#[trigger] team@[k]) < group.len(),
            k <= team.len(),
            out@ == team_list(group@, team@.take(k as int)),
        decreases team.len() - k,
    {
        let p: &PlayerEntry = &group[team[k]];
        out.push(MatchedPlayer { player_id: p.player_id.clone(), mmr: p.mmr, region: p.region.clone() });
        assert(out@ =~= team_list(group@, team@.take(k + 1)));
        k = k + 1;
    }
    assert(team@.take(team@.len() as int) =~= team@);
    out
}

/// The distance between the highest and the lowest rating of a group of ten.
fn group_spread(group: &Vec<PlayerEntry>) -> (s: u64)
    requires
        group.len() == MATCH_SIZE,
    ensures
        s == spread(ratings(group@)),
{
    let ghost mmrs = ratings(group@);
    let mut low: i64 = group[0].mmr;
    let mut high: i64 = group[0].mmr;
    let mut k: usize = 1;
    while k < MATCH_SIZE
        invariant
            group.len() == MATCH_SIZE,
            mmrs == ratings(group@),
            1 <= k <= MATCH_SIZE,
            low <= high,
            low == lowest(mmrs, k as nat),
            high == highest(mmrs, k as nat),
        decreases MATCH_SIZE - k,
    {
        let m: i64 = group[k].mmr;
        assert(mmrs[k as int] == m);
        if m < low {
            low = m;
        }
        if m > high {
            high = m;
        }
        k = k + 1;
    }
    (high as i128 - low as i128) as u64
}

/// The average wait of ten players is a tenth of their waits added up, in whole
/// billionths of a second. Each waits from joining on; one who joins later than `now`
/// has not waited.
pub proof fn law_wait_is_averaged(group: Seq<PlayerEntry>, now: u64)
    requires
        group.len() == 10,
    ensures
        ({
            let avg = average_wait(group, now);
            let wait = |i: int| if now >= group[i].joined_at {
                now - group[i].joined_at
            } else {
                0
            };
            10 * avg <= wait(0) + wait(1) + wait(2) + wait(3) + wait(4) + wait(5) + wait(6) + wait(7) + wait(8) + wait(9) < 10 * avg + 10
        }),
{
    let wait = |i: int| if now >= group[i].joined_at {
        now - group[i].joined_at
    } else {
        0
    };
    assert(total_wait(group, now, 0) == 0);
    assert(total_wait(group, now, 1) == total_wait(group, now, 0) + wait(0));
    assert(total_wait(group, now, 2) == total_wait(group, now, 1) + wait(1));
    assert(total_wait(group, now, 3) == total_wait(group, now, 2) + wait(2));
    assert(total_wait(group, now, 4) == total_wait(group, now, 3) + wait(3));
    assert(total_wait(group, now, 5) == total_wait(group, now, 4) + wait(4));
    assert(total_wait(group, now, 6) == total_wait(group, now, 5) + wait(5));
    assert(total_wait(group, now, 7) == total_wait(group, now, 6) + wait(6));
    assert(total_wait(group, now, 8) == total_wait(group, now, 7) + wait(7));
    assert(total_wait(group, now, 9) == total_wait(group, now, 8) + wait(8));
    assert(total_wait(group, now, 10) == total_wait(group, now, 9) + wait(9));
    lemma_total_wait_bounds(group, now, 10);
}

/// The average wait of a group of ten at `now`.
pub fn group_wait(group: &Vec<PlayerEntry>, now: u64) -> (avg: u64)
    requires
        group.len() == MATCH_SIZE,
    ensures
        avg == average_wait(group@, now),
        ({
            let wait = |i: int| if now >= group@[i].joined_at {
                now - group@[i].joined_at
            } else {
                0
            };
            10 * avg <= wait(0) + wait(1) + wait(2) + wait(3) + wait(4) + wait(5) + wait(6) + wait(7) + wait(8) + wait(9) < 10 * avg + 10
        }),
{
    proof {
        law_wait_is_averaged(group@, now);
    }
    let mut total: u128 = 0;
    let mut k: usize = 0;
    while k < MATCH_SIZE
        invariant
            group.len() == MATCH_SIZE,
            k <= MATCH_SIZE,
            total <= k * u64::MAX,
            total == total_wait(group@, now, k as nat),
        decreases MATCH_SIZE - k,
    {
        total = total + group[k].wait_secs(now) as u128;
        k = k + 1;
    }
    (total / MATCH_SIZE as u128) as u64
}

/// Puts ten players into a match under the given id and time: the two best teams
/// they can form, and the figures that describe them.
pub fn build_match(group: &Vec<PlayerEntry>, match_id: String, timestamp_ms: u64) -> (m: GameMatch)
    requires
        group.len() == MATCH_SIZE,
    ensures
        m.match_id == match_id,
        m.timestamp_ms == timestamp_ms,
        is_match_of(m, group@),
{
    let ghost mmrs = ratings(group@);
    let (team_a, team_b) = balance_teams(group);
    proof {
        law_quality_is_a_score(mmrs, team_a@, team_b@);
        law_teams_partition_the_group(mmrs, team_a@, team_b@);
        let ab = team_a@ + team_b@;
        assert forall|k: int| 0 <= k < team_a@.len() implies (#[trigger] team_a@[k]) < MATCH_SIZE by {
            assert(ab[k] == team_a@[k]);
            assert(ab.contains(team_a@[k]));
        }
        assert forall|k: int| 0 <= k < team_b@.len() implies (#[trigger] team_b@[k]) < MATCH_SIZE by {
            assert(ab[k + team_a@.len()] == team_b@[k]);
            assert(ab.contains(team_b@[k]));
        }
        lemma_sum_at_bounds(mmrs, team_a@, i64::MIN as int, i64::MAX as int);
        lemma_sum_at_bounds(mmrs, team_b@, i64::MIN as int, i64::MAX as int);
    }
    let sum_a: i128 = sum_team(group, &team_a);
    let sum_b: i128 = sum_team(group, &team_b);
    let mmr_spread: u64 = group_spread(group);
    let difference: i128 = sum_a - sum_b;
    let gap: i128 = if difference < 0 {
        -difference
    } else {
        difference
    };
    let whole: i128 = 5 * (mmr_spread as i128 + MMR_POINT as i128);
    let quality_score: Ratio = Ratio {
        num: if gap < whole {
            whole - gap
        } else {
            0
        },
        den: whole as u128,
    };
    let m: GameMatch = GameMatch {
        match_id,
        team_a: list_team(group, &team_a),
        team_b: list_team(group, &team_b),
        team_a_avg_mmr: Ratio { num: sum_a, den: 5 * MMR_POINT as u128 },
        team_b_avg_mmr: Ratio { num: sum_b, den: 5 * MMR_POINT as u128 },
        mmr_spread,
        quality_score,
        timestamp_ms,
    };
    assert(has_teams(m, group@, team_a@, team_b@));
    m
}

/// The list of latest matches after one more: the oldest makes room if the list
/// is full.
pub open spec fn pushed(recent: Seq<GameMatch>, m: GameMatch) -> Seq<GameMatch> {
    if recent.len() >= RECENT_LIMIT {
        recent.remove(0).push(m)
    } else {
        recent.push(m)
    }
}

/// Adds a match to the list of the latest.
pub fn push_recent(recent: &mut Vec<GameMatch>, m: GameMatch)
    ensures
        final(recent)@ == pushed(old(recent)@, m),
        old(recent)@.len() < 200 ==> final(recent)@ == old(recent)@.push(m),
        old(recent)@.len() >= 200 ==> final(recent)@ == old(recent)@.skip(1).push(m),
{
    if recent.len() >= RECENT_LIMIT {
        recent.remove(0);
    }
    recent.push(m);
    assert(old(recent)@.len() >= 200 ==> old(recent)@.remove(0) =~= old(recent)@.skip(1));
}

/// The list of latest matches after a whole history of matches.
pub open spec fn pushed_all(history: Seq<GameMatch>) -> Seq<GameMatch>
    decreases history.len(),
{
    if history.len() == 0 {
        Seq::empty()
    } else {
        pushed(pushed_all(history.drop_last()), history.last())
    }
}

/// After any history of matches, the list holds the latest of them in order:
/// all of them up to the limit, and beyond it exactly as many as the limit.
pub proof fn law_recent_keeps_the_latest(history: Seq<GameMatch>)
    ensures
        history.len() <= RECENT_LIMIT ==> pushed_all(history) == history,
        history.len() > RECENT_LIMIT ==> pushed_all(history) == history.skip(history.len() - RECENT_LIMIT),
        pushed_all(history).len() <= RECENT_LIMIT,
    decreases history.len(),
{
    if history.len() > 0 {
        let before = history.drop_last();
        law_recent_keeps_the_latest(before);
        if history.len() <= RECENT_LIMIT {
            assert(pushed_all(history) =~= history);
        } else {
            assert(pushed_all(history) =~= history.skip(history.len() - RECENT_LIMIT));
        }
    } else {
        assert(pushed_all(history) =~= history);
    }
}

/// Two records of the same match, with the same teams and figures.
pub open spec fn same_match(a: GameMatch, b: GameMatch) -> bool {
    &&& a.match_id == b.match_id
    &&& a.team_a@ == b.team_a@
    &&& a.team_b@ == b.team_b@
    &&& a.team_a_avg_mmr == b.team_a_avg_mmr
    &&& a.team_b_avg_mmr == b.team_b_avg_mmr
    &&& a.mmr_spread == b.mmr_spread
    &&& a.quality_score == b.quality_score
    &&& a.timestamp_ms == b.timestamp_ms
}

/// Two records of the same match agree in every field, and list the same players in
/// the same places of the same teams.
pub proof fn law_same_match_agrees(a: GameMatch, b: GameMatch)
    requires
        same_match(a, b),
    ensures
        a.match_id == b.match_id,
        a.timestamp_ms == b.timestamp_ms,
        a.mmr_spread == b.mmr_spread,
        a.team_a_avg_mmr.num == b.team_a_avg_mmr.num && a.team_a_avg_mmr.den == b.team_a_avg_mmr.den,
        a.team_b_avg_mmr.num == b.team_b_avg_mmr.num && a.team_b_avg_mmr.den == b.team_b_avg_mmr.den,
        a.quality_score.num == b.quality_score.num && a.quality_score.den == b.quality_score.den,
        a.team_a@.len() == b.team_a@.len(),
        forall|k: int| 0 <= k < a.team_a@.len() ==> {
            &&& (#[trigger] a.team_a@[k]).player_id == b.team_a@[k].player_id
            &&& a.team_a@[k].mmr == b.team_a@[k].mmr
            &&& a.team_a@[k].region == b.team_a@[k].region
        },
        a.team_b@.len() == b.team_b@.len(),
        forall|k: int| 0 <= k < a.team_b@.len() ==> {
            &&& (#[trigger] a.team_b@[k]).player_id == b.team_b@[k].player_id
            &&& a.team_b@[k].mmr == b.team_b@[k].mmr
            &&& a.team_b@[k].region == b.team_b@[k].region
        },
{
}

fn clone_team(team: &Vec<MatchedPlayer>) -> (out: Vec<MatchedPlayer>)
    ensures
        out@ == team@,
{
    let mut out: Vec<MatchedPlayer> = Vec::with_capacity(team.len());
    let mut k: usize = 0;
    while k < team.len()
        invariant
            k <= team.len(),
            out@ == team@.take(k as int),
        decreases team.len() - k,
    {
        out.push(team[k].clone());
        assert(out@ =~= team@.take(k + 1));
        k = k + 1;
    }
    assert(out@ =~= team@);
    out
}

impl Clone for GameMatch {
    fn clone(&self) -> (r: Self)
        ensures
            same_match(r, *self),
            r.match_id == self.match_id,
            r.team_a@ == self.team_a@,
            r.team_b@ == self.team_b@,
            r.team_a_avg_mmr == self.team_a_avg_mmr,
            r.team_b_avg_mmr == self.team_b_avg_mmr,
            r.mmr_spread == self.mmr_spread,
            r.quality_score == self.quality_score,
            r.timestamp_ms == self.timestamp_ms,
    {
        GameMatch {
            match_id: self.match_id.clone(),
            team_a: clone_team(&self.team_a),
            team_b: clone_team(&self.team_b),
            team_a_avg_mmr: self.team_a_avg_mmr,
            team_b_avg_mmr: self.team_b_avg_mmr,
            mmr_spread: self.mmr_spread,
            quality_score: self.quality_score,
            timestamp_ms: self.timestamp_ms,
        }
    }
}

} // verus!
