//! Splitting ten players into two teams of five.
//!
//! A split is written as a number below 1024 whose binary digits say, player by
//! player, who plays on team A.

use vstd::prelude::*;

use crate::player::PlayerEntry;
use crate::sorting::lemma_reaches_all;

verus! {

/// Players in a match.
pub const MATCH_SIZE: usize = 10;

/// Players on a team.
pub const TEAM_SIZE: usize = 5;

/// Splits that are looked at: one for each way to set ten binary digits.
pub const SPLITS: u16 = 1024;

/// `mask` halved `j` times, rounding down.
pub open spec fn halved(mask: nat, j: nat) -> nat
    decreases j,
{
    if j == 0 {
        mask
    } else {
        halved(mask, (j - 1) as nat) / 2
    }
}

/// Whether split `mask` puts player `j` on team A.
pub open spec fn on_team_a(mask: nat, j: nat) -> bool {
    halved(mask, j) % 2 == 1
}

/// How many of the first `n` players split `mask` puts on team A.
pub open spec fn team_a_count(mask: nat, n: nat) -> nat
    decreases n,
{
    if n == 0 {
        0
    } else {
        team_a_count(mask, (n - 1) as nat) + (if on_team_a(mask, (n - 1) as nat) {
            1nat
        } else {
            0nat
        })
    }
}

/// The ratings, added up, of those of the first `n` players who play on team A.
pub open spec fn team_a_sum(mmrs: Seq<i64>, mask: nat, n: nat) -> int
    decreases n,
{
    if n == 0 {
        0
    } else {
        team_a_sum(mmrs, mask, (n - 1) as nat) + (if on_team_a(mask, (n - 1) as nat) {
            mmrs[n - 1] as int
        } else {
            0
        })
    }
}

/// The ratings of the first `n` players, added up.
pub open spec fn total_sum(mmrs: Seq<i64>, n: nat) -> int
    decreases n,
{
    if n == 0 {
        0
    } else {
        total_sum(mmrs, (n - 1) as nat) + mmrs[n - 1]
    }
}

/// The size of a number, whatever its sign.
pub open spec fn abs(x: int) -> int {
    if x < 0 {
        -x
    } else {
        x
    }
}

/// How far apart the two teams' rating sums are under split `mask`.
pub open spec fn imbalance(mmrs: Seq<i64>, mask: nat) -> int {
    abs(2 * team_a_sum(mmrs, mask, MATCH_SIZE as nat) - total_sum(mmrs, MATCH_SIZE as nat))
}

/// Whether split `mask` makes two teams of five.
pub open spec fn is_even_split(mask: nat) -> bool {
    mask < SPLITS && team_a_count(mask, MATCH_SIZE as nat) == TEAM_SIZE
}

/// `mask` is the best split into two teams of five: none is more balanced, and
/// none with a smaller number is as balanced.
pub open spec fn is_best_split(mmrs: Seq<i64>, mask: nat) -> bool {
    &&& is_even_split(mask)
    &&& forall|other: nat| #[trigger] is_even_split(other) ==> imbalance(mmrs, mask) <= imbalance(mmrs, other)
    &&& forall|other: nat| #[trigger] is_even_split(other) && other < mask ==> imbalance(mmrs, mask) < imbalance(mmrs, other)
}

/// Those of the first `n` players who are on team A (`side`) or on team B
/// (`!side`) under split `mask`, in ascending order.
pub open spec fn members(mask: nat, side: bool, n: nat) -> Seq<usize>
    decreases n,
{
    if n == 0 {
        Seq::empty()
    } else {
        let rest = members(mask, side, (n - 1) as nat);
        if on_team_a(mask, (n - 1) as nat) == side {
            rest.push((n - 1) as usize)
        } else {
            rest
        }
    }
}

/// The ratings of the players of a group.
pub open spec fn ratings(group: Seq<PlayerEntry>) -> Seq<i64> {
    group.map_values(|p: PlayerEntry| p.mmr)
}

/// `a` and `b` are the two teams of the best split.
pub open spec fn are_best_teams(mmrs: Seq<i64>, a: Seq<usize>, b: Seq<usize>) -> bool {
    exists|mask: nat| #[trigger] is_best_split(mmrs, mask)
        && a == members(mask, true, MATCH_SIZE as nat)
        && b == members(mask, false, MATCH_SIZE as nat)
}

/// Nothing among the splits below `limit` is more balanced than `best`, or as
/// balanced and smaller; `diff` is the imbalance of `best`.
spec fn is_best_below(mmrs: Seq<i64>, limit: nat, best: nat, diff: int) -> bool {
    &&& best < limit
    &&& is_even_split(best)
    &&& diff == imbalance(mmrs, best)
    &&& forall|other: nat| #[trigger] is_even_split(other) && other < limit ==> diff <= imbalance(mmrs, other)
    &&& forall|other: nat| #[trigger] is_even_split(other) && other < best ==> diff < imbalance(mmrs, other)
}

proof fn lemma_some_even_split()
    ensures
        is_even_split(31),
{
    reveal_with_fuel(team_a_count, 11);
    reveal_with_fuel(halved, 11);
}

proof fn lemma_sum_bounds(mmrs: Seq<i64>, mask: nat, n: nat)
    requires
        n <= mmrs.len(),
    ensures
        -0x8000_0000_0000_0000 * n <= team_a_sum(mmrs, mask, n) <= 0x8000_0000_0000_0000 * n,
        -0x8000_0000_0000_0000 * n <= total_sum(mmrs, n) <= 0x8000_0000_0000_0000 * n,
    decreases n,
{
    if n > 0 {
        lemma_sum_bounds(mmrs, mask, (n - 1) as nat);
    }
}

proof fn lemma_member_count(mask: nat, n: nat)
    ensures
        members(mask, true, n).len() == team_a_count(mask, n),
        members(mask, false, n).len() == n - team_a_count(mask, n),
    decreases n,
{
    if n > 0 {
        lemma_member_count(mask, (n - 1) as nat);
    }
}

/// How many players a split puts on team A, and their ratings added up.
fn weigh_split(mmrs: &Vec<i64>, mask: u16) -> (r: (usize, i128))
    requires
        mmrs.len() == MATCH_SIZE,
    ensures
        r.0 == team_a_count(mask as nat, MATCH_SIZE as nat),
        r.1 == team_a_sum(mmrs@, mask as nat, MATCH_SIZE as nat),
{
    let mut count: usize = 0;
    let mut sum: i128 = 0;
    let mut rest: u16 = mask;
    let mut j: usize = 0;
    while j < MATCH_SIZE
        invariant
            mmrs.len() == MATCH_SIZE,
            j <= MATCH_SIZE,
            rest == halved(mask as nat, j as nat),
            count <= j,
            count == team_a_count(mask as nat, j as nat),
            sum == team_a_sum(mmrs@, mask as nat, j as nat),
        decreases MATCH_SIZE - j,
    {
        proof {
            lemma_sum_bounds(mmrs@, mask as nat, j as nat);
        }
        if rest % 2 == 1 {
            count = count + 1;
            sum = sum + mmrs[j] as i128;
        }
        rest = rest / 2;
        j = j + 1;
    }
    (count, sum)
}

/// The ratings of ten players, added up.
fn sum_ratings(mmrs: &Vec<i64>) -> (sum: i128)
    requires
        mmrs.len() == MATCH_SIZE,
    ensures
        sum == total_sum(mmrs@, MATCH_SIZE as nat),
{
    let mut sum: i128 = 0;
    let mut j: usize = 0;
    while j < MATCH_SIZE
        invariant
            mmrs.len() == MATCH_SIZE,
            j <= MATCH_SIZE,
            sum == total_sum(mmrs@, j as nat),
        decreases MATCH_SIZE - j,
    {
        proof {
            lemma_sum_bounds(mmrs@, 0, j as nat);
        }
        sum = sum + mmrs[j] as i128;
        j = j + 1;
    }
    sum
}

/// The best split of ten ratings.
fn best_split(mmrs: &Vec<i64>) -> (best_mask: u16)
    requires
        mmrs.len() == MATCH_SIZE,
    ensures
        is_best_split(mmrs@, best_mask as nat),
{
    let total: i128 = sum_ratings(mmrs);
    let mut best_diff: u128 = u128::MAX;
    let mut best_mask: u16 = 0;
    let mut mask: u16 = 0;
    while mask < SPLITS
        invariant
            mmrs.len() == MATCH_SIZE,
            mask <= SPLITS,
            total == total_sum(mmrs@, MATCH_SIZE as nat),
            best_diff == u128::MAX ==> forall|other: nat| #[trigger] is_even_split(other) ==> other >= mask,
            best_diff < u128::MAX ==> is_best_below(mmrs@, mask as nat, best_mask as nat, best_diff as int),
        decreases SPLITS - mask,
    {
        let (count, sum) = weigh_split(mmrs, mask);
        if count == TEAM_SIZE {
            proof {
                lemma_sum_bounds(mmrs@, mask as nat, MATCH_SIZE as nat);
            }
            let twice: i128 = 2 * sum - total;
            let diff: u128 = if twice < 0 {
                (-twice) as u128
            } else {
                twice as u128
            };
            assert(is_even_split(mask as nat));
            assert(diff == imbalance(mmrs@, mask as nat));
            if diff < best_diff {
                best_diff = diff;
                best_mask = mask;
                if diff == 0 {
                    assert(is_best_split(mmrs@, best_mask as nat));
                    return best_mask;
                }
            }
        }
        mask = mask + 1;
    }
    proof {
        lemma_some_even_split();
    }
    best_mask
}

/// The players on one side of a split.
fn side_members(mask: u16, side: bool) -> (team: Vec<usize>)
    ensures
        team@ == members(mask as nat, side, MATCH_SIZE as nat),
{
    let mut team: Vec<usize> = Vec::with_capacity(TEAM_SIZE);
    let mut rest: u16 = mask;
    let mut j: usize = 0;
    while j < MATCH_SIZE
        invariant
            j <= MATCH_SIZE,
            rest == halved(mask as nat, j as nat),
            team@ == members(mask as nat, side, j as nat),
        decreases MATCH_SIZE - j,
    {
        if (rest % 2 == 1) == side {
            team.push(j);
        }
        rest = rest / 2;
        j = j + 1;
    }
    team
}

/// Splits ten players into two teams of five whose rating sums are as close as
/// any split can bring them, and returns the positions of each team's players.
pub fn balance_teams(group: &Vec<PlayerEntry>) -> (teams: (Vec<usize>, Vec<usize>))
    requires
        group.len() == MATCH_SIZE,
    ensures
        are_best_teams(ratings(group@), teams.0@, teams.1@),
        teams.0@.len() == 5,
        teams.1@.len() == 5,
        forall|k: int, l: int| 0 <= k < l < 5 ==> (#[trigger] teams.0@[k]) < (#[trigger] teams.0@[l]),
        forall|k: int, l: int| 0 <= k < l < 5 ==> (#[trigger] teams.1@[k]) < (#[trigger] teams.1@[l]),
        forall|j: usize| #[trigger] teams.0@.contains(j) <==> j < 10 && !teams.1@.contains(j),
        forall|p: Seq<usize>| p.len() == 10 && #[trigger] p.no_duplicates() && (forall|k: int| 0 <= k < 10 ==> (#[trigger] p[k]) < 10)
            ==> {
            let gap = (group@[teams.0@[0] as int].mmr + group@[teams.0@[1] as int].mmr
                + group@[teams.0@[2] as int].mmr + group@[teams.0@[3] as int].mmr
                + group@[teams.0@[4] as int].mmr) - (
                group@[teams.1@[0] as int].mmr + group@[teams.1@[1] as int].mmr + group@[teams.1@[2] as int].mmr
                    + group@[teams.1@[3] as int].mmr + group@[teams.1@[4] as int].mmr);
            let other = (group@[p[0] as int].mmr + group@[p[1] as int].mmr + group@[p[2] as int].mmr
                + group@[p[3] as int].mmr + group@[p[4] as int].mmr) - (
                group@[p[5] as int].mmr + group@[p[6] as int].mmr + group@[p[7] as int].mmr
                    + group@[p[8] as int].mmr + group@[p[9] as int].mmr);
            (if gap < 0 { -gap } else { gap }) <= (if other < 0 { -other } else { other })
        },
{
    let mut mmrs: Vec<i64> = Vec::with_capacity(MATCH_SIZE);
    let mut j: usize = 0;
    while j < MATCH_SIZE
        invariant
            group.len() == MATCH_SIZE,
            j <= MATCH_SIZE,
            mmrs@ == ratings(group@).take(j as int),
        decreases MATCH_SIZE - j,
    {
        mmrs.push(group[j].mmr);
        assert(mmrs@ =~= ratings(group@).take(j + 1));
        j = j + 1;
    }
    assert(mmrs@ =~= ratings(group@));
    let best_mask: u16 = best_split(&mmrs);
    let team_a: Vec<usize> = side_members(best_mask, true);
    let team_b: Vec<usize> = side_members(best_mask, false);
    proof {
        let (a, b) = (team_a@, team_b@);
        lemma_positions_below(mmrs@, a, b);
        law_teams_partition_the_group(mmrs@, a, b);
        lemma_sides_differ(mmrs@, a, b);
        assert forall|p: Seq<usize>| p.len() == 10 && #[trigger] p.no_duplicates() && (forall|k: int| 0 <= k < 10 ==> (#[trigger] p[k]) < 10)
            implies {
            let gap = (group@[a[0] as int].mmr + group@[a[1] as int].mmr + group@[a[2] as int].mmr
                + group@[a[3] as int].mmr + group@[a[4] as int].mmr) - (
                group@[b[0] as int].mmr + group@[b[1] as int].mmr + group@[b[2] as int].mmr
                    + group@[b[3] as int].mmr + group@[b[4] as int].mmr);
            let other = (group@[p[0] as int].mmr + group@[p[1] as int].mmr + group@[p[2] as int].mmr
                + group@[p[3] as int].mmr + group@[p[4] as int].mmr) - (
                group@[p[5] as int].mmr + group@[p[6] as int].mmr + group@[p[7] as int].mmr
                    + group@[p[8] as int].mmr + group@[p[9] as int].mmr);
            (if gap < 0 { -gap } else { gap }) <= (if other < 0 { -other } else { other })
        } by {
            law_teams_are_the_most_even(group@, a, b, p);
        }
    }
    (team_a, team_b)
}

/// The ratings of the players at the given positions, added up.
pub open spec fn sum_at(mmrs: Seq<i64>, team: Seq<usize>) -> int
    decreases team.len(),
{
    if team.len() == 0 {
        0
    } else {
        sum_at(mmrs, team.drop_last()) + mmrs[team.last() as int]
    }
}

/// How many of the first `n` players are chosen.
pub open spec fn chosen_count(chosen: Seq<bool>, n: nat) -> nat
    decreases n,
{
    if n == 0 {
        0
    } else {
        chosen_count(chosen, (n - 1) as nat) + (if chosen[n - 1] {
            1nat
        } else {
            0nat
        })
    }
}

/// The ratings, added up, of those of the first `n` players whose choice is `side`.
pub open spec fn chosen_sum(mmrs: Seq<i64>, chosen: Seq<bool>, side: bool, n: nat) -> int
    decreases n,
{
    if n == 0 {
        0
    } else {
        chosen_sum(mmrs, chosen, side, (n - 1) as nat) + (if chosen[n - 1] == side {
            mmrs[n - 1] as int
        } else {
            0
        })
    }
}

/// The number of the split that puts the chosen players on team A.
spec fn mask_of(chosen: Seq<bool>) -> nat
    decreases chosen.len(),
{
    if chosen.len() == 0 {
        0
    } else {
        (if chosen[0] {
            1nat
        } else {
            0nat
        }) + 2 * mask_of(chosen.drop_first())
    }
}

proof fn lemma_halved_shift(mask: nat, j: nat)
    ensures
        halved(mask, j + 1) == halved(mask / 2, j),
    decreases j,
{
    if j > 0 {
        lemma_halved_shift(mask, (j - 1) as nat);
    } else {
        assert(halved(mask, 1) == halved(mask, 0) / 2);
    }
}

proof fn lemma_mask_digits(chosen: Seq<bool>, j: nat)
    requires
        j < chosen.len(),
    ensures
        on_team_a(mask_of(chosen), j) == chosen[j as int],
    decreases chosen.len(),
{
    let mask = mask_of(chosen);
    let rest = mask_of(chosen.drop_first());
    assert(mask / 2 == rest);
    if j > 0 {
        lemma_halved_shift(mask, (j - 1) as nat);
        lemma_mask_digits(chosen.drop_first(), (j - 1) as nat);
    }
}

proof fn lemma_mask_range(chosen: Seq<bool>, limit: nat)
    requires
        limit == vstd::arithmetic::power2::pow2(chosen.len()),
    ensures
        mask_of(chosen) < limit,
    decreases chosen.len(),
{
    if chosen.len() == 0 {
        vstd::arithmetic::power2::lemma2_to64();
    } else {
        let half = vstd::arithmetic::power2::pow2(chosen.drop_first().len());
        vstd::arithmetic::power2::lemma_pow2_unfold(chosen.len());
        lemma_mask_range(chosen.drop_first(), half);
    }
}

proof fn lemma_mask_weighs(mmrs: Seq<i64>, chosen: Seq<bool>, n: nat)
    requires
        n <= chosen.len(),
    ensures
        team_a_count(mask_of(chosen), n) == chosen_count(chosen, n),
        team_a_sum(mmrs, mask_of(chosen), n) == chosen_sum(mmrs, chosen, true, n),
        total_sum(mmrs, n) == chosen_sum(mmrs, chosen, true, n) + chosen_sum(mmrs, chosen, false, n),
    decreases n,
{
    if n > 0 {
        lemma_mask_weighs(mmrs, chosen, (n - 1) as nat);
        lemma_mask_digits(chosen, (n - 1) as nat);
    }
}

proof fn lemma_member_sums(mmrs: Seq<i64>, mask: nat, n: nat)
    requires
        n <= mmrs.len(),
        n <= MATCH_SIZE,
    ensures
        sum_at(mmrs, members(mask, true, n)) == team_a_sum(mmrs, mask, n),
        sum_at(mmrs, members(mask, true, n)) + sum_at(mmrs, members(mask, false, n)) == total_sum(mmrs, n),
    decreases n,
{
    if n > 0 {
        let m = (n - 1) as nat;
        lemma_member_sums(mmrs, mask, m);
        let side = on_team_a(mask, m);
        assert(members(mask, side, n).drop_last() =~= members(mask, side, m));
    }
}

proof fn lemma_member_positions(mask: nat, side: bool, n: nat)
    requires
        n <= MATCH_SIZE,
    ensures
        forall|k: int| 0 <= k < members(mask, side, n).len() ==> {
            &&& (#[trigger] members(mask, side, n)[k]) < n
            &&& on_team_a(mask, members(mask, side, n)[k] as nat) == side
        },
        forall|k: int, l: int| 0 <= k < l < members(mask, side, n).len() ==>
            (#[trigger] members(mask, side, n)[k]) < (#[trigger] members(mask, side, n)[l]),
        forall|j: usize| j < n && on_team_a(mask, j as nat) == side ==> #[trigger] members(mask, side, n).contains(j),
    decreases n,
{
    if n > 0 {
        let m = (n - 1) as nat;
        lemma_member_positions(mask, side, m);
        let team = members(mask, side, n);
        let rest = members(mask, side, m);
        assert forall|j: usize| j < n && on_team_a(mask, j as nat) == side implies #[trigger] team.contains(j) by {
            if j == m {
                assert(team.last() == j);
            } else {
                assert(rest.contains(j));
                let k = choose|k: int| 0 <= k < rest.len() && rest[k] == j;
                assert(team[k] == j);
            }
        }
    }
}

/// The two teams have five players each, nobody is on both or listed twice, and
/// each of the ten players is on one of them.
pub proof fn law_teams_partition_the_group(mmrs: Seq<i64>, a: Seq<usize>, b: Seq<usize>)
    requires
        are_best_teams(mmrs, a, b),
    ensures
        a.len() == TEAM_SIZE,
        b.len() == TEAM_SIZE,
        (a + b).no_duplicates(),
        forall|j: usize| (a + b).contains(j) <==> j < MATCH_SIZE,
{
    let mask = choose|mask: nat| #[trigger] is_best_split(mmrs, mask)
        && a == members(mask, true, MATCH_SIZE as nat)
        && b == members(mask, false, MATCH_SIZE as nat);
    lemma_member_count(mask, MATCH_SIZE as nat);
    lemma_member_positions(mask, true, MATCH_SIZE as nat);
    lemma_member_positions(mask, false, MATCH_SIZE as nat);
    let ab = a + b;
    assert forall|j: usize| #[trigger] ab.contains(j) <==> j < MATCH_SIZE by {
        if j < MATCH_SIZE {
            if on_team_a(mask, j as nat) {
                assert(a.contains(j));
                let k = choose|k: int| 0 <= k < a.len() && a[k] == j;
                assert(ab[k] == j);
            } else {
                assert(b.contains(j));
                let k = choose|k: int| 0 <= k < b.len() && b[k] == j;
                assert(ab[k + a.len()] == j);
            }
        }
        if ab.contains(j) {
            let k = choose|k: int| 0 <= k < ab.len() && ab[k] == j;
            if k < a.len() {
                assert(a[k] == j);
            } else {
                assert(b[k - a.len()] == j);
            }
        }
    }
    assert forall|k: int, l: int| 0 <= k < l < ab.len() implies ab[k] != ab[l] by {
        if l < a.len() {
            assert(a[k] < a[l]);
        } else if k >= a.len() {
            assert(b[k - a.len()] < b[l - a.len()]);
        } else {
            assert(on_team_a(mask, a[k] as nat));
            assert(!on_team_a(mask, b[l - a.len()] as nat));
        }
    }
}

/// No way to choose five of the ten players brings the two rating sums closer
/// together than the teams that are returned.
pub proof fn law_no_split_is_more_balanced(mmrs: Seq<i64>, a: Seq<usize>, b: Seq<usize>, chosen: Seq<bool>)
    requires
        are_best_teams(mmrs, a, b),
        mmrs.len() == MATCH_SIZE,
        chosen.len() == MATCH_SIZE,
        chosen_count(chosen, MATCH_SIZE as nat) == TEAM_SIZE,
    ensures
        abs(sum_at(mmrs, a) - sum_at(mmrs, b))
            <= abs(chosen_sum(mmrs, chosen, true, MATCH_SIZE as nat) - chosen_sum(mmrs, chosen, false, MATCH_SIZE as nat)),
{
    let mask = choose|mask: nat| #[trigger] is_best_split(mmrs, mask)
        && a == members(mask, true, MATCH_SIZE as nat)
        && b == members(mask, false, MATCH_SIZE as nat);
    let other = mask_of(chosen);
    vstd::arithmetic::power2::lemma2_to64();
    lemma_mask_range(chosen, 1024);
    lemma_mask_weighs(mmrs, chosen, MATCH_SIZE as nat);
    lemma_member_sums(mmrs, mask, MATCH_SIZE as nat);
    assert(is_even_split(other));
}

/// Ratings of one list and another, added up.
proof fn lemma_sum_at_concat(mmrs: Seq<i64>, t: Seq<usize>, u: Seq<usize>)
    ensures
        sum_at(mmrs, t + u) == sum_at(mmrs, t) + sum_at(mmrs, u),
    decreases u.len(),
{
    if u.len() == 0 {
        assert(t + u =~= t);
    } else {
        assert((t + u).drop_last() =~= t + u.drop_last());
        lemma_sum_at_concat(mmrs, t, u.drop_last());
    }
}

/// Five ratings, added up.
pub proof fn lemma_sum_of_five(mmrs: Seq<i64>, t: Seq<usize>)
    requires
        t.len() == 5,
    ensures
        sum_at(mmrs, t) == mmrs[t[0] as int] + mmrs[t[1] as int] + mmrs[t[2] as int] + mmrs[t[3] as int] + mmrs[t[4] as int],
{
    reveal_with_fuel(sum_at, 6);
}

proof fn lemma_choose_one(mmrs: Seq<i64>, c: Seq<bool>, x: int, n: nat)
    requires
        n <= c.len(),
        0 <= x < c.len(),
        !c[x],
    ensures
        chosen_count(c.update(x, true), n) == chosen_count(c, n) + (if x < n {
            1int
        } else {
            0int
        }),
        chosen_sum(mmrs, c.update(x, true), true, n) == chosen_sum(mmrs, c, true, n) + (if x < n {
            mmrs[x] as int
        } else {
            0int
        }),
    decreases n,
{
    if n > 0 {
        lemma_choose_one(mmrs, c, x, (n - 1) as nat);
    }
}

/// Which of ten positions are in a list.
spec fn chosen_of(t: Seq<usize>) -> Seq<bool> {
    Seq::new(MATCH_SIZE as nat, |j: int| t.contains(j as usize))
}

proof fn lemma_choose_none(mmrs: Seq<i64>, c: Seq<bool>, n: nat)
    requires
        n <= c.len(),
        forall|j: int| 0 <= j < c.len() ==> !#[trigger] c[j],
    ensures
        chosen_count(c, n) == 0,
        chosen_sum(mmrs, c, true, n) == 0,
    decreases n,
{
    if n > 0 {
        lemma_choose_none(mmrs, c, (n - 1) as nat);
    }
}

proof fn lemma_choose_list(mmrs: Seq<i64>, t: Seq<usize>)
    requires
        t.no_duplicates(),
        forall|k: int| 0 <= k < t.len() ==> (#[trigger] t[k]) < MATCH_SIZE,
    ensures
        chosen_count(chosen_of(t), MATCH_SIZE as nat) == t.len(),
        chosen_sum(mmrs, chosen_of(t), true, MATCH_SIZE as nat) == sum_at(mmrs, t),
    decreases t.len(),
{
    if t.len() == 0 {
        lemma_choose_none(mmrs, chosen_of(t), MATCH_SIZE as nat);
    } else {
        let rest = t.drop_last();
        let x = t.last();
        assert forall|k: int| 0 <= k < rest.len() implies (#[trigger] rest[k]) < MATCH_SIZE by {
            assert(rest[k] == t[k]);
        }
        lemma_choose_list(mmrs, rest);
        assert(t[t.len() - 1] == x);
        assert(!rest.contains(x)) by {
            if rest.contains(x) {
                let k = choose|k: int| 0 <= k < rest.len() && rest[k] == x;
                assert(t[k] == t[t.len() - 1]);
            }
        }
        assert(chosen_of(t) =~= chosen_of(rest).update(x as int, true)) by {
            assert forall|j: int| 0 <= j < MATCH_SIZE implies
                #[trigger] chosen_of(t)[j] == chosen_of(rest).update(x as int, true)[j] by {
                if rest.contains(j as usize) {
                    let k = choose|k: int| 0 <= k < rest.len() && rest[k] == j as usize;
                    assert(t[k] == j as usize);
                }
                if t.contains(j as usize) && j != x {
                    let k = choose|k: int| 0 <= k < t.len() && t[k] == j as usize;
                    assert(rest[k] == j as usize);
                }
            }
        }
        lemma_choose_one(mmrs, chosen_of(rest), x as int, MATCH_SIZE as nat);
    }
}

/// Of two splits with different numbers, the highest place in which they differ is
/// on team A in the one with the larger number.
proof fn lemma_highest_difference(m: nat, o: nat, n: nat) -> (j: nat)
    requires
        m < o < vstd::arithmetic::power2::pow2(n),
    ensures
        j < n,
        !on_team_a(m, j),
        on_team_a(o, j),
        forall|i: nat| i > j ==> #[trigger] on_team_a(m, i) == on_team_a(o, i),
    decreases n,
{
    vstd::arithmetic::power2::lemma2_to64();
    if n == 0 {
        assert(false);
        0
    } else {
        vstd::arithmetic::power2::lemma_pow2_unfold(n);
        if m / 2 == o / 2 {
            assert forall|i: nat| i > 0 implies #[trigger] on_team_a(m, i) == on_team_a(o, i) by {
                lemma_halved_shift(m, (i - 1) as nat);
                lemma_halved_shift(o, (i - 1) as nat);
            }
            0
        } else {
            let j = lemma_highest_difference(m / 2, o / 2, (n - 1) as nat);
            lemma_halved_shift(m, j);
            lemma_halved_shift(o, j);
            assert forall|i: nat| i > j + 1 implies #[trigger] on_team_a(m, i) == on_team_a(o, i) by {
                lemma_halved_shift(m, (i - 1) as nat);
                lemma_halved_shift(o, (i - 1) as nat);
                assert(on_team_a(m / 2, (i - 1) as nat) == on_team_a(o / 2, (i - 1) as nat));
            }
            j + 1
        }
    }
}

/// However ten players are put into two teams of five, by the ratings of the players
/// themselves the two sums are no closer together than those of the teams returned.
/// `p` names the ten positions in any order, the first five for one team and the
/// last five for the other.
///
/// Of splits that are as close, the one is returned whose team A is without the
/// last player, by position, on whom it differs from the other.
pub proof fn law_teams_are_the_most_even(group: Seq<PlayerEntry>, a: Seq<usize>, b: Seq<usize>, p: Seq<usize>)
    requires
        group.len() == 10,
        are_best_teams(ratings(group), a, b),
        p.len() == 10,
        p.no_duplicates(),
        forall|k: int| 0 <= k < p.len() ==> (#[trigger] p[k]) < 10,
    ensures
        ({
            let gap = (group[a[0] as int].mmr + group[a[1] as int].mmr + group[a[2] as int].mmr
                + group[a[3] as int].mmr + group[a[4] as int].mmr) - (
                group[b[0] as int].mmr + group[b[1] as int].mmr + group[b[2] as int].mmr + group[b[3] as int].mmr
                    + group[b[4] as int].mmr);
            let other = (group[p[0] as int].mmr + group[p[1] as int].mmr + group[p[2] as int].mmr
                + group[p[3] as int].mmr + group[p[4] as int].mmr) - (
                group[p[5] as int].mmr + group[p[6] as int].mmr + group[p[7] as int].mmr + group[p[8] as int].mmr
                    + group[p[9] as int].mmr);
            &&& (if gap < 0 { -gap } else { gap }) <= (if other < 0 { -other } else { other })
            &&& (gap == other || gap == -other) ==> {
                ||| forall|j: usize| j < 10 ==> (#[trigger] a.contains(j) <==> p.take(5).contains(j))
                ||| exists|j: usize| {
                    &&& j < 10
                    &&& #[trigger] b.contains(j)
                    &&& p.take(5).contains(j)
                    &&& forall|i: usize| j < i < 10 ==> (#[trigger] a.contains(i) <==> p.take(5).contains(i))
                }
            }
        }),
{
    let mmrs = ratings(group);
    let t = p.take(5);
    let u = p.skip(5);
    let mask = choose|mask: nat| #[trigger] is_best_split(mmrs, mask)
        && a == members(mask, true, MATCH_SIZE as nat)
        && b == members(mask, false, MATCH_SIZE as nat);
    let chosen = chosen_of(t);
    let other = mask_of(chosen);
    law_teams_partition_the_group(mmrs, a, b);
    assert forall|k: int| 0 <= k < t.len() implies (#[trigger] t[k]) < MATCH_SIZE by {
        assert(t[k] == p[k]);
    }
    lemma_choose_list(mmrs, t);
    lemma_choose_list(mmrs, p);
    assert forall|j: int| 0 <= j < MATCH_SIZE implies #[trigger] chosen_of(p)[j] by {
        lemma_reaches_all(p, 10, j as usize);
    }
    lemma_mask_weighs(mmrs, chosen, MATCH_SIZE as nat);
    lemma_all_chosen(mmrs, chosen_of(p), MATCH_SIZE as nat);
    lemma_sum_at_concat(mmrs, t, u);
    assert(t + u =~= p);
    lemma_sum_of_five(mmrs, t);
    lemma_sum_of_five(mmrs, u);
    lemma_sum_of_five(mmrs, a);
    lemma_sum_of_five(mmrs, b);
    law_no_split_is_more_balanced(mmrs, a, b, chosen);
    lemma_positions_below(mmrs, a, b);
    assert(forall|i: int| 0 <= i < 10 ==> mmrs[i] == group[i].mmr);
    // Ties.
    vstd::arithmetic::power2::lemma2_to64();
    lemma_mask_range(chosen, 1024);
    lemma_member_sums(mmrs, mask, MATCH_SIZE as nat);
    assert(is_even_split(other));
    lemma_member_positions(mask, true, MATCH_SIZE as nat);
    lemma_member_positions(mask, false, MATCH_SIZE as nat);
    assert forall|j: usize| j < 10 implies (#[trigger] a.contains(j) <==> on_team_a(mask, j as nat)) by {}
    assert forall|j: usize| j < 10 implies (#[trigger] t.contains(j) <==> on_team_a(other, j as nat)) by {
        lemma_mask_digits(chosen, j as nat);
    }
    if mask < other {
        let j = lemma_highest_difference(mask, other, 10) as usize;
        assert(b.contains(j));
        assert(t.contains(j));
        assert forall|i: usize| j < i < 10 implies (#[trigger] a.contains(i) <==> t.contains(i)) by {
            assert(on_team_a(mask, i as nat) == on_team_a(other, i as nat));
        }
    } else if mask == other {
        assert forall|j: usize| j < 10 implies (#[trigger] a.contains(j) <==> t.contains(j)) by {}
    } else {
        assert(imbalance(mmrs, mask) < imbalance(mmrs, other));
    }
}

/// Each position is on one team.
proof fn lemma_sides_differ(mmrs: Seq<i64>, a: Seq<usize>, b: Seq<usize>)
    requires
        are_best_teams(mmrs, a, b),
    ensures
        forall|j: usize| #[trigger] a.contains(j) <==> j < MATCH_SIZE && !b.contains(j),
{
    let mask = choose|mask: nat| #[trigger] is_best_split(mmrs, mask)
        && a == members(mask, true, MATCH_SIZE as nat)
        && b == members(mask, false, MATCH_SIZE as nat);
    lemma_member_positions(mask, true, MATCH_SIZE as nat);
    lemma_member_positions(mask, false, MATCH_SIZE as nat);
}

proof fn lemma_all_chosen(mmrs: Seq<i64>, c: Seq<bool>, n: nat)
    requires
        n <= c.len(),
        forall|j: int| 0 <= j < c.len() ==> #[trigger] c[j],
    ensures
        chosen_sum(mmrs, c, true, n) == total_sum(mmrs, n),
    decreases n,
{
    if n > 0 {
        lemma_all_chosen(mmrs, c, (n - 1) as nat);
    }
}

/// The positions of both teams are below ten, and in ascending order.
pub proof fn lemma_positions_below(mmrs: Seq<i64>, a: Seq<usize>, b: Seq<usize>)
    requires
        are_best_teams(mmrs, a, b),
    ensures
        forall|k: int| 0 <= k < a.len() ==> (#[trigger] a[k]) < MATCH_SIZE,
        forall|k: int| 0 <= k < b.len() ==> (#[trigger] b[k]) < MATCH_SIZE,
        forall|k: int, l: int| 0 <= k < l < a.len() ==> (#[trigger] a[k]) < (#[trigger] a[l]),
        forall|k: int, l: int| 0 <= k < l < b.len() ==> (#[trigger] b[k]) < (#[trigger] b[l]),
{
    let mask = choose|mask: nat| #[trigger] is_best_split(mmrs, mask)
        && a == members(mask, true, MATCH_SIZE as nat)
        && b == members(mask, false, MATCH_SIZE as nat);
    lemma_member_positions(mask, true, MATCH_SIZE as nat);
    lemma_member_positions(mask, false, MATCH_SIZE as nat);
}

} // verus!
