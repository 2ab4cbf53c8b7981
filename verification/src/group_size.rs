use vstd::prelude::*;

use crate::day_split::lemma_bye_once_in_round;
use crate::double_round_robin::{
    is_merged_legs, is_round_robin_schedule, lemma_even_leg_has_no_bye, lemma_legs_mergeable, no_bye_team,
};
use crate::game::{Game, GameView};
use crate::home_away::{is_group_stage, lemma_oriented_places, oriented};
use crate::leg_merge::{
    is_bye_view, lemma_matching_round, matching_round, merge_refused, mergeable, merged_views,
    real_games, round_games, schedule_has_bye,
};
use crate::referees::{referees_assigned, team_views};
use crate::round_robin::{
    is_leg_game, is_leg_order, is_leg_schedule, leg_game_is_bye, lemma_round_has_bye, padded_count,
    real_games_before, scheduled_game,
};
use crate::season_config::SeasonConfig;
use crate::team::Team;

verus! {

/// The real games among the first `i` games of a round are those the round's
/// seating counts.
proof fn lemma_real_prefix(s: Seq<Game>, teams: Seq<Team>, order: Seq<usize>, round: int, i: int)
    requires
        0 <= i <= s.len(),
        forall|x: int| 0 <= x < s.len() ==> is_bye_view(#[trigger] s[x]@) == leg_game_is_bye(teams, order, round, x),
    ensures
        real_games(s.take(i)).len() == real_games_before(teams, order, round, i),
    decreases i,
{
    if i > 0 {
        lemma_real_prefix(s, teams, order, round, i - 1);
        assert(s.take(i).drop_last() =~= s.take(i - 1));
        assert(s.take(i).last() == s[i - 1]);
    }
}

/// With the bye in at most one seat, `bye_at`, a round's first `i` games hold
/// all real games but that one.
proof fn lemma_real_count(teams: Seq<Team>, order: Seq<usize>, round: int, i: int, bye_at: int)
    requires
        0 <= i,
        forall|x: int| 0 <= x < i && #[trigger] leg_game_is_bye(teams, order, round, x) ==> x == bye_at,
    ensures
        real_games_before(teams, order, round, i) == i - (if 0 <= bye_at < i && leg_game_is_bye(
            teams,
            order,
            round,
            bye_at,
        ) {
            1int
        } else {
            0int
        }),
    decreases i,
{
    if i > 0 {
        lemma_real_count(teams, order, round, i - 1, bye_at);
    }
}

/// Each round of a leg holds all its games but the one with the bye, when
/// the number of teams is odd.
proof fn lemma_leg_round_real_games(
    schedule: Seq<Game>,
    teams: Seq<Team>,
    order: Seq<usize>,
    start: int,
    season_config: SeasonConfig,
    leg_start: int,
    j: int,
)
    requires
        is_leg_schedule(schedule, teams, order, start, season_config, leg_start),
        is_leg_order(order, teams.len() as int),
        4 <= teams.len() < u32::MAX,
        no_bye_team(teams),
        0 <= j < order.len() - 1,
    ensures
        real_games(round_games(schedule, order.len() as int / 2, j)).len() == order.len() as int / 2 - (
        if teams.len() % 2 == 1 {
            1int
        } else {
            0int
        }),
{
    let t = teams.len() as int;
    let m = order.len() as int;
    let half = m / 2;
    let s = round_games(schedule, half, j);
    assert(m == padded_count(t));
    assert(0 <= j * half && j * half + half <= (m - 1) * half) by (nonlinear_arith)
        requires
            0 <= j < m - 1,
            half >= 0,
    ;
    assert forall|x: int| 0 <= x < s.len() implies is_bye_view(#[trigger] s[x]@) == leg_game_is_bye(
        teams,
        order,
        j,
        x,
    ) by {
        assert(s[x] == scheduled_game(schedule, half, j, x));
        assert(is_leg_game(scheduled_game(schedule, half, j, x), schedule, teams, order, start, season_config, leg_start, j, x));
    }
    lemma_real_prefix(s, teams, order, j, half);
    assert(s.take(half) =~= s);
    if t % 2 == 1 {
        lemma_round_has_bye(teams, order, j);
        let bye_at = choose|b: int| 0 <= b < half && leg_game_is_bye(teams, order, j, b);
        assert forall|x: int| 0 <= x < half && #[trigger] leg_game_is_bye(teams, order, j, x) implies x == bye_at by {
            lemma_bye_once_in_round(teams, order, j, x, bye_at);
        }
        lemma_real_count(teams, order, j, half, bye_at);
    } else {
        lemma_even_leg_has_no_bye(schedule, teams, order, start, season_config, leg_start);
        assert forall|x: int| 0 <= x < half && #[trigger] leg_game_is_bye(teams, order, j, x) implies x == -1 by {
            assert(s[x] == schedule[j * half + x]);
            assert(!is_bye_view(schedule[j * half + x]@));
        }
        lemma_real_count(teams, order, j, half, -1);
    }
}

/// The first `k` rounds of merged legs: each round of the first leg and the
/// real games of the second leg's round that goes with it.
proof fn lemma_merged_len(
    first: Seq<Game>,
    second: Seq<Game>,
    half: int,
    has_bye: bool,
    rounds: int,
    k: int,
    per: int,
)
    requires
        0 <= k <= rounds,
        half >= 0,
        first.len() == rounds * half,
        forall|r: int|
            0 <= r < rounds ==> 0 <= #[trigger] matching_round(first, second, half, has_bye, r, 0, rounds)
                < rounds,
        forall|j: int| 0 <= j < rounds ==> #[trigger] real_games(round_games(second, half, j)).len() == per,
    ensures
        merged_views(first, second, half, has_bye, rounds, k).len() == k * (half + per),
    decreases k,
{
    if k > 0 {
        lemma_merged_len(first, second, half, has_bye, rounds, k - 1, per);
        let r = k - 1;
        let j = matching_round(first, second, half, has_bye, r, 0, rounds);
        assert(r * half + half <= rounds * half) by (nonlinear_arith)
            requires
                0 <= r < rounds,
                half >= 0,
        ;
        assert(r * half >= 0) by (nonlinear_arith)
            requires
                0 <= r,
                half >= 0,
        ;
        assert(round_games(first, half, r).len() == half);
        assert(real_games(round_games(second, half, j)).len() == per);
        assert((k - 1) * (half + per) + half + per == k * (half + per)) by (nonlinear_arith);
    }
}

/// Law of the group stage's size: with `n` teams it has `n * n` games when
/// `n` is odd, a bye for one team on each of its `n` match days among them,
/// and `n * (n - 1)` when `n` is even.
pub proof fn law_group_stage_size(
    games: Seq<GameView>,
    teams: Seq<Team>,
    start: int,
    season_config: SeasonConfig,
    with_referees: bool,
)
    requires
        is_group_stage(games, teams, start, season_config, with_referees),
        4 <= teams.len() < u32::MAX,
        no_bye_team(teams),
    ensures
        games.len() == if teams.len() % 2 == 1 {
            teams.len() * teams.len() as int
        } else {
            teams.len() * (teams.len() - 1)
        },
{
    let t = teams.len() as int;
    let plain = choose|plain: Seq<GameView>|
        #[trigger] is_round_robin_schedule(plain, teams, start, season_config, with_referees)
            && games == oriented(plain);
    lemma_oriented_places(plain);
    let merged = if with_referees {
        choose|merged: Seq<GameView>|
            #[trigger] is_merged_legs(merged, teams, start, season_config) && referees_assigned(
                merged,
                plain,
                team_views(teams),
            )
    } else {
        plain
    };
    assert(is_merged_legs(merged, teams, start, season_config));
    assert(merged.len() == plain.len());
    let m = padded_count(t);
    let times = season_config.spec_time();
    let (order_a, order_b, first, second) = choose|
        order_a: Seq<usize>,
        order_b: Seq<usize>,
        first: Seq<Game>,
        second: Seq<Game>,
    |
        {
            &&& is_leg_order(order_a, t)
            &&& is_leg_order(order_b, t)
            &&& #[trigger] is_leg_schedule(
                first,
                teams,
                order_a,
                start,
                season_config,
                times.spec_start_time().minutes(),
            )
            &&& #[trigger] is_leg_schedule(
                second,
                teams,
                order_b,
                start,
                season_config,
                times.spec_end_break().minutes(),
            )
            &&& !merge_refused(first, second, m / 2, schedule_has_bye(first), m - 1, m - 1)
            &&& merged_views(first, second, m / 2, schedule_has_bye(first), m - 1, m - 1) == merged
        };
    let half = m / 2;
    let rounds = m - 1;
    let per = half - if t % 2 == 1 {
        1int
    } else {
        0int
    };
    lemma_legs_mergeable(
        first,
        second,
        teams,
        order_a,
        order_b,
        start,
        season_config,
        times.spec_start_time().minutes(),
        times.spec_end_break().minutes(),
    );
    let has_bye = schedule_has_bye(first);
    assert(mergeable(first, second, half, rounds));
    assert forall|r: int| 0 <= r < rounds implies 0 <= #[trigger] matching_round(
        first,
        second,
        half,
        has_bye,
        r,
        0,
        rounds,
    ) < rounds by {
        assert(crate::leg_merge::round_matched(first, second, half, has_bye, r, rounds));
        let j = choose|j: int| 0 <= j < rounds && #[trigger] crate::leg_merge::matches_round(first, second, half, has_bye, r, j);
        lemma_matching_round(first, second, half, has_bye, r, 0, rounds, j);
    }
    assert forall|j: int| 0 <= j < rounds implies #[trigger] real_games(round_games(second, half, j)).len() == per by {
        lemma_leg_round_real_games(second, teams, order_b, start, season_config, times.spec_end_break().minutes(), j);
    }
    lemma_merged_len(first, second, half, has_bye, rounds, rounds, per);
    if t % 2 == 1 {
        assert(rounds * (half + per) == t * t) by (nonlinear_arith)
            requires
                m == t + 1,
                half * 2 == m,
                rounds == m - 1,
                per == half - 1,
        ;
    } else {
        assert(rounds * (half + per) == t * (t - 1)) by (nonlinear_arith)
            requires
                m == t,
                half * 2 == m,
                rounds == m - 1,
                per == half,
        ;
    }
}

} // verus!
