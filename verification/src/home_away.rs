use vstd::prelude::*;

use crate::day_split::{
    byes_of_on, count_where, games_of_on, games_of_on_before, games_of_on_from, lemma_count_one,
    lemma_count_same, lemma_round_robin_games_split_by_break,
    lemma_round_robin_two_games_a_match_day, on_day, on_day_before, on_day_bye, on_day_from,
    second_leg_after_break,
};
use crate::round_robin::round_robin_validation;
use crate::double_round_robin::{is_round_robin_schedule, no_bye_team};
use crate::game::{Game, GameView};
use crate::laws::{distinct_names, pair_count, pair_count_on, pairs_teams};
use crate::leg_merge::is_bye_view;
use crate::referees::game_views;
use crate::season_config::SeasonConfig;
use crate::team::{Team, BYE_NAME};
use crate::text::same_text;

verus! {

/// The game with its two sides the other way round.
pub open spec fn swap_sides(game: GameView) -> GameView {
    GameView {
        home: game.away,
        away: game.home,
        day: game.day,
        time: game.time,
        referee: game.referee,
    }
}

/// The two games have the same team at home and the same team away.
pub open spec fn same_way(g: GameView, h: GameView) -> bool {
    g.home.0 == h.home.0 && g.away.0 == h.away.0
}

/// A real game before game `k` has its teams the same way round.
pub open spec fn same_way_earlier(games: Seq<GameView>, k: int) -> bool {
    exists|j: int| 0 <= j < k && !is_bye_view(#[trigger] games[j]) && same_way(games[j], games[k])
}

/// The games with every real game that repeats an earlier one the same way
/// round turned the other way: the second meeting of two teams has the
/// first one's away team at home.
pub open spec fn oriented(games: Seq<GameView>) -> Seq<GameView> {
    Seq::new(
        games.len(),
        |k: int|
            if !is_bye_view(games[k]) && same_way_earlier(games, k) {
                swap_sides(games[k])
            } else {
                games[k]
            },
    )
}

/// What the group stage hands back: a round-robin schedule, with or without
/// referees, each pair's second meeting the other way round from its first.
pub open spec fn is_group_stage(
    games: Seq<GameView>,
    teams: Seq<Team>,
    start: int,
    season_config: SeasonConfig,
    with_referees: bool,
) -> bool {
    exists|plain: Seq<GameView>|
        #[trigger] is_round_robin_schedule(plain, teams, start, season_config, with_referees)
            && games == oriented(plain)
}

/// The games with each real game that repeats an earlier one the same way
/// round turned the other way.
pub(crate) fn orient_meetings(games: Vec<Game>) -> (r: Vec<Game>)
    ensures
        game_views(r@) == oriented(game_views(games@)),
{
    let n = games.len();
    let ghost views = game_views(games@);
    let mut out: Vec<Game> = Vec::new();
    let mut k: usize = 0;
    while k < n
        invariant
            k <= n,
            n == games@.len(),
            views == game_views(games@),
            out@.len() == k,
            forall|j: int| 0 <= j < k ==> (#[trigger] out@[j])@ == oriented(views)[j],
        decreases n - k,
    {
        let game = &games[k];
        assert(views[k as int] == game@);
        let mut earlier = false;
        if !game.is_bye_game() {
            let mut j: usize = 0;
            while j < k
                invariant
                    j <= k,
                    k < n,
                    n == games@.len(),
                    views == game_views(games@),
                    *game == games@[k as int],
                    earlier <==> exists|i: int|
                        0 <= i < j && !is_bye_view(#[trigger] views[i]) && same_way(views[i], views[k as int]),
                decreases k - j,
            {
                let other = &games[j];
                assert(views[j as int] == other@);
                if !other.is_bye_game() && same_text(
                    other.get_home_team().get_name(),
                    game.get_home_team().get_name(),
                ) && same_text(other.get_away_team().get_name(), game.get_away_team().get_name()) {
                    earlier = true;
                }
                j = j + 1;
            }
        }
        assert(earlier == (!is_bye_view(views[k as int]) && same_way_earlier(views, k as int)));
        if earlier {
            out.push(game.swapped());
        } else {
            out.push(game.duplicate());
        }
        k = k + 1;
    }
    assert(game_views(out@) =~= oriented(views));
    out
}

} // verus!
verus! {

/// A real game with the team named `a` at home and the team named `b` away.
pub open spec fn hosts(a: Seq<char>, b: Seq<char>) -> spec_fn(GameView) -> bool {
    |g: GameView| !is_bye_view(g) && g.home.0 == a && g.away.0 == b
}

/// The real games with the team named `a` at home against the team named
/// `b`.
pub open spec fn home_games(games: Seq<GameView>, a: Seq<char>, b: Seq<char>) -> nat {
    count_where(games, hosts(a, b))
}

/// Where two teams meet in a list: nowhere, at one place or at two, as the
/// count of their meetings says.
proof fn lemma_meeting_places(s: Seq<GameView>, a: Seq<char>, b: Seq<char>)
    ensures
        pair_count(s, a, b) == 0 ==> forall|k: int| 0 <= k < s.len() ==> !pairs_teams(#[trigger] s[k], a, b),
        pair_count(s, a, b) == 1 ==> exists|k: int|
            0 <= k < s.len() && pairs_teams(s[k], a, b) && forall|j: int|
                0 <= j < s.len() && pairs_teams(#[trigger] s[j], a, b) ==> j == k,
        pair_count(s, a, b) == 2 ==> exists|k1: int, k2: int|
            0 <= k1 < k2 < s.len() && pairs_teams(s[k1], a, b) && pairs_teams(s[k2], a, b) && forall|j: int|
                0 <= j < s.len() && pairs_teams(#[trigger] s[j], a, b) ==> j == k1 || j == k2,
    decreases s.len(),
{
    if s.len() > 0 {
        let rest = s.drop_last();
        let n = s.len() - 1;
        lemma_meeting_places(rest, a, b);
        assert forall|j: int| 0 <= j < n implies #[trigger] rest[j] == s[j] by {}
        assert(s.last() == s[n]);
        if pairs_teams(s[n], a, b) {
            if pair_count(s, a, b) == 1 {
                assert forall|j: int| 0 <= j < s.len() && pairs_teams(#[trigger] s[j], a, b) implies j == n by {
                    if j < n {
                        assert(!pairs_teams(rest[j], a, b));
                    }
                }
            }
            if pair_count(s, a, b) == 2 {
                let k = choose|k: int|
                    0 <= k < rest.len() && pairs_teams(rest[k], a, b) && forall|j: int|
                        0 <= j < rest.len() && pairs_teams(#[trigger] rest[j], a, b) ==> j == k;
                assert(pairs_teams(s[k], a, b));
                assert forall|j: int| 0 <= j < s.len() && pairs_teams(#[trigger] s[j], a, b) implies j == k || j == n by {
                    if j < n {
                        assert(pairs_teams(rest[j], a, b));
                    }
                }
            }
        } else {
            if pair_count(s, a, b) == 0 {
                assert forall|k: int| 0 <= k < s.len() implies !pairs_teams(#[trigger] s[k], a, b) by {
                    if k < n {
                        assert(!pairs_teams(rest[k], a, b));
                    }
                }
            }
            if pair_count(s, a, b) == 1 {
                let k = choose|k: int|
                    0 <= k < rest.len() && pairs_teams(rest[k], a, b) && forall|j: int|
                        0 <= j < rest.len() && pairs_teams(#[trigger] rest[j], a, b) ==> j == k;
                assert(pairs_teams(s[k], a, b));
                assert forall|j: int| 0 <= j < s.len() && pairs_teams(#[trigger] s[j], a, b) implies j == k by {
                    if j < n {
                        assert(pairs_teams(rest[j], a, b));
                    }
                }
            }
            if pair_count(s, a, b) == 2 {
                let (k1, k2) = choose|k1: int, k2: int|
                    0 <= k1 < k2 < rest.len() && pairs_teams(rest[k1], a, b) && pairs_teams(rest[k2], a, b)
                        && forall|j: int|
                        0 <= j < rest.len() && pairs_teams(#[trigger] rest[j], a, b) ==> j == k1 || j == k2;
                assert(pairs_teams(s[k1], a, b) && pairs_teams(s[k2], a, b));
                assert forall|j: int| 0 <= j < s.len() && pairs_teams(#[trigger] s[j], a, b) implies j == k1 || j == k2 by {
                    if j < n {
                        assert(pairs_teams(rest[j], a, b));
                    }
                }
            }
        }
    }
}

/// Law of home and away: in the group stage, two different teams with
/// distinct names meet once with the one at home and once with the other.
pub proof fn law_home_and_away(
    games: Seq<GameView>,
    teams: Seq<Team>,
    start: int,
    season_config: SeasonConfig,
    with_referees: bool,
    p: int,
    q: int,
)
    requires
        is_group_stage(games, teams, start, season_config, with_referees),
        4 <= teams.len() < u32::MAX,
        no_bye_team(teams),
        distinct_names(teams),
        0 <= p < teams.len(),
        0 <= q < teams.len(),
        p != q,
    ensures
        home_games(games, teams[p]@.0, teams[q]@.0) == 1,
        home_games(games, teams[q]@.0, teams[p]@.0) == 1,
{
    let a = teams[p]@.0;
    let b = teams[q]@.0;
    let plain = choose|plain: Seq<GameView>|
        #[trigger] is_round_robin_schedule(plain, teams, start, season_config, with_referees)
            && games == oriented(plain);
    crate::laws::lemma_round_robin_pairs_meet_twice(plain, teams, start, season_config, with_referees, p, q);
    lemma_meeting_places(plain, a, b);
    let (k1, k2) = choose|k1: int, k2: int|
        0 <= k1 < k2 < plain.len() && pairs_teams(plain[k1], a, b) && pairs_teams(plain[k2], a, b)
            && forall|j: int| 0 <= j < plain.len() && pairs_teams(#[trigger] plain[j], a, b) ==> j == k1 || j == k2;
    assert(a != b);
    assert(a != BYE_NAME@ && b != BYE_NAME@);
    assert(!is_bye_view(plain[k1]) && !is_bye_view(plain[k2]));
    // The first meeting stays as it is.
    if same_way_earlier(plain, k1) {
        let j = choose|j: int| 0 <= j < k1 && !is_bye_view(#[trigger] plain[j]) && same_way(plain[j], plain[k1]);
        assert(pairs_teams(plain[j], a, b));
        assert(false);
    }
    assert(games[k1] == plain[k1]);
    // The second meeting has the first one's away team at home.
    if same_way(plain[k1], plain[k2]) {
        assert(same_way_earlier(plain, k2));
        assert(games[k2] == swap_sides(plain[k2]));
    } else {
        if same_way_earlier(plain, k2) {
            let j = choose|j: int| 0 <= j < k2 && !is_bye_view(#[trigger] plain[j]) && same_way(plain[j], plain[k2]);
            assert(pairs_teams(plain[j], a, b));
            assert(j == k1);
            assert(false);
        }
        assert(games[k2] == plain[k2]);
    }
    assert(games[k1].home.0 != games[k2].home.0);
    assert forall|j: int| 0 <= j < games.len() && pairs_teams(#[trigger] games[j], a, b) implies j == k1 || j == k2 by {
        assert(pairs_teams(plain[j], a, b));
    }
    let (ka, kb) = if games[k1].home.0 == a {
        (k1, k2)
    } else {
        (k2, k1)
    };
    assert forall|j: int| 0 <= j < games.len() && hosts(a, b)(#[trigger] games[j]) implies j == ka by {
        assert(pairs_teams(games[j], a, b));
    }
    lemma_count_one(games, hosts(a, b), ka);
    assert forall|j: int| 0 <= j < games.len() && hosts(b, a)(#[trigger] games[j]) implies j == kb by {
        assert(pairs_teams(games[j], a, b));
    }
    lemma_count_one(games, hosts(b, a), kb);
}

/// Each game of the oriented list is the game at the same place, turned
/// round or not.
pub(crate) proof fn lemma_oriented_places(plain: Seq<GameView>)
    ensures
        oriented(plain).len() == plain.len(),
        forall|k: int|
            0 <= k < plain.len() ==> #[trigger] oriented(plain)[k] == plain[k] || oriented(plain)[k]
                == swap_sides(plain[k]),
{
}

/// Turning games round changes no count of meetings.
proof fn lemma_swapped_meetings(before: Seq<GameView>, after: Seq<GameView>, a: Seq<char>, b: Seq<char>, day: int)
    requires
        after.len() == before.len(),
        forall|k: int|
            0 <= k < before.len() ==> #[trigger] after[k] == before[k] || after[k] == swap_sides(before[k]),
    ensures
        pair_count(after, a, b) == pair_count(before, a, b),
        pair_count_on(after, a, b, day) == pair_count_on(before, a, b, day),
    decreases before.len(),
{
    if before.len() > 0 {
        let n = before.len() - 1;
        assert forall|k: int| 0 <= k < n implies #[trigger] after.drop_last()[k] == before.drop_last()[k]
            || after.drop_last()[k] == swap_sides(before.drop_last()[k]) by {
            assert(after.drop_last()[k] == after[k]);
            assert(before.drop_last()[k] == before[k]);
        }
        lemma_swapped_meetings(before.drop_last(), after.drop_last(), a, b, day);
        assert(after.last() == after[n]);
        assert(before.last() == before[n]);
    }
}

/// A count of games that does not tell home from away is the same for the
/// games as scheduled and for them turned round.
pub(crate) proof fn lemma_oriented_count(plain: Seq<GameView>, f: spec_fn(GameView) -> bool)
    requires
        forall|g: GameView| #[trigger] f(g) == f(swap_sides(g)),
    ensures
        count_where(oriented(plain), f) == count_where(plain, f),
{
    lemma_oriented_places(plain);
    assert forall|k: int| 0 <= k < plain.len() implies f(#[trigger] oriented(plain)[k]) == f(plain[k]) by {
        assert(f(plain[k]) == f(swap_sides(plain[k])));
    }
    lemma_count_same(plain, oriented(plain), f);
}

/// Law of the group stage's pairs: two different teams with distinct names
/// meet exactly twice, never twice on the same day.
pub proof fn law_round_robin_pairs_meet_twice(
    games: Seq<GameView>,
    teams: Seq<Team>,
    start: int,
    season_config: SeasonConfig,
    with_referees: bool,
    p: int,
    q: int,
)
    requires
        is_group_stage(games, teams, start, season_config, with_referees),
        4 <= teams.len() < u32::MAX,
        no_bye_team(teams),
        distinct_names(teams),
        0 <= p < teams.len(),
        0 <= q < teams.len(),
        p != q,
    ensures
        pair_count(games, teams[p]@.0, teams[q]@.0) == 2,
        forall|d: int| #[trigger] pair_count_on(games, teams[p]@.0, teams[q]@.0, d) <= 1,
{
    let a = teams[p]@.0;
    let b = teams[q]@.0;
    let plain = choose|plain: Seq<GameView>|
        #[trigger] is_round_robin_schedule(plain, teams, start, season_config, with_referees)
            && games == oriented(plain);
    crate::laws::lemma_round_robin_pairs_meet_twice(plain, teams, start, season_config, with_referees, p, q);
    lemma_oriented_places(plain);
    lemma_swapped_meetings(plain, games, a, b, 0);
    assert forall|d: int| #[trigger] pair_count_on(games, a, b, d) <= 1 by {
        lemma_swapped_meetings(plain, games, a, b, d);
        assert(pair_count_on(plain, a, b, d) <= 1);
    }
}

/// Law of the group stage's days: on every day a team plays at most once
/// before the break and at most once from its end on, and no game of the
/// day falls in between.
pub proof fn law_round_robin_games_split_by_break(
    games: Seq<GameView>,
    teams: Seq<Team>,
    start: int,
    season_config: SeasonConfig,
    with_referees: bool,
    p: int,
    d: int,
)
    requires
        is_group_stage(games, teams, start, season_config, with_referees),
        round_robin_validation(teams.len() as int, season_config) is Ok,
        4 <= teams.len() < u32::MAX,
        no_bye_team(teams),
        distinct_names(teams),
        0 <= p < teams.len(),
        season_config.spec_time().spec_start_break().minutes()
            <= season_config.spec_time().spec_end_break().minutes(),
        second_leg_after_break(teams.len() as int, season_config),
    ensures
        games_of_on(games, teams[p]@.0, d) == games_of_on_before(
            games,
            teams[p]@.0,
            d,
            season_config.spec_time().spec_start_break().minutes(),
        ) + games_of_on_from(
            games,
            teams[p]@.0,
            d,
            season_config.spec_time().spec_end_break().minutes(),
        ),
        games_of_on_before(
            games,
            teams[p]@.0,
            d,
            season_config.spec_time().spec_start_break().minutes(),
        ) <= 1,
        games_of_on_from(
            games,
            teams[p]@.0,
            d,
            season_config.spec_time().spec_end_break().minutes(),
        ) <= 1,
{
    let a = teams[p]@.0;
    let sb = season_config.spec_time().spec_start_break().minutes();
    let eb = season_config.spec_time().spec_end_break().minutes();
    let plain = choose|plain: Seq<GameView>|
        #[trigger] is_round_robin_schedule(plain, teams, start, season_config, with_referees)
            && games == oriented(plain);
    lemma_round_robin_games_split_by_break(plain, teams, start, season_config, with_referees, p, d);
    lemma_oriented_count(plain, on_day(a, d));
    lemma_oriented_count(plain, on_day_before(a, d, sb));
    lemma_oriented_count(plain, on_day_from(a, d, eb));
}

/// Law of the group stage's match days: on a day with games, every team
/// plays two games, or sits the day out against the bye.
pub proof fn law_round_robin_two_games_a_match_day(
    games: Seq<GameView>,
    teams: Seq<Team>,
    start: int,
    season_config: SeasonConfig,
    with_referees: bool,
    p: int,
    d: int,
)
    requires
        is_group_stage(games, teams, start, season_config, with_referees),
        4 <= teams.len() < u32::MAX,
        no_bye_team(teams),
        distinct_names(teams),
        0 <= p < teams.len(),
        exists|k: int| 0 <= k < games.len() && (#[trigger] games[k]).day == d,
    ensures
        games_of_on(games, teams[p]@.0, d) + 2 * byes_of_on(games, teams[p]@.0, d) == 2,
        byes_of_on(games, teams[p]@.0, d) <= 1,
{
    let a = teams[p]@.0;
    let plain = choose|plain: Seq<GameView>|
        #[trigger] is_round_robin_schedule(plain, teams, start, season_config, with_referees)
            && games == oriented(plain);
    lemma_oriented_places(plain);
    let k0 = choose|k: int| 0 <= k < games.len() && (#[trigger] games[k]).day == d;
    assert(plain[k0].day == d);
    lemma_round_robin_two_games_a_match_day(plain, teams, start, season_config, with_referees, p, d);
    lemma_oriented_count(plain, on_day(a, d));
    lemma_oriented_count(plain, on_day_bye(a, d));
}

} // verus!
