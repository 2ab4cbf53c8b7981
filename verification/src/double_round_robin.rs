use vstd::prelude::*;

use rand::seq::SliceRandom;

use crate::calendar::{Date, MAX_DAY_NUMBER};
use crate::error::AppError;
use crate::referees::{
    distinct_teams, game_views, referees_assigned, referees_run_short, referees_spread, team_views,
};
use crate::circle::{circle_index, circle_meets, lemma_circle_index_range, lemma_circle_pairs_once, lemma_seat_of, seat_of};
use crate::game::{Game, GameView};
use crate::game_day_scheduler::is_first_playable_from;
use crate::home_away::is_group_stage;
use crate::group_draws::{draws_outcome, draws_shaped, nested_order_views, order_views, result_views};
use crate::leg_merge::{
    first_bye_partner, in_day_rounds, is_bye_view, matches_round, merge_refused, merged_views,
    mergeable, round_date, round_games, round_matched, schedule_has_bye,
};
use crate::round_robin::{
    entrant, entrant_indices, game_of, is_leg_game, is_leg_order, is_leg_schedule,
    leg_refusal, lemma_leg_order_facts, lemma_round_has_bye, lemma_round_index,
    leg_game_matches, leg_room, padded_count, round_robin_validation, scheduled_game,
    RoundRobin,
};
use crate::season_config::SeasonConfig;
use crate::team::{Team, BYE_NAME};

verus! {

/// None of the teams is the bye.
pub open spec fn no_bye_team(teams: Seq<Team>) -> bool {
    forall|k: int| 0 <= k < teams.len() ==> (#[trigger] teams[k]@).0 != BYE_NAME@
}

/// The name of the team facing the bye, in a game with the bye on one side.
pub open spec fn bye_partner(game: GameView) -> Seq<char> {
    if game.home.0 == BYE_NAME@ {
        game.away.0
    } else {
        game.home.0
    }
}

proof fn lemma_first_bye_partner(games: Seq<Game>, name: Seq<char>)
    requires
        exists|k: int| 0 <= k < games.len() && is_bye_view(#[trigger] games[k]@),
        forall|k: int|
            0 <= k < games.len() && is_bye_view(#[trigger] games[k]@) ==> bye_partner(games[k]@)
                == name,
    ensures
        first_bye_partner(games) == Some(name),
    decreases games.len(),
{
    if !is_bye_view(games[0]@) {
        let rest = games.drop_first();
        let k = choose|k: int| 0 <= k < games.len() && is_bye_view(#[trigger] games[k]@);
        assert(k != 0);
        assert(rest[k - 1] == games[k]);
        assert forall|k2: int|
            0 <= k2 < rest.len() && is_bye_view(#[trigger] rest[k2]@) implies bye_partner(
            rest[k2]@,
        ) == name by {
            assert(rest[k2] == games[k2 + 1]);
        }
        lemma_first_bye_partner(rest, name);
    }
}

/// Two days that are each the first playable day from the same day are the
/// same day.
pub(crate) proof fn lemma_first_playable_unique(
    d1: int,
    d2: int,
    from: int,
    game_days: Seq<crate::calendar::Weekday>,
    excluded: Seq<Date>,
)
    requires
        is_first_playable_from(d1, from, game_days, excluded),
        is_first_playable_from(d2, from, game_days, excluded),
    ensures
        d1 == d2,
{
    if d1 < d2 {
        assert(!crate::game_day_scheduler::is_playable(d1, game_days, excluded));
    } else if d2 < d1 {
        assert(!crate::game_day_scheduler::is_playable(d2, game_days, excluded));
    }
}

/// A leg comes in day rounds: a round a day, each day later than the one
/// before.
pub proof fn lemma_leg_in_day_rounds(
    schedule: Seq<Game>,
    teams: Seq<Team>,
    order: Seq<usize>,
    start: int,
    season_config: SeasonConfig,
    leg_start: int,
)
    requires
        is_leg_schedule(schedule, teams, order, start, season_config, leg_start),
        order.len() >= 4,
        order.len() % 2 == 0,
    ensures
        in_day_rounds(schedule, order.len() as int / 2, order.len() - 1),
{
    let m = order.len() as int;
    let half = m / 2;
    let rounds = m - 1;
    assert forall|r: int, i: int| 0 <= r < rounds && 0 <= i < half implies (#[trigger] game_of(
        schedule,
        half,
        r,
        i,
    )).spec_date() == round_date(schedule, half, r) by {
        assert(is_leg_game(
            scheduled_game(schedule, half, r, i),
            schedule,
            teams,
            order,
            start,
            season_config,
            leg_start,
            r,
            i,
        ));
        Date::lemma_same_day_number(
            game_of(schedule, half, r, i).spec_date(),
            game_of(schedule, half, r, 0).spec_date(),
        );
    }
    assert forall|r: int| 0 <= r < rounds - 1 implies round_date(
        schedule,
        half,
        r,
    ).spec_day_number() < (#[trigger] round_date(schedule, half, r + 1)).spec_day_number() by {
        assert(is_leg_game(
            scheduled_game(schedule, half, r + 1, 0),
            schedule,
            teams,
            order,
            start,
            season_config,
            leg_start,
            r + 1,
            0,
        ));
    }
}

/// Two legs from the same day on have their rounds on the same days.
pub proof fn lemma_leg_round_dates_agree(
    first: Seq<Game>,
    second: Seq<Game>,
    teams: Seq<Team>,
    order_a: Seq<usize>,
    order_b: Seq<usize>,
    start: int,
    season_config: SeasonConfig,
    start_a: int,
    start_b: int,
    r: int,
)
    requires
        is_leg_schedule(first, teams, order_a, start, season_config, start_a),
        is_leg_schedule(second, teams, order_b, start, season_config, start_b),
        order_a.len() == order_b.len(),
        order_a.len() >= 4,
        0 <= r < order_a.len() - 1,
    ensures
        round_date(first, order_a.len() as int / 2, r) == round_date(
            second,
            order_a.len() as int / 2,
            r,
        ),
    decreases r,
{
    let half = order_a.len() as int / 2;
    let dates = season_config.spec_dates();
    assert(is_leg_game(
        scheduled_game(first, half, r, 0),
        first,
        teams,
        order_a,
        start,
        season_config,
        start_a,
        r,
        0,
    ));
    assert(is_leg_game(
        scheduled_game(second, half, r, 0),
        second,
        teams,
        order_b,
        start,
        season_config,
        start_b,
        r,
        0,
    ));
    if r > 0 {
        lemma_leg_round_dates_agree(
            first,
            second,
            teams,
            order_a,
            order_b,
            start,
            season_config,
            start_a,
            start_b,
            r - 1,
        );
    }
    lemma_first_playable_unique(
        game_of(first, half, r, 0)@.day,
        game_of(second, half, r, 0)@.day,
        if r == 0 {
            start
        } else {
            game_of(first, half, r - 1, 0)@.day + 1
        },
        dates.spec_game_days(),
        dates.spec_excluded_dates(),
    );
    Date::lemma_same_day_number(
        game_of(first, half, r, 0).spec_date(),
        game_of(second, half, r, 0).spec_date(),
    );
}

/// Position, in `order`, of the bye of a leg with an odd number of teams.
pub open spec fn bye_position(order: Seq<usize>, teams_len: int) -> int {
    choose|x: int| 0 <= x < order.len() && order[x] == teams_len as usize
}

/// The entrant that faces the bye in round `round` of a leg.
pub open spec fn bye_opponent(order: Seq<usize>, teams_len: int, round: int) -> int {
    let m = order.len() as int;
    circle_index(m, round, m - 1 - seat_of(m, round, bye_position(order, teams_len)))
}

/// In a leg with an odd number of teams, the team that sits a round out is
/// the one the bye meets.
pub proof fn lemma_leg_round_bye_partner(
    schedule: Seq<Game>,
    teams: Seq<Team>,
    order: Seq<usize>,
    start: int,
    season_config: SeasonConfig,
    leg_start: int,
    r: int,
)
    requires
        is_leg_schedule(schedule, teams, order, start, season_config, leg_start),
        is_leg_order(order, teams.len() as int),
        teams.len() % 2 == 1,
        teams.len() >= 3,
        no_bye_team(teams),
        order.len() <= usize::MAX,
        0 <= r < order.len() - 1,
    ensures
        0 <= bye_opponent(order, teams.len() as int, r) < order.len(),
        order[bye_opponent(order, teams.len() as int, r)] < teams.len(),
        first_bye_partner(round_games(schedule, order.len() as int / 2, r)) == Some(
            teams[order[bye_opponent(order, teams.len() as int, r)] as int]@.0,
        ),
{
    let t = teams.len() as int;
    let m = order.len() as int;
    let half = m / 2;
    lemma_leg_order_facts(order, t);
    assert(order.contains(t as usize));
    let b = bye_position(order, t);
    assert(0 <= b < m && order[b] == t as usize);
    let seat = seat_of(m, r, b);
    lemma_seat_of(m, r, b, 0);
    let y = bye_opponent(order, t, r);
    lemma_circle_index_range(m, r, m - 1 - seat);
    lemma_seat_of(m, r, b, m - 1 - seat);
    assert(y != b);
    assert(order[y] != order[b]);
    let name = teams[order[y] as int]@.0;
    let games = round_games(schedule, half, r);
    lemma_round_index(r, half - 1, m - 1, half);
    assert(games.len() == half);
    assert forall|k: int| 0 <= k < half implies #[trigger] games[k] == scheduled_game(
        schedule,
        half,
        r,
        k,
    ) && leg_game_matches(games[k], teams, order, season_config, leg_start, r, k) by {
        lemma_round_index(r, k, m - 1, half);
        assert(is_leg_game(
            scheduled_game(schedule, half, r, k),
            schedule,
            teams,
            order,
            start,
            season_config,
            leg_start,
            r,
            k,
        ));
    }
    assert forall|x: int| 0 <= x < m implies ((#[trigger] entrant(teams, order, x)).0 == BYE_NAME@
        <==> x == b) by {
        if x != b {
            assert(order[x] != order[b]);
            assert(teams[order[x] as int]@.0 != BYE_NAME@);
        }
    }
    assert forall|k: int|
        0 <= k < games.len() && is_bye_view(#[trigger] games[k]@) implies bye_partner(games[k]@)
        == name by {
        assert(leg_game_matches(games[k], teams, order, season_config, leg_start, r, k));
        let home = circle_index(m, r, k);
        let away = circle_index(m, r, m - 1 - k);
        lemma_circle_index_range(m, r, k);
        lemma_circle_index_range(m, r, m - 1 - k);
        if entrant(teams, order, home).0 == BYE_NAME@ {
            lemma_seat_of(m, r, b, k);
            assert(k == seat);
        } else {
            assert(entrant(teams, order, away).0 == BYE_NAME@);
            lemma_seat_of(m, r, b, m - 1 - k);
            assert(m - 1 - k == seat);
            assert(m - 1 - seat == k);
        }
    }
    lemma_round_has_bye(teams, order, r);
    let j = choose|j: int| 0 <= j < half && crate::round_robin::leg_game_is_bye(teams, order, r, j);
    assert(is_bye_view(games[j]@));
    lemma_first_bye_partner(games, name);
}

/// A leg of an even number of teams has no game with the bye.
pub proof fn lemma_even_leg_has_no_bye(
    schedule: Seq<Game>,
    teams: Seq<Team>,
    order: Seq<usize>,
    start: int,
    season_config: SeasonConfig,
    leg_start: int,
)
    requires
        is_leg_schedule(schedule, teams, order, start, season_config, leg_start),
        is_leg_order(order, teams.len() as int),
        teams.len() % 2 == 0,
        teams.len() >= 4,
        no_bye_team(teams),
        order.len() <= usize::MAX,
    ensures
        !schedule_has_bye(schedule),
{
    let t = teams.len() as int;
    let m = order.len() as int;
    let half = m / 2;
    lemma_leg_order_facts(order, t);
    assert forall|k: int| 0 <= k < schedule.len() implies !is_bye_view(
        #[trigger] schedule[k]@,
    ) by {
        let r = k / half;
        let i = k % half;
        assert(k == r * half + i && 0 <= i < half) by (nonlinear_arith)
            requires
                half >= 2,
                r == k / half,
                i == k % half,
                k >= 0,
        ;
        assert(0 <= r < m - 1) by (nonlinear_arith)
            requires
                half >= 2,
                r == k / half,
                0 <= k < (m - 1) * half,
        ;
        assert(is_leg_game(
            scheduled_game(schedule, half, r, i),
            schedule,
            teams,
            order,
            start,
            season_config,
            leg_start,
            r,
            i,
        ));
        lemma_circle_index_range(m, r, i);
        lemma_circle_index_range(m, r, m - 1 - i);
        let home = circle_index(m, r, i);
        let away = circle_index(m, r, m - 1 - i);
        assert(teams[order[home] as int]@.0 != BYE_NAME@);
        assert(teams[order[away] as int]@.0 != BYE_NAME@);
    }
}

/// Two legs of the same teams from the same day on can be merged round by
/// round.
pub proof fn lemma_legs_mergeable(
    first: Seq<Game>,
    second: Seq<Game>,
    teams: Seq<Team>,
    order_a: Seq<usize>,
    order_b: Seq<usize>,
    start: int,
    season_config: SeasonConfig,
    start_a: int,
    start_b: int,
)
    requires
        is_leg_schedule(first, teams, order_a, start, season_config, start_a),
        is_leg_schedule(second, teams, order_b, start, season_config, start_b),
        is_leg_order(order_a, teams.len() as int),
        is_leg_order(order_b, teams.len() as int),
        teams.len() >= 4,
        no_bye_team(teams),
        order_a.len() <= usize::MAX,
    ensures
        mergeable(first, second, order_a.len() as int / 2, order_a.len() - 1),
{
    let t = teams.len() as int;
    let m = order_a.len() as int;
    let half = m / 2;
    let rounds = m - 1;
    lemma_leg_in_day_rounds(first, teams, order_a, start, season_config, start_a);
    lemma_leg_in_day_rounds(second, teams, order_b, start, season_config, start_b);
    if t % 2 == 0 {
        lemma_even_leg_has_no_bye(first, teams, order_a, start, season_config, start_a);
    }
    if t % 2 == 1 {
        assert forall|r: int| 0 <= r < rounds implies (#[trigger] first_bye_partner(
            round_games(first, half, r),
        )) is Some by {
            lemma_leg_round_bye_partner(first, teams, order_a, start, season_config, start_a, r);
        }
        assert forall|j: int| 0 <= j < rounds implies (#[trigger] first_bye_partner(
            round_games(second, half, j),
        )) is Some by {
            lemma_leg_round_bye_partner(second, teams, order_b, start, season_config, start_b, j);
        }
    }
    assert forall|r: int| 0 <= r < rounds implies #[trigger] round_matched(
        first,
        second,
        half,
        schedule_has_bye(first),
        r,
        rounds,
    ) by {
        if schedule_has_bye(first) {
            lemma_leg_round_bye_partner(first, teams, order_a, start, season_config, start_a, r);
            let y_a = bye_opponent(order_a, t, r);
            let team = order_a[y_a];
            lemma_leg_order_facts(order_b, t);
            assert(order_b.contains(team));
            let y_b = choose|x: int| 0 <= x < m && order_b[x] == team;
            assert(order_b.contains(t as usize));
            let b_b = bye_position(order_b, t);
            assert(0 <= b_b < m && order_b[b_b] == t as usize);
            assert(y_b != b_b);
            lemma_circle_pairs_once(m, b_b, y_b);
            let (j, i) = choose|j: int, i: int|
                0 <= j < m - 1 && 0 <= i < m / 2 && #[trigger] circle_meets(m, j, i, b_b, y_b);
            lemma_seat_of(m, j, b_b, i);
            lemma_seat_of(m, j, b_b, m - 1 - i);
            assert(bye_opponent(order_b, t, j) == y_b);
            lemma_leg_round_bye_partner(second, teams, order_b, start, season_config, start_b, j);
            assert(matches_round(first, second, half, schedule_has_bye(first), r, j));
            assert(round_matched(first, second, half, schedule_has_bye(first), r, rounds));
        } else {
            lemma_leg_round_dates_agree(
                first,
                second,
                teams,
                order_a,
                order_b,
                start,
                season_config,
                start_a,
                start_b,
                r,
            );
            assert(matches_round(first, second, half, schedule_has_bye(first), r, r));
            assert(round_matched(first, second, half, schedule_has_bye(first), r, rounds));
        }
    }
    assert(order_b.len() == m);
    assert(in_day_rounds(first, half, rounds));
    assert(in_day_rounds(second, half, rounds));
    assert(schedule_has_bye(first) ==> forall|r: int|
        0 <= r < rounds ==> (#[trigger] first_bye_partner(round_games(first, half, r))) is Some);
    assert(schedule_has_bye(first) ==> forall|j: int|
        0 <= j < rounds ==> (#[trigger] first_bye_partner(round_games(second, half, j))) is Some);
}

/// `rand::seq::SliceRandom::shuffle` on a list of entrant indices, with the
/// generator `rand::rng()` gives. The claim: the list that comes back holds
/// the same indices, each as often as before. Which order comes out rests on
/// chance, and nothing is said of it.
#[verifier::external_body]
fn shuffled(order: Vec<usize>) -> (r: Vec<usize>)
    ensures
        r@.to_multiset() == order@.to_multiset(),
        r@.len() == order@.len(),
{
    let mut order = order;
    order.shuffle(&mut rand::rng());
    order
}

/// A random order of the entrants of a leg of `teams_len` teams: the teams'
/// indices, and `teams_len` for the bye when their number is odd.
fn random_leg_order(teams_len: usize) -> (r: Vec<usize>)
    requires
        teams_len < usize::MAX,
    ensures
        is_leg_order(r@, teams_len as int),
{
    let count = if teams_len % 2 == 0 {
        teams_len
    } else {
        teams_len + 1
    };
    let mut natural: Vec<usize> = Vec::new();
    let mut i: usize = 0;
    while i < count
        invariant
            i <= count,
            natural@ == entrant_indices(i as int),
        decreases count - i,
    {
        natural.push(i);
        i = i + 1;
        assert(natural@ =~= entrant_indices(i as int));
    }
    shuffled(natural)
}

/// A double round-robin of `teams` from day `start` on: two legs, each the
/// circle method's rounds for its own order of the entrants, the first played
/// before the break and the second after it, merged day by day without a
/// pairing played twice on one day.
pub open spec fn is_merged_legs(
    games: Seq<GameView>,
    teams: Seq<Team>,
    start: int,
    season_config: SeasonConfig,
) -> bool {
    let t = teams.len() as int;
    let m = padded_count(t);
    let times = season_config.spec_time();
    exists|order_a: Seq<usize>, order_b: Seq<usize>, first: Seq<Game>, second: Seq<Game>|
        {
            &&& is_leg_order(order_a, t)
            &&& is_leg_order(order_b, t)
            &&& #[trigger] is_leg_schedule(
                first,
                teams,
                order_a,
                start,
                season_config,
                times.spec_start_time().minutes(),
            )
            &&& #[trigger] is_leg_schedule(
                second,
                teams,
                order_b,
                start,
                season_config,
                times.spec_end_break().minutes(),
            )
            &&& !merge_refused(first, second, m / 2, schedule_has_bye(first), m - 1, m - 1)
            &&& merged_views(first, second, m / 2, schedule_has_bye(first), m - 1, m - 1) == games
        }
}

/// What a round-robin schedule is: merged legs, and, when referees are asked
/// for, those legs with a referee for every real game, spread over the
/// teams as evenly as moving games between them gets it.
pub open spec fn is_round_robin_schedule(
    games: Seq<GameView>,
    teams: Seq<Team>,
    start: int,
    season_config: SeasonConfig,
    with_referees: bool,
) -> bool {
    if with_referees {
        exists|merged: Seq<GameView>|
            #[trigger] is_merged_legs(merged, teams, start, season_config) && referees_assigned(
                merged,
                games,
                team_views(teams),
            ) && (distinct_teams(team_views(teams)) ==> referees_spread(merged, games, team_views(teams)))
    } else {
        is_merged_legs(games, teams, start, season_config)
    }
}

/// `e` refuses a leg that the group stage can draw: a leg with some order of
/// the entrants whose days start at the start time or at the end of the
/// break, at its first game whose local time does not happen exactly once.
pub open spec fn drawn_leg_refusal(teams: Seq<Team>, start: int, season_config: SeasonConfig, e: AppError) -> bool {
    let times = season_config.spec_time();
    exists|order: Seq<usize>, leg_start: int|
        #![trigger leg_refusal(teams, order, start, season_config, leg_start, e)]
        {
            &&& is_leg_order(order, teams.len() as int)
            &&& (leg_start == times.spec_start_time().minutes() || leg_start == times.spec_end_break().minutes())
            &&& leg_refusal(teams, order, start, season_config, leg_start, e)
        }
}

impl RoundRobin {
    /// The group stage: a double round-robin where every team plays two
    /// games a match day, one in each leg, with a referee for every real game
    /// when asked, and every pair meets once at each team's home: the second
    /// meeting is turned round when the legs seat it the same way as the
    /// first. Each leg seats the teams in a random order: a hundred orders
    /// are drawn for the first leg and, for each, a hundred for the second,
    /// and the group stage is what `schedule_draws` makes of them. When a
    /// second leg repeats a pairing of the first on a day, or a game time
    /// does not exist on its new day, the next second leg is tried, and after
    /// a hundred the next first leg; when none combines the season is refused
    /// as infeasible.
    pub fn compute_schedule(
        &self,
        teams: &[Team],
        start_date: &Date,
        season_config: &SeasonConfig,
        with_referees: bool,
    ) -> (r: Result<Vec<Game>, AppError>)
        requires
            teams@.len() < u32::MAX,
            no_bye_team(teams@),
            start_date.spec_day_number() + leg_room(
                padded_count(teams@.len() as int),
                season_config.spec_dates().spec_excluded_dates().len() as int,
            ) <= MAX_DAY_NUMBER,
        ensures
            round_robin_validation(teams@.len() as int, *season_config) matches Err(e) ==> r
                == Err::<Vec<Game>, AppError>(e),
            round_robin_validation(teams@.len() as int, *season_config) is Ok
                && season_config.spec_dates().spec_game_days().len() == 0 ==> r == Err::<
                Vec<Game>,
                AppError,
            >(AppError::EmptyGameDays),
            round_robin_validation(teams@.len() as int, *season_config) is Ok
                && season_config.spec_dates().spec_game_days().len() > 0 && r is Err ==> {
                ||| r->Err_0 == AppError::InfeasibleDailyDoubleRoundRobin(teams@.len() as usize)
                ||| drawn_leg_refusal(teams@, start_date.spec_day_number(), *season_config, r->Err_0)
                ||| with_referees && r->Err_0 == AppError::EmptyEligibleReferees && exists|
                    merged: Seq<GameView>,
                | #[trigger] is_merged_legs(merged, teams@, start_date.spec_day_number(), *season_config)
                    && referees_run_short(merged, team_views(teams@))
            },
            round_robin_validation(teams@.len() as int, *season_config) is Ok
                && season_config.spec_dates().spec_game_days().len() > 0 ==> exists|
                orders_a: Seq<Seq<usize>>,
                orders_b: Seq<Seq<Seq<usize>>>,
            |
                {
                    &&& draws_shaped(orders_a, orders_b, teams@.len() as int)
                    &&& orders_a.len() == 100
                    &&& forall|i: int| 0 <= i < 100 ==> (#[trigger] orders_b[i]).len() == 100
                    &&& #[trigger] draws_outcome(
                        result_views(r),
                        teams@,
                        orders_a,
                        orders_b,
                        start_date.spec_day_number(),
                        *season_config,
                        with_referees,
                    )
                },
            r matches Ok(schedule) ==> is_group_stage(
                game_views(schedule@),
                teams@,
                start_date.spec_day_number(),
                *season_config,
                with_referees,
            ),
    {
        match self.validate_parameters(teams, season_config) {
            Err(e) => {
                return Err(e);
            },
            Ok(()) => {},
        }
        let t = teams.len();
        let mut orders_a: Vec<Vec<usize>> = Vec::new();
        let mut orders_b: Vec<Vec<Vec<usize>>> = Vec::new();
        let mut a: usize = 0;
        while a < 100
            invariant
                t == teams@.len(),
                t < u32::MAX,
                a <= 100,
                orders_a@.len() == a,
                orders_b@.len() == a,
                draws_shaped(order_views(orders_a@), nested_order_views(orders_b@), t as int),
                forall|i: int| 0 <= i < a ==> (#[trigger] orders_b@[i])@.len() == 100,
            decreases 100 - a,
        {
            let first = random_leg_order(t);
            let mut seconds: Vec<Vec<usize>> = Vec::new();
            let mut b: usize = 0;
            while b < 100
                invariant
                    t < u32::MAX,
                    b <= 100,
                    seconds@.len() == b,
                    forall|j: int| 0 <= j < b ==> is_leg_order((#[trigger] seconds@[j])@, t as int),
                decreases 100 - b,
            {
                seconds.push(random_leg_order(t));
                b = b + 1;
            }
            let ghost before_a = orders_a@;
            let ghost before_b = orders_b@;
            orders_a.push(first);
            orders_b.push(seconds);
            proof {
                let oa = order_views(orders_a@);
                let ob = nested_order_views(orders_b@);
                assert forall|i: int| 0 <= i < oa.len() implies is_leg_order(#[trigger] oa[i], t as int) by {
                    if i < a {
                        assert(oa[i] == order_views(before_a)[i]);
                    }
                }
                assert forall|i: int, j: int| 0 <= i < ob.len() && 0 <= j < ob[i].len() implies is_leg_order(
                    #[trigger] ob[i][j],
                    t as int,
                ) by {
                    if i < a {
                        assert(ob[i] == nested_order_views(before_b)[i]);
                    } else {
                        assert(ob[i] == order_views(seconds@));
                        assert(ob[i][j] == seconds@[j]@);
                    }
                }
                assert forall|i: int| 0 <= i < a + 1 implies (#[trigger] orders_b@[i])@.len() == 100 by {
                    if i < a {
                        assert(orders_b@[i] == before_b[i]);
                    }
                }
            }
            a = a + 1;
        }
        let r = self.schedule_draws(teams, &orders_a, &orders_b, start_date, season_config, with_referees);
        proof {
            let oa = order_views(orders_a@);
            let ob = nested_order_views(orders_b@);
            assert forall|i: int| 0 <= i < 100 implies (#[trigger] ob[i]).len() == 100 by {
                assert(ob[i] == order_views(orders_b@[i]@));
            }
            if round_robin_validation(t as int, *season_config) is Ok
                && season_config.spec_dates().spec_game_days().len() > 0 {
                assert(draws_outcome(
                    result_views(r),
                    teams@,
                    oa,
                    ob,
                    start_date.spec_day_number(),
                    *season_config,
                    with_referees,
                ));
            }
        }
        r
    }
}

/// Merged legs are never empty.
pub proof fn lemma_merged_legs_nonempty(
    games: Seq<GameView>,
    teams: Seq<Team>,
    start: int,
    season_config: SeasonConfig,
)
    requires
        is_merged_legs(games, teams, start, season_config),
        teams.len() >= 4,
    ensures
        games.len() > 0,
{
    let t = teams.len() as int;
    let m = padded_count(t);
    let times = season_config.spec_time();
    let (order_a, order_b, first, second) = choose|
        order_a: Seq<usize>,
        order_b: Seq<usize>,
        first: Seq<Game>,
        second: Seq<Game>,
    |
        {
            &&& is_leg_order(order_a, t)
            &&& is_leg_order(order_b, t)
            &&& #[trigger] is_leg_schedule(
                first,
                teams,
                order_a,
                start,
                season_config,
                times.spec_start_time().minutes(),
            )
            &&& #[trigger] is_leg_schedule(
                second,
                teams,
                order_b,
                start,
                season_config,
                times.spec_end_break().minutes(),
            )
            &&& !merge_refused(first, second, m / 2, schedule_has_bye(first), m - 1, m - 1)
            &&& merged_views(first, second, m / 2, schedule_has_bye(first), m - 1, m - 1) == games
        };
    let half = m / 2;
    let rounds = m - 1;
    assert(first.len() == rounds * half);
    assert((rounds - 1) * half + half == rounds * half) by (nonlinear_arith);
    assert((rounds - 1) * half >= 0) by (nonlinear_arith)
        requires
            rounds >= 1,
            half >= 1,
    ;
    let last_round = round_games(first, half, rounds - 1);
    assert(last_round.len() == half);
}

} // verus!
