use vstd::prelude::*;

use crate::calendar::{Date, MAX_DAY_NUMBER};
use crate::double_round_robin::{
    drawn_leg_refusal, is_merged_legs, is_round_robin_schedule, lemma_legs_mergeable, no_bye_team,
};
use crate::error::AppError;
use crate::game::{Game, GameView};
use crate::home_away::{is_group_stage, orient_meetings, oriented};
use crate::leg_merge::{merge_refused, merged_views, schedule_has_bye};
use crate::referees::{
    distinct_teams, game_views, referees_assigned, referees_run_short, referees_spread, team_views,
};
use crate::round_robin::{
    is_leg_order, is_leg_schedule, leg_refusal, leg_room, leg_times_unique, padded_count,
    round_robin_validation, RoundRobin,
};
use crate::season_config::SeasonConfig;
use crate::team::Team;

verus! {

/// The drawn orders, each as its sequence of entrant indices.
pub open spec fn order_views(orders: Seq<Vec<usize>>) -> Seq<Seq<usize>> {
    orders.map_values(|o: Vec<usize>| o@)
}

/// The drawn orders of the second legs, for each first leg.
pub open spec fn nested_order_views(orders: Seq<Vec<Vec<usize>>>) -> Seq<Seq<Seq<usize>>> {
    orders.map_values(|os: Vec<Vec<usize>>| order_views(os@))
}

/// Every drawn order seats the entrants of a leg of `teams_len` teams, and
/// each first leg has its own list of second legs.
pub open spec fn draws_shaped(
    orders_a: Seq<Seq<usize>>,
    orders_b: Seq<Seq<Seq<usize>>>,
    teams_len: int,
) -> bool {
    &&& orders_b.len() == orders_a.len()
    &&& forall|a: int| 0 <= a < orders_a.len() ==> is_leg_order(#[trigger] orders_a[a], teams_len)
    &&& forall|a: int, b: int|
        0 <= a < orders_b.len() && 0 <= b < orders_b[a].len() ==> is_leg_order(
            #[trigger] orders_b[a][b],
            teams_len,
        )
}

/// A result with its games taken by their views.
pub open spec fn result_views(r: Result<Vec<Game>, AppError>) -> Result<Seq<GameView>, AppError> {
    match r {
        Ok(games) => Ok(game_views(games@)),
        Err(e) => Err(e),
    }
}

/// The first leg's days start at the start time.
pub open spec fn first_leg_start(season_config: SeasonConfig) -> int {
    season_config.spec_time().spec_start_time().minutes()
}

/// The second leg's days start at the end of the break.
pub open spec fn second_leg_start(season_config: SeasonConfig) -> int {
    season_config.spec_time().spec_end_break().minutes()
}

/// The legs seated in `order_a` and `order_b` do not combine: merging them
/// day by day is refused.
pub open spec fn legs_refused(
    teams: Seq<Team>,
    order_a: Seq<usize>,
    order_b: Seq<usize>,
    start: int,
    season_config: SeasonConfig,
) -> bool {
    let m = padded_count(teams.len() as int);
    exists|first: Seq<Game>, second: Seq<Game>|
        #![trigger is_leg_schedule(first, teams, order_a, start, season_config, first_leg_start(season_config)), is_leg_schedule(second, teams, order_b, start, season_config, second_leg_start(season_config))]
        {
            &&& is_leg_schedule(first, teams, order_a, start, season_config, first_leg_start(season_config))
            &&& is_leg_schedule(
                second,
                teams,
                order_b,
                start,
                season_config,
                second_leg_start(season_config),
            )
            &&& merge_refused(first, second, m / 2, schedule_has_bye(first), m - 1, m - 1)
        }
}

/// What the group stage hands back once its legs are merged into `merged`:
/// the merged games, or, when referees are asked for, the games with their
/// referees, the second meeting of each pair turned round; refused when the
/// referees run short.
pub open spec fn merged_outcome(
    r: Result<Seq<GameView>, AppError>,
    merged: Seq<GameView>,
    teams: Seq<Team>,
    with_referees: bool,
) -> bool {
    let tv = team_views(teams);
    if !with_referees {
        r == Ok::<Seq<GameView>, AppError>(oriented(merged))
    } else if referees_run_short(merged, tv) {
        r == Err::<Seq<GameView>, AppError>(AppError::EmptyEligibleReferees)
    } else {
        exists|plain: Seq<GameView>|
            #[trigger] referees_assigned(merged, plain, tv) && (distinct_teams(tv) ==> referees_spread(
                merged,
                plain,
                tv,
            )) && r == Ok::<Seq<GameView>, AppError>(oriented(plain))
    }
}

/// The legs seated in `order_a` and `order_b` combine, and `r` is what the
/// group stage hands back for them.
pub open spec fn legs_decide(
    r: Result<Seq<GameView>, AppError>,
    teams: Seq<Team>,
    order_a: Seq<usize>,
    order_b: Seq<usize>,
    start: int,
    season_config: SeasonConfig,
    with_referees: bool,
) -> bool {
    let m = padded_count(teams.len() as int);
    exists|first: Seq<Game>, second: Seq<Game>|
        #![trigger is_leg_schedule(first, teams, order_a, start, season_config, first_leg_start(season_config)), is_leg_schedule(second, teams, order_b, start, season_config, second_leg_start(season_config))]
        {
            &&& is_leg_schedule(first, teams, order_a, start, season_config, first_leg_start(season_config))
            &&& is_leg_schedule(
                second,
                teams,
                order_b,
                start,
                season_config,
                second_leg_start(season_config),
            )
            &&& !merge_refused(first, second, m / 2, schedule_has_bye(first), m - 1, m - 1)
            &&& merged_outcome(
                r,
                merged_views(first, second, m / 2, schedule_has_bye(first), m - 1, m - 1),
                teams,
                with_referees,
            )
        }
}

/// Every game of the first leg seated in `order` has a local time that
/// happens exactly once.
pub open spec fn first_leg_fits(teams: Seq<Team>, order: Seq<usize>, start: int, season_config: SeasonConfig) -> bool {
    leg_times_unique(teams, order, start, season_config, first_leg_start(season_config))
}

/// Every game of the second leg seated in `order` has a local time that
/// happens exactly once.
pub open spec fn second_leg_fits(teams: Seq<Team>, order: Seq<usize>, start: int, season_config: SeasonConfig) -> bool {
    leg_times_unique(teams, order, start, season_config, second_leg_start(season_config))
}

/// Try `b` of first leg `a` is made and refused: both legs are scheduled,
/// and they do not combine.
pub open spec fn tried_and_refused(
    teams: Seq<Team>,
    orders_a: Seq<Seq<usize>>,
    orders_b: Seq<Seq<Seq<usize>>>,
    start: int,
    season_config: SeasonConfig,
    a: int,
    b: int,
) -> bool {
    &&& first_leg_fits(teams, orders_a[a], start, season_config)
    &&& second_leg_fits(teams, orders_b[a][b], start, season_config)
    &&& legs_refused(teams, orders_a[a], orders_b[a][b], start, season_config)
}

/// Every try before try `b` of first leg `a`, in the order they are made,
/// is refused, and every first leg before `a` is scheduled.
pub open spec fn refused_before(
    teams: Seq<Team>,
    orders_a: Seq<Seq<usize>>,
    orders_b: Seq<Seq<Seq<usize>>>,
    start: int,
    season_config: SeasonConfig,
    a: int,
    b: int,
) -> bool {
    &&& forall|a2: int| 0 <= a2 < a ==> first_leg_fits(teams, #[trigger] orders_a[a2], start, season_config)
    &&& forall|a2: int, b2: int|
        0 <= a2 < a && 0 <= b2 < orders_b[a2].len() ==> #[trigger] tried_and_refused(
            teams,
            orders_a,
            orders_b,
            start,
            season_config,
            a2,
            b2,
        )
    &&& forall|b2: int|
        0 <= b2 < b ==> #[trigger] tried_and_refused(teams, orders_a, orders_b, start, season_config, a, b2)
}

/// What the group stage hands back for the drawn orders: the tries are made
/// first leg by first leg and, for each, second leg by second leg; the
/// first refused leg refuses the season, the first pair of legs that
/// combines decides it, and when every pair is refused the season is
/// infeasible.
pub open spec fn draws_outcome(
    r: Result<Seq<GameView>, AppError>,
    teams: Seq<Team>,
    orders_a: Seq<Seq<usize>>,
    orders_b: Seq<Seq<Seq<usize>>>,
    start: int,
    season_config: SeasonConfig,
    with_referees: bool,
) -> bool {
    ||| exists|a: int|
        {
            &&& 0 <= a < orders_a.len()
            &&& #[trigger] refused_before(teams, orders_a, orders_b, start, season_config, a, 0)
            &&& !first_leg_fits(teams, orders_a[a], start, season_config)
            &&& r matches Err(e) && leg_refusal(
                teams,
                orders_a[a],
                start,
                season_config,
                first_leg_start(season_config),
                e,
            )
        }
    ||| exists|a: int, b: int|
        {
            &&& 0 <= a < orders_a.len()
            &&& 0 <= b < orders_b[a].len()
            &&& #[trigger] refused_before(teams, orders_a, orders_b, start, season_config, a, b)
            &&& first_leg_fits(teams, orders_a[a], start, season_config)
            &&& !second_leg_fits(teams, orders_b[a][b], start, season_config)
            &&& r matches Err(e) && leg_refusal(
                teams,
                orders_b[a][b],
                start,
                season_config,
                second_leg_start(season_config),
                e,
            )
        }
    ||| exists|a: int, b: int|
        {
            &&& 0 <= a < orders_a.len()
            &&& 0 <= b < orders_b[a].len()
            &&& #[trigger] refused_before(teams, orders_a, orders_b, start, season_config, a, b)
            &&& first_leg_fits(teams, orders_a[a], start, season_config)
            &&& second_leg_fits(teams, orders_b[a][b], start, season_config)
            &&& legs_decide(r, teams, orders_a[a], orders_b[a][b], start, season_config, with_referees)
        }
    ||| refused_before(teams, orders_a, orders_b, start, season_config, orders_a.len() as int, 0) && r
        == Err::<Seq<GameView>, AppError>(
        AppError::InfeasibleDailyDoubleRoundRobin(teams.len() as usize),
    )
}

impl RoundRobin {
    /// The group stage for drawn orders of the entrants: for each first leg
    /// seated in `orders_a`, its second legs seated in the matching list of
    /// `orders_b` are tried in turn, and the first pair of legs that combines
    /// gives the schedule, with referees when asked and the second meeting of
    /// each pair turned round. A leg with a game at a local time that does
    /// not happen exactly once refuses the season; when no pair combines the
    /// season is infeasible.
    #[verifier::spinoff_prover]
    #[verifier::rlimit(80)]
    pub fn schedule_draws(
        &self,
        teams: &[Team],
        orders_a: &Vec<Vec<usize>>,
        orders_b: &Vec<Vec<Vec<usize>>>,
        start_date: &Date,
        season_config: &SeasonConfig,
        with_referees: bool,
    ) -> (r: Result<Vec<Game>, AppError>)
        requires
            teams@.len() < u32::MAX,
            no_bye_team(teams@),
            start_date.spec_day_number() + leg_room(
                padded_count(teams@.len() as int),
                season_config.spec_dates().spec_excluded_dates().len() as int,
            ) <= MAX_DAY_NUMBER,
            draws_shaped(order_views(orders_a@), nested_order_views(orders_b@), teams@.len() as int),
        ensures
            round_robin_validation(teams@.len() as int, *season_config) matches Err(e) ==> r
                == Err::<Vec<Game>, AppError>(e),
            round_robin_validation(teams@.len() as int, *season_config) is Ok
                && season_config.spec_dates().spec_game_days().len() == 0 && orders_a@.len() > 0 ==> r
                == Err::<Vec<Game>, AppError>(AppError::EmptyGameDays),
            round_robin_validation(teams@.len() as int, *season_config) is Ok && orders_a@.len() == 0
                ==> r == Err::<Vec<Game>, AppError>(
                AppError::InfeasibleDailyDoubleRoundRobin(teams@.len() as usize),
            ),
            round_robin_validation(teams@.len() as int, *season_config) is Ok
                && season_config.spec_dates().spec_game_days().len() > 0 ==> draws_outcome(
                result_views(r),
                teams@,
                order_views(orders_a@),
                nested_order_views(orders_b@),
                start_date.spec_day_number(),
                *season_config,
                with_referees,
            ),
            round_robin_validation(teams@.len() as int, *season_config) is Ok
                && season_config.spec_dates().spec_game_days().len() > 0 && r is Err ==> {
                ||| r->Err_0 == AppError::InfeasibleDailyDoubleRoundRobin(teams@.len() as usize)
                ||| drawn_leg_refusal(teams@, start_date.spec_day_number(), *season_config, r->Err_0)
                ||| with_referees && r->Err_0 == AppError::EmptyEligibleReferees && exists|
                    merged: Seq<GameView>,
                | #[trigger] is_merged_legs(merged, teams@, start_date.spec_day_number(), *season_config)
                    && referees_run_short(merged, team_views(teams@))
            },
            r matches Ok(schedule) ==> is_group_stage(
                game_views(schedule@),
                teams@,
                start_date.spec_day_number(),
                *season_config,
                with_referees,
            ),
    {
        match self.validate_parameters(teams, season_config) {
            Err(e) => {
                return Err(e);
            },
            Ok(()) => {},
        }
        let t = teams.len();
        let ghost m = padded_count(t as int);
        let ghost start = start_date.spec_day_number();
        let ghost times = season_config.spec_time();
        let ghost oa = order_views(orders_a@);
        let ghost ob = nested_order_views(orders_b@);
        let time_configuration = season_config.time_configuration();
        let mut a: usize = 0;
        while a < orders_a.len()
            invariant
                t == teams@.len(),
                4 <= t < u32::MAX,
                a <= orders_a@.len(),
                a > 0 ==> season_config.spec_dates().spec_game_days().len() > 0,
                m == padded_count(t as int),
                start == start_date.spec_day_number(),
                times == season_config.spec_time(),
                *time_configuration == times,
                no_bye_team(teams@),
                round_robin_validation(t as int, *season_config) is Ok,
                start + leg_room(m, season_config.spec_dates().spec_excluded_dates().len() as int)
                    <= MAX_DAY_NUMBER,
                oa == order_views(orders_a@),
                ob == nested_order_views(orders_b@),
                draws_shaped(oa, ob, t as int),
                refused_before(teams@, oa, ob, start, *season_config, a as int, 0),
            decreases orders_a@.len() - a,
        {
            let order_a = &orders_a[a];
            proof {
                assert(oa[a as int] == order_a@);
                assert(is_leg_order(oa[a as int], t as int));
            }
            let mut pass_a = match self.single_leg_schedule(
                teams,
                order_a,
                start_date,
                season_config,
                time_configuration.start_time(),
            ) {
                Ok(s) => s,
                Err(e) => {
                    proof {
                        if season_config.spec_dates().spec_game_days().len() > 0 {
                            assert(leg_refusal(teams@, oa[a as int], start, *season_config, first_leg_start(*season_config), e));
                            assert(!first_leg_fits(teams@, oa[a as int], start, *season_config));
                            assert(refused_before(teams@, oa, ob, start, *season_config, a as int, 0));
                            assert(draws_outcome(Err(e), teams@, oa, ob, start, *season_config, with_referees));
                            assert(leg_refusal(teams@, order_a@, start, *season_config, times.spec_start_time().minutes(), e));
                        }
                    }
                    return Err(e);
                },
            };
            let order_b_list = &orders_b[a];
            proof {
                assert(ob[a as int] == order_views(order_b_list@));
                assert(first_leg_fits(teams@, oa[a as int], start, *season_config));
            }
            let mut b: usize = 0;
            while b < order_b_list.len()
                invariant
                    t == teams@.len(),
                    4 <= t < u32::MAX,
                    a < orders_a@.len(),
                    b <= order_b_list@.len(),
                    m == padded_count(t as int),
                    start == start_date.spec_day_number(),
                    times == season_config.spec_time(),
                    *time_configuration == times,
                    no_bye_team(teams@),
                    round_robin_validation(t as int, *season_config) is Ok,
                    season_config.spec_dates().spec_game_days().len() > 0,
                    start + leg_room(m, season_config.spec_dates().spec_excluded_dates().len() as int)
                        <= MAX_DAY_NUMBER,
                    oa == order_views(orders_a@),
                    ob == nested_order_views(orders_b@),
                    draws_shaped(oa, ob, t as int),
                    oa[a as int] == order_a@,
                    ob[a as int] == order_views(order_b_list@),
                    is_leg_order(order_a@, t as int),
                    first_leg_fits(teams@, oa[a as int], start, *season_config),
                    refused_before(teams@, oa, ob, start, *season_config, a as int, b as int),
                    is_leg_schedule(
                        pass_a@,
                        teams@,
                        order_a@,
                        start,
                        *season_config,
                        times.spec_start_time().minutes(),
                    ),
                decreases order_b_list@.len() - b,
            {
                let order_b = &order_b_list[b];
                proof {
                    assert(ob[a as int][b as int] == order_b@);
                    assert(is_leg_order(ob[a as int][b as int], t as int));
                }
                let pass_b = match self.single_leg_schedule(
                    teams,
                    order_b,
                    start_date,
                    season_config,
                    time_configuration.end_break(),
                ) {
                    Ok(s) => s,
                    Err(e) => {
                        proof {
                            assert(leg_refusal(teams@, ob[a as int][b as int], start, *season_config, second_leg_start(*season_config), e));
                            assert(!second_leg_fits(teams@, ob[a as int][b as int], start, *season_config));
                            assert(refused_before(teams@, oa, ob, start, *season_config, a as int, b as int));
                            assert(draws_outcome(Err(e), teams@, oa, ob, start, *season_config, with_referees));
                            assert(leg_refusal(teams@, order_b@, start, *season_config, times.spec_end_break().minutes(), e));
                        }
                        return Err(e);
                    },
                };
                let ghost first = pass_a@;
                let ghost second = pass_b@;
                proof {
                    assert(second_leg_fits(teams@, ob[a as int][b as int], start, *season_config));
                    assert(is_leg_schedule(first, teams@, oa[a as int], start, *season_config, first_leg_start(*season_config)));
                    assert(is_leg_schedule(second, teams@, ob[a as int][b as int], start, *season_config, second_leg_start(*season_config)));
                    lemma_legs_mergeable(
                        first,
                        second,
                        teams@,
                        order_a@,
                        order_b@,
                        start,
                        *season_config,
                        times.spec_start_time().minutes(),
                        times.spec_end_break().minutes(),
                    );
                }
                match self.merge_schedules(pass_a, pass_b, Ghost(m / 2), Ghost(m - 1)) {
                    Some(schedule) => {
                        let ghost merged = game_views(schedule@);
                        proof {
                            assert(merged == merged_views(
                                first,
                                second,
                                m / 2,
                                schedule_has_bye(first),
                                m - 1,
                                m - 1,
                            ));
                            assert(is_merged_legs(merged, teams@, start, *season_config));
                        }
                        if with_referees {
                            match self.add_referees(schedule, teams) {
                                Ok(refereed) => {
                                    let ghost plain = game_views(refereed@);
                                    let out = orient_meetings(refereed);
                                    proof {
                                        assert(referees_assigned(merged, plain, team_views(teams@)));
                                        assert(is_round_robin_schedule(plain, teams@, start, *season_config, true));
                                        assert(result_views(Ok(out)) == Ok::<Seq<GameView>, AppError>(oriented(plain)));
                                        assert(merged_outcome(result_views(Ok(out)), merged, teams@, true));
                                        assert(legs_decide(result_views(Ok(out)), teams@, oa[a as int], ob[a as int][b as int], start, *season_config, true));
                                        assert(draws_outcome(result_views(Ok(out)), teams@, oa, ob, start, *season_config, with_referees));
                                    }
                                    return Ok(out);
                                },
                                Err(e) => {
                                    proof {
                                        assert(referees_run_short(merged, team_views(teams@)));
                                        assert(merged_outcome(Err(e), merged, teams@, true));
                                        assert(legs_decide(Err(e), teams@, oa[a as int], ob[a as int][b as int], start, *season_config, true));
                                        assert(draws_outcome(Err(e), teams@, oa, ob, start, *season_config, with_referees));
                                    }
                                    return Err(e);
                                },
                            }
                        }
                        let out = orient_meetings(schedule);
                        proof {
                            assert(is_round_robin_schedule(merged, teams@, start, *season_config, false));
                            assert(result_views(Ok(out)) == Ok::<Seq<GameView>, AppError>(oriented(merged)));
                            assert(merged_outcome(result_views(Ok(out)), merged, teams@, false));
                            assert(legs_decide(result_views(Ok(out)), teams@, oa[a as int], ob[a as int][b as int], start, *season_config, false));
                            assert(draws_outcome(result_views(Ok(out)), teams@, oa, ob, start, *season_config, with_referees));
                        }
                        return Ok(out);
                    },
                    None => {
                        proof {
                            assert(legs_refused(teams@, oa[a as int], ob[a as int][b as int], start, *season_config));
                            assert(tried_and_refused(teams@, oa, ob, start, *season_config, a as int, b as int));
                        }
                    },
                }
                pass_a = match self.single_leg_schedule(
                    teams,
                    order_a,
                    start_date,
                    season_config,
                    time_configuration.start_time(),
                ) {
                    Ok(s) => s,
                    Err(e) => {
                        proof {
                            assert(leg_times_unique(teams@, order_a@, start, *season_config, times.spec_start_time().minutes()));
                        }
                        return Err(e);
                    },
                };
                proof {
                    assert forall|b2: int| 0 <= b2 < b + 1 implies #[trigger] tried_and_refused(
                        teams@,
                        oa,
                        ob,
                        start,
                        *season_config,
                        a as int,
                        b2,
                    ) by {}
                }
                b = b + 1;
            }
            proof {
                assert forall|a2: int, b2: int|
                    0 <= a2 < a + 1 && 0 <= b2 < ob[a2].len() implies #[trigger] tried_and_refused(
                    teams@,
                    oa,
                    ob,
                    start,
                    *season_config,
                    a2,
                    b2,
                ) by {
                    if a2 == a {
                        assert(ob[a2].len() == order_b_list@.len());
                    }
                }
                assert forall|a2: int| 0 <= a2 < a + 1 implies first_leg_fits(teams@, #[trigger] oa[a2], start, *season_config) by {}
            }
            a = a + 1;
        }
        proof {
            if season_config.spec_dates().spec_game_days().len() > 0 {
                assert(draws_outcome(
                    Err(AppError::InfeasibleDailyDoubleRoundRobin(t)),
                    teams@,
                    oa,
                    ob,
                    start,
                    *season_config,
                    with_referees,
                ));
            }
        }
        Err(AppError::InfeasibleDailyDoubleRoundRobin(t))
    }
}

} // verus!
