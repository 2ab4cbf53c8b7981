use vstd::prelude::*;

use crate::calendar::{Date, MAX_DAY_NUMBER};
use crate::double_round_robin::{drawn_leg_refusal, is_merged_legs, is_round_robin_schedule, no_bye_team};
use crate::group_draws::{draws_outcome, draws_shaped, result_views};
use crate::home_away::{is_group_stage, oriented};
use crate::error::AppError;
use crate::game::{Game, GameView};
use crate::game_day_scheduler::{is_first_playable_from, search_span, GameDayScheduler};
use crate::referees::{game_views, referees_run_short, team_views};
use crate::round_robin::{
    leg_room, padded_count, round_robin_validation, RoundRobin,
};
use crate::season_config::SeasonConfig;
use crate::single_elimination::{
    bracket_entrants, bracket_game_count, bracket_refusal, is_bracket_schedule,
    single_elimination_validation, slot_is_unique,
    SingleElimination,
};
use crate::team::{Team, TeamView};

verus! {

/// The two stages of a season: the group stage, then the playoff.
pub struct TournamentSelection {
    group_stage: RoundRobin,
    playoff: SingleElimination,
}

impl TournamentSelection {
    pub fn new(group_stage: RoundRobin, playoff: SingleElimination) -> (r: TournamentSelection)
        ensures
            r.spec_group_stage() == group_stage,
            r.spec_playoff() == playoff,
    {
        TournamentSelection { group_stage, playoff }
    }

    pub closed spec fn spec_playoff(&self) -> SingleElimination {
        self.playoff
    }

    pub closed spec fn spec_group_stage(&self) -> RoundRobin {
        self.group_stage
    }

    pub fn group_stage(&self) -> (r: &RoundRobin)
        ensures
            *r == self.spec_group_stage(),
    {
        &self.group_stage
    }

    pub fn playoff(&self) -> (r: &SingleElimination)
        ensures
            *r == self.spec_playoff(),
    {
        &self.playoff
    }
}

/// A season: how it is scheduled, and its two stages.
pub struct Season {
    season_config: SeasonConfig,
    tournament: TournamentSelection,
}

/// The latest day among the games, as a day number; `None` without games.
pub open spec fn last_day(games: Seq<GameView>) -> Option<int>
    decreases games.len(),
{
    if games.len() == 0 {
        None
    } else {
        match last_day(games.drop_last()) {
            Some(d) => if d >= games.last().day {
                Some(d)
            } else {
                Some(games.last().day)
            },
            None => Some(games.last().day),
        }
    }
}

/// The teams that go on to the playoff: the first eight.
pub open spec fn playoff_teams(teams: Seq<Team>) -> Seq<Team> {
    if teams.len() <= 8 {
        teams
    } else {
        teams.take(8)
    }
}

/// The playoff starts on the game day after `last_game_day`, the game day on
/// or after the last day of the group stage `group`.
pub open spec fn playoff_follows(
    group: Seq<GameView>,
    last_game_day: int,
    playoff_start: int,
    season_config: SeasonConfig,
) -> bool {
    let dates = season_config.spec_dates();
    &&& last_day(group) is Some
    &&& is_first_playable_from(
        last_game_day,
        last_day(group)->0,
        dates.spec_game_days(),
        dates.spec_excluded_dates(),
    )
    &&& is_first_playable_from(
        playoff_start,
        last_game_day + 1,
        dates.spec_game_days(),
        dates.spec_excluded_dates(),
    )
}

/// What a season's schedule is: the group stage, a round-robin of all the
/// teams with referees, followed by the playoff of the first eight teams,
/// from the game day after the group stage's last game day on.
pub open spec fn is_season_schedule(
    games: Seq<GameView>,
    teams: Seq<Team>,
    season_config: SeasonConfig,
    anonymous: bool,
) -> bool {
    let start = season_config.spec_dates().spec_start_date().spec_day_number();
    let dates = season_config.spec_dates();
    exists|
        group: Seq<GameView>,
        playoff: Seq<GameView>,
        inner: Seq<TeamView>,
        last_game_day: int,
        playoff_start: int,
    |
        {
            &&& #[trigger] is_group_stage(group, teams, start, season_config, true)
            &&& #[trigger] playoff_follows(group, last_game_day, playoff_start, season_config)
            &&& bracket_entrants(anonymous, playoff_teams(teams), inner)
            &&& #[trigger] is_bracket_schedule(
                playoff,
                inner,
                playoff_teams(teams).len() as int,
                playoff_start,
                season_config,
            )
            &&& games == group + playoff
        }
}

/// The calendar may end before the playoff after the group stage `group`
/// would: from the day after its last day, the playoff of the first eight
/// teams may need more days than are left.
pub open spec fn playoff_past_calendar(group: Seq<GameView>, teams_len: int, season_config: SeasonConfig) -> bool {
    let playoff_count = if teams_len <= 8 {
        teams_len
    } else {
        8
    };
    let span = search_span(season_config.spec_dates().spec_excluded_dates().len() as int);
    &&& last_day(group) is Some
    &&& last_day(group)->0 + 1 + (1 + span) * (4 * playoff_count + 4) > MAX_DAY_NUMBER
}

/// Why a season can be refused: its group stage is refused, the playoff is
/// refused, or the calendar ends before the playoff would.
pub open spec fn season_refusal(
    e: AppError,
    teams: Seq<Team>,
    season_config: SeasonConfig,
) -> bool {
    let start = season_config.spec_dates().spec_start_date().spec_day_number();
    let validation = round_robin_validation(teams.len() as int, season_config);
    ||| validation == Err::<(), AppError>(e)
    ||| validation is Ok && season_config.spec_dates().spec_game_days().len() == 0 && e
        == AppError::EmptyGameDays
    ||| validation is Ok && season_config.spec_dates().spec_game_days().len() > 0 && {
        ||| e == AppError::InfeasibleDailyDoubleRoundRobin(teams.len() as usize)
        ||| drawn_leg_refusal(teams, start, season_config, e)
        ||| exists|group: Seq<GameView>, last_game_day: int, playoff_start: int|
            #[trigger] is_group_stage(group, teams, start, season_config, true) && #[trigger] playoff_follows(
                group,
                last_game_day,
                playoff_start,
                season_config,
            ) && bracket_refusal(playoff_teams(teams).len() as int, playoff_start, season_config, e)
        ||| e == AppError::EmptyEligibleReferees && exists|merged: Seq<GameView>|
            #[trigger] is_merged_legs(merged, teams, start, season_config) && referees_run_short(
                merged,
                team_views(teams),
            )
        ||| e == AppError::DateOutOfRange && exists|group: Seq<GameView>|
            #[trigger] is_group_stage(group, teams, start, season_config, true)
                && playoff_past_calendar(group, teams.len() as int, season_config)
    }
}

/// What the playoff from day `playoff_start` makes of the season once its
/// group stage is `group`: refused as the playoff's own checks refuse it,
/// refused at its first game whose local time does not happen exactly
/// once, or the group stage followed by the bracket of the first eight
/// teams.
pub open spec fn playoff_outcome(
    r: Result<Seq<GameView>, AppError>,
    group: Seq<GameView>,
    teams: Seq<Team>,
    playoff_start: int,
    season_config: SeasonConfig,
    anonymous: bool,
) -> bool {
    let n = playoff_teams(teams).len() as int;
    match single_elimination_validation(n, season_config) {
        Err(e) => r == Err::<Seq<GameView>, AppError>(e),
        Ok(_) => if forall|k: int|
            0 <= k < bracket_game_count(n) ==> #[trigger] slot_is_unique(k, n, playoff_start, season_config) {
            exists|playoff: Seq<GameView>, inner: Seq<TeamView>|
                #![trigger bracket_entrants(anonymous, playoff_teams(teams), inner), is_bracket_schedule(playoff, inner, n, playoff_start, season_config)]
                bracket_entrants(anonymous, playoff_teams(teams), inner) && is_bracket_schedule(
                    playoff,
                    inner,
                    n,
                    playoff_start,
                    season_config,
                ) && r == Ok::<Seq<GameView>, AppError>(group + playoff)
        } else {
            r matches Err(e) && bracket_refusal(n, playoff_start, season_config, e)
        },
    }
}

/// What the season makes of its group stage `group`: refused when it has
/// no game, when the playoff would run past the end of the calendar or
/// when there are no game days; else the playoff from the game day after
/// the one on or after the group stage's last day.
pub open spec fn season_outcome(
    r: Result<Seq<GameView>, AppError>,
    group: Seq<GameView>,
    teams: Seq<Team>,
    season_config: SeasonConfig,
    anonymous: bool,
) -> bool {
    if last_day(group) is None {
        r == Err::<Seq<GameView>, AppError>(AppError::MissingGame)
    } else if playoff_past_calendar(group, teams.len() as int, season_config) {
        r == Err::<Seq<GameView>, AppError>(AppError::DateOutOfRange)
    } else if season_config.spec_dates().spec_game_days().len() == 0 {
        r == Err::<Seq<GameView>, AppError>(AppError::EmptyGameDays)
    } else {
        exists|last_game_day: int, playoff_start: int|
            #[trigger] playoff_follows(group, last_game_day, playoff_start, season_config) && playoff_outcome(
                r,
                group,
                teams,
                playoff_start,
                season_config,
                anonymous,
            )
    }
}

/// The latest day among the games.
fn last_game_day(games: &Vec<Game>) -> (r: Option<Date>)
    ensures
        r is None <==> last_day(game_views(games@)) is None,
        r matches Some(d) ==> last_day(game_views(games@)) == Some(d.spec_day_number()),
{
    let ghost views = game_views(games@);
    let mut latest: Option<Date> = None;
    let mut k: usize = 0;
    assert(views.take(0) =~= Seq::<GameView>::empty());
    while k < games.len()
        invariant
            k <= games@.len(),
            views == game_views(games@),
            latest is None <==> last_day(views.take(k as int)) is None,
            latest matches Some(d) ==> last_day(views.take(k as int)) == Some(d.spec_day_number()),
        decreases games@.len() - k,
    {
        let day = *games[k].get_game_day();
        assert(views.take(k + 1).drop_last() =~= views.take(k as int));
        assert(views.take(k + 1).last() == games@[k as int]@);
        match latest {
            Some(d) => {
                if d.is_before(&day) {
                    latest = Some(day);
                }
            },
            None => {
                latest = Some(day);
            },
        }
        k = k + 1;
    }
    assert(views.take(games@.len() as int) =~= views);
    latest
}

impl Season {
    pub fn new(season_config: SeasonConfig, tournament: TournamentSelection) -> (r: Season)
        ensures
            r.spec_season_config() == season_config,
            r.spec_tournament() == tournament,
    {
        Season { season_config, tournament }
    }

    pub closed spec fn spec_season_config(&self) -> SeasonConfig {
        self.season_config
    }

    pub closed spec fn spec_tournament(&self) -> TournamentSelection {
        self.tournament
    }

    pub fn season_config(&self) -> (r: &SeasonConfig)
        ensures
            *r == self.spec_season_config(),
    {
        &self.season_config
    }

    /// Whether `teams_len` teams can be counted in a `u32` and the calendar
    /// holds a leg of their group stage: from the start date, a round a day,
    /// each at most a search span after the one before, up to the last day
    /// the calendar knows.
    pub fn fits_calendar(&self, teams_len: usize) -> (r: bool)
        ensures
            r <==> (teams_len < u32::MAX
                && self.spec_season_config().spec_dates().spec_start_date().spec_day_number()
                + leg_room(
                padded_count(teams_len as int),
                self.spec_season_config().spec_dates().spec_excluded_dates().len() as int,
            ) <= MAX_DAY_NUMBER),
    {
        if teams_len >= 0xffff_ffffusize {
            return false;
        }
        let dates = self.season_config().date_configuration();
        let start: i128 = dates.start_date().day_number() as i128;
        let excluded: u128 = dates.excluded_dates().len() as u128;
        let padded: u128 = if teams_len % 2 == 0 {
            teams_len as u128
        } else {
            teams_len as u128 + 1
        };
        let span: u128 = 7 * (excluded + 1);
        assert(padded * (1 + span) <= 0x1_0000_0000 * (1 + 7 * (0x1_0000_0000_0000_0000 + 1)))
            by (nonlinear_arith)
            requires
                padded <= 0x1_0000_0000,
                span == 7 * (excluded + 1),
                excluded < 0x1_0000_0000_0000_0000,
        ;
        let room: u128 = padded * (1 + span);
        start + (room as i128) <= MAX_DAY_NUMBER as i128
    }

    pub fn tournament(&self) -> (r: &TournamentSelection)
        ensures
            *r == self.spec_tournament(),
    {
        &self.tournament
    }

    /// The season's schedule: the group stage with referees, then, from the
    /// first game day after its last day, the playoff of the first eight
    /// teams without referees. Refused when the group stage or the playoff
    /// is refused, or when the playoff would run past the end of the
    /// calendar.
    #[verifier::spinoff_prover]
    #[verifier::rlimit(80)]
    pub fn compute_season_schedule(&self, teams: &[Team]) -> (r: Result<Vec<Game>, AppError>)
        requires
            teams@.len() < u32::MAX,
            no_bye_team(teams@),
            self.spec_season_config().spec_dates().spec_start_date().spec_day_number() + leg_room(
                padded_count(teams@.len() as int),
                self.spec_season_config().spec_dates().spec_excluded_dates().len() as int,
            ) <= MAX_DAY_NUMBER,
        ensures
            round_robin_validation(teams@.len() as int, self.spec_season_config()) matches Err(e) ==> r
                == Err::<Vec<Game>, AppError>(e),
            round_robin_validation(teams@.len() as int, self.spec_season_config()) is Ok
                && self.spec_season_config().spec_dates().spec_game_days().len() == 0 ==> r == Err::<
                Vec<Game>,
                AppError,
            >(AppError::EmptyGameDays),
            round_robin_validation(teams@.len() as int, self.spec_season_config()) is Ok
                && self.spec_season_config().spec_dates().spec_game_days().len() > 0 ==> exists|
                orders_a: Seq<Seq<usize>>,
                orders_b: Seq<Seq<Seq<usize>>>,
                group: Result<Seq<GameView>, AppError>,
            |
                {
                    &&& draws_shaped(orders_a, orders_b, teams@.len() as int)
                    &&& orders_a.len() == 100
                    &&& forall|i: int| 0 <= i < 100 ==> (#[trigger] orders_b[i]).len() == 100
                    &&& #[trigger] draws_outcome(
                        group,
                        teams@,
                        orders_a,
                        orders_b,
                        self.spec_season_config().spec_dates().spec_start_date().spec_day_number(),
                        self.spec_season_config(),
                        true,
                    )
                    &&& match group {
                        Err(e) => r == Err::<Vec<Game>, AppError>(e),
                        Ok(g) => season_outcome(
                            result_views(r),
                            g,
                            teams@,
                            self.spec_season_config(),
                            self.spec_tournament().spec_playoff().spec_anonymous(),
                        ),
                    }
                },
            r matches Err(e) ==> season_refusal(e, teams@, self.spec_season_config()),
            r matches Ok(schedule) ==> is_season_schedule(
                game_views(schedule@),
                teams@,
                self.spec_season_config(),
                self.spec_tournament().spec_playoff().spec_anonymous(),
            ),
    {
        let season_config = self.season_config();
        let date_configuration = season_config.date_configuration();
        let ghost start = date_configuration.spec_start_date().spec_day_number();
        let group_stage_result = self.tournament().group_stage().compute_schedule(
            teams,
            date_configuration.start_date(),
            season_config,
            true,
        );
        let ghost group_views = result_views(group_stage_result);
        let group_stage_schedule = match group_stage_result {
            Ok(s) => s,
            Err(e) => {
                return Err(e);
            },
        };
        let ghost group = game_views(group_stage_schedule@);
        proof {
            assert(is_group_stage(group, teams@, start, *season_config, true));
            if last_day(group) is None {
                assert(round_robin_validation(teams@.len() as int, *season_config) is Ok);
                let plain = choose|plain: Seq<GameView>|
                    #[trigger] is_round_robin_schedule(plain, teams@, start, *season_config, true)
                        && group == oriented(plain);
                let merged = choose|merged: Seq<GameView>|
                    #[trigger] is_merged_legs(merged, teams@, start, *season_config)
                        && crate::referees::referees_assigned(merged, plain, team_views(teams@));
                crate::double_round_robin::lemma_merged_legs_nonempty(merged, teams@, start, *season_config);
                assert(group.len() > 0);
                assert(false);
            }
        }
        let r = self.season_from_group_stage(teams, group_stage_schedule);
        proof {
            let anonymous = self.spec_tournament().spec_playoff().spec_anonymous();
            assert(group_views == Ok::<Seq<GameView>, AppError>(group));
            assert(season_outcome(result_views(r), group, teams@, *season_config, anonymous));
            assert(round_robin_validation(teams@.len() as int, *season_config) is Ok);
            if playoff_past_calendar(group, teams@.len() as int, *season_config) {
                assert(r == Err::<Vec<Game>, AppError>(AppError::DateOutOfRange));
                assert(season_refusal(AppError::DateOutOfRange, teams@, *season_config));
            } else if season_config.spec_dates().spec_game_days().len() > 0 {
                let (lgd, ps) = choose|last_game_day: int, playoff_start: int|
                    #[trigger] playoff_follows(group, last_game_day, playoff_start, *season_config)
                        && playoff_outcome(result_views(r), group, teams@, playoff_start, *season_config, anonymous);
                if r is Ok {
                    let (playoff, inner) = choose|playoff: Seq<GameView>, inner: Seq<TeamView>|
                        #![trigger bracket_entrants(anonymous, playoff_teams(teams@), inner), is_bracket_schedule(playoff, inner, playoff_teams(teams@).len() as int, ps, *season_config)]
                        bracket_entrants(anonymous, playoff_teams(teams@), inner) && is_bracket_schedule(
                            playoff,
                            inner,
                            playoff_teams(teams@).len() as int,
                            ps,
                            *season_config,
                        ) && result_views(r) == Ok::<Seq<GameView>, AppError>(group + playoff);
                    assert(game_views(r->Ok_0@) == group + playoff);
                    assert(is_season_schedule(game_views(r->Ok_0@), teams@, *season_config, anonymous));
                } else {
                    assert(season_refusal(r->Err_0, teams@, *season_config));
                }
            }
        }
        r
    }

    /// The season once its group stage has been scheduled as
    /// `group_stage_schedule`: the group stage, then, from the first game day
    /// after the one on or after its last day, the playoff of the first eight
    /// teams without referees. Refused when the group stage has no game, when
    /// the playoff would run past the end of the calendar, or when the
    /// playoff is refused.
    #[verifier::spinoff_prover]
    #[verifier::rlimit(80)]
    pub fn season_from_group_stage(&self, teams: &[Team], group_stage_schedule: Vec<Game>) -> (r: Result<
        Vec<Game>,
        AppError,
    >)
        requires
            teams@.len() < u32::MAX,
        ensures
            season_outcome(
                result_views(r),
                game_views(group_stage_schedule@),
                teams@,
                self.spec_season_config(),
                self.spec_tournament().spec_playoff().spec_anonymous(),
            ),
    {
        let season_config = self.season_config();
        let date_configuration = season_config.date_configuration();
        let ghost group = game_views(group_stage_schedule@);
        let ghost anonymous = self.spec_tournament().spec_playoff().spec_anonymous();
        let last = match last_game_day(&group_stage_schedule) {
            Some(d) => d,
            None => {
                return Err(AppError::MissingGame);
            },
        };
        let ghost span = search_span(date_configuration.spec_excluded_dates().len() as int);
        let playoff_count = if teams.len() <= 8 {
            teams.len()
        } else {
            8
        };
        let last_number = last.day_number();
        let excluded_count = date_configuration.excluded_dates().len();
        let per_step: i128 = 1 + 7 * (excluded_count as i128 + 1);
        let steps: i128 = 4 * playoff_count as i128 + 4;
        assert(per_step * steps <= per_step * 36) by (nonlinear_arith)
            requires
                per_step >= 0,
                steps <= 36,
        ;
        assert(per_step * steps >= 0) by (nonlinear_arith)
            requires
                per_step >= 0,
                steps >= 0,
        ;
        let needed: i128 = per_step * steps;
        if (last_number as i128) + 1 + needed > MAX_DAY_NUMBER as i128 {
            proof {
                assert(playoff_past_calendar(group, teams@.len() as int, *season_config));
            }
            return Err(AppError::DateOutOfRange);
        }
        proof {
            assert((1 + span) * (4 * playoff_count + 4) == (1 + span) * (4 * playoff_count + 2) + 2 + 2 * span) by (nonlinear_arith);
            assert((1 + span) * (4 * playoff_count + 2) >= 0) by (nonlinear_arith)
                requires
                    span >= 0,
            ;
        }
        let mut game_day_scheduler = match GameDayScheduler::new(
            &last,
            date_configuration.game_days(),
            date_configuration.excluded_dates(),
        ) {
            Ok(s) => s,
            Err(e) => {
                proof {
                    assert(!playoff_past_calendar(group, teams@.len() as int, *season_config));
                }
                return Err(e);
            },
        };
        let ghost first_day = game_day_scheduler.spec_current_day().spec_day_number();
        let _ = game_day_scheduler.advance();
        let mut qualified: Vec<Team> = Vec::new();
        let mut k: usize = 0;
        while k < playoff_count
            invariant
                k <= playoff_count,
                playoff_count <= teams@.len(),
                playoff_count == playoff_teams(teams@).len(),
                qualified@.len() == k,
                forall|j: int| 0 <= j < k ==> (#[trigger] qualified@[j])@ == teams@[j]@,
            decreases playoff_count - k,
        {
            qualified.push(teams[k].duplicate());
            k = k + 1;
        }
        let ghost playoff_start = game_day_scheduler.spec_current_day().spec_day_number();
        proof {
            assert(team_views(qualified@) =~= team_views(playoff_teams(teams@)));
            assert(span == 7 * (excluded_count + 1));
            assert(per_step == 1 + span);
            assert(needed == (1 + span) * (4 * playoff_count + 4));
            assert(first_day <= last_number + span);
            assert(playoff_start <= first_day + 1 + span);
            assert(playoff_start + (4 * playoff_count + 2) * (1 + span) <= MAX_DAY_NUMBER) by (nonlinear_arith)
                requires
                    playoff_start <= last_number + 2 + 2 * span,
                    last_number + 1 + (1 + span) * (4 * playoff_count + 4) <= MAX_DAY_NUMBER,
                    span >= 0,
            ;
        }
        let playoff_schedule = match self.tournament().playoff().compute_schedule(
            &qualified,
            game_day_scheduler.current_day(),
            season_config,
            false,
        ) {
            Ok(s) => s,
            Err(e) => {
                proof {
                    assert(!playoff_past_calendar(group, teams@.len() as int, *season_config));
                    assert(playoff_follows(group, first_day, playoff_start, *season_config));
                    assert(playoff_outcome(Err(e), group, teams@, playoff_start, *season_config, anonymous));
                    assert(season_outcome(Err(e), group, teams@, *season_config, anonymous));
                }
                return Err(e);
            },
        };
        let ghost playoff = game_views(playoff_schedule@);
        let ghost inner = choose|inner: Seq<TeamView>|
                #[trigger] bracket_entrants(anonymous, qualified@, inner) && is_bracket_schedule(
                    playoff,
                    inner,
                    qualified@.len() as int,
                    playoff_start,
                    *season_config,
                );
        proof {
            assert(bracket_entrants(anonymous, playoff_teams(teams@), inner));
        }
        let mut full_schedule = group_stage_schedule;
        let mut k: usize = 0;
        while k < playoff_schedule.len()
            invariant
                k <= playoff_schedule@.len(),
                playoff == game_views(playoff_schedule@),
                game_views(full_schedule@) == group + playoff.take(k as int),
            decreases playoff_schedule@.len() - k,
        {
            let ghost before = full_schedule@;
            full_schedule.push(playoff_schedule[k].duplicate());
            proof {
                assert(full_schedule@ =~= before.push(full_schedule@.last()));
                assert(playoff.take(k + 1) =~= playoff.take(k as int).push(playoff[k as int]));
                assert(game_views(full_schedule@) =~= game_views(before).push(playoff[k as int]));
            }
            k = k + 1;
        }
        proof {
            assert(playoff.take(playoff.len() as int) =~= playoff);
            assert(!playoff_past_calendar(group, teams@.len() as int, *season_config));
            assert(bracket_entrants(anonymous, playoff_teams(teams@), inner));
            assert(is_bracket_schedule(playoff, inner, playoff_teams(teams@).len() as int, playoff_start, *season_config));
            assert(playoff_follows(group, first_day, playoff_start, *season_config));
            assert(result_views(Ok(full_schedule)) == Ok::<Seq<GameView>, AppError>(group + playoff));
            assert(playoff_outcome(result_views(Ok(full_schedule)), group, teams@, playoff_start, *season_config, anonymous));
        }
        Ok(full_schedule)
    }
}

} // verus!
