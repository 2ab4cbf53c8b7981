use vstd::prelude::*;

use chrono::{Datelike, NaiveDate, TimeZone};
use chrono_tz::Europe::Zurich;

use crate::calendar::{Date, MAX_DAY_NUMBER, MIN_DAY_NUMBER};
use crate::error::AppError;
use crate::game_time::GameTime;
use crate::team::{Team, TeamView};

verus! {

/// Whether the local time `hour:minute` of the day with number `day_number`
/// happens exactly once in the Europe/Zurich time zone: not skipped by the
/// spring daylight-saving change, not repeated by the autumn one.
pub uninterp spec fn zurich_local_time_is_unique(day_number: i32, hour: u8, minute: u8) -> bool;

/// `chrono_tz::Europe::Zurich.with_ymd_and_hms(..).single()`, on the date
/// with the given day number, at `hour:minute:00`. The claim: whether the
/// mapping gives a single instant is a function of the day number, the hour
/// and the minute alone. The date conversion succeeds for every day number
/// between the bounds, which the `requires` asks for.
#[verifier::external_body]
fn zurich_local_time_exists_once(day_number: i32, hour: u8, minute: u8) -> (r: bool)
    requires
        MIN_DAY_NUMBER <= day_number <= MAX_DAY_NUMBER,
    ensures
        r == zurich_local_time_is_unique(day_number, hour, minute),
{
    let date = NaiveDate::from_num_days_from_ce_opt(day_number).unwrap();
    Zurich.with_ymd_and_hms(date.year(), date.month(), date.day(), hour.into(), minute.into(), 0)
        .single()
        .is_some()
}

/// What a game is made of: the two teams, the day number, the time of day in
/// minutes, and the referee if one is assigned.
pub struct GameView {
    pub home: TeamView,
    pub away: TeamView,
    pub day: int,
    pub time: int,
    pub referee: Option<TeamView>,
}

/// A game of the season: who plays whom, on which day and at what time, and
/// who referees it.
#[derive(Clone, Debug)]
pub struct Game {
    home_team: Team,
    away_team: Team,
    game_date: Date,
    game_time: GameTime,
    referee: Option<Team>,
}

/// The view of an optional team.
pub open spec fn optional_team_view(team: Option<Team>) -> Option<TeamView> {
    match team {
        Some(t) => Some(t@),
        None => None,
    }
}

impl View for Game {
    type V = GameView;

    open spec fn view(&self) -> GameView {
        GameView {
            home: self.spec_home_team()@,
            away: self.spec_away_team()@,
            day: self.spec_date().spec_day_number(),
            time: self.spec_time().minutes(),
            referee: optional_team_view(self.spec_referee()),
        }
    }
}

impl Game {
    pub closed spec fn spec_home_team(&self) -> Team {
        self.home_team
    }

    pub closed spec fn spec_away_team(&self) -> Team {
        self.away_team
    }

    pub closed spec fn spec_date(&self) -> Date {
        self.game_date
    }

    pub closed spec fn spec_time(&self) -> GameTime {
        self.game_time
    }

    pub closed spec fn spec_referee(&self) -> Option<Team> {
        self.referee
    }

    /// A game between `home_team` and `away_team` on `naive_game_day` at
    /// `game_time`, Swiss local time. A local time that the daylight-saving
    /// change skips or repeats does not name a single moment and is refused.
    pub fn new_with_game_day(
        home_team: Team,
        away_team: Team,
        naive_game_day: Date,
        game_time: GameTime,
        referee: Option<Team>,
    ) -> (r: Result<Game, AppError>)
        ensures
            r is Ok <==> zurich_local_time_is_unique(
                naive_game_day.spec_day_number() as i32,
                game_time.spec_hour(),
                game_time.spec_minute(),
            ),
            r matches Ok(g) ==> {
                &&& g.spec_home_team() == home_team
                &&& g.spec_away_team() == away_team
                &&& g.spec_date() == naive_game_day
                &&& g.spec_time() == game_time
                &&& g.spec_referee() == referee
            },
            r matches Err(e) ==> e == AppError::InvalidGameDay(naive_game_day, game_time),
    {
        let day_number = naive_game_day.day_number();
        if !zurich_local_time_exists_once(day_number, game_time.hour(), game_time.minute()) {
            return Err(AppError::InvalidGameDay(naive_game_day, game_time));
        }
        Ok(Game { home_team, away_team, game_date: naive_game_day, game_time, referee })
    }

    pub fn get_home_team(&self) -> (r: &Team)
        ensures
            *r == self.spec_home_team(),
    {
        &self.home_team
    }

    pub fn get_away_team(&self) -> (r: &Team)
        ensures
            *r == self.spec_away_team(),
    {
        &self.away_team
    }

    /// The day the game is played on.
    pub fn get_game_day(&self) -> (r: &Date)
        ensures
            *r == self.spec_date(),
    {
        &self.game_date
    }

    pub fn get_game_time(&self) -> (r: Result<GameTime, AppError>)
        ensures
            r == Ok::<GameTime, AppError>(self.spec_time()),
    {
        Ok(self.game_time)
    }

    pub fn get_referee(&self) -> (r: &Option<Team>)
        ensures
            *r == self.spec_referee(),
    {
        &self.referee
    }

    /// Whether one of the two sides is the bye.
    pub fn is_bye_game(&self) -> (r: bool)
        ensures
            r == (self@.home.0 == crate::team::BYE_NAME@ || self@.away.0
                == crate::team::BYE_NAME@),
    {
        self.home_team.is_bye() || self.away_team.is_bye()
    }

    /// This game with its two sides the other way round.
    pub(crate) fn swapped(&self) -> (r: Game)
        ensures
            r@ == (GameView {
                home: self@.away,
                away: self@.home,
                day: self@.day,
                time: self@.time,
                referee: self@.referee,
            }),
    {
        Game {
            home_team: self.away_team.duplicate(),
            away_team: self.home_team.duplicate(),
            game_date: self.game_date,
            game_time: self.game_time,
            referee: match &self.referee {
                Some(t) => Some(t.duplicate()),
                None => None,
            },
        }
    }

    /// This game, with `referee` as its referee.
    pub(crate) fn with_referee(&self, referee: Option<Team>) -> (r: Game)
        ensures
            r@ == (GameView {
                home: self@.home,
                away: self@.away,
                day: self@.day,
                time: self@.time,
                referee: optional_team_view(referee),
            }),
            r.spec_date() == self.spec_date(),
            r.spec_time() == self.spec_time(),
    {
        Game {
            home_team: self.home_team.duplicate(),
            away_team: self.away_team.duplicate(),
            game_date: self.game_date,
            game_time: self.game_time,
            referee,
        }
    }

    /// A copy of this game.
    pub fn duplicate(&self) -> (r: Game)
        ensures
            r@ == self@,
            r.spec_date() == self.spec_date(),
            r.spec_time() == self.spec_time(),
    {
        let referee = match &self.referee {
            Some(t) => Some(t.duplicate()),
            None => None,
        };
        Game {
            home_team: self.home_team.duplicate(),
            away_team: self.away_team.duplicate(),
            game_date: self.game_date,
            game_time: self.game_time,
            referee,
        }
    }
}

} // verus!
