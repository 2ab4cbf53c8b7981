use vstd::prelude::*;

use crate::calendar::{Date, Weekday};
use crate::game_time::GameTime;

verus! {

/// When play starts, when the break runs, how long a game lasts and how much
/// time is left between two games.
#[derive(Clone, Debug)]
pub struct TimeConfiguration {
    start_time: GameTime,
    start_break: GameTime,
    end_break: GameTime,
    game_duration: GameTime,
    time_between_games: GameTime,
}

impl TimeConfiguration {
    pub fn new(
        start_time: GameTime,
        start_break: GameTime,
        end_break: GameTime,
        game_duration: GameTime,
        time_between_games: GameTime,
    ) -> (r: TimeConfiguration)
        ensures
            r.spec_start_time() == start_time,
            r.spec_start_break() == start_break,
            r.spec_end_break() == end_break,
            r.spec_game_duration() == game_duration,
            r.spec_time_between_games() == time_between_games,
    {
        TimeConfiguration { start_time, start_break, end_break, game_duration, time_between_games }
    }

    pub closed spec fn spec_start_time(&self) -> GameTime {
        self.start_time
    }

    pub closed spec fn spec_start_break(&self) -> GameTime {
        self.start_break
    }

    pub closed spec fn spec_end_break(&self) -> GameTime {
        self.end_break
    }

    pub closed spec fn spec_game_duration(&self) -> GameTime {
        self.game_duration
    }

    pub closed spec fn spec_time_between_games(&self) -> GameTime {
        self.time_between_games
    }

    /// How far apart two consecutive games on one field start: the game's
    /// own duration plus the gap after it, in minutes.
    pub open spec fn spec_interval(&self) -> int {
        (self.spec_game_duration().minutes() + self.spec_time_between_games().minutes()) % 1440
    }

    pub fn start_time(&self) -> (r: &GameTime)
        ensures
            *r == self.spec_start_time(),
    {
        &self.start_time
    }

    /// How far apart two consecutive games on the same field start: the
    /// game's own duration plus the gap left after it.
    pub fn interval_between_games(&self) -> (r: GameTime)
        ensures
            r.minutes() == self.spec_interval(),
            r == GameTime::of_minutes(self.spec_interval()),
    {
        self.game_duration.plus(&self.time_between_games)
    }

    pub fn game_duration(&self) -> (r: &GameTime)
        ensures
            *r == self.spec_game_duration(),
    {
        &self.game_duration
    }

    pub fn time_between_games(&self) -> (r: &GameTime)
        ensures
            *r == self.spec_time_between_games(),
    {
        &self.time_between_games
    }

    pub fn start_break(&self) -> (r: &GameTime)
        ensures
            *r == self.spec_start_break(),
    {
        &self.start_break
    }

    pub fn end_break(&self) -> (r: &GameTime)
        ensures
            *r == self.spec_end_break(),
    {
        &self.end_break
    }
}

/// The first day of the season, the weekdays games are played on, the
/// dates left out, and whether each week gets a single game day.
#[derive(Clone, Debug)]
pub struct DateConfiguration {
    start_date: Date,
    game_days: Vec<Weekday>,
    excluded_dates: Vec<Date>,
    single_game_per_week: bool,
}

impl DateConfiguration {
    pub fn new(
        start_date: Date,
        game_days: Vec<Weekday>,
        excluded_dates: Vec<Date>,
        single_game_per_week: bool,
    ) -> (r: DateConfiguration)
        ensures
            r.spec_start_date() == start_date,
            r.spec_game_days() == game_days@,
            r.spec_excluded_dates() == excluded_dates@,
            r.spec_single_game_per_week() == single_game_per_week,
    {
        DateConfiguration { start_date, game_days, excluded_dates, single_game_per_week }
    }

    pub closed spec fn spec_start_date(&self) -> Date {
        self.start_date
    }

    pub closed spec fn spec_game_days(&self) -> Seq<Weekday> {
        self.game_days@
    }

    pub closed spec fn spec_excluded_dates(&self) -> Seq<Date> {
        self.excluded_dates@
    }

    pub closed spec fn spec_single_game_per_week(&self) -> bool {
        self.single_game_per_week
    }

    pub fn start_date(&self) -> (r: &Date)
        ensures
            *r == self.spec_start_date(),
    {
        &self.start_date
    }

    pub fn game_days(&self) -> (r: &[Weekday])
        ensures
            r@ == self.spec_game_days(),
    {
        self.game_days.as_slice()
    }

    pub fn excluded_dates(&self) -> (r: &[Date])
        ensures
            r@ == self.spec_excluded_dates(),
    {
        self.excluded_dates.as_slice()
    }

    pub fn single_game_per_week(&self) -> (r: bool)
        ensures
            r == self.spec_single_game_per_week(),
    {
        self.single_game_per_week
    }
}

} // verus!
