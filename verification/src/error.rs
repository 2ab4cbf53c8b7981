use vstd::prelude::*;

use crate::calendar::Date;
use crate::game_time::GameTime;

verus! {

/// The ways in which building a season can be refused.
#[derive(Debug)]
pub enum AppError {
    MissingGame,
    InvalidTeamName(String),
    NotEnoughTeams(usize, usize),
    DateOutOfRange,
    InvalidTime(u8, u8),
    EmptyEligibleReferees,
    EmptyGameDays,
    StartTimeAfterStartBreak(GameTime, GameTime),
    StartBreakAfterEndBreak(GameTime, GameTime),
    InvalidGameDay(Date, GameTime),
    InvalidNumberOfFields(u32),
    ZeroGameDuration,
    InfeasibleDailyDoubleRoundRobin(usize),
    InsufficientDailyCapacity(u32, u32),
    GameTimeSubtractionUnderflow(GameTime, GameTime),
    ScheduleRunsPastMidnight(GameTime),
    NoStartDate(Date),
    ConflictingTeamSeeds(String, u32, u32),
}

} // verus!
