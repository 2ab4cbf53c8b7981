use vstd::prelude::*;

use crate::game_time::GameTime;

verus! {

/// The time of day by which, when play starts after the break, every game
/// must be over: 17:00, in minutes.
pub open spec fn default_hard_stop_minutes() -> int {
    1020
}

/// Where the scheduler stops a day, in minutes from the day's midnight. When
/// play starts before the break, the room before the break is mirrored after
/// it: the hard stop is `end_break` plus the stretch from `start_time` to
/// `start_break`, counted on without wrapping past midnight. When play
/// starts at or after the break there is nothing to mirror and the hard stop
/// is 17:00.
pub open spec fn hard_stop_minutes(start_time: int, start_break: int, end_break: int) -> int {
    if start_time <= start_break {
        end_break + (start_break - start_time)
    } else {
        default_hard_stop_minutes()
    }
}

/// Law of the hard stop: when play starts at or before the break, the
/// stretch of play after the break is as long as the one before it, so the
/// hard stop lies as far after the end of the break as the start of the
/// break lies after the start time; when play starts after the break, the
/// day stops at 17:00.
pub proof fn law_hard_stop_mirrors_the_morning(start_time: int, start_break: int, end_break: int)
    ensures
        start_time <= start_break ==> hard_stop_minutes(start_time, start_break, end_break) - end_break
            == start_break - start_time,
        start_time > start_break ==> hard_stop_minutes(start_time, start_break, end_break) == 17 * 60,
{
}

/// The time slot after `time` on one field: one interval later, unless the
/// game played then would still run when the break starts while it starts
/// before the break ends, in which case play resumes at the end of the
/// break. All times are minutes of the day; sums wrap at midnight.
pub open spec fn next_slot_minutes(
    time: int,
    interval: int,
    duration: int,
    start_break: int,
    end_break: int,
) -> int {
    let next = (time + interval) % 1440;
    if next < end_break && (next + duration) % 1440 > start_break {
        end_break
    } else {
        next
    }
}

/// The time of the `slot`-th slot of a day on one field, counting from the
/// start time: each slot follows the one before as `next_slot_minutes` says.
pub open spec fn slot_minutes(
    start: int,
    interval: int,
    duration: int,
    start_break: int,
    end_break: int,
    slot: nat,
) -> int
    decreases slot,
{
    if slot == 0 {
        start
    } else {
        next_slot_minutes(
            slot_minutes(start, interval, duration, start_break, end_break, (slot - 1) as nat),
            interval,
            duration,
            start_break,
            end_break,
        )
    }
}

/// Hands out game times within a day: each time slot takes as many games as
/// there are fields, then the clock moves on to the next slot.
pub struct GameTimeScheduler {
    start_time: GameTime,
    interval_between_games: GameTime,
    game_duration: GameTime,
    number_of_fields: u32,
    current_time: GameTime,
    current_games_per_time: u32,
    start_break: GameTime,
    end_break: GameTime,
    hard_stop: u32,
}

impl GameTimeScheduler {
    pub closed spec fn spec_start_time(&self) -> GameTime {
        self.start_time
    }

    pub closed spec fn spec_interval(&self) -> GameTime {
        self.interval_between_games
    }

    pub closed spec fn spec_game_duration(&self) -> GameTime {
        self.game_duration
    }

    pub closed spec fn spec_number_of_fields(&self) -> u32 {
        self.number_of_fields
    }

    pub closed spec fn spec_current_time(&self) -> GameTime {
        self.current_time
    }

    pub closed spec fn spec_games_per_time(&self) -> u32 {
        self.current_games_per_time
    }

    pub closed spec fn spec_start_break(&self) -> GameTime {
        self.start_break
    }

    pub closed spec fn spec_end_break(&self) -> GameTime {
        self.end_break
    }

    pub closed spec fn spec_hard_stop(&self) -> u32 {
        self.hard_stop
    }

    /// The slot after `time`, with this scheduler's interval, duration and
    /// break.
    pub open spec fn slot_after(&self, time: int) -> int {
        next_slot_minutes(
            time,
            self.spec_interval().minutes(),
            self.spec_game_duration().minutes(),
            self.spec_start_break().minutes(),
            self.spec_end_break().minutes(),
        )
    }

    /// Whether a game starting at `time` would end after the hard stop.
    pub open spec fn past_hard_stop_at(&self, time: int) -> bool {
        time + self.spec_game_duration().minutes() > self.spec_hard_stop()
    }

    /// The scheduler's parameters are those of `other`.
    pub open spec fn same_parameters(&self, other: &GameTimeScheduler) -> bool {
        &&& self.spec_start_time() == other.spec_start_time()
        &&& self.spec_interval() == other.spec_interval()
        &&& self.spec_game_duration() == other.spec_game_duration()
        &&& self.spec_number_of_fields() == other.spec_number_of_fields()
        &&& self.spec_start_break() == other.spec_start_break()
        &&& self.spec_end_break() == other.spec_end_break()
        &&& self.spec_hard_stop() == other.spec_hard_stop()
    }

    /// The count of games in the current slot is at least 1, and at most the
    /// number of fields when there is a field.
    pub open spec fn wf(&self) -> bool {
        &&& self.spec_games_per_time() >= 1
        &&& self.spec_number_of_fields() >= 1 ==> self.spec_games_per_time()
            <= self.spec_number_of_fields()
    }

    pub fn new(
        start_time: &GameTime,
        interval_between_games: &GameTime,
        game_duration: &GameTime,
        number_of_fields: u32,
        start_break: &GameTime,
        end_break: &GameTime,
    ) -> (r: GameTimeScheduler)
        ensures
            r.wf(),
            r.spec_start_time() == *start_time,
            r.spec_interval() == *interval_between_games,
            r.spec_game_duration() == *game_duration,
            r.spec_number_of_fields() == number_of_fields,
            r.spec_start_break() == *start_break,
            r.spec_end_break() == *end_break,
            r.spec_hard_stop() == hard_stop_minutes(
                start_time.minutes(),
                start_break.minutes(),
                end_break.minutes(),
            ),
            start_time.minutes() <= start_break.minutes() ==> r.spec_hard_stop() - end_break.minutes()
                == start_break.minutes() - start_time.minutes(),
            start_time.minutes() > start_break.minutes() ==> r.spec_hard_stop() == 17 * 60,
            r.spec_current_time() == *start_time,
            r.spec_games_per_time() == 1,
    {
        let hard_stop = match start_break.minus(start_time) {
            Ok(duration) => end_break.to_minutes() + duration.to_minutes(),
            Err(_) => Self::default_hard_stop(),
        };
        GameTimeScheduler {
            start_time: *start_time,
            interval_between_games: *interval_between_games,
            game_duration: *game_duration,
            number_of_fields,
            current_time: *start_time,
            current_games_per_time: 1,
            start_break: *start_break,
            end_break: *end_break,
            hard_stop,
        }
    }

    pub fn current_time(&self) -> (r: &GameTime)
        ensures
            *r == self.spec_current_time(),
            r.spec_hour() < 24,
            r.spec_minute() < 60,
    {
        proof {
            use_type_invariant(&self.current_time);
            self.current_time.lemma_valid();
        }
        &self.current_time
    }

    pub fn current_games_per_time(&self) -> (r: u32)
        ensures
            r == self.spec_games_per_time(),
    {
        self.current_games_per_time
    }

    /// No new game should end past this time of day.
    fn default_hard_stop() -> (r: u32)
        ensures
            r == default_hard_stop_minutes(),
    {
        17 * 60
    }

    /// A game has to finish by the hard stop, not merely kick off before it.
    pub fn is_past_hard_stop(&self) -> (r: bool)
        ensures
            r == self.past_hard_stop_at(self.spec_current_time().minutes()),
    {
        let end = self.current_time.to_minutes() + self.game_duration.to_minutes();
        self.hard_stop < end
    }

    /// Takes the next game: it shares the current slot while fields are
    /// left, else the clock moves on to the next slot.
    pub fn try_advance(&mut self)
        requires
            old(self).wf(),
            old(self).spec_games_per_time() == old(self).spec_number_of_fields() || old(
                self,
            ).spec_games_per_time() < u32::MAX,
        ensures
            final(self).wf(),
            final(self).same_parameters(&*old(self)),
            old(self).spec_games_per_time() == old(self).spec_number_of_fields() ==> {
                &&& final(self).spec_current_time().minutes() == old(self).slot_after(
                    old(self).spec_current_time().minutes(),
                )
                &&& final(self).spec_current_time() == GameTime::of_minutes(
                    old(self).slot_after(old(self).spec_current_time().minutes()),
                )
                &&& final(self).spec_games_per_time() == 1
            },
            old(self).spec_games_per_time() != old(self).spec_number_of_fields() ==> {
                &&& final(self).spec_current_time() == old(self).spec_current_time()
                &&& final(self).spec_games_per_time() == old(self).spec_games_per_time() + 1
            },
    {
        if self.current_games_per_time == self.number_of_fields {
            let next_time = self.current_time.plus(&self.interval_between_games);
            let starts_before_break_ends = next_time.is_before(&self.end_break);
            let runs_past_break_start = self.start_break.is_before(
                &next_time.plus(&self.game_duration),
            );
            if starts_before_break_ends && runs_past_break_start {
                let _ = self.end_break.hour();
                let _ = self.end_break.minute();
                proof {
                    self.end_break.lemma_of_minutes_exact();
                }
                self.current_time = self.end_break;
            } else {
                self.current_time = next_time;
            }
            self.current_games_per_time = 1;
        } else {
            self.current_games_per_time = self.current_games_per_time + 1;
        }
    }

    /// Back to the start of the day.
    pub fn reset(&mut self)
        requires
            old(self).wf(),
        ensures
            final(self).wf(),
            final(self).same_parameters(&*old(self)),
            final(self).spec_current_time() == old(self).spec_start_time(),
            final(self).spec_games_per_time() == 1,
    {
        self.current_time = self.start_time;
        self.current_games_per_time = 1;
    }
}

} // verus!
