use vstd::prelude::*;

use crate::calendar::{weekday_of_day_number, Date, Weekday, MAX_DAY_NUMBER};
use crate::error::AppError;
use crate::game_time_scheduler::GameTimeScheduler;

verus! {

/// The day numbers of a list of dates.
pub open spec fn day_numbers(dates: Seq<Date>) -> Seq<int> {
    dates.map_values(|d: Date| d.spec_day_number())
}

/// Whether games can be played on the day with number `day`: it falls on
/// one of the game weekdays and is not an excluded date.
pub open spec fn is_playable(day: int, game_days: Seq<Weekday>, excluded: Seq<Date>) -> bool {
    game_days.contains(weekday_of_day_number(day)) && !day_numbers(excluded).contains(day)
}

/// `day` is the first playable day on or after `from`.
pub open spec fn is_first_playable_from(
    day: int,
    from: int,
    game_days: Seq<Weekday>,
    excluded: Seq<Date>,
) -> bool {
    &&& from <= day
    &&& is_playable(day, game_days, excluded)
    &&& forall|d: int| from <= d < day ==> !#[trigger] is_playable(d, game_days, excluded)
}

/// How far past a day the search for the next playable day may look: a
/// week per excluded date, and one more.
pub open spec fn search_span(excluded_len: int) -> int {
    7 * (excluded_len + 1)
}

/// `day` is the weekday `offset` days after `from`.
pub open spec fn lands_on(day: Weekday, from: Weekday, offset: int) -> bool {
    day.index() == (from.index() + offset) % 7
}

proof fn lemma_weekday_shift(day: int, offset: int)
    ensures
        weekday_of_day_number(day + offset).index() == (weekday_of_day_number(day).index()
            + offset) % 7,
{
    assert(weekday_of_day_number(day).index() == (day - 1) % 7);
    assert(weekday_of_day_number(day + offset).index() == (day + offset - 1) % 7);
    assert(((day - 1) % 7 + offset) % 7 == (day + offset - 1) % 7) by (nonlinear_arith);
}

proof fn lemma_weekday_index_injective(a: Weekday, b: Weekday)
    ensures
        a.index() == b.index() <==> a == b,
{
}

/// The gap to the next day, strictly later, that falls on one of the game
/// weekdays.
fn offset_to_next_game_weekday(game_days: &[Weekday], current: Weekday) -> (r: u32)
    requires
        game_days@.len() > 0,
    ensures
        1 <= r <= 7,
        exists|k: int|
            0 <= k < game_days@.len() && (#[trigger] game_days@[k]).index() == (current.index()
                + r) % 7,
        forall|k: int, o: int|
            0 <= k < game_days@.len() && 1 <= o < r ==> !#[trigger] lands_on(
                game_days@[k],
                current,
                o,
            ),
{
    let mut best: u32 = 8;
    let mut i: usize = 0;
    while i < game_days.len()
        invariant
            i <= game_days@.len(),
            game_days@.len() > 0,
            1 <= best <= 8,
            i == 0 <==> best == 8,
            best <= 7 ==> exists|k: int|
                0 <= k < i && (#[trigger] game_days@[k]).index() == (current.index() + best) % 7,
            forall|k: int, o: int|
                0 <= k < i && 1 <= o < best ==> !#[trigger] lands_on(game_days@[k], current, o),
        decreases game_days@.len() - i,
    {
        let since = game_days[i].days_since(current);
        let offset = if since == 0 {
            7
        } else {
            since
        };
        assert(game_days@[i as int].index() == (current.index() + offset) % 7);
        assert forall|o: int| 1 <= o < offset implies !#[trigger] lands_on(
            game_days@[i as int],
            current,
            o,
        ) by {}
        if offset < best {
            best = offset;
        }
        i = i + 1;
    }
    best
}

fn contains_weekday(game_days: &[Weekday], weekday: Weekday) -> (r: bool)
    ensures
        r == game_days@.contains(weekday),
{
    let mut i: usize = 0;
    while i < game_days.len()
        invariant
            i <= game_days@.len(),
            forall|k: int| 0 <= k < i ==> game_days@[k] != weekday,
        decreases game_days@.len() - i,
    {
        if game_days[i] == weekday {
            return true;
        }
        i = i + 1;
    }
    false
}

/// Whether `date` is one of `dates`.
pub fn contains_date(dates: &[Date], date: &Date) -> (r: bool)
    ensures
        r == day_numbers(dates@).contains(date.spec_day_number()),
{
    let n = date.day_number();
    let mut i: usize = 0;
    while i < dates.len()
        invariant
            i <= dates@.len(),
            n == date.spec_day_number(),
            forall|k: int| 0 <= k < i ==> day_numbers(dates@)[k] != n,
        decreases dates@.len() - i,
    {
        if dates[i].day_number() == n {
            assert(day_numbers(dates@)[i as int] == n);
            return true;
        }
        i = i + 1;
    }
    false
}

/// Walks the calendar from one game day to the next.
pub struct GameDayScheduler<'a> {
    game_days: &'a [Weekday],
    current_day: Date,
    excluded_dates: &'a [Date],
}

impl<'a> GameDayScheduler<'a> {
    pub closed spec fn spec_game_days(&self) -> Seq<Weekday> {
        self.game_days@
    }

    pub closed spec fn spec_excluded_dates(&self) -> Seq<Date> {
        self.excluded_dates@
    }

    pub closed spec fn spec_current_day(&self) -> Date {
        self.current_day
    }

    /// Finds the first day on or after `start_day` that falls on one of the
    /// game weekdays and is not excluded.
    pub fn new(start_day: &Date, game_days: &'a [Weekday], excluded_dates: &'a [Date]) -> (r:
        Result<Self, AppError>)
        requires
            start_day.spec_day_number() + search_span(excluded_dates@.len() as int)
                <= MAX_DAY_NUMBER,
        ensures
            r is Err <==> game_days@.len() == 0,
            r matches Err(e) ==> e == AppError::EmptyGameDays,
            r matches Ok(s) ==> {
                &&& s.spec_game_days() == game_days@
                &&& s.spec_excluded_dates() == excluded_dates@
                &&& is_first_playable_from(
                    s.spec_current_day().spec_day_number(),
                    start_day.spec_day_number(),
                    game_days@,
                    excluded_dates@,
                )
                &&& s.spec_current_day().spec_day_number() <= start_day.spec_day_number()
                    + search_span(excluded_dates@.len() as int)
            },
    {
        if game_days.len() == 0 {
            return Err(AppError::EmptyGameDays);
        }
        let current_day = Self::next_date(start_day, game_days, excluded_dates)?;
        Ok(GameDayScheduler { game_days, current_day, excluded_dates })
    }

    pub fn current_day(&self) -> (r: &Date)
        ensures
            *r == self.spec_current_day(),
    {
        &self.current_day
    }

    /// Moves on to the first playable day after the current one.
    pub fn advance(&mut self) -> (r: Result<(), AppError>)
        requires
            old(self).spec_game_days().len() > 0,
            old(self).spec_current_day().spec_day_number() + 1 + search_span(
                old(self).spec_excluded_dates().len() as int,
            ) <= MAX_DAY_NUMBER,
        ensures
            r is Ok,
            final(self).spec_game_days() == old(self).spec_game_days(),
            final(self).spec_excluded_dates() == old(self).spec_excluded_dates(),
            is_first_playable_from(
                final(self).spec_current_day().spec_day_number(),
                old(self).spec_current_day().spec_day_number() + 1,
                old(self).spec_game_days(),
                old(self).spec_excluded_dates(),
            ),
            final(self).spec_current_day().spec_day_number() <= old(
                self,
            ).spec_current_day().spec_day_number() + 1 + search_span(
                old(self).spec_excluded_dates().len() as int,
            ),
    {
        let next_day = self.current_day.add_days(1);
        self.current_day = Self::next_date(&next_day, self.game_days, self.excluded_dates)?;
        Ok(())
    }

    /// Moves on to the next day, and back to the start of the day's clock,
    /// when the time scheduler has run out of room for today.
    pub fn advance_if_past_hard_stop(&mut self, game_time_scheduler: &mut GameTimeScheduler) -> (r:
        Result<(), AppError>)
        requires
            old(game_time_scheduler).wf(),
            old(self).spec_game_days().len() > 0,
            old(self).spec_current_day().spec_day_number() + 1 + search_span(
                old(self).spec_excluded_dates().len() as int,
            ) <= MAX_DAY_NUMBER,
        ensures
            r is Ok,
            final(self).spec_game_days() == old(self).spec_game_days(),
            final(self).spec_excluded_dates() == old(self).spec_excluded_dates(),
            final(game_time_scheduler).wf(),
            final(game_time_scheduler).same_parameters(&*old(game_time_scheduler)),
            final(self).spec_current_day().spec_day_number() <= old(
                self,
            ).spec_current_day().spec_day_number() + 1 + search_span(
                old(self).spec_excluded_dates().len() as int,
            ),
            old(game_time_scheduler).past_hard_stop_at(
                old(game_time_scheduler).spec_current_time().minutes(),
            ) ==> {
                &&& is_first_playable_from(
                    final(self).spec_current_day().spec_day_number(),
                    old(self).spec_current_day().spec_day_number() + 1,
                    old(self).spec_game_days(),
                    old(self).spec_excluded_dates(),
                )
                &&& final(game_time_scheduler).spec_current_time() == old(
                    game_time_scheduler,
                ).spec_start_time()
                &&& final(game_time_scheduler).spec_games_per_time() == 1
            },
            !old(game_time_scheduler).past_hard_stop_at(
                old(game_time_scheduler).spec_current_time().minutes(),
            ) ==> {
                &&& final(self).spec_current_day() == old(self).spec_current_day()
                &&& *final(game_time_scheduler) == *old(game_time_scheduler)
            },
    {
        if game_time_scheduler.is_past_hard_stop() {
            self.advance()?;
            game_time_scheduler.reset();
        }
        Ok(())
    }

    /// The first playable day on or after `current_day`. Every step jumps to
    /// the next game weekday, and only excluded dates can make a game weekday
    /// unplayable, so there is one among the first `excluded_dates.len() + 1`
    /// game weekdays after `current_day`.
    fn next_date(current_day: &Date, game_days: &'a [Weekday], excluded_dates: &'a [Date]) -> (r:
        Result<Date, AppError>)
        requires
            game_days@.len() > 0,
            current_day.spec_day_number() + search_span(excluded_dates@.len() as int)
                <= MAX_DAY_NUMBER,
        ensures
            r matches Ok(d) && is_first_playable_from(
                d.spec_day_number(),
                current_day.spec_day_number(),
                game_days@,
                excluded_dates@,
            ) && d.spec_day_number() <= current_day.spec_day_number() + search_span(
                excluded_dates@.len() as int,
            ),
    {
        let ghost start = current_day.spec_day_number();
        let _ = current_day.day_number();
        let ghost excluded_set = day_numbers(excluded_dates@).to_set();
        let mut current_day_internal = *current_day;
        let ghost mut skipped: Set<int> = Set::empty();
        let tries: u64 = excluded_dates.len() as u64 + 2;
        let mut attempt: u64 = 0;
        proof {
            day_numbers(excluded_dates@).lemma_cardinality_of_set();
        }
        while attempt < tries
            invariant
                tries == excluded_dates@.len() + 2,
                game_days@.len() > 0,
                attempt <= tries,
                start == current_day.spec_day_number(),
                start + search_span(excluded_dates@.len() as int) <= MAX_DAY_NUMBER,
                excluded_set == day_numbers(excluded_dates@).to_set(),
                excluded_set.len() <= excluded_dates@.len(),
                start <= current_day_internal.spec_day_number() <= start + 7 * attempt,
                forall|d: int|
                    start <= d < current_day_internal.spec_day_number() ==> !#[trigger] is_playable(
                        d,
                        game_days@,
                        excluded_dates@,
                    ),
                skipped.finite(),
                skipped.subset_of(excluded_set),
                skipped.len() == (if attempt >= 1 {
                    attempt - 1
                } else {
                    0
                }),
                attempt >= 1 ==> game_days@.contains(
                    weekday_of_day_number(current_day_internal.spec_day_number()),
                ),
                forall|d: int| #[trigger]
                    skipped.contains(d) ==> d < current_day_internal.spec_day_number(),
            decreases tries - attempt,
        {
            let weekday = current_day_internal.weekday();
            if contains_weekday(game_days, weekday) && !contains_date(
                excluded_dates,
                &current_day_internal,
            ) {
                proof {
                    if attempt >= 1 {
                        vstd::set_lib::lemma_len_subset(skipped, excluded_set);
                    }
                    assert(attempt <= excluded_dates@.len() + 1);
                }
                return Ok(current_day_internal);
            }
            let ghost here = current_day_internal.spec_day_number();
            proof {
                if attempt >= 1 {
                    assert(day_numbers(excluded_dates@).contains(here));
                    assert(excluded_set.contains(here));
                    assert(!skipped.contains(here));
                    vstd::set::axiom_set_insert_len(skipped, here);
                    skipped = skipped.insert(here);
                    vstd::set_lib::lemma_len_subset(skipped, excluded_set);
                    assert(attempt <= excluded_dates@.len());
                }
            }
            let offset = offset_to_next_game_weekday(game_days, weekday);
            proof {
                assert forall|d: int|
                    start <= d < here + offset implies !#[trigger] is_playable(
                    d,
                    game_days@,
                    excluded_dates@,
                ) by {
                    if d > here {
                        lemma_weekday_shift(here, d - here);
                        if game_days@.contains(weekday_of_day_number(d)) {
                            let k = choose|k: int|
                                0 <= k < game_days@.len() && game_days@[k] == weekday_of_day_number(
                                    d,
                                );
                            assert(!lands_on(game_days@[k], weekday, d - here));
                        }
                    }
                }
                lemma_weekday_shift(here, offset as int);
                let k = choose|k: int|
                    0 <= k < game_days@.len() && (#[trigger] game_days@[k]).index() == (
                    weekday.index() + offset) % 7;
                lemma_weekday_index_injective(
                    game_days@[k],
                    weekday_of_day_number(here + offset),
                );
                assert(game_days@.contains(weekday_of_day_number(here + offset)));
                assert(attempt <= excluded_dates@.len());
            }
            current_day_internal = current_day_internal.add_days(offset);
            attempt = attempt + 1;
        }
        proof {
            vstd::set_lib::lemma_len_subset(skipped, excluded_set);
            assert(false);
        }
        Err(AppError::NoStartDate(*current_day))
    }
}

} // verus!
