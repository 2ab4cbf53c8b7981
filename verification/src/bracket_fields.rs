use vstd::prelude::*;

use crate::calendar::{weekday_of_day_number, Date, Weekday};
use crate::day_split::count_where;
use crate::game::GameView;
use crate::game_day_scheduler::{day_numbers, is_first_playable_from, is_playable};
use crate::game_time_scheduler::{hard_stop_minutes, next_slot_minutes};
use crate::leg_merge::is_bye_view;
use crate::season_config::SeasonConfig;
use crate::single_elimination::{
    bracket_clock, bracket_pairings, bracket_size, bracket_slot, clock_after, clock_after_game,
    ends_past_hard_stop, first_playable, game_clock, game_pairs, is_bracket_schedule,
    lemma_bracket_layout, lemma_power_of_two_from, next_day_clock, stand_in, starts_round,
};
use crate::team::{TeamView, BYE_NAME};

verus! {

/// After a playable day comes another: among the same weekday in the weeks
/// that follow, one more than there are excluded dates, one is not
/// excluded.
proof fn lemma_playable_later(x: int, game_days: Seq<Weekday>, excluded: Seq<Date>)
    requires
        is_playable(x, game_days, excluded),
    ensures
        exists|d: int| x < d && #[trigger] is_playable(d, game_days, excluded),
{
    let e = excluded.len() as int;
    let days = day_numbers(excluded);
    let candidates = Seq::new((e + 1) as nat, |i: int| x + 7 * (i + 1));
    if forall|i: int| 0 <= i < candidates.len() ==> days.contains(#[trigger] candidates[i]) {
        assert(candidates.no_duplicates()) by {
            assert forall|i: int, j: int| 0 <= i < candidates.len() && 0 <= j < candidates.len() && i != j implies candidates[i]
                != candidates[j] by {}
        }
        candidates.unique_seq_to_set();
        days.lemma_cardinality_of_set();
        assert(candidates.to_set().subset_of(days.to_set())) by {
            assert forall|v: int| candidates.to_set().contains(v) implies days.to_set().contains(v) by {
                let i = choose|i: int| 0 <= i < candidates.len() && candidates[i] == v;
                assert(days.contains(candidates[i]));
            }
        }
        vstd::set_lib::lemma_len_subset(candidates.to_set(), days.to_set());
        assert(false);
    }
    let i = choose|i: int| 0 <= i < candidates.len() && !days.contains(#[trigger] candidates[i]);
    let d = candidates[i];
    assert((d - 1) % 7 == (x - 1) % 7) by (nonlinear_arith)
        requires
            d == x + 7 * (i + 1),
    ;
    assert(weekday_of_day_number(d) == weekday_of_day_number(x));
    assert(is_playable(d, game_days, excluded));
}

/// From a day before a playable day, there is a first playable day.
proof fn lemma_first_playable_exists(from: int, d: int, game_days: Seq<Weekday>, excluded: Seq<Date>)
    requires
        from <= d,
        is_playable(d, game_days, excluded),
    ensures
        exists|f: int| #[trigger] is_first_playable_from(f, from, game_days, excluded),
    decreases d - from,
{
    if !is_first_playable_from(d, from, game_days, excluded) {
        let e = choose|e: int| from <= e < d && #[trigger] is_playable(e, game_days, excluded);
        lemma_first_playable_exists(from, e, game_days, excluded);
    }
}

/// Where game `k` of the bracket of `n` teams from day `start` is placed:
/// the day, the time and which of the slot's games it is.
pub open spec fn placed_clock(k: int, n: int, start: int, season_config: SeasonConfig) -> (int, int, int) {
    game_clock(bracket_clock(clock_after(k as nat, n, start, season_config), k, n, season_config), season_config)
}

/// No day's slots run past midnight: games are spaced apart, and the slot
/// after one that starts at the start time or ends by the hard stop still
/// starts before midnight.
pub open spec fn slots_stay_in_day(season_config: SeasonConfig) -> bool {
    let times = season_config.spec_time();
    let interval = times.spec_interval();
    &&& interval > 0
    &&& times.spec_start_time().minutes() + interval < 1440
    &&& hard_stop_minutes(
        times.spec_start_time().minutes(),
        times.spec_start_break().minutes(),
        times.spec_end_break().minutes(),
    ) + interval - times.spec_game_duration().minutes() < 1440
}

/// A clock's time is a minute of the day and its count one of the fields.
spec fn clock_ok(clock: (int, int, int), season_config: SeasonConfig) -> bool {
    clock.1 >= 0 && 1 <= clock.2 <= season_config.spec_number_fields()
}

proof fn lemma_next_day_clock_ok(clock: (int, int, int), season_config: SeasonConfig)
    requires
        season_config.spec_number_fields() >= 1,
    ensures
        clock_ok(next_day_clock(clock, season_config), season_config),
{
    season_config.spec_time().spec_start_time().lemma_minutes_nonnegative();
}

/// The bracket's clock, and where it places each game, stay a minute of the
/// day and one of the fields.
proof fn lemma_clock_ok(k: nat, n: int, start: int, season_config: SeasonConfig)
    requires
        season_config.spec_number_fields() >= 1,
    ensures
        clock_ok(clock_after(k, n, start, season_config), season_config),
        clock_ok(placed_clock(k as int, n, start, season_config), season_config),
    decreases k,
{
    let times = season_config.spec_time();
    times.spec_start_time().lemma_minutes_nonnegative();
    times.spec_end_break().lemma_minutes_nonnegative();
    if k > 0 {
        lemma_clock_ok((k - 1) as nat, n, start, season_config);
    }
    let after = clock_after(k, n, start, season_config);
    lemma_next_day_clock_ok(after, season_config);
    let due = bracket_clock(after, k as int, n, season_config);
    lemma_next_day_clock_ok(due, season_config);
}

/// A game placed by the bracket's clock starts early enough that the next
/// slot of its day starts later the same day.
proof fn lemma_placed_next_slot(k: int, n: int, start: int, season_config: SeasonConfig)
    requires
        0 <= k,
        season_config.spec_number_fields() >= 1,
        slots_stay_in_day(season_config),
    ensures
        ({
            let times = season_config.spec_time();
            let t = placed_clock(k, n, start, season_config).1;
            let next = next_slot_minutes(
                t,
                times.spec_interval(),
                times.spec_game_duration().minutes(),
                times.spec_start_break().minutes(),
                times.spec_end_break().minutes(),
            );
            t < next
        }),
{
    lemma_clock_ok(k as nat, n, start, season_config);
    let times = season_config.spec_time();
    let t = placed_clock(k, n, start, season_config).1;
    let interval = times.spec_interval();
    times.spec_game_duration().lemma_minutes_nonnegative();
    assert(t + interval < 1440);
    assert((t + interval) % 1440 == t + interval);
}

/// Two games of one day, one right after the other in the bracket, take
/// later slots, or later fields of the same slot.
proof fn lemma_bracket_step(
    games: Seq<GameView>,
    inner: Seq<TeamView>,
    n: int,
    start: int,
    season_config: SeasonConfig,
    k: int,
)
    requires
        is_bracket_schedule(games, inner, n, start, season_config),
        season_config.spec_number_fields() >= 1,
        slots_stay_in_day(season_config),
        bracket_size(n) - n <= k,
        0 <= k,
        k + 1 < games.len(),
        games[k].day == games[k + 1].day,
    ensures
        placed_clock(k, n, start, season_config).1 < placed_clock(k + 1, n, start, season_config).1 || (
        placed_clock(k, n, start, season_config).1 == placed_clock(k + 1, n, start, season_config).1
            && placed_clock(k, n, start, season_config).2 < placed_clock(k + 1, n, start, season_config).2),
{
    let dates = season_config.spec_dates();
    let here = placed_clock(k, n, start, season_config);
    let after = clock_after((k + 1) as nat, n, start, season_config);
    assert(after == clock_after_game(here, season_config));
    assert(games[k].day == bracket_slot(k, n, start, season_config).0);
    assert(games[k + 1].day == bracket_slot(k + 1, n, start, season_config).0);
    assert(here.0 == games[k].day);
    if starts_round(bracket_size(n), k + 1) {
        assert(games[k].day < games[k + 1].day);
    }
    assert(bracket_clock(after, k + 1, n, season_config) == after);
    if ends_past_hard_stop(after.1, season_config) {
        let day = games[k].day;
        assert(is_playable(day, dates.spec_game_days(), dates.spec_excluded_dates()));
        lemma_playable_later(day, dates.spec_game_days(), dates.spec_excluded_dates());
        let d = choose|d: int| day < d && #[trigger] is_playable(d, dates.spec_game_days(), dates.spec_excluded_dates());
        lemma_first_playable_exists(day + 1, d, dates.spec_game_days(), dates.spec_excluded_dates());
        assert(is_first_playable_from(first_playable(day + 1, season_config), day + 1, dates.spec_game_days(), dates.spec_excluded_dates()));
        assert(placed_clock(k + 1, n, start, season_config).0 == first_playable(day + 1, season_config));
        assert(false);
    }
    assert(placed_clock(k + 1, n, start, season_config) == after);
    lemma_clock_ok(k as nat, n, start, season_config);
    if here.2 == season_config.spec_number_fields() {
        lemma_placed_next_slot(k, n, start, season_config);
    }
}

/// Game days never go back in the bracket.
proof fn lemma_days_monotone(
    games: Seq<GameView>,
    inner: Seq<TeamView>,
    n: int,
    start: int,
    season_config: SeasonConfig,
    i: int,
    j: int,
)
    requires
        is_bracket_schedule(games, inner, n, start, season_config),
        0 <= i <= j < games.len(),
    ensures
        games[i].day <= games[j].day,
    decreases j - i,
{
    if i < j {
        lemma_days_monotone(games, inner, n, start, season_config, i, j - 1);
        assert(games[j - 1].day <= games[j].day);
    }
}

/// Clock `a` is an earlier slot than clock `b`, or an earlier field of the
/// same slot.
pub open spec fn slot_before(a: (int, int, int), b: (int, int, int)) -> bool {
    a.1 < b.1 || (a.1 == b.1 && a.2 < b.2)
}

/// Of two real games of one day, the later one takes a later slot, or a
/// later field of the same slot.
proof fn lemma_bracket_order(
    games: Seq<GameView>,
    n: int,
    start: int,
    season_config: SeasonConfig,
    lo: int,
    k1: int,
    k2: int,
)
    requires
        0 <= lo <= k1 < k2 < games.len(),
        forall|k: int|
            lo <= k && k + 1 < games.len() && games[k].day == games[k + 1].day ==> slot_before(
                #[trigger] placed_clock(k, n, start, season_config),
                placed_clock(k + 1, n, start, season_config),
            ),
        forall|i: int, j: int| 0 <= i <= j < games.len() ==> #[trigger] games[i].day <= #[trigger] games[j].day,
        games[k1].day == games[k2].day,
    ensures
        slot_before(placed_clock(k1, n, start, season_config), placed_clock(k2, n, start, season_config)),
    decreases k2 - k1,
{
    let c1 = placed_clock(k1, n, start, season_config);
    let cm = placed_clock(k2 - 1, n, start, season_config);
    let c2 = placed_clock(k2, n, start, season_config);
    assert(games[k1].day <= games[k2 - 1].day && games[k2 - 1].day <= games[k2].day);
    assert(slot_before(cm, c2));
    if k1 < k2 - 1 {
        lemma_bracket_order(games, n, start, season_config, lo, k1, k2 - 1);
    }
}

/// A real game of the bracket at day `day` and minute `time`.
pub open spec fn at_moment(day: int, time: int) -> spec_fn(GameView) -> bool {
    |g: GameView| !is_bye_view(g) && g.day == day && g.time == time
}

/// Among the first `i` games, the last of those at the moment takes a field
/// numbered at least how many of them there are.
proof fn lemma_moment_prefix(
    games: Seq<GameView>,
    inner: Seq<TeamView>,
    n: int,
    start: int,
    season_config: SeasonConfig,
    day: int,
    time: int,
    i: int,
)
    requires
        is_bracket_schedule(games, inner, n, start, season_config),
        season_config.spec_number_fields() >= 1,
        slots_stay_in_day(season_config),
        0 <= i <= games.len(),
        bracket_size(n) >= n,
        forall|k: int| 0 <= k < bracket_size(n) - n && k < games.len() ==> is_bye_view(#[trigger] games[k]),
        forall|k: int|
            bracket_size(n) - n <= k && k + 1 < games.len() && games[k].day == games[k + 1].day ==> slot_before(
                #[trigger] placed_clock(k, n, start, season_config),
                placed_clock(k + 1, n, start, season_config),
            ),
        forall|i: int, j: int| 0 <= i <= j < games.len() ==> #[trigger] games[i].day <= #[trigger] games[j].day,
    ensures
        count_where(games.take(i), at_moment(day, time)) > 0 ==> exists|k: int|
            0 <= k < i && at_moment(day, time)(#[trigger] games[k]) && placed_clock(k, n, start, season_config).2
                >= count_where(games.take(i), at_moment(day, time)),
    decreases i,
{
    let f = at_moment(day, time);
    if i > 0 {
        lemma_moment_prefix(games, inner, n, start, season_config, day, time, i - 1);
        assert(games.take(i).drop_last() =~= games.take(i - 1));
        assert(games.take(i).last() == games[i - 1]);
        if f(games[i - 1]) {
            let j = i - 1;
            assert(j >= bracket_size(n) - n);
            assert(games[j].day == bracket_slot(j, n, start, season_config).0);
            assert(games[j].time == bracket_slot(j, n, start, season_config).1);
            lemma_clock_ok(j as nat, n, start, season_config);
            if count_where(games.take(i - 1), f) > 0 {
                let k = choose|k: int|
                    0 <= k < i - 1 && f(#[trigger] games[k]) && placed_clock(k, n, start, season_config).2
                        >= count_where(games.take(i - 1), f);
                assert(k >= bracket_size(n) - n);
                assert(games[k].day == bracket_slot(k, n, start, season_config).0);
                assert(games[k].time == bracket_slot(k, n, start, season_config).1);
                lemma_bracket_order(games, n, start, season_config, bracket_size(n) - n, k, j);
            }
        } else if count_where(games.take(i - 1), f) > 0 {
            let k = choose|k: int|
                0 <= k < i - 1 && f(#[trigger] games[k]) && placed_clock(k, n, start, season_config).2
                    >= count_where(games.take(i - 1), f);
            assert(f(games[k]));
        }
    }
}

/// Law of the playoff's fields: while no day's slots run past midnight, at
/// most as many real games of the bracket start at one moment as there are
/// fields.
pub proof fn law_bracket_fields_cap(
    games: Seq<GameView>,
    inner: Seq<TeamView>,
    n: int,
    start: int,
    season_config: SeasonConfig,
    day: int,
    time: int,
)
    requires
        is_bracket_schedule(games, inner, n, start, season_config),
        inner.len() == n,
        n >= 2,
        season_config.spec_number_fields() >= 1,
        slots_stay_in_day(season_config),
    ensures
        count_where(games, at_moment(day, time)) <= season_config.spec_number_fields(),
{
    let b = bracket_size(n);
    lemma_power_of_two_from(n, 1);
    lemma_bracket_layout(inner, n, b);
    assert forall|k: int| 0 <= k < b - n && k < games.len() implies is_bye_view(#[trigger] games[k]) by {
        assert(game_pairs(games)[k] == (games[k].home, games[k].away));
        assert(bracket_pairings(inner, n)[k] == (inner[k], stand_in(BYE_NAME)));
    }
    assert forall|k: int|
        b - n <= k && k + 1 < games.len() && games[k].day == games[k + 1].day implies slot_before(
        #[trigger] placed_clock(k, n, start, season_config),
        placed_clock(k + 1, n, start, season_config),
    ) by {
        lemma_bracket_step(games, inner, n, start, season_config, k);
    }
    assert forall|i: int, j: int| 0 <= i <= j < games.len() implies #[trigger] games[i].day <= #[trigger] games[j].day by {
        lemma_days_monotone(games, inner, n, start, season_config, i, j);
    }
    lemma_moment_prefix(games, inner, n, start, season_config, day, time, games.len() as int);
    assert(games.take(games.len() as int) =~= games);
    if count_where(games, at_moment(day, time)) > 0 {
        let k = choose|k: int|
            0 <= k < games.len() && at_moment(day, time)(#[trigger] games[k]) && placed_clock(
                k,
                n,
                start,
                season_config,
            ).2 >= count_where(games.take(games.len() as int), at_moment(day, time));
        lemma_clock_ok(k as nat, n, start, season_config);
    }
}

} // verus!
