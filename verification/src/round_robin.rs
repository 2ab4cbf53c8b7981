use vstd::prelude::*;

use crate::calendar::{Date, MAX_DAY_NUMBER};
use crate::circle::{circle_index, lemma_circle_index_range, lemma_circle_rotate, lemma_circle_start};
use crate::configuration::TimeConfiguration;
use crate::error::AppError;
use crate::game::{zurich_local_time_is_unique, Game};
use crate::game_day_scheduler::{is_first_playable_from, search_span, GameDayScheduler};
use crate::game_time::GameTime;
use crate::game_time_scheduler::{hard_stop_minutes, slot_minutes, GameTimeScheduler};
use crate::season_config::SeasonConfig;
use crate::single_elimination::{first_playable, lemma_first_playable_is};
use crate::team::{Team, TeamView, BYE_NAME};

verus! {

/// The round-robin group stage: every team meets every other team twice,
/// once in each of two legs, and on each match day plays one game before the
/// break and one after it.
#[derive(Debug, PartialEq, Eq, Structural)]
pub struct RoundRobin;

/// The time, in minutes, of the `slot`-th slot of a leg that starts its day
/// at `leg_start`.
pub open spec fn leg_slot(times: TimeConfiguration, leg_start: int, slot: nat) -> int {
    slot_minutes(
        leg_start,
        times.spec_interval(),
        times.spec_game_duration().minutes(),
        times.spec_start_break().minutes(),
        times.spec_end_break().minutes(),
        slot,
    )
}

/// A game in the `slot`-th slot of a leg that starts at `leg_start` ends by
/// the leg's hard stop.
pub open spec fn leg_slot_fits(times: TimeConfiguration, leg_start: int, slot: nat) -> bool {
    !(leg_slot(times, leg_start, slot) + times.spec_game_duration().minutes() > hard_stop_minutes(
        leg_start,
        times.spec_start_break().minutes(),
        times.spec_end_break().minutes(),
    ))
}

/// The `slot`-th slot of a leg starting at `leg_start` ends by the hard stop
/// and, when `before_break` holds, starts before the break.
pub open spec fn slot_is_usable(
    times: TimeConfiguration,
    leg_start: int,
    before_break: bool,
    slot: nat,
) -> bool {
    leg_slot_fits(times, leg_start, slot) && !(before_break && leg_slot(times, leg_start, slot)
        >= times.spec_start_break().minutes())
}

/// How many consecutive slots, from the `slot`-th on and at most up to the
/// 1440th, end by the hard stop and, when `before_break` holds, start before
/// the break.
pub open spec fn counted_slots(
    times: TimeConfiguration,
    leg_start: int,
    before_break: bool,
    slot: nat,
) -> nat
    decreases 1440 - slot,
{
    if slot >= 1440 {
        0
    } else if !slot_is_usable(times, leg_start, before_break, slot) {
        0
    } else {
        1 + counted_slots(times, leg_start, before_break, slot + 1)
    }
}

/// Slots available to the leg played before the break.
pub open spec fn slots_before_break(times: TimeConfiguration) -> nat {
    counted_slots(times, times.spec_start_time().minutes(), true, 0)
}

/// Slots available to the leg played after the break.
pub open spec fn slots_after_break(times: TimeConfiguration) -> nat {
    counted_slots(times, times.spec_end_break().minutes(), false, 0)
}

/// `a / b`, rounded up.
pub open spec fn div_ceil(a: int, b: int) -> int {
    (a + b - 1) / b
}

/// Real games in each round of a leg: every team but the one sitting out
/// plays, two per game.
pub open spec fn games_per_round(teams_len: int) -> int {
    ((teams_len as u32) / 2) as int
}

/// What checking the parameters of a round-robin gives: at least one field,
/// at least four teams, and room on each side of the break for one leg's
/// round.
pub open spec fn round_robin_validation(teams_len: int, season_config: SeasonConfig) -> Result<
    (),
    AppError,
> {
    let fields = season_config.spec_number_fields();
    let times = season_config.spec_time();
    let per_leg = div_ceil(games_per_round(teams_len), fields as int);
    let available = if slots_before_break(times) <= slots_after_break(times) {
        slots_before_break(times)
    } else {
        slots_after_break(times)
    };
    if fields < 1 {
        Err(AppError::InvalidNumberOfFields(fields))
    } else if teams_len < 4 {
        Err(AppError::NotEnoughTeams(teams_len as usize, 4))
    } else if per_leg > available {
        Err(AppError::InsufficientDailyCapacity(per_leg as u32, available as u32))
    } else {
        Ok(())
    }
}

proof fn lemma_counted_prefix(times: TimeConfiguration, leg_start: int, before_break: bool, k: nat)
    requires
        k <= 1440,
        forall|s: nat| s < k ==> #[trigger] slot_is_usable(times, leg_start, before_break, s),
    ensures
        counted_slots(times, leg_start, before_break, 0) == k + counted_slots(
            times,
            leg_start,
            before_break,
            k,
        ),
    decreases k,
{
    if k > 0 {
        lemma_counted_prefix(times, leg_start, before_break, (k - 1) as nat);
        assert(slot_is_usable(times, leg_start, before_break, (k - 1) as nat));
    }
}

/// The slots counted from the start all end by the hard stop (and start
/// before the break when that is asked for).
pub proof fn lemma_counted_slots_fit(
    times: TimeConfiguration,
    leg_start: int,
    before_break: bool,
    slot: nat,
    s: nat,
)
    requires
        slot <= s < slot + counted_slots(times, leg_start, before_break, slot),
    ensures
        leg_slot_fits(times, leg_start, s),
        before_break ==> leg_slot(times, leg_start, s) < times.spec_start_break().minutes(),
    decreases s - slot,
{
    if s > slot {
        lemma_counted_slots_fit(times, leg_start, before_break, slot + 1, s);
    }
}

/// The number of entrants of a leg: the teams, and a bye when their number
/// is odd.
pub open spec fn padded_count(teams_len: int) -> int {
    if teams_len % 2 == 0 {
        teams_len
    } else {
        teams_len + 1
    }
}

/// The indices of `count` entrants, in their natural order.
pub open spec fn entrant_indices(count: int) -> Seq<usize> {
    Seq::new(count as nat, |i: int| i as usize)
}

/// `order` is an order of the entrants of a leg: every index from 0 to the
/// entrant count, once. Index `teams_len` stands for the bye.
pub open spec fn is_leg_order(order: Seq<usize>, teams_len: int) -> bool {
    &&& order.len() == padded_count(teams_len)
    &&& order.to_multiset() == entrant_indices(order.len() as int).to_multiset()
}

pub proof fn lemma_leg_order_facts(order: Seq<usize>, teams_len: int)
    requires
        is_leg_order(order, teams_len),
        order.len() <= usize::MAX,
    ensures
        forall|x: int| 0 <= x < order.len() ==> #[trigger] order[x] < order.len(),
        forall|v: usize| v < order.len() ==> #[trigger] order.contains(v),
        order.no_duplicates(),
{
    broadcast use vstd::seq_lib::group_to_multiset_ensures;

    let natural = entrant_indices(order.len() as int);
    assert forall|x: int| 0 <= x < order.len() implies #[trigger] order[x] < order.len() by {
        assert(order.contains(order[x]));
        assert(order.to_multiset().count(order[x]) > 0);
        assert(natural.contains(order[x]));
    }
    assert forall|v: usize| v < order.len() implies #[trigger] order.contains(v) by {
        assert(natural[v as int] == v);
        assert(natural.contains(v));
        assert(natural.to_multiset().count(v) > 0);
    }
    assert(natural.no_duplicates());
    natural.lemma_multiset_has_no_duplicates();
    order.lemma_multiset_has_no_duplicates_conv();
}

/// The entrant with index `x`: the team at `order[x]`, or the bye.
pub open spec fn entrant(teams: Seq<Team>, order: Seq<usize>, x: int) -> TeamView {
    if order[x] < teams.len() {
        teams[order[x] as int]@
    } else {
        (BYE_NAME@, None)
    }
}

/// Home side of game `i` of round `round` of a leg.
pub open spec fn leg_home(teams: Seq<Team>, order: Seq<usize>, round: int, i: int) -> TeamView {
    entrant(teams, order, circle_index(order.len() as int, round, i))
}

/// Away side of game `i` of round `round` of a leg.
pub open spec fn leg_away(teams: Seq<Team>, order: Seq<usize>, round: int, i: int) -> TeamView {
    entrant(teams, order, circle_index(order.len() as int, round, order.len() - 1 - i))
}

/// Game `i` of round `round` has the bye on one side.
pub open spec fn leg_game_is_bye(teams: Seq<Team>, order: Seq<usize>, round: int, i: int) -> bool {
    leg_home(teams, order, round, i).0 == BYE_NAME@ || leg_away(teams, order, round, i).0
        == BYE_NAME@
}

/// How many of the first `i` games of round `round` are real games.
pub open spec fn real_games_before(teams: Seq<Team>, order: Seq<usize>, round: int, i: int) -> int
    decreases i,
{
    if i <= 0 {
        0
    } else {
        real_games_before(teams, order, round, i - 1) + if leg_game_is_bye(
            teams,
            order,
            round,
            i - 1,
        ) {
            0int
        } else {
            1int
        }
    }
}

/// Game `i` of round `round` in a schedule of `per_round` games a round.
pub open spec fn game_of(schedule: Seq<Game>, per_round: int, round: int, i: int) -> Game {
    schedule[round * per_round + i]
}

/// Game `i` of round `round`; the name quantifiers over a leg's games are
/// triggered on.
pub open spec fn scheduled_game(schedule: Seq<Game>, per_round: int, round: int, i: int) -> Game {
    game_of(schedule, per_round, round, i)
}

/// Days a leg of `entrants` entrants may need: a round a day, each at most a
/// search span past the one before.
pub open spec fn leg_room(entrants: int, excluded_len: int) -> int {
    entrants * (1 + search_span(excluded_len))
}

/// What a leg generated in the order `order` is: the circle method's
/// pairings, a round a day on the first playable days from `start`, real
/// games at the leg's successive slots, a slot per field, and no referee.
pub open spec fn is_leg_schedule(
    schedule: Seq<Game>,
    teams: Seq<Team>,
    order: Seq<usize>,
    start: int,
    season_config: SeasonConfig,
    leg_start: int,
) -> bool {
    let m = order.len() as int;
    let half = m / 2;
    &&& schedule.len() == (m - 1) * half
    &&& forall|round: int, i: int|
        0 <= round < m - 1 && 0 <= i < half ==> is_leg_game(
            #[trigger] scheduled_game(schedule, half, round, i),
            schedule,
            teams,
            order,
            start,
            season_config,
            leg_start,
            round,
            i,
        )
}

/// Every round of a leg with an odd number of teams has a game with the bye.
pub proof fn lemma_round_has_bye(teams: Seq<Team>, order: Seq<usize>, round: int)
    requires
        is_leg_order(order, teams.len() as int),
        teams.len() % 2 == 1,
        teams.len() >= 3,
        order.len() <= usize::MAX,
        0 <= round,
    ensures
        exists|j: int| 0 <= j < order.len() / 2 && leg_game_is_bye(teams, order, round, j),
{
    let m = order.len() as int;
    let t = teams.len() as int;
    lemma_leg_order_facts(order, t);
    assert(order.contains(t as usize));
    let x = choose|x: int| 0 <= x < m && order[x] == t as usize;
    assert(entrant(teams, order, x) == (BYE_NAME@, None::<u32>));
    let seat = if x == 0 {
        0
    } else {
        1 + (x - 1 + round) % (m - 1)
    };
    if x > 0 {
        let a = x - 1 + round;
        let n = m - 1;
        vstd::arithmetic::div_mod::lemma_mod_bound(a, n);
        vstd::arithmetic::div_mod::lemma_fundamental_div_mod(a, n);
        vstd::arithmetic::div_mod::lemma_mod_multiples_vanish(-(a / n), a - round, n);
        assert(n * (-(a / n)) + (a - round) == a % n - round) by (nonlinear_arith)
            requires
                a == n * (a / n) + a % n,
        ;
        vstd::arithmetic::div_mod::lemma_small_mod((x - 1) as nat, n as nat);
        assert(circle_index(m, round, seat) == x);
    }
    assert(circle_index(m, round, seat) == x);
    if seat < m / 2 {
        assert(leg_game_is_bye(teams, order, round, seat));
    } else {
        assert(m - 1 - (m - 1 - seat) == seat);
        assert(leg_game_is_bye(teams, order, round, m - 1 - seat));
    }
}

/// Counting real games is monotone.
pub(crate) proof fn lemma_real_games_monotone(
    teams: Seq<Team>,
    order: Seq<usize>,
    round: int,
    a: int,
    b: int,
)
    requires
        0 <= a <= b,
    ensures
        real_games_before(teams, order, round, a) <= real_games_before(teams, order, round, b),
    decreases b - a,
{
    if a < b {
        lemma_real_games_monotone(teams, order, round, a, b - 1);
    }
}

/// A game counted as the `slot * fields + k`-th real game, with fewer real
/// games than `per_leg`, uses a slot below `per_leg / fields` rounded up.
proof fn lemma_slot_within(counted: int, fields: int, slot: int, k: int, per_leg: int)
    by (nonlinear_arith)
    requires
        fields >= 1,
        0 <= slot,
        0 <= k < fields,
        counted == slot * fields + k,
        counted < per_leg,
    ensures
        slot < div_ceil(per_leg, fields),
{
    assert(slot * fields < per_leg);
    assert((per_leg + fields - 1) / fields * fields > per_leg - fields);
}

proof fn lemma_real_games_bounds(
    teams: Seq<Team>,
    order: Seq<usize>,
    round: int,
    i: int,
    bye_at: int,
)
    requires
        0 <= i,
    ensures
        0 <= real_games_before(teams, order, round, i) <= i,
        0 <= bye_at < i && leg_game_is_bye(teams, order, round, bye_at) ==> real_games_before(
            teams,
            order,
            round,
            i,
        ) <= i - 1,
    decreases i,
{
    if i > 0 {
        lemma_real_games_bounds(teams, order, round, i - 1, bye_at);
    }
}

/// A game whose local time does not name a single moment, which refuses a
/// schedule.
pub open spec fn is_refused_game_time(e: AppError) -> bool {
    e matches AppError::InvalidGameDay(day, time) && !zurich_local_time_is_unique(
        day.spec_day_number() as i32,
        time.spec_hour(),
        time.spec_minute(),
    )
}

/// The time of day, in minutes, of game `i` of round `round` of a leg whose
/// days start at `leg_start`: the slot of the real games before it.
pub open spec fn leg_game_minutes(
    teams: Seq<Team>,
    order: Seq<usize>,
    season_config: SeasonConfig,
    leg_start: int,
    round: int,
    i: int,
) -> int {
    leg_slot(
        season_config.spec_time(),
        leg_start,
        (real_games_before(teams, order, round, i) / season_config.spec_number_fields() as int) as nat,
    )
}

/// Game `i` of round `round` of a leg, on day `day`, has a local time that
/// happens exactly once.
pub open spec fn leg_time_is_unique(
    day: int,
    teams: Seq<Team>,
    order: Seq<usize>,
    season_config: SeasonConfig,
    leg_start: int,
    round: int,
    i: int,
) -> bool {
    let time = GameTime::of_minutes(leg_game_minutes(teams, order, season_config, leg_start, round, i));
    zurich_local_time_is_unique(day as i32, time.spec_hour(), time.spec_minute())
}

/// The day of round `round` of a leg from day `start`: the first playable
/// day on or after `start`, then each time the first one after the day of
/// the round before.
pub open spec fn leg_round_day(start: int, season_config: SeasonConfig, round: nat) -> int
    decreases round,
{
    if round == 0 {
        first_playable(start, season_config)
    } else {
        first_playable(leg_round_day(start, season_config, (round - 1) as nat) + 1, season_config)
    }
}

/// Game `i` of round `round` of the leg from day `start` has a local time
/// that happens exactly once.
pub open spec fn leg_slot_is_unique(
    teams: Seq<Team>,
    order: Seq<usize>,
    start: int,
    season_config: SeasonConfig,
    leg_start: int,
    round: int,
    i: int,
) -> bool {
    leg_time_is_unique(
        leg_round_day(start, season_config, round as nat),
        teams,
        order,
        season_config,
        leg_start,
        round,
        i,
    )
}

/// Every game of the leg has a local time that happens exactly once.
pub open spec fn leg_times_unique(
    teams: Seq<Team>,
    order: Seq<usize>,
    start: int,
    season_config: SeasonConfig,
    leg_start: int,
) -> bool {
    forall|round: int, i: int|
        0 <= round < order.len() - 1 && 0 <= i < order.len() / 2 ==> #[trigger] leg_slot_is_unique(
            teams,
            order,
            start,
            season_config,
            leg_start,
            round,
            i,
        )
}

/// `e` refuses the leg at its first game, in round order and then in seat
/// order, whose local time does not happen exactly once, naming that
/// game's day and time.
pub open spec fn leg_refusal(
    teams: Seq<Team>,
    order: Seq<usize>,
    start: int,
    season_config: SeasonConfig,
    leg_start: int,
    e: AppError,
) -> bool {
    exists|round: int, i: int|
        #![trigger leg_slot_is_unique(teams, order, start, season_config, leg_start, round, i)]
        {
            &&& 0 <= round < order.len() - 1
            &&& 0 <= i < order.len() / 2
            &&& !leg_slot_is_unique(teams, order, start, season_config, leg_start, round, i)
            &&& forall|r2: int, i2: int|
                0 <= r2 < order.len() - 1 && 0 <= i2 < order.len() / 2 && (r2 < round || (r2 == round && i2
                    < i)) ==> #[trigger] leg_slot_is_unique(teams, order, start, season_config, leg_start, r2, i2)
            &&& e matches AppError::InvalidGameDay(day, time) && day.spec_day_number() == leg_round_day(
                start,
                season_config,
                round as nat,
            ) && time == GameTime::of_minutes(
                leg_game_minutes(teams, order, season_config, leg_start, round, i),
            )
        }
}

/// What a leg needs: at least four teams, an order of the entrants, a
/// field, and room for a round's real games in the leg's slots.
pub open spec fn leg_setup(
    teams: Seq<Team>,
    order: Seq<usize>,
    season_config: SeasonConfig,
    leg_start: GameTime,
) -> bool {
    let per_round = div_ceil(
        games_per_round(teams.len() as int),
        season_config.spec_number_fields() as int,
    );
    &&& 4 <= teams.len() <= u32::MAX
    &&& is_leg_order(order, teams.len() as int)
    &&& season_config.spec_number_fields() >= 1
    &&& per_round <= counted_slots(season_config.spec_time(), leg_start.minutes(), true, 0)
        || per_round <= counted_slots(season_config.spec_time(), leg_start.minutes(), false, 0)
}

/// A time scheduler set up for a leg that starts its days at `leg_start`.
pub open spec fn scheduler_for_leg(
    scheduler: GameTimeScheduler,
    season_config: SeasonConfig,
    leg_start: GameTime,
) -> bool {
    let times = season_config.spec_time();
    &&& scheduler.wf()
    &&& scheduler.spec_start_time() == leg_start
    &&& scheduler.spec_interval().minutes() == times.spec_interval()
    &&& scheduler.spec_game_duration() == times.spec_game_duration()
    &&& scheduler.spec_start_break() == times.spec_start_break()
    &&& scheduler.spec_end_break() == times.spec_end_break()
    &&& scheduler.spec_number_of_fields() == season_config.spec_number_fields()
    &&& scheduler.spec_hard_stop() == hard_stop_minutes(
        leg_start.minutes(),
        times.spec_start_break().minutes(),
        times.spec_end_break().minutes(),
    )
}

/// Game `i` of round `round` of a leg pairs the entrants the circle method
/// seats there, has no referee, and starts at the slot of the real games
/// before it in the round.
pub open spec fn leg_game_matches(
    game: Game,
    teams: Seq<Team>,
    order: Seq<usize>,
    season_config: SeasonConfig,
    leg_start: int,
    round: int,
    i: int,
) -> bool {
    &&& game@.home == leg_home(teams, order, round, i)
    &&& game@.away == leg_away(teams, order, round, i)
    &&& game@.referee is None
    &&& game@.time == leg_slot(
        season_config.spec_time(),
        leg_start,
        (real_games_before(teams, order, round, i) / season_config.spec_number_fields() as int) as nat,
    )
}

/// Game `i` of round `round` of a leg: as `leg_game_matches` says, on its
/// round's day, the first playable day on or after `start` for the first
/// round and after the day of the round before for the others.
pub open spec fn is_leg_game(
    game: Game,
    schedule: Seq<Game>,
    teams: Seq<Team>,
    order: Seq<usize>,
    start: int,
    season_config: SeasonConfig,
    leg_start: int,
    round: int,
    i: int,
) -> bool {
    let half = order.len() as int / 2;
    let dates = season_config.spec_dates();
    &&& leg_game_matches(game, teams, order, season_config, leg_start, round, i)
    &&& game@.day == game_of(schedule, half, round, 0)@.day
    &&& is_first_playable_from(
        game@.day,
        if round == 0 {
            start
        } else {
            game_of(schedule, half, round - 1, 0)@.day + 1
        },
        dates.spec_game_days(),
        dates.spec_excluded_dates(),
    )
}

/// After a round is appended to a leg whose earlier rounds are right, all its
/// rounds are right.
#[verifier::spinoff_prover]
#[verifier::rlimit(60)]
proof fn lemma_round_appended(
    previous: Seq<Game>,
    schedule: Seq<Game>,
    teams: Seq<Team>,
    order: Seq<usize>,
    start: int,
    season_config: SeasonConfig,
    leg_start: int,
    round: int,
    round_day: int,
)
    requires
        order.len() >= 4,
        0 <= round,
        previous.len() == round * (order.len() as int / 2),
        schedule.len() == round * (order.len() as int / 2) + order.len() as int / 2,
        forall|k: int| 0 <= k < previous.len() ==> #[trigger] schedule[k] == previous[k],
        forall|r: int, i: int|
            0 <= r < round && 0 <= i < order.len() as int / 2 ==> is_leg_game(
                #[trigger] scheduled_game(previous, order.len() as int / 2, r, i),
                previous,
                teams,
                order,
                start,
                season_config,
                leg_start,
                r,
                i,
            ),
        forall|i: int|
            0 <= i < order.len() as int / 2 ==> leg_game_matches(
                #[trigger] game_of(schedule, order.len() as int / 2, round, i),
                teams,
                order,
                season_config,
                leg_start,
                round,
                i,
            ) && game_of(schedule, order.len() as int / 2, round, i)@.day == round_day,
        is_first_playable_from(
            round_day,
            if round == 0 {
                start
            } else {
                game_of(previous, order.len() as int / 2, round - 1, 0)@.day + 1
            },
            season_config.spec_dates().spec_game_days(),
            season_config.spec_dates().spec_excluded_dates(),
        ),
    ensures
        schedule.len() == (round + 1) * (order.len() as int / 2),
        forall|r: int, i: int|
            0 <= r < round + 1 && 0 <= i < order.len() as int / 2 ==> is_leg_game(
                #[trigger] scheduled_game(schedule, order.len() as int / 2, r, i),
                schedule,
                teams,
                order,
                start,
                season_config,
                leg_start,
                r,
                i,
            ),
        game_of(schedule, order.len() as int / 2, round, 0)@.day == round_day,
{
    let half = order.len() as int / 2;
    assert(round * half + half == (round + 1) * half) by (nonlinear_arith);
    assert forall|r: int, i: int| 0 <= r < round + 1 && 0 <= i < half implies is_leg_game(
        #[trigger] scheduled_game(schedule, half, r, i),
        schedule,
        teams,
        order,
        start,
        season_config,
        leg_start,
        r,
        i,
    ) by {
        if r < round {
            assert(is_leg_game(
                scheduled_game(previous, half, r, i),
                previous,
                teams,
                order,
                start,
                season_config,
                leg_start,
                r,
                i,
            ));
            lemma_earlier_round_kept(
                previous,
                schedule,
                teams,
                order,
                start,
                season_config,
                leg_start,
                round,
                r,
                i,
            );
        } else {
            if r > 0 {
                lemma_round_index(r - 1, 0, round, half);
                assert(game_of(schedule, half, r - 1, 0) == game_of(previous, half, r - 1, 0));
            }
            assert(game_of(schedule, half, r, 0)@.day == round_day);
            assert(leg_game_matches(
                game_of(schedule, half, round, i),
                teams,
                order,
                season_config,
                leg_start,
                round,
                i,
            ));
        }
    }
}

/// A game of an earlier round keeps what it was when a round is appended.
proof fn lemma_earlier_round_kept(
    previous: Seq<Game>,
    schedule: Seq<Game>,
    teams: Seq<Team>,
    order: Seq<usize>,
    start: int,
    season_config: SeasonConfig,
    leg_start: int,
    round: int,
    r: int,
    i: int,
)
    requires
        order.len() >= 4,
        0 <= r < round,
        0 <= i < order.len() as int / 2,
        previous.len() == round * (order.len() as int / 2),
        forall|k: int| 0 <= k < previous.len() ==> #[trigger] schedule[k] == previous[k],
        is_leg_game(
            game_of(previous, order.len() as int / 2, r, i),
            previous,
            teams,
            order,
            start,
            season_config,
            leg_start,
            r,
            i,
        ),
    ensures
        is_leg_game(
            game_of(schedule, order.len() as int / 2, r, i),
            schedule,
            teams,
            order,
            start,
            season_config,
            leg_start,
            r,
            i,
        ),
{
    let half = order.len() as int / 2;
    lemma_round_index(r, i, round, half);
    lemma_round_index(r, 0, round, half);
    assert(game_of(schedule, half, r, i) == game_of(previous, half, r, i));
    assert(game_of(schedule, half, r, 0) == game_of(previous, half, r, 0));
    if r > 0 {
        lemma_round_index(r - 1, 0, round, half);
        assert(game_of(schedule, half, r - 1, 0) == game_of(previous, half, r - 1, 0));
    }
}

pub proof fn lemma_round_index(r: int, i: int, round: int, half: int)
    by (nonlinear_arith)
    requires
        0 <= r < round,
        0 <= i < half,
    ensures
        r * half + i < round * half,
        0 <= r * half + i,
{
}

impl RoundRobin {
    /// Turns every entrant but the first one seat further, the last one
    /// coming round to the second seat.
    fn rotate_teams(teams: &mut Vec<Team>)
        requires
            old(teams)@.len() >= 2,
        ensures
            final(teams)@.len() == old(teams)@.len(),
            final(teams)@[0] == old(teams)@[0],
            final(teams)@[1] == old(teams)@[old(teams)@.len() - 1],
            forall|p: int| 2 <= p < old(teams)@.len() ==> #[trigger] final(teams)@[p] == old(
                teams,
            )@[p - 1],
    {
        let last = teams.pop().unwrap();
        teams.insert(1, last);
    }

    /// One leg of the round-robin, with the entrants seated in `order`: the
    /// circle method pairs them off round by round, each round is played on
    /// the next playable day, and its real games take the leg's slots in
    /// turn, as many games a slot as there are fields. A game with the bye
    /// takes no slot. When the day is not playable at all the leg is refused,
    /// as is a game whose local time does not name a single moment.
    #[verifier::spinoff_prover]
    #[verifier::rlimit(60)]
    pub fn single_leg_schedule(
        &self,
        teams: &[Team],
        order: &[usize],
        start_date: &Date,
        season_config: &SeasonConfig,
        leg_start_time: &GameTime,
    ) -> (r: Result<Vec<Game>, AppError>)
        requires
            leg_setup(teams@, order@, *season_config, *leg_start_time),
            start_date.spec_day_number() + leg_room(
                order@.len() as int,
                season_config.spec_dates().spec_excluded_dates().len() as int,
            ) <= MAX_DAY_NUMBER,
        ensures
            season_config.spec_dates().spec_game_days().len() == 0 ==> r
                == Err::<Vec<Game>, AppError>(AppError::EmptyGameDays),
            season_config.spec_dates().spec_game_days().len() > 0 && r is Err ==> is_refused_game_time(r->Err_0),
            season_config.spec_dates().spec_game_days().len() > 0 ==> (r is Ok <==> leg_times_unique(
                teams@,
                order@,
                start_date.spec_day_number(),
                *season_config,
                leg_start_time.minutes(),
            )),
            season_config.spec_dates().spec_game_days().len() > 0 && r is Err ==> leg_refusal(
                teams@,
                order@,
                start_date.spec_day_number(),
                *season_config,
                leg_start_time.minutes(),
                r->Err_0,
            ),
            r matches Ok(schedule) ==> is_leg_schedule(
                schedule@,
                teams@,
                order@,
                start_date.spec_day_number(),
                *season_config,
                leg_start_time.minutes(),
            ),
    {
        let t = teams.len();
        let m = order.len();
        let half = m / 2;
        let ghost dates = season_config.spec_dates();
        let ghost start = start_date.spec_day_number();
        let ghost span = search_span(dates.spec_excluded_dates().len() as int);
        let mut inner: Vec<Team> = Vec::new();
        let mut p: usize = 0;
        while p < m
            invariant
                p <= m,
                m == order@.len(),
                t == teams@.len(),
                inner@.len() == p,
                forall|q: int| 0 <= q < p ==> #[trigger] inner@[q]@ == entrant(teams@, order@, q),
            decreases m - p,
        {
            let x = order[p];
            if x < t {
                inner.push(teams[x].duplicate());
            } else {
                inner.push(Team::bye());
            }
            p = p + 1;
        }
        assert forall|q: int| 0 <= q < m implies #[trigger] inner@[q]@ == entrant(
            teams@,
            order@,
            circle_index(m as int, 0, q),
        ) by {
            lemma_circle_start(m as int, q);
        }
        assert(m * (1 + span) >= span) by (nonlinear_arith)
            requires
                m >= 1,
                span >= 0,
        ;
        let date_configuration = season_config.date_configuration();
        let time_configuration = season_config.time_configuration();
        let mut game_day_scheduler = match GameDayScheduler::new(
            start_date,
            date_configuration.game_days(),
            date_configuration.excluded_dates(),
        ) {
            Ok(scheduler) => scheduler,
            Err(e) => {
                return Err(e);
            },
        };
        proof {
            lemma_first_playable_is(game_day_scheduler.spec_current_day().spec_day_number(), start, *season_config);
        }
        let interval = time_configuration.interval_between_games();
        let mut game_time_scheduler = GameTimeScheduler::new(
            leg_start_time,
            &interval,
            time_configuration.game_duration(),
            season_config.number_fields(),
            time_configuration.start_break(),
            time_configuration.end_break(),
        );
        let mut schedule: Vec<Game> = Vec::new();
        let mut round: usize = 0;
        while round < m - 1
            invariant
                leg_setup(teams@, order@, *season_config, *leg_start_time),
                m == order@.len(),
                half == m / 2,
                round <= m - 1,
                dates == season_config.spec_dates(),
                start == start_date.spec_day_number(),
                span == search_span(dates.spec_excluded_dates().len() as int),
                start + m * (1 + span) <= MAX_DAY_NUMBER,
                inner@.len() == m,
                forall|q: int|
                    0 <= q < m ==> #[trigger] inner@[q]@ == entrant(
                        teams@,
                        order@,
                        circle_index(m as int, round as int, q),
                    ),
                game_day_scheduler.spec_game_days() == dates.spec_game_days(),
                game_day_scheduler.spec_excluded_dates() == dates.spec_excluded_dates(),
                dates.spec_game_days().len() > 0,
                game_day_scheduler.spec_current_day().spec_day_number() <= start + span + round * (1
                    + span),
                is_first_playable_from(
                    game_day_scheduler.spec_current_day().spec_day_number(),
                    if round == 0 {
                        start
                    } else {
                        game_of(schedule@, half as int, round - 1, 0)@.day + 1
                    },
                    dates.spec_game_days(),
                    dates.spec_excluded_dates(),
                ),
                scheduler_for_leg(game_time_scheduler, *season_config, *leg_start_time),
                game_day_scheduler.spec_current_day().spec_day_number() == leg_round_day(
                    start,
                    *season_config,
                    round as nat,
                ),
                forall|r2: int, i2: int|
                    0 <= r2 < round && 0 <= i2 < half ==> #[trigger] leg_slot_is_unique(
                        teams@,
                        order@,
                        start,
                        *season_config,
                        leg_start_time.minutes(),
                        r2,
                        i2,
                    ),
                schedule@.len() == round * half,
                forall|r: int, i: int|
                    0 <= r < round && 0 <= i < half ==> is_leg_game(
                        #[trigger] scheduled_game(schedule@, half as int, r, i),
                        schedule@,
                        teams@,
                        order@,
                        start,
                        *season_config,
                        leg_start_time.minutes(),
                        r,
                        i,
                    ),
            decreases m - 1 - round,
        {
            let ghost previous = schedule@;
            let ghost round_day = game_day_scheduler.spec_current_day().spec_day_number();
            assert(round_day + 1 + span <= MAX_DAY_NUMBER) by (nonlinear_arith)
                requires
                    round_day <= start + span + round * (1 + span),
                    round + 2 <= m,
                    span >= 0,
                    start + m * (1 + span) <= MAX_DAY_NUMBER,
            ;
            match Self::schedule_round(
                teams,
                order,
                &inner,
                round,
                season_config,
                leg_start_time,
                &mut game_day_scheduler,
                &mut game_time_scheduler,
                &mut schedule,
            ) {
                Ok(()) => {},
                Err(e) => {
                    proof {
                        let i = choose|i: int|
                            #![trigger leg_time_is_unique(round_day, teams@, order@, *season_config, leg_start_time.minutes(), round as int, i)]
                            {
                                &&& 0 <= i < half
                                &&& !leg_time_is_unique(
                                    round_day,
                                    teams@,
                                    order@,
                                    *season_config,
                                    leg_start_time.minutes(),
                                    round as int,
                                    i,
                                )
                                &&& forall|j: int|
                                    0 <= j < i ==> #[trigger] leg_time_is_unique(
                                        round_day,
                                        teams@,
                                        order@,
                                        *season_config,
                                        leg_start_time.minutes(),
                                        round as int,
                                        j,
                                    )
                                &&& e == AppError::InvalidGameDay(
                                    game_day_scheduler.spec_current_day(),
                                    GameTime::of_minutes(
                                        leg_game_minutes(teams@, order@, *season_config, leg_start_time.minutes(), round as int, i),
                                    ),
                                )
                            };
                        assert(!leg_slot_is_unique(
                            teams@,
                            order@,
                            start,
                            *season_config,
                            leg_start_time.minutes(),
                            round as int,
                            i,
                        ));
                        assert forall|r2: int, i2: int|
                            0 <= r2 < m - 1 && 0 <= i2 < half && (r2 < round || (r2 == round && i2 < i)) implies #[trigger] leg_slot_is_unique(
                            teams@,
                            order@,
                            start,
                            *season_config,
                            leg_start_time.minutes(),
                            r2,
                            i2,
                        ) by {
                            if r2 == round {
                                assert(leg_time_is_unique(
                                    round_day,
                                    teams@,
                                    order@,
                                    *season_config,
                                    leg_start_time.minutes(),
                                    round as int,
                                    i2,
                                ));
                            }
                        }
                        assert(leg_refusal(teams@, order@, start, *season_config, leg_start_time.minutes(), e));
                    }
                    return Err(e);
                },
            }
            proof {
                assert forall|r2: int, i2: int|
                    0 <= r2 < round + 1 && 0 <= i2 < half implies #[trigger] leg_slot_is_unique(
                    teams@,
                    order@,
                    start,
                    *season_config,
                    leg_start_time.minutes(),
                    r2,
                    i2,
                ) by {
                    if r2 == round {
                        assert(leg_time_is_unique(
                            round_day,
                            teams@,
                            order@,
                            *season_config,
                            leg_start_time.minutes(),
                            round as int,
                            i2,
                        ));
                    }
                }
                lemma_round_appended(
                    previous,
                    schedule@,
                    teams@,
                    order@,
                    start,
                    *season_config,
                    leg_start_time.minutes(),
                    round as int,
                    round_day,
                );
            }
            let _ = game_day_scheduler.advance();
            proof {
                lemma_first_playable_is(
                    game_day_scheduler.spec_current_day().spec_day_number(),
                    round_day + 1,
                    *season_config,
                );
            }
            Self::rotate_teams(&mut inner);
            proof {
                assert forall|q: int| 0 <= q < m implies #[trigger] inner@[q]@ == entrant(
                    teams@,
                    order@,
                    circle_index(m as int, round + 1, q),
                ) by {
                    lemma_circle_rotate(m as int, round as int, q);
                }
                assert(round_day + 1 + span <= start + span + (round + 1) * (1 + span))
                    by (nonlinear_arith)
                    requires
                        round_day <= start + span + round * (1 + span),
                ;
            }
            round = round + 1;
        }
        Ok(schedule)
    }

    /// Round `round` of a leg: its games, in seat order, on the current day,
    /// at the slots the time scheduler hands out to real games.
    fn schedule_round(
        teams: &[Team],
        order: &[usize],
        inner: &Vec<Team>,
        round: usize,
        season_config: &SeasonConfig,
        leg_start_time: &GameTime,
        game_day_scheduler: &mut GameDayScheduler,
        game_time_scheduler: &mut GameTimeScheduler,
        schedule: &mut Vec<Game>,
    ) -> (r: Result<(), AppError>)
        requires
            leg_setup(teams@, order@, *season_config, *leg_start_time),
            round < order@.len() - 1,
            inner@.len() == order@.len(),
            forall|q: int|
                0 <= q < order@.len() ==> #[trigger] inner@[q]@ == entrant(
                    teams@,
                    order@,
                    circle_index(order@.len() as int, round as int, q),
                ),
            scheduler_for_leg(*old(game_time_scheduler), *season_config, *leg_start_time),
            old(game_day_scheduler).spec_game_days().len() > 0,
            old(game_day_scheduler).spec_current_day().spec_day_number() + 1 + search_span(
                old(game_day_scheduler).spec_excluded_dates().len() as int,
            ) <= MAX_DAY_NUMBER,
            old(schedule)@.len() == round * (order@.len() / 2),
        ensures
            final(game_day_scheduler).spec_game_days() == old(game_day_scheduler).spec_game_days(),
            final(game_day_scheduler).spec_excluded_dates() == old(
                game_day_scheduler,
            ).spec_excluded_dates(),
            final(game_day_scheduler).spec_current_day() == old(
                game_day_scheduler,
            ).spec_current_day(),
            scheduler_for_leg(*final(game_time_scheduler), *season_config, *leg_start_time),
            r is Err ==> is_refused_game_time(r->Err_0),
            r is Ok ==> forall|i: int|
                0 <= i < order@.len() / 2 ==> #[trigger] leg_time_is_unique(
                    old(game_day_scheduler).spec_current_day().spec_day_number(),
                    teams@,
                    order@,
                    *season_config,
                    leg_start_time.minutes(),
                    round as int,
                    i,
                ),
            r is Err ==> exists|i: int|
                #![trigger leg_time_is_unique(old(game_day_scheduler).spec_current_day().spec_day_number(), teams@, order@, *season_config, leg_start_time.minutes(), round as int, i)]
                {
                    &&& 0 <= i < order@.len() / 2
                    &&& !leg_time_is_unique(
                        old(game_day_scheduler).spec_current_day().spec_day_number(),
                        teams@,
                        order@,
                        *season_config,
                        leg_start_time.minutes(),
                        round as int,
                        i,
                    )
                    &&& forall|j: int|
                        0 <= j < i ==> #[trigger] leg_time_is_unique(
                            old(game_day_scheduler).spec_current_day().spec_day_number(),
                            teams@,
                            order@,
                            *season_config,
                            leg_start_time.minutes(),
                            round as int,
                            j,
                        )
                    &&& r->Err_0 == AppError::InvalidGameDay(
                        old(game_day_scheduler).spec_current_day(),
                        GameTime::of_minutes(
                            leg_game_minutes(teams@, order@, *season_config, leg_start_time.minutes(), round as int, i),
                        ),
                    )
                },
            r is Ok ==> {
                let half = order@.len() as int / 2;
                &&& final(schedule)@.len() == round * half + half
                &&& forall|k: int|
                    0 <= k < round * half ==> #[trigger] final(schedule)@[k] == old(schedule)@[k]
                &&& forall|i: int|
                    0 <= i < half ==> leg_game_matches(
                        #[trigger] game_of(final(schedule)@, half, round as int, i),
                        teams@,
                        order@,
                        *season_config,
                        leg_start_time.minutes(),
                        round as int,
                        i,
                    ) && game_of(final(schedule)@, half, round as int, i)@.day == old(
                        game_day_scheduler,
                    ).spec_current_day().spec_day_number()
            },
    {
        let t = teams.len();
        let m = order.len();
        let half = m / 2;
        let fields = season_config.number_fields();
        let ghost times = season_config.spec_time();
        let ghost per_leg = games_per_round(t as int);
        let ghost usable = div_ceil(per_leg, fields as int) <= counted_slots(
            times,
            leg_start_time.minutes(),
            true,
            0,
        );
        let ghost round_day = game_day_scheduler.spec_current_day();
        let ghost previous = schedule@;
        let ghost mut slot: nat = 0;
        proof {
            lemma_leg_order_facts(order@, t as int);
            if t % 2 == 1 {
                lemma_round_has_bye(teams@, order@, round as int);
            }
        }
        game_time_scheduler.reset();
        let mut i: usize = 0;
        while i < half
            invariant
                leg_setup(teams@, order@, *season_config, *leg_start_time),
                m == order@.len(),
                t == teams@.len(),
                half == m / 2,
                round < m - 1,
                i <= half,
                fields == season_config.spec_number_fields(),
                times == season_config.spec_time(),
                per_leg == games_per_round(t as int),
                div_ceil(per_leg, fields as int) <= counted_slots(
                    times,
                    leg_start_time.minutes(),
                    usable,
                    0,
                ),
                t % 2 == 1 ==> exists|j: int|
                    0 <= j < half && leg_game_is_bye(teams@, order@, round as int, j),
                inner@.len() == m,
                forall|q: int|
                    0 <= q < m ==> #[trigger] inner@[q]@ == entrant(
                        teams@,
                        order@,
                        circle_index(m as int, round as int, q),
                    ),
                game_day_scheduler.spec_game_days() == old(game_day_scheduler).spec_game_days(),
                game_day_scheduler.spec_excluded_dates() == old(
                    game_day_scheduler,
                ).spec_excluded_dates(),
                game_day_scheduler.spec_game_days().len() > 0,
                game_day_scheduler.spec_current_day() == round_day,
                round_day == old(game_day_scheduler).spec_current_day(),
                round_day.spec_day_number() + 1 + search_span(
                    game_day_scheduler.spec_excluded_dates().len() as int,
                ) <= MAX_DAY_NUMBER,
                scheduler_for_leg(*game_time_scheduler, *season_config, *leg_start_time),
                game_time_scheduler.spec_current_time().minutes() == leg_slot(
                    times,
                    leg_start_time.minutes(),
                    slot,
                ),
                real_games_before(teams@, order@, round as int, i as int) == slot * fields
                    + game_time_scheduler.spec_games_per_time() - 1,
                schedule@.len() == round * half + i,
                forall|k: int| 0 <= k < round * half ==> #[trigger] schedule@[k] == previous[k],
                forall|j: int|
                    0 <= j < i ==> #[trigger] leg_time_is_unique(
                        round_day.spec_day_number(),
                        teams@,
                        order@,
                        *season_config,
                        leg_start_time.minutes(),
                        round as int,
                        j,
                    ),
                forall|j: int|
                    0 <= j < i ==> leg_game_matches(
                        #[trigger] game_of(schedule@, half as int, round as int, j),
                        teams@,
                        order@,
                        *season_config,
                        leg_start_time.minutes(),
                        round as int,
                        j,
                    ) && game_of(schedule@, half as int, round as int, j)@.day
                        == round_day.spec_day_number(),
            decreases half - i,
        {
            proof {
                lemma_circle_index_range(m as int, round as int, i as int);
                lemma_circle_index_range(m as int, round as int, m - 1 - i);
            }
            let home_team = inner[i].duplicate();
            let away_team = inner[m - 1 - i].duplicate();
            let is_bye = home_team.is_bye() || away_team.is_bye();
            assert(is_bye == leg_game_is_bye(teams@, order@, round as int, i as int));
            let ghost counted_here = real_games_before(teams@, order@, round as int, i as int);
            proof {
                vstd::arithmetic::div_mod::lemma_fundamental_div_mod_converse(
                    counted_here,
                    fields as int,
                    slot as int,
                    game_time_scheduler.spec_games_per_time() - 1,
                );
            }
            if !is_bye {
                proof {
                    lemma_real_games_monotone(teams@, order@, round as int, i + 1, half as int);
                    assert(real_games_before(teams@, order@, round as int, i + 1) == counted_here
                        + 1);
                    if t % 2 == 1 {
                        let j = choose|j: int|
                            0 <= j < half && leg_game_is_bye(teams@, order@, round as int, j);
                        lemma_real_games_bounds(teams@, order@, round as int, half as int, j);
                    } else {
                        lemma_real_games_bounds(teams@, order@, round as int, half as int, 0);
                    }
                    lemma_slot_within(
                        counted_here,
                        fields as int,
                        slot as int,
                        game_time_scheduler.spec_games_per_time() - 1,
                        per_leg,
                    );
                    lemma_counted_slots_fit(times, leg_start_time.minutes(), usable, 0, slot);
                    assert(!game_time_scheduler.past_hard_stop_at(
                        game_time_scheduler.spec_current_time().minutes(),
                    ));
                }
                let _ = game_day_scheduler.advance_if_past_hard_stop(game_time_scheduler);
            }
            let game_day = *game_day_scheduler.current_day();
            let game_time = *game_time_scheduler.current_time();
            proof {
                assert(game_time.minutes() == leg_game_minutes(
                    teams@,
                    order@,
                    *season_config,
                    leg_start_time.minutes(),
                    round as int,
                    i as int,
                ));
                game_time.lemma_of_minutes_exact();
            }
            let game = match Game::new_with_game_day(
                home_team,
                away_team,
                game_day,
                game_time,
                None,
            ) {
                Ok(game) => game,
                Err(e) => {
                    proof {
                        assert(!leg_time_is_unique(
                            round_day.spec_day_number(),
                            teams@,
                            order@,
                            *season_config,
                            leg_start_time.minutes(),
                            round as int,
                            i as int,
                        ));
                    }
                    return Err(e);
                },
            };
            proof {
                assert(leg_time_is_unique(
                    round_day.spec_day_number(),
                    teams@,
                    order@,
                    *season_config,
                    leg_start_time.minutes(),
                    round as int,
                    i as int,
                ));
            }
            let ghost before_push = schedule@;
            schedule.push(game);
            let ghost games_per_time = game_time_scheduler.spec_games_per_time();
            if !is_bye {
                game_time_scheduler.try_advance();
                proof {
                    if games_per_time == fields {
                        assert(slot * fields + fields == (slot + 1) * fields) by (nonlinear_arith);
                        slot = slot + 1;
                    }
                }
            }
            proof {
                assert(game_of(schedule@, half as int, round as int, i as int) == game);
                assert forall|j: int| 0 <= j < i implies #[trigger] game_of(
                    schedule@,
                    half as int,
                    round as int,
                    j,
                ) == game_of(before_push, half as int, round as int, j) by {}
            }
            i = i + 1;
        }
        Ok(())
    }
}

impl RoundRobin {
    pub fn name(&self) -> (r: String)
        ensures
            r@ == "Round Robin"@,
    {
        "Round Robin".to_owned()
    }

    /// Counts the slots a one-field probe scheduler finds from `leg_start`
    /// before a game would end past the hard stop (or, when `before_break`
    /// holds, start at or after the break), giving up after a day's worth
    /// of minutes.
    fn count_slots(season_config: &SeasonConfig, leg_start: &GameTime, before_break: bool) -> (r:
        u32)
        ensures
            r == counted_slots(
                season_config.spec_time(),
                leg_start.minutes(),
                before_break,
                0,
            ),
            r <= 1440,
    {
        let times = season_config.time_configuration();
        let interval = times.interval_between_games();
        let mut probe = GameTimeScheduler::new(
            leg_start,
            &interval,
            times.game_duration(),
            1,
            times.start_break(),
            times.end_break(),
        );
        let ghost initial = probe;
        let mut slots: u32 = 0;
        while slots < 1440
            invariant
                slots <= 1440,
                probe.wf(),
                probe.same_parameters(&initial),
                probe.spec_number_of_fields() == 1,
                probe.spec_games_per_time() == 1,
                initial.spec_start_time() == *leg_start,
                initial.spec_interval().minutes() == times.spec_interval(),
                initial.spec_game_duration() == times.spec_game_duration(),
                initial.spec_start_break() == times.spec_start_break(),
                initial.spec_end_break() == times.spec_end_break(),
                initial.spec_hard_stop() == hard_stop_minutes(
                    leg_start.minutes(),
                    times.spec_start_break().minutes(),
                    times.spec_end_break().minutes(),
                ),
                *times == season_config.spec_time(),
                probe.spec_current_time().minutes() == leg_slot(
                    *times,
                    leg_start.minutes(),
                    slots as nat,
                ),
                forall|s: nat|
                    s < slots ==> #[trigger] slot_is_usable(
                        *times,
                        leg_start.minutes(),
                        before_break,
                        s,
                    ),
            decreases 1440 - slots,
        {
            if probe.is_past_hard_stop() || (before_break && !probe.current_time().is_before(
                times.start_break(),
            )) {
                proof {
                    lemma_counted_prefix(*times, leg_start.minutes(), before_break, slots as nat);
                }
                return slots;
            }
            slots = slots + 1;
            probe.try_advance();
        }
        proof {
            lemma_counted_prefix(*times, leg_start.minutes(), before_break, 1440);
        }
        slots
    }

    /// Counts the distinct time slots strictly before the break, for the leg
    /// that starts at the season's start time.
    fn available_slots_before_break(&self, season_config: &SeasonConfig) -> (r: u32)
        ensures
            r == slots_before_break(season_config.spec_time()),
            r <= 1440,
    {
        Self::count_slots(season_config, season_config.time_configuration().start_time(), true)
    }

    /// Counts the distinct time slots from the end of the break on, for the
    /// leg that starts there.
    fn available_slots_after_break(&self, season_config: &SeasonConfig) -> (r: u32)
        ensures
            r == slots_after_break(season_config.spec_time()),
            r <= 1440,
    {
        Self::count_slots(season_config, season_config.time_configuration().end_break(), false)
    }

    /// Refuses a season without a field, with fewer than four teams (once a
    /// team sits out, too few remain to give every team two different
    /// opponents on a match day), or whose day cannot hold one leg's round on
    /// each side of the break.
    pub fn validate_parameters(&self, teams: &[Team], season_config: &SeasonConfig) -> (r: Result<
        (),
        AppError,
    >)
        ensures
            r == round_robin_validation(teams@.len() as int, *season_config),
    {
        let fields = season_config.number_fields();
        if fields < 1 {
            return Err(AppError::InvalidNumberOfFields(fields));
        }
        if teams.len() < 4 {
            return Err(AppError::NotEnoughTeams(teams.len(), 4));
        }
        let games_per_leg = teams.len() as u32 / 2;
        let slots_per_leg = games_per_leg / fields + if games_per_leg % fields != 0 {
            1
        } else {
            0
        };
        assert(slots_per_leg == div_ceil(games_per_leg as int, fields as int)) by (nonlinear_arith)
            requires
                fields >= 1,
                slots_per_leg == games_per_leg / fields + if games_per_leg % fields != 0 {
                    1int
                } else {
                    0int
                },
        ;
        let slots_before_break = self.available_slots_before_break(season_config);
        let slots_after_break = self.available_slots_after_break(season_config);
        let available_slots = if slots_before_break <= slots_after_break {
            slots_before_break
        } else {
            slots_after_break
        };
        if slots_per_leg > available_slots {
            return Err(AppError::InsufficientDailyCapacity(slots_per_leg, available_slots));
        }
        Ok(())
    }
}

} // verus!
