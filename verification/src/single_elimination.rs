use vstd::prelude::*;

use crate::calendar::{Date, MAX_DAY_NUMBER};
use crate::error::AppError;
use crate::game::Game;
use crate::game_day_scheduler::{is_first_playable_from, search_span, GameDayScheduler};
use crate::game_time::{decimal_value, digit_char, law_digit_char_reads_back, to_digit_char, GameTime};
use crate::game_time_scheduler::{hard_stop_minutes, next_slot_minutes, GameTimeScheduler};
use crate::referees::{game_views, team_views};
use crate::round_robin::is_refused_game_time;
use crate::season_config::SeasonConfig;
use crate::team::{seed_or_zero, Team, TeamView, BYE_NAME};
use crate::text::push_char;

verus! {

/// The playoff: a single-elimination bracket, its size the smallest power of
/// two that holds every team, the best seeds getting the first-round byes.
pub struct SingleElimination {
    anonymous: bool,
}

/// What checking the parameters of a single elimination gives: at least two
/// teams and at least one field.
pub open spec fn single_elimination_validation(teams_len: int, season_config: SeasonConfig) -> Result<
    (),
    AppError,
> {
    if teams_len < 2 {
        Err(AppError::NotEnoughTeams(teams_len as usize, 2))
    } else if season_config.spec_number_fields() < 1 {
        Err(AppError::InvalidNumberOfFields(season_config.spec_number_fields()))
    } else {
        Ok(())
    }
}

/// The number `value` written in decimal digits.
pub open spec fn decimal_text(value: nat) -> Seq<char>
    decreases value,
{
    if value < 10 {
        seq![digit_char(value as int)]
    } else {
        decimal_text(value / 10).push(digit_char((value % 10) as int))
    }
}

/// Law of the written numbers: `value` in decimal reads back as `value`,
/// every character of it is a digit, and it has no leading zero.
pub proof fn law_decimal_text_reads_back(value: nat)
    ensures
        decimal_value(decimal_text(value)) == value,
        decimal_text(value).len() >= 1,
        forall|i: int|
            0 <= i < decimal_text(value).len() ==> '0' as int <= #[trigger] decimal_text(value)[i] as int
                <= '9' as int,
        value > 0 ==> decimal_text(value)[0] != '0',
    decreases value,
{
    let text = decimal_text(value);
    law_digit_char_reads_back((value % 10) as int);
    if value < 10 {
        assert(text.drop_last() =~= Seq::<char>::empty());
    } else {
        law_decimal_text_reads_back(value / 10);
        let rest = decimal_text(value / 10);
        assert(text.drop_last() =~= rest);
        assert(text[0] == rest[0]);
        assert forall|i: int| 0 <= i < text.len() implies '0' as int <= #[trigger] text[i] as int <= '9' as int by {
            if i < rest.len() {
                assert(text[i] == rest[i]);
            }
        }
    }
}

/// Law of the anonymous entrants: entrant `i` of an anonymous bracket is
/// named by its number, `i + 1`, written in decimal.
pub proof fn law_anonymous_names_read_back(n: int, i: int)
    requires
        0 <= i < n,
    ensures
        decimal_value(anonymous_entrants(n)[i].0) == i + 1,
{
    law_decimal_text_reads_back((i + 1) as nat);
}

/// `value` written in decimal digits.
fn to_decimal(value: usize) -> (r: String)
    ensures
        r@ == decimal_text(value as nat),
    decreases value,
{
    if value < 10 {
        let mut text = String::new();
        push_char(&mut text, to_digit_char(value as u8));
        text
    } else {
        let mut text = to_decimal(value / 10);
        push_char(&mut text, to_digit_char((value % 10) as u8));
        text
    }
}

/// The entrants of an anonymous bracket of `n` teams: teams named `1` to
/// `n`, team `v` with seed `n - v`.
pub open spec fn anonymous_entrants(n: int) -> Seq<TeamView> {
    Seq::new(n as nat, |i: int| (decimal_text((i + 1) as nat), Some((n - (i + 1)) as u32)))
}

/// `output` is `input` sorted by seed, an absent seed counting as 0, teams
/// with equal seeds keeping their order: `output[k]` is `input[perm[k]]` for
/// a permutation `perm` along which seeds never decrease, and along which
/// equal seeds keep their input order.
pub open spec fn is_seed_sorted_by(
    input: Seq<TeamView>,
    output: Seq<TeamView>,
    perm: Seq<int>,
) -> bool {
    &&& output.len() == input.len()
    &&& perm.len() == input.len()
    &&& forall|k: int| 0 <= k < perm.len() ==> 0 <= #[trigger] perm[k] < input.len()
    &&& forall|k: int| 0 <= k < perm.len() ==> #[trigger] output[k] == input[perm[k]]
    &&& forall|k1: int, k2: int|
        0 <= k1 < perm.len() && 0 <= k2 < perm.len() && k1 != k2 ==> #[trigger] perm[k1]
            != #[trigger] perm[k2]
    &&& forall|k1: int, k2: int|
        0 <= k1 < k2 < perm.len() ==> seed_or_zero((#[trigger] output[k1]).1) < seed_or_zero(
            (#[trigger] output[k2]).1,
        ) || (seed_or_zero(output[k1].1) == seed_or_zero(output[k2].1) && perm[k1] < perm[k2])
}

/// `output` is `input` sorted by seed, stably.
pub open spec fn is_seed_sorted(input: Seq<TeamView>, output: Seq<TeamView>) -> bool {
    exists|perm: Seq<int>| #[trigger] is_seed_sorted_by(input, output, perm)
}

/// The teams sorted by seed, an absent seed counting as 0; teams with equal
/// seeds keep their order.
fn sort_by_seed(teams: &[Team]) -> (r: Vec<Team>)
    ensures
        is_seed_sorted(team_views(teams@), team_views(r@)),
{
    let ghost input = team_views(teams@);
    let mut sorted: Vec<Team> = Vec::new();
    let ghost mut perm: Seq<int> = seq![];
    let mut i: usize = 0;
    while i < teams.len()
        invariant
            i <= teams@.len(),
            input == team_views(teams@),
            is_seed_sorted_by(input.take(i as int), team_views(sorted@), perm),
        decreases teams@.len() - i,
    {
        let team = &teams[i];
        let key = team.get_seed();
        // Insert after every team whose seed is at most `key`.
        let mut p: usize = sorted.len();
        while p > 0 && key < sorted[p - 1].get_seed()
            invariant
                p <= sorted@.len(),
                forall|k: int| p <= k < sorted@.len() ==> key < seed_or_zero(#[trigger] sorted@[k]@.1),
            decreases p,
        {
            p = p - 1;
        }
        let ghost old_views = team_views(sorted@);
        let ghost old_perm = perm;
        sorted.insert(p, team.duplicate());
        proof {
            perm = old_perm.insert(p as int, i as int);
            let new_views = team_views(sorted@);
            assert(new_views =~= old_views.insert(p as int, input[i as int]));
            assert(input.take(i + 1) =~= input.take(i as int).push(input[i as int]));
            assert forall|k1: int, k2: int|
                0 <= k1 < k2 < perm.len() implies seed_or_zero((#[trigger] new_views[k1]).1) < seed_or_zero(
                (#[trigger] new_views[k2]).1,
            ) || (seed_or_zero(new_views[k1].1) == seed_or_zero(new_views[k2].1) && perm[k1]
                < perm[k2]) by {
                if k1 < p && k2 == p {
                    if k1 + 1 <= p - 1 {
                        assert(seed_or_zero(old_views[k1].1) <= seed_or_zero(old_views[p - 1].1));
                    }
                } else if k1 == p && k2 > p {
                    assert(old_perm[k2 - 1] < i);
                } else if k1 < p && k2 > p {
                    assert(old_views[k1] == new_views[k1]);
                    assert(old_views[k2 - 1] == new_views[k2]);
                } else if k1 > p {
                    assert(old_views[k1 - 1] == new_views[k1]);
                    assert(old_views[k2 - 1] == new_views[k2]);
                }
            }
            assert(is_seed_sorted_by(input.take(i + 1), new_views, perm));
        }
        i = i + 1;
    }
    assert(input.take(teams@.len() as int) =~= input);
    sorted
}

impl SingleElimination {
    pub fn new(anonymous: bool) -> (r: SingleElimination)
        ensures
            r.spec_anonymous() == anonymous,
    {
        SingleElimination { anonymous }
    }

    pub closed spec fn spec_anonymous(&self) -> bool {
        self.anonymous
    }

    /// Whether the schedule names the teams `1` to `n` rather than by their
    /// own names.
    pub fn is_anonymous(&self) -> (r: bool)
        ensures
            r == self.spec_anonymous(),
    {
        self.anonymous
    }

    pub fn name(&self) -> (r: String)
        ensures
            r@ == "Single Elimination"@,
    {
        "Single Elimination".to_owned()
    }

    /// Refuses a bracket of fewer than two teams or without a field.
    pub fn validate_parameters(&self, teams: &[Team], season_config: &SeasonConfig) -> (r: Result<
        (),
        AppError,
    >)
        ensures
            r == single_elimination_validation(teams@.len() as int, *season_config),
    {
        if teams.len() < 2 {
            return Err(AppError::NotEnoughTeams(teams.len(), 2));
        }
        let number_fields = season_config.number_fields();
        if number_fields < 1 {
            return Err(AppError::InvalidNumberOfFields(number_fields));
        }
        Ok(())
    }
}

/// The stand-in for the winner of a first-round game that meets a team that
/// had a bye.
pub const WINNER_PREVIOUS_NAME: &'static str = "WinnerPrevious";

/// The stand-in for the home side's undecided winner.
pub const WINNER_A_NAME: &'static str = "WinnerA";

/// The stand-in for the away side's undecided winner.
pub const WINNER_B_NAME: &'static str = "WinnerB";

/// The view of a stand-in team named `name`.
pub open spec fn stand_in(name: &str) -> TeamView {
    (name@, None)
}

/// The smallest power of two, from `power` on by doubling, that is at least
/// `n`.
pub open spec fn power_of_two_from(n: int, power: int) -> int
    decreases (if power < n {
        n - power
    } else {
        0
    }),
{
    if power <= 0 || power >= n {
        power
    } else {
        power_of_two_from(n, power * 2)
    }
}

/// The size of the bracket for `n` teams: the smallest power of two at least
/// `n`.
pub open spec fn bracket_size(n: int) -> int {
    power_of_two_from(n, 1)
}

/// The first round: each of the `byes` best entrants against the bye, then
/// the rest paired from the outside in.
pub open spec fn first_round(inner: Seq<TeamView>, n: int, byes: int) -> Seq<(TeamView, TeamView)> {
    Seq::new(byes as nat, |k: int| (inner[k], stand_in(BYE_NAME)))
        + Seq::new(((n - byes) / 2) as nat, |o: int| (inner[byes + o], inner[n - 1 - o]))
}

/// The second round: the teams that had a bye, two by two; an odd one out
/// against the winner of a first-round game; the other first-round winners
/// against each other.
pub open spec fn second_round(inner: Seq<TeamView>, byes: int, first_real: int) -> Seq<
    (TeamView, TeamView),
> {
    Seq::new((byes / 2) as nat, |p: int| (inner[2 * p], inner[2 * p + 1])) + (if byes % 2 == 1 {
        seq![(inner[byes - 1], stand_in(WINNER_PREVIOUS_NAME))]
    } else {
        seq![]
    }) + Seq::new(
        ((first_real - byes % 2) / 2) as nat,
        |i: int| (stand_in(WINNER_A_NAME), stand_in(WINNER_B_NAME)),
    )
}

/// The rounds after a round of `games` games: each has half as many games
/// as the one before, down to the final.
pub open spec fn later_rounds(games: nat) -> Seq<(TeamView, TeamView)>
    decreases games,
{
    if games <= 1 {
        seq![]
    } else {
        Seq::new(games / 2, |i: int| (stand_in(WINNER_A_NAME), stand_in(WINNER_B_NAME)))
            + later_rounds(games / 2)
    }
}

/// Who meets whom in the bracket of the entrants `inner`, game by game:
/// `n` teams in a bracket of the next power of two, the missing places
/// byes.
pub open spec fn bracket_pairings(inner: Seq<TeamView>, n: int) -> Seq<(TeamView, TeamView)> {
    let bracket = bracket_size(n);
    let byes = bracket - n;
    let first_real = (n - byes) / 2;
    first_round(inner, n, byes) + second_round(inner, byes, first_real) + later_rounds(
        (bracket / 4) as nat,
    )
}

proof fn lemma_later_rounds_len(games: nat)
    ensures
        later_rounds(games).len() <= games,
    decreases games,
{
    if games > 1 {
        lemma_later_rounds_len(games / 2);
    }
}

/// `k` is where a round after the second starts, counting from the start of
/// the third round, among rounds that follow a round of `games` games.
pub open spec fn starts_later_round(games: nat, k: int) -> bool
    decreases games,
{
    if games <= 1 {
        false
    } else {
        k == 0 || starts_later_round(games / 2, k - games / 2)
    }
}

/// Game `k` of a bracket of `bracket` places is the first game of a round
/// after the first.
pub open spec fn starts_round(bracket: int, k: int) -> bool {
    k == bracket / 2 || starts_later_round(
        (bracket / 4) as nat,
        k - (bracket / 2 + bracket / 4),
    )
}

/// The pairs of a list of games: home side and away side.
pub open spec fn game_pairs(games: Seq<crate::game::GameView>) -> Seq<(TeamView, TeamView)> {
    games.map_values(|g: crate::game::GameView| (g.home, g.away))
}

/// The entrants of the bracket: the teams `1` to `n` when anonymous, else
/// the teams sorted by seed.
pub open spec fn bracket_entrants(anonymous: bool, teams: Seq<Team>, inner: Seq<TeamView>) -> bool {
    if anonymous {
        inner == anonymous_entrants(teams.len() as int)
    } else {
        is_seed_sorted(team_views(teams), inner)
    }
}

/// What a single-elimination schedule of the entrants `inner` is: the
/// bracket's games in order, without referees; the byes at midnight on the
/// first playable day from `start`; every game on a playable day, days never
/// going back, and each round after the first starting on a later day than
/// the game before it; and every game on the day and at the time the
/// bracket's clock gives it.
pub open spec fn is_bracket_schedule(
    games: Seq<crate::game::GameView>,
    inner: Seq<TeamView>,
    n: int,
    start: int,
    season_config: SeasonConfig,
) -> bool {
    let bracket = bracket_size(n);
    let byes = bracket - n;
    let dates = season_config.spec_dates();
    &&& game_pairs(games) == bracket_pairings(inner, n)
    &&& forall|k: int| 0 <= k < games.len() ==> (#[trigger] games[k]).referee is None
    &&& forall|k: int|
        0 <= k < byes && k < games.len() ==> is_first_playable_from(
            (#[trigger] games[k]).day,
            start,
            dates.spec_game_days(),
            dates.spec_excluded_dates(),
        ) && games[k].time == 0
    &&& forall|k: int|
        0 <= k < games.len() ==> start <= (#[trigger] games[k]).day
            && crate::game_day_scheduler::is_playable(
            games[k].day,
            dates.spec_game_days(),
            dates.spec_excluded_dates(),
        )
    &&& forall|k: int| 0 < k < games.len() ==> games[k - 1].day <= (#[trigger] games[k]).day
    &&& forall|k: int|
        0 < k < games.len() && starts_round(bracket, k) ==> games[k - 1].day < (
        #[trigger] games[k]).day
    &&& on_bracket_timeline(games, n, start, season_config)
}

/// The first playable day on or after day `from`.
pub open spec fn first_playable(from: int, season_config: SeasonConfig) -> int {
    choose|d: int|
        is_first_playable_from(
            d,
            from,
            season_config.spec_dates().spec_game_days(),
            season_config.spec_dates().spec_excluded_dates(),
        )
}

/// The start of the next playable day after the clock's day. A clock is a
/// day, the time of the current slot, and how many games that slot holds
/// with the next one.
pub open spec fn next_day_clock(clock: (int, int, int), season_config: SeasonConfig) -> (int, int, int) {
    (
        first_playable(clock.0 + 1, season_config),
        season_config.spec_time().spec_start_time().minutes(),
        1,
    )
}

/// A game starting at minute `time` would end after the day's hard stop.
pub open spec fn ends_past_hard_stop(time: int, season_config: SeasonConfig) -> bool {
    let times = season_config.spec_time();
    time + times.spec_game_duration().minutes() > hard_stop_minutes(
        times.spec_start_time().minutes(),
        times.spec_start_break().minutes(),
        times.spec_end_break().minutes(),
    )
}

/// Where the next real game goes: at the clock, or at the start of the next
/// playable day when it would end after the hard stop.
pub open spec fn game_clock(clock: (int, int, int), season_config: SeasonConfig) -> (int, int, int) {
    if ends_past_hard_stop(clock.1, season_config) {
        next_day_clock(clock, season_config)
    } else {
        clock
    }
}

/// The clock once a game has taken its place at `clock`: the next slot when
/// every field of this one is taken, else one more game in this slot.
pub open spec fn clock_after_game(clock: (int, int, int), season_config: SeasonConfig) -> (int, int, int) {
    let times = season_config.spec_time();
    if clock.2 == season_config.spec_number_fields() {
        (
            clock.0,
            next_slot_minutes(
                clock.1,
                times.spec_interval(),
                times.spec_game_duration().minutes(),
                times.spec_start_break().minutes(),
                times.spec_end_break().minutes(),
            ),
            1,
        )
    } else {
        (clock.0, clock.1, clock.2 + 1)
    }
}

/// The clock when game `k` of the bracket of `n` teams is due, once a new
/// round has moved on to the next playable day.
pub open spec fn bracket_clock(after: (int, int, int), k: int, n: int, season_config: SeasonConfig) -> (
    int,
    int,
    int,
) {
    if starts_round(bracket_size(n), k) {
        next_day_clock(after, season_config)
    } else {
        after
    }
}

/// The clock after the first `k` games of the bracket of `n` teams from day
/// `start`: it starts on the first playable day at the start time; a bye
/// takes no slot, a real game takes the next one.
pub open spec fn clock_after(k: nat, n: int, start: int, season_config: SeasonConfig) -> (int, int, int)
    decreases k,
{
    if k == 0 {
        (first_playable(start, season_config), season_config.spec_time().spec_start_time().minutes(), 1)
    } else {
        let due = bracket_clock(clock_after((k - 1) as nat, n, start, season_config), k - 1, n, season_config);
        if k - 1 < bracket_size(n) - n {
            due
        } else {
            clock_after_game(game_clock(due, season_config), season_config)
        }
    }
}

/// The day and time of game `k` of the bracket of `n` teams from day
/// `start`: a bye at midnight of the current day, a real game where its
/// clock puts it.
pub open spec fn bracket_slot(k: int, n: int, start: int, season_config: SeasonConfig) -> (int, int) {
    let due = bracket_clock(clock_after(k as nat, n, start, season_config), k, n, season_config);
    if k < bracket_size(n) - n {
        (due.0, 0)
    } else {
        let placed = game_clock(due, season_config);
        (placed.0, placed.1)
    }
}

/// Every game of the bracket is on the day and at the time its clock gives.
pub open spec fn on_bracket_timeline(
    games: Seq<crate::game::GameView>,
    n: int,
    start: int,
    season_config: SeasonConfig,
) -> bool {
    forall|k: int|
        0 <= k < games.len() ==> (#[trigger] games[k]).day == bracket_slot(k, n, start, season_config).0
            && games[k].time == bracket_slot(k, n, start, season_config).1
}

/// The clock of the day and time schedulers.
pub open spec fn clock_of(days: GameDayScheduler, times: GameTimeScheduler) -> (int, int, int) {
    (
        days.spec_current_day().spec_day_number(),
        times.spec_current_time().minutes(),
        times.spec_games_per_time() as int,
    )
}

/// The time scheduler works with the season's times and fields.
pub open spec fn times_follow(times: GameTimeScheduler, season_config: SeasonConfig) -> bool {
    let t = season_config.spec_time();
    &&& times.spec_start_time() == t.spec_start_time()
    &&& times.spec_interval().minutes() == t.spec_interval()
    &&& times.spec_game_duration() == t.spec_game_duration()
    &&& times.spec_number_of_fields() == season_config.spec_number_fields()
    &&& times.spec_start_break() == t.spec_start_break()
    &&& times.spec_end_break() == t.spec_end_break()
    &&& times.spec_hard_stop() == hard_stop_minutes(
        t.spec_start_time().minutes(),
        t.spec_start_break().minutes(),
        t.spec_end_break().minutes(),
    )
}

/// How many games the bracket of `n` teams has.
pub open spec fn bracket_game_count(n: int) -> int {
    let bracket = bracket_size(n);
    bracket / 2 + bracket / 4 + later_rounds((bracket / 4) as nat).len()
}

/// Game `k` of the bracket of `n` teams from day `start` falls on a local
/// time that happens exactly once.
pub open spec fn slot_is_unique(k: int, n: int, start: int, season_config: SeasonConfig) -> bool {
    let slot = bracket_slot(k, n, start, season_config);
    let time = GameTime::of_minutes(slot.1);
    crate::game::zurich_local_time_is_unique(slot.0 as i32, time.spec_hour(), time.spec_minute())
}

/// Game `k` is the first game of the bracket whose local time does not
/// happen exactly once.
pub open spec fn first_refused_slot(k: int, n: int, start: int, season_config: SeasonConfig) -> bool {
    &&& 0 <= k < bracket_game_count(n)
    &&& !slot_is_unique(k, n, start, season_config)
    &&& forall|j: int| 0 <= j < k ==> #[trigger] slot_is_unique(j, n, start, season_config)
}

/// `e` refuses the bracket of `n` teams from day `start` at its first game
/// whose local time does not happen exactly once, naming that game's day
/// and time.
pub open spec fn bracket_refusal(n: int, start: int, season_config: SeasonConfig, e: AppError) -> bool {
    exists|k: int|
        #[trigger] first_refused_slot(k, n, start, season_config) && (e matches AppError::InvalidGameDay(
            d,
            t,
        ) && d.spec_day_number() == bracket_slot(k, n, start, season_config).0 && t == GameTime::of_minutes(
            bracket_slot(k, n, start, season_config).1,
        ))
}

/// The games placed so far are on the bracket's timeline, and the clock of
/// the schedulers is the bracket's after them, moved on to the next
/// playable day when `fresh_day` holds.
pub open spec fn on_bracket_clock(
    games: Seq<Game>,
    days: GameDayScheduler,
    times: GameTimeScheduler,
    n: int,
    start: int,
    season_config: SeasonConfig,
    fresh_day: bool,
) -> bool {
    let after = clock_after(games.len(), n, start, season_config);
    &&& times_follow(times, season_config)
    &&& days.spec_game_days() == season_config.spec_dates().spec_game_days()
    &&& days.spec_excluded_dates() == season_config.spec_dates().spec_excluded_dates()
    &&& on_bracket_timeline(game_views(games), n, start, season_config)
    &&& forall|j: int| 0 <= j < games.len() ==> #[trigger] slot_is_unique(j, n, start, season_config)
    &&& clock_of(days, times) == if fresh_day {
        next_day_clock(after, season_config)
    } else {
        after
    }
}

/// The first playable day from `from` is the day that `day` is, when `day`
/// is one.
pub(crate) proof fn lemma_first_playable_is(day: int, from: int, season_config: SeasonConfig)
    requires
        is_first_playable_from(
            day,
            from,
            season_config.spec_dates().spec_game_days(),
            season_config.spec_dates().spec_excluded_dates(),
        ),
    ensures
        first_playable(from, season_config) == day,
{
    let d = first_playable(from, season_config);
    crate::double_round_robin::lemma_first_playable_unique(
        d,
        day,
        from,
        season_config.spec_dates().spec_game_days(),
        season_config.spec_dates().spec_excluded_dates(),
    );
}

/// The schedulers as they are set up stand at the bracket's first clock.
proof fn lemma_clock_begins(
    days: GameDayScheduler,
    times: GameTimeScheduler,
    n: int,
    start: int,
    season_config: SeasonConfig,
)
    requires
        times_follow(times, season_config),
        times.spec_current_time() == season_config.spec_time().spec_start_time(),
        times.spec_games_per_time() == 1,
        days.spec_game_days() == season_config.spec_dates().spec_game_days(),
        days.spec_excluded_dates() == season_config.spec_dates().spec_excluded_dates(),
        is_first_playable_from(
            days.spec_current_day().spec_day_number(),
            start,
            days.spec_game_days(),
            days.spec_excluded_dates(),
        ),
    ensures
        on_bracket_clock(Seq::empty(), days, times, n, start, season_config, false),
{
    lemma_first_playable_is(days.spec_current_day().spec_day_number(), start, season_config);
    assert(game_views(Seq::<Game>::empty()) =~= Seq::<crate::game::GameView>::empty());
}

/// A bye of the bracket is due at midnight of the current day.
proof fn lemma_clock_bye_slot(
    before: Seq<Game>,
    days: GameDayScheduler,
    times: GameTimeScheduler,
    n: int,
    start: int,
    season_config: SeasonConfig,
)
    requires
        on_bracket_clock(before, days, times, n, start, season_config, false),
        before.len() < bracket_size(n) - n,
        !starts_round(bracket_size(n), before.len() as int),
    ensures
        bracket_slot(before.len() as int, n, start, season_config) == (
            days.spec_current_day().spec_day_number(),
            0int,
        ),
{
}

/// Where `place_game` puts the next real game: on the day and at the time
/// its slot on the bracket's timeline gives.
proof fn lemma_clock_attempt(
    before: Seq<Game>,
    days_before: GameDayScheduler,
    days_after: GameDayScheduler,
    times_before: GameTimeScheduler,
    n: int,
    start: int,
    season_config: SeasonConfig,
    fresh_day: bool,
)
    requires
        on_bracket_clock(before, days_before, times_before, n, start, season_config, fresh_day),
        fresh_day == starts_round(bracket_size(n), before.len() as int),
        before.len() >= bracket_size(n) - n,
        times_before.past_hard_stop_at(times_before.spec_current_time().minutes()) ==> is_first_playable_from(
            days_after.spec_current_day().spec_day_number(),
            days_before.spec_current_day().spec_day_number() + 1,
            days_before.spec_game_days(),
            days_before.spec_excluded_dates(),
        ),
        !times_before.past_hard_stop_at(times_before.spec_current_time().minutes())
            ==> days_after.spec_current_day() == days_before.spec_current_day(),
    ensures
        bracket_slot(before.len() as int, n, start, season_config) == (
            days_after.spec_current_day().spec_day_number(),
            if times_before.past_hard_stop_at(times_before.spec_current_time().minutes()) {
                times_before.spec_start_time().minutes()
            } else {
                times_before.spec_current_time().minutes()
            },
        ),
{
    let k = before.len() as int;
    let due = clock_of(days_before, times_before);
    assert(due == bracket_clock(clock_after(k as nat, n, start, season_config), k, n, season_config));
    assert(times_before.past_hard_stop_at(due.1) == ends_past_hard_stop(due.1, season_config));
    if ends_past_hard_stop(due.1, season_config) {
        lemma_first_playable_is(days_after.spec_current_day().spec_day_number(), due.0 + 1, season_config);
    }
}

/// A bye placed at midnight of the current day keeps the bracket on its
/// clock.
proof fn lemma_clock_bye(
    before: Seq<Game>,
    after: Seq<Game>,
    days: GameDayScheduler,
    times: GameTimeScheduler,
    n: int,
    start: int,
    season_config: SeasonConfig,
)
    requires
        on_bracket_clock(before, days, times, n, start, season_config, false),
        before.len() < bracket_size(n) - n,
        !starts_round(bracket_size(n), before.len() as int),
        after.len() == before.len() + 1,
        after.drop_last() == before,
        after.last().spec_date() == days.spec_current_day(),
        after.last()@.time == 0,
        crate::game::zurich_local_time_is_unique(
            days.spec_current_day().spec_day_number() as i32,
            GameTime::of_minutes(0).spec_hour(),
            GameTime::of_minutes(0).spec_minute(),
        ),
    ensures
        on_bracket_clock(after, days, times, n, start, season_config, false),
{
    let k = before.len() as int;
    lemma_clock_bye_slot(before, days, times, n, start, season_config);
    assert forall|j: int| 0 <= j < after.len() implies #[trigger] slot_is_unique(j, n, start, season_config) by {
        if j < k {
            assert(slot_is_unique(j, n, start, season_config));
        }
    }
    let views_b = game_views(before);
    let views_a = game_views(after);
    assert forall|j: int| 0 <= j < views_a.len() implies (#[trigger] views_a[j]).day == bracket_slot(
        j,
        n,
        start,
        season_config,
    ).0 && views_a[j].time == bracket_slot(j, n, start, season_config).1 by {
        if j < k {
            assert(after[j] == before[j]);
            assert(views_b[j] == views_a[j]);
        } else {
            assert(views_a[j] == after.last()@);
        }
    }
}

/// A real game placed by `place_game` keeps the bracket on its clock.
proof fn lemma_clock_game(
    before: Seq<Game>,
    after: Seq<Game>,
    days_before: GameDayScheduler,
    days_after: GameDayScheduler,
    times_before: GameTimeScheduler,
    times_after: GameTimeScheduler,
    n: int,
    start: int,
    season_config: SeasonConfig,
    fresh_day: bool,
)
    requires
        on_bracket_clock(before, days_before, times_before, n, start, season_config, fresh_day),
        fresh_day == starts_round(bracket_size(n), before.len() as int),
        before.len() >= bracket_size(n) - n,
        after.len() == before.len() + 1,
        after.drop_last() == before,
        after.last().spec_date() == days_after.spec_current_day(),
        days_after.spec_game_days() == days_before.spec_game_days(),
        days_after.spec_excluded_dates() == days_before.spec_excluded_dates(),
        times_after.same_parameters(&times_before),
        after.last()@.time == if times_before.past_hard_stop_at(
            times_before.spec_current_time().minutes(),
        ) {
            times_before.spec_start_time().minutes()
        } else {
            times_before.spec_current_time().minutes()
        },
        times_before.past_hard_stop_at(times_before.spec_current_time().minutes()) ==> is_first_playable_from(
            days_after.spec_current_day().spec_day_number(),
            days_before.spec_current_day().spec_day_number() + 1,
            days_before.spec_game_days(),
            days_before.spec_excluded_dates(),
        ),
        !times_before.past_hard_stop_at(times_before.spec_current_time().minutes())
            ==> days_after.spec_current_day() == days_before.spec_current_day(),
        ({
            let moved = times_before.past_hard_stop_at(times_before.spec_current_time().minutes());
            let time = if moved {
                times_before.spec_start_time().minutes()
            } else {
                times_before.spec_current_time().minutes()
            };
            let count = if moved {
                1
            } else {
                times_before.spec_games_per_time() as int
            };
            &&& count == times_before.spec_number_of_fields() ==> times_after.spec_current_time().minutes()
                == times_before.slot_after(time) && times_after.spec_games_per_time() == 1
            &&& count != times_before.spec_number_of_fields() ==> times_after.spec_current_time().minutes()
                == time && times_after.spec_games_per_time() == count + 1
        }),
        crate::game::zurich_local_time_is_unique(
            days_after.spec_current_day().spec_day_number() as i32,
            GameTime::of_minutes(after.last()@.time).spec_hour(),
            GameTime::of_minutes(after.last()@.time).spec_minute(),
        ),
    ensures
        on_bracket_clock(after, days_after, times_after, n, start, season_config, false),
{
    let k = before.len() as int;
    lemma_clock_attempt(before, days_before, days_after, times_before, n, start, season_config, fresh_day);
    assert forall|j: int| 0 <= j < after.len() implies #[trigger] slot_is_unique(j, n, start, season_config) by {
        if j < k {
            assert(slot_is_unique(j, n, start, season_config));
        }
    }
    let due = clock_of(days_before, times_before);
    assert(due == bracket_clock(clock_after(k as nat, n, start, season_config), k, n, season_config));
    assert(times_before.past_hard_stop_at(due.1) == ends_past_hard_stop(due.1, season_config));
    let placed = game_clock(due, season_config);
    if ends_past_hard_stop(due.1, season_config) {
        lemma_first_playable_is(days_after.spec_current_day().spec_day_number(), due.0 + 1, season_config);
    }
    assert(after.last()@.day == placed.0);
    assert(after.last()@.time == placed.1);
    assert(clock_after((k + 1) as nat, n, start, season_config) == clock_after_game(placed, season_config));
    let views_b = game_views(before);
    let views_a = game_views(after);
    assert forall|j: int| 0 <= j < views_a.len() implies (#[trigger] views_a[j]).day == bracket_slot(
        j,
        n,
        start,
        season_config,
    ).0 && views_a[j].time == bracket_slot(j, n, start, season_config).1 by {
        if j < k {
            assert(after[j] == before[j]);
            assert(views_b[j] == views_a[j]);
        } else {
            assert(views_a[j] == after.last()@);
        }
    }
}

/// Moving on to the next playable day and back to the start time between
/// two rounds keeps the bracket on its clock.
proof fn lemma_clock_advance(
    games: Seq<Game>,
    days_before: GameDayScheduler,
    days_after: GameDayScheduler,
    times_before: GameTimeScheduler,
    times_after: GameTimeScheduler,
    n: int,
    start: int,
    season_config: SeasonConfig,
)
    requires
        on_bracket_clock(games, days_before, times_before, n, start, season_config, false),
        days_after.spec_game_days() == days_before.spec_game_days(),
        days_after.spec_excluded_dates() == days_before.spec_excluded_dates(),
        is_first_playable_from(
            days_after.spec_current_day().spec_day_number(),
            days_before.spec_current_day().spec_day_number() + 1,
            days_before.spec_game_days(),
            days_before.spec_excluded_dates(),
        ),
        times_after.same_parameters(&times_before),
        times_after.spec_current_time() == times_before.spec_start_time(),
        times_after.spec_games_per_time() == 1,
    ensures
        on_bracket_clock(games, days_after, times_after, n, start, season_config, true),
{
    lemma_first_playable_is(
        days_after.spec_current_day().spec_day_number(),
        days_before.spec_current_day().spec_day_number() + 1,
        season_config,
    );
}

/// Days the bracket of `n` teams may need from its start on.
pub open spec fn bracket_room(n: int, excluded_len: int) -> int {
    (4 * n + 2) * (1 + search_span(excluded_len))
}

/// Puts the next game on the current day at the next time slot, moving on
/// to the next playable day first when the day has no room left for it.
fn place_game<'a>(
    schedule: &mut Vec<Game>,
    days: &mut GameDayScheduler<'a>,
    times: &mut GameTimeScheduler,
    home: Team,
    away: Team,
) -> (r: Result<(), AppError>)
    requires
        old(times).wf(),
        old(times).spec_number_of_fields() >= 1,
        old(days).spec_game_days().len() > 0,
        old(days).spec_current_day().spec_day_number() + 1 + search_span(
            old(days).spec_excluded_dates().len() as int,
        ) <= MAX_DAY_NUMBER,
    ensures
        final(days).spec_game_days() == old(days).spec_game_days(),
        final(days).spec_excluded_dates() == old(days).spec_excluded_dates(),
        final(times).wf(),
        final(times).same_parameters(&*old(times)),
        final(days).spec_current_day() == old(days).spec_current_day() || is_first_playable_from(
            final(days).spec_current_day().spec_day_number(),
            old(days).spec_current_day().spec_day_number() + 1,
            old(days).spec_game_days(),
            old(days).spec_excluded_dates(),
        ),
        final(days).spec_current_day().spec_day_number() <= old(
            days,
        ).spec_current_day().spec_day_number() + 1 + search_span(
            old(days).spec_excluded_dates().len() as int,
        ),
        r matches Err(e) ==> is_refused_game_time(e),
        ({
            let moved = old(times).past_hard_stop_at(old(times).spec_current_time().minutes());
            let time = GameTime::of_minutes(
                if moved {
                    old(times).spec_start_time().minutes()
                } else {
                    old(times).spec_current_time().minutes()
                },
            );
            &&& r is Err <==> !crate::game::zurich_local_time_is_unique(
                final(days).spec_current_day().spec_day_number() as i32,
                time.spec_hour(),
                time.spec_minute(),
            )
            &&& r matches Err(e) ==> e == AppError::InvalidGameDay(final(days).spec_current_day(), time)
        }),
        r is Ok ==> {
            &&& final(schedule)@.len() == old(schedule)@.len() + 1
            &&& final(schedule)@.drop_last() == old(schedule)@
            &&& final(schedule)@.last()@.home == home@
            &&& final(schedule)@.last()@.away == away@
            &&& final(schedule)@.last()@.referee is None
            &&& final(schedule)@.last().spec_date() == final(days).spec_current_day()
            &&& final(schedule)@.last()@.time == if old(times).past_hard_stop_at(
                old(times).spec_current_time().minutes(),
            ) {
                old(times).spec_start_time().minutes()
            } else {
                old(times).spec_current_time().minutes()
            }
        },
        old(times).past_hard_stop_at(old(times).spec_current_time().minutes()) ==> is_first_playable_from(
            final(days).spec_current_day().spec_day_number(),
            old(days).spec_current_day().spec_day_number() + 1,
            old(days).spec_game_days(),
            old(days).spec_excluded_dates(),
        ),
        !old(times).past_hard_stop_at(old(times).spec_current_time().minutes())
            ==> final(days).spec_current_day() == old(days).spec_current_day(),
        r is Ok ==> ({
            let moved = old(times).past_hard_stop_at(old(times).spec_current_time().minutes());
            let time = if moved {
                old(times).spec_start_time().minutes()
            } else {
                old(times).spec_current_time().minutes()
            };
            let count = if moved {
                1
            } else {
                old(times).spec_games_per_time() as int
            };
            &&& count == old(times).spec_number_of_fields() ==> final(times).spec_current_time().minutes()
                == old(times).slot_after(time) && final(times).spec_games_per_time() == 1
            &&& count != old(times).spec_number_of_fields() ==> final(times).spec_current_time().minutes()
                == time && final(times).spec_games_per_time() == count + 1
        }),
{
    let _ = days.advance_if_past_hard_stop(times);
    let game_day = *days.current_day();
    let game_time = *times.current_time();
    proof {
        game_time.lemma_of_minutes_exact();
    }
    let game = match Game::new_with_game_day(home, away, game_day, game_time, None) {
        Ok(g) => g,
        Err(e) => {
            return Err(e);
        },
    };
    let ghost before = schedule@;
    schedule.push(game);
    assert(schedule@.drop_last() =~= before);
    times.try_advance();
    Ok(())
}

/// The first `games.len()` games of the bracket schedule of `inner` are
/// right, and when `fresh_day` holds the current day is later than the day
/// of the last of them.
#[verifier::opaque]
pub open spec fn bracket_so_far(
    games: Seq<Game>,
    days: GameDayScheduler,
    times: GameTimeScheduler,
    inner: Seq<TeamView>,
    n: int,
    start: int,
    season_config: SeasonConfig,
    budget: int,
    fresh_day: bool,
) -> bool {
    let views = game_views(games);
    let dates = season_config.spec_dates();
    let current = days.spec_current_day().spec_day_number();
    let span = search_span(dates.spec_excluded_dates().len() as int);
    let bracket = bracket_size(n);
    let byes = bracket - n;
    &&& days.spec_game_days() == dates.spec_game_days()
    &&& days.spec_excluded_dates() == dates.spec_excluded_dates()
    &&& dates.spec_game_days().len() > 0
    &&& times.wf()
    &&& times.spec_number_of_fields() >= 1
    &&& inner.len() == n
    &&& views.len() <= bracket_pairings(inner, n).len()
    &&& game_pairs(views) == bracket_pairings(inner, n).take(views.len() as int)
    &&& forall|k: int| 0 <= k < views.len() ==> (#[trigger] views[k]).referee is None
    &&& forall|k: int|
        0 <= k < byes && k < views.len() ==> is_first_playable_from(
            (#[trigger] views[k]).day,
            start,
            dates.spec_game_days(),
            dates.spec_excluded_dates(),
        ) && views[k].time == 0
    &&& forall|k: int|
        0 <= k < views.len() ==> start <= (#[trigger] views[k]).day
            && crate::game_day_scheduler::is_playable(
            views[k].day,
            dates.spec_game_days(),
            dates.spec_excluded_dates(),
        )
    &&& forall|k: int| 0 < k < views.len() ==> views[k - 1].day <= (#[trigger] views[k]).day
    &&& forall|k: int|
        0 < k < views.len() && starts_round(bracket, k) ==> views[k - 1].day < (
        #[trigger] views[k]).day
    &&& start <= current
    &&& crate::game_day_scheduler::is_playable(current, dates.spec_game_days(), dates.spec_excluded_dates())
    &&& views.len() < byes ==> is_first_playable_from(
        current,
        start,
        dates.spec_game_days(),
        dates.spec_excluded_dates(),
    )
    &&& views.len() > 0 ==> views.last().day <= current
    &&& fresh_day && views.len() > 0 ==> views.last().day < current
    &&& budget >= 1
    &&& current + (1 + span) * budget <= MAX_DAY_NUMBER
}

/// A count of places `j` at or past the start of the third round never
/// starts a later round when it lies within a round.
proof fn lemma_starts_later_round_negative(games: nat, k: int)
    requires
        k < 0,
    ensures
        !starts_later_round(games, k),
    decreases games,
{
    if games > 1 {
        lemma_starts_later_round_negative(games / 2, k - games / 2);
    }
}

/// Placing one more game keeps the bracket right.
#[verifier::spinoff_prover]
#[verifier::rlimit(40)]
proof fn lemma_bracket_step(
    before: Seq<Game>,
    after: Seq<Game>,
    days_before: GameDayScheduler,
    days_after: GameDayScheduler,
    times_before: GameTimeScheduler,
    times_after: GameTimeScheduler,
    inner: Seq<TeamView>,
    n: int,
    start: int,
    season_config: SeasonConfig,
    budget: int,
    fresh_day: bool,
)
    requires
        bracket_so_far(before, days_before, times_before, inner, n, start, season_config, budget, fresh_day),
        budget >= 2,
        before.len() < bracket_pairings(inner, n).len(),
        starts_round(bracket_size(n), before.len() as int) ==> fresh_day,
        after.len() == before.len() + 1,
        after.drop_last() == before,
        (after.last()@.home, after.last()@.away) == bracket_pairings(inner, n)[before.len() as int],
        after.last()@.referee is None,
        after.last().spec_date() == days_after.spec_current_day(),
        days_after.spec_game_days() == days_before.spec_game_days(),
        days_after.spec_excluded_dates() == days_before.spec_excluded_dates(),
        times_after.wf(),
        times_after.spec_number_of_fields() >= 1,
        days_after.spec_current_day() == days_before.spec_current_day() || is_first_playable_from(
            days_after.spec_current_day().spec_day_number(),
            days_before.spec_current_day().spec_day_number() + 1,
            days_before.spec_game_days(),
            days_before.spec_excluded_dates(),
        ),
        days_after.spec_current_day().spec_day_number() <= days_before.spec_current_day().spec_day_number() + 1 + search_span(
            days_before.spec_excluded_dates().len() as int,
        ),
        before.len() < bracket_size(n) - n ==> days_after.spec_current_day() == days_before.spec_current_day() && after.last()@.time == 0,
    ensures
        bracket_so_far(after, days_after, times_after, inner, n, start, season_config, budget - 1, false),
{
    reveal(bracket_so_far);
    let views_b = game_views(before);
    let views_a = game_views(after);
    let k = before.len() as int;
    let pairs = bracket_pairings(inner, n);
    let span = search_span(season_config.spec_dates().spec_excluded_dates().len() as int);
    assert forall|j: int| 0 <= j < k implies #[trigger] views_a[j] == views_b[j] by {
        assert(after[j] == before[j]);
    }
    assert(views_a[k] == after.last()@);
    assert(game_pairs(views_a) =~= pairs.take(k + 1)) by {
        assert forall|j: int| 0 <= j < k + 1 implies #[trigger] game_pairs(views_a)[j] == pairs.take(k + 1)[j] by {
            if j < k {
                assert(game_pairs(views_b)[j] == pairs.take(k)[j]);
            }
        }
    }
    let current_b = days_before.spec_current_day().spec_day_number();
    let current_a = days_after.spec_current_day().spec_day_number();
    let dates = season_config.spec_dates();
    let bracket = bracket_size(n);
    let byes = bracket - n;
    assert(views_a[k].day == current_a);
    assert(current_b <= current_a);
    assert(start <= current_a && crate::game_day_scheduler::is_playable(
        current_a,
        dates.spec_game_days(),
        dates.spec_excluded_dates(),
    ));
    assert forall|j: int| 0 <= j < views_a.len() implies (#[trigger] views_a[j]).referee is None by {
        if j < k {
            assert(views_b[j].referee is None);
        }
    }
    assert forall|j: int|
        0 <= j < byes && j < views_a.len() implies is_first_playable_from(
        (#[trigger] views_a[j]).day,
        start,
        dates.spec_game_days(),
        dates.spec_excluded_dates(),
    ) && views_a[j].time == 0 by {
        if j < k {
            assert(views_b[j] == views_a[j]);
        }
    }
    assert forall|j: int|
        0 <= j < views_a.len() implies start <= (#[trigger] views_a[j]).day
        && crate::game_day_scheduler::is_playable(
        views_a[j].day,
        dates.spec_game_days(),
        dates.spec_excluded_dates(),
    ) by {
        if j < k {
            assert(views_b[j] == views_a[j]);
        }
    }
    assert forall|j: int| 0 < j < views_a.len() implies views_a[j - 1].day <= (
    #[trigger] views_a[j]).day by {
        if j < k {
            assert(views_b[j] == views_a[j]);
            assert(views_b[j - 1] == views_a[j - 1]);
            assert(views_b[j - 1].day <= views_b[j].day);
        } else {
            assert(views_b.last() == views_a[j - 1]);
        }
    }
    assert forall|j: int|
        0 < j < views_a.len() && starts_round(bracket, j) implies views_a[j - 1].day < (
        #[trigger] views_a[j]).day by {
        if j < k {
            assert(views_b[j] == views_a[j]);
            assert(views_b[j - 1] == views_a[j - 1]);
            assert(views_b[j - 1].day < views_b[j].day);
        } else {
            assert(views_b.last() == views_a[j - 1]);
        }
    }
    assert((1 + span) * budget == (1 + span) * (budget - 1) + (1 + span)) by (nonlinear_arith);
}

/// Moving on to the next playable day between two rounds keeps the bracket
/// right, and the next game comes on a later day.
proof fn lemma_bracket_advance(
    games: Seq<Game>,
    days_before: GameDayScheduler,
    days_after: GameDayScheduler,
    times_before: GameTimeScheduler,
    times_after: GameTimeScheduler,
    inner: Seq<TeamView>,
    n: int,
    start: int,
    season_config: SeasonConfig,
    budget: int,
    fresh_day: bool,
)
    requires
        bracket_so_far(games, days_before, times_before, inner, n, start, season_config, budget, fresh_day),
        budget >= 2,
        games.len() >= bracket_size(n) - n,
        days_after.spec_game_days() == days_before.spec_game_days(),
        days_after.spec_excluded_dates() == days_before.spec_excluded_dates(),
        times_after.wf(),
        times_after.spec_number_of_fields() >= 1,
        is_first_playable_from(
            days_after.spec_current_day().spec_day_number(),
            days_before.spec_current_day().spec_day_number() + 1,
            days_before.spec_game_days(),
            days_before.spec_excluded_dates(),
        ),
        days_after.spec_current_day().spec_day_number() <= days_before.spec_current_day().spec_day_number() + 1 + search_span(
            days_before.spec_excluded_dates().len() as int,
        ),
    ensures
        bracket_so_far(games, days_after, times_after, inner, n, start, season_config, budget - 1, true),
{
    reveal(bracket_so_far);
    let span = search_span(season_config.spec_dates().spec_excluded_dates().len() as int);
    assert((1 + span) * budget == (1 + span) * (budget - 1) + (1 + span)) by (nonlinear_arith);
}

/// What placing a game or moving on a day needs, from a bracket under way.
proof fn lemma_bracket_room(
    games: Seq<Game>,
    days: GameDayScheduler,
    times: GameTimeScheduler,
    inner: Seq<TeamView>,
    n: int,
    start: int,
    season_config: SeasonConfig,
    budget: int,
    fresh_day: bool,
)
    requires
        bracket_so_far(games, days, times, inner, n, start, season_config, budget, fresh_day),
        budget >= 2,
    ensures
        days.spec_game_days().len() > 0,
        days.spec_game_days() == season_config.spec_dates().spec_game_days(),
        days.spec_excluded_dates() == season_config.spec_dates().spec_excluded_dates(),
        days.spec_current_day().spec_day_number() + 1 + search_span(
            days.spec_excluded_dates().len() as int,
        ) <= MAX_DAY_NUMBER,
        times.wf(),
        times.spec_number_of_fields() >= 1,
        games.len() <= bracket_pairings(inner, n).len(),
{
    reveal(bracket_so_far);
    let span = search_span(season_config.spec_dates().spec_excluded_dates().len() as int);
    assert((1 + span) * budget >= (1 + span) * 2) by (nonlinear_arith)
        requires
            budget >= 2,
            span >= 0,
    ;
}

/// A bracket under way with all its games placed is the bracket schedule.
proof fn lemma_bracket_done(
    games: Seq<Game>,
    days: GameDayScheduler,
    times: GameTimeScheduler,
    inner: Seq<TeamView>,
    n: int,
    start: int,
    season_config: SeasonConfig,
    budget: int,
    fresh_day: bool,
)
    requires
        bracket_so_far(games, days, times, inner, n, start, season_config, budget, fresh_day),
        games.len() == bracket_pairings(inner, n).len(),
        on_bracket_timeline(game_views(games), n, start, season_config),
    ensures
        is_bracket_schedule(game_views(games), inner, n, start, season_config),
{
    reveal(bracket_so_far);
    assert(bracket_pairings(inner, n).take(games.len() as int) =~= bracket_pairings(inner, n));
}

/// The bracket before its first game.
proof fn lemma_bracket_begins(
    days: GameDayScheduler,
    times: GameTimeScheduler,
    inner: Seq<TeamView>,
    n: int,
    start: int,
    season_config: SeasonConfig,
)
    requires
        inner.len() == n,
        n >= 2,
        days.spec_game_days() == season_config.spec_dates().spec_game_days(),
        days.spec_excluded_dates() == season_config.spec_dates().spec_excluded_dates(),
        season_config.spec_dates().spec_game_days().len() > 0,
        times.wf(),
        times.spec_number_of_fields() >= 1,
        is_first_playable_from(
            days.spec_current_day().spec_day_number(),
            start,
            days.spec_game_days(),
            days.spec_excluded_dates(),
        ),
        days.spec_current_day().spec_day_number() <= start + search_span(
            days.spec_excluded_dates().len() as int,
        ),
        start + bracket_room(n, days.spec_excluded_dates().len() as int) <= MAX_DAY_NUMBER,
    ensures
        bracket_so_far(Seq::empty(), days, times, inner, n, start, season_config, 4 * n + 1, false),
{
    reveal(bracket_so_far);
    let span = search_span(season_config.spec_dates().spec_excluded_dates().len() as int);
    assert((1 + span) * (4 * n + 2) == (1 + span) * (4 * n + 1) + (1 + span)) by (nonlinear_arith);
    assert(game_views(Seq::<Game>::empty()) =~= Seq::<crate::game::GameView>::empty());
    assert(game_pairs(game_views(Seq::<Game>::empty())) =~= bracket_pairings(inner, n).take(0));
}

/// Where the games of the bracket of `n` teams stand: a round of `b / 2`
/// games, one of `b / 4`, then the later rounds.
pub(crate) proof fn lemma_bracket_layout(inner: Seq<TeamView>, n: int, b: int)
    requires
        n >= 2,
        inner.len() == n,
        b == bracket_size(n),
        n <= b < 2 * n,
        b == 2 || b % 4 == 0,
    ensures
        ({
            let byes = b - n;
            let first_real = (n - byes) / 2;
            let pairs = bracket_pairings(inner, n);
            &&& byes + first_real == b / 2
            &&& byes / 2 + byes % 2 + (first_real - byes % 2) / 2 == b / 4
            &&& first_real >= 1
            &&& byes % 2 == 1 ==> first_real >= 1
            &&& pairs.len() == b / 2 + b / 4 + later_rounds((b / 4) as nat).len()
            &&& forall|k: int| 0 <= k < byes ==> #[trigger] pairs[k] == (inner[k], stand_in(BYE_NAME))
            &&& forall|o: int| 0 <= o < first_real ==> #[trigger] pairs[byes + o] == (inner[byes + o], inner[n - 1 - o])
            &&& forall|p: int| 0 <= p < byes / 2 ==> #[trigger] pairs[b / 2 + p] == (inner[2 * p], inner[2 * p + 1])
            &&& byes % 2 == 1 ==> pairs[b / 2 + byes / 2] == (inner[byes - 1], stand_in(WINNER_PREVIOUS_NAME))
            &&& forall|i: int| 0 <= i < (first_real - byes % 2) / 2 ==> #[trigger] pairs[b / 2 + byes / 2 + byes % 2 + i] == (stand_in(WINNER_A_NAME), stand_in(WINNER_B_NAME))
            &&& forall|j: int| 0 <= j < later_rounds((b / 4) as nat).len() ==> #[trigger] pairs[b / 2 + b / 4 + j] == later_rounds((b / 4) as nat)[j]
        }),
{
    let byes = b - n;
    let first_real = (n - byes) / 2;
    let r1 = first_round(inner, n, byes);
    let r2 = second_round(inner, byes, first_real);
    let rest = later_rounds((b / 4) as nat);
    let pairs = bracket_pairings(inner, n);
    assert(r1.len() == b / 2);
    assert(r2.len() == b / 4);
    assert forall|k: int| 0 <= k < byes implies #[trigger] pairs[k] == (inner[k], stand_in(BYE_NAME)) by {
        assert(pairs[k] == r1[k]);
    }
    assert forall|o: int| 0 <= o < first_real implies #[trigger] pairs[byes + o] == (inner[byes + o], inner[n - 1 - o]) by {
        assert(pairs[byes + o] == r1[byes + o]);
    }
    assert forall|p: int| 0 <= p < byes / 2 implies #[trigger] pairs[b / 2 + p] == (inner[2 * p], inner[2 * p + 1]) by {
        assert(pairs[b / 2 + p] == r2[p]);
    }
    if byes % 2 == 1 {
        assert(pairs[b / 2 + byes / 2] == r2[byes / 2]);
    }
    assert forall|i: int| 0 <= i < (first_real - byes % 2) / 2 implies #[trigger] pairs[b / 2 + byes / 2 + byes % 2 + i] == (stand_in(WINNER_A_NAME), stand_in(WINNER_B_NAME)) by {
        assert(pairs[b / 2 + byes / 2 + byes % 2 + i] == r2[byes / 2 + byes % 2 + i]);
    }
    assert forall|j: int| 0 <= j < rest.len() implies #[trigger] pairs[b / 2 + b / 4 + j] == rest[j] by {
        assert(pairs[b / 2 + b / 4 + j] == rest[j]);
    }
}

impl SingleElimination {
    /// The playoff schedule. The teams, sorted by seed (or named `1` to `n`
    /// when anonymous), fill a bracket of the next power of two; the missing
    /// places are byes for the best seeds, played at midnight on the first
    /// game day. The first-round games follow, then each later round on a
    /// later day, the winners of undecided games standing in as
    /// `WinnerPrevious`, `WinnerA` and `WinnerB`. Games take the day's time
    /// slots in turn, as many to a slot as there are fields, moving on to the
    /// next game day when a day runs out. No referees are assigned.
    #[verifier::spinoff_prover]
    #[verifier::rlimit(100)]
    pub fn compute_schedule(
        &self,
        teams: &[Team],
        start_date: &Date,
        season_config: &SeasonConfig,
        with_referees: bool,
    ) -> (r: Result<Vec<Game>, AppError>)
        requires
            teams@.len() <= u32::MAX,
            teams@.len() <= usize::MAX / 2,
            start_date.spec_day_number() + bracket_room(
                teams@.len() as int,
                season_config.spec_dates().spec_excluded_dates().len() as int,
            ) <= MAX_DAY_NUMBER,
        ensures
            single_elimination_validation(teams@.len() as int, *season_config) matches Err(e) ==> r
                == Err::<Vec<Game>, AppError>(e),
            single_elimination_validation(teams@.len() as int, *season_config) is Ok
                && season_config.spec_dates().spec_game_days().len() == 0 ==> r == Err::<
                Vec<Game>,
                AppError,
            >(AppError::EmptyGameDays),
            single_elimination_validation(teams@.len() as int, *season_config) is Ok
                && season_config.spec_dates().spec_game_days().len() > 0 && r is Err
                ==> is_refused_game_time(r->Err_0),
            single_elimination_validation(teams@.len() as int, *season_config) is Ok
                && season_config.spec_dates().spec_game_days().len() > 0 ==> (r is Ok <==> forall|k: int|
                0 <= k < bracket_game_count(teams@.len() as int) ==> #[trigger] slot_is_unique(
                    k,
                    teams@.len() as int,
                    start_date.spec_day_number(),
                    *season_config,
                )),
            single_elimination_validation(teams@.len() as int, *season_config) is Ok
                && season_config.spec_dates().spec_game_days().len() > 0 && r is Err ==> bracket_refusal(
                teams@.len() as int,
                start_date.spec_day_number(),
                *season_config,
                r->Err_0,
            ),
            r matches Ok(schedule) ==> exists|inner: Seq<TeamView>|
                #[trigger] bracket_entrants(self.spec_anonymous(), teams@, inner)
                    && is_bracket_schedule(
                    game_views(schedule@),
                    inner,
                    teams@.len() as int,
                    start_date.spec_day_number(),
                    *season_config,
                ),
    {
        match self.validate_parameters(teams, season_config) {
            Err(e) => {
                return Err(e);
            },
            Ok(()) => {},
        }
        let n = teams.len();
        let mut bracket: usize = 1;
        while bracket < n
            invariant
                2 <= n <= usize::MAX / 2,
                1 <= bracket < 2 * n,
                bracket == 1 || bracket == 2 || bracket % 4 == 0,
                bracket == 1 || bracket / 2 < n,
                power_of_two_from(n as int, 1) == power_of_two_from(n as int, bracket as int),
            decreases 2 * n - bracket,
        {
            bracket = bracket * 2;
        }
        let byes = bracket - n;
        let first_real = (n - byes) / 2;
        let inner_teams: Vec<Team> = if self.anonymous {
            let mut named: Vec<Team> = Vec::new();
            let mut value: usize = 1;
            while value <= n
                invariant
                    1 <= value <= n + 1,
                    n <= u32::MAX,
                    n <= usize::MAX / 2,
                    named@.len() == value - 1,
                    forall|i: int| 0 <= i < value - 1 ==> (#[trigger] named@[i])@ == anonymous_entrants(n as int)[i],
                decreases n + 1 - value,
            {
                let name = to_decimal(value);
                named.push(Team::from_parts(name.as_str(), Some((n as u32) - (value as u32))));
                value = value + 1;
            }
            assert(team_views(named@) =~= anonymous_entrants(n as int));
            named
        } else {
            sort_by_seed(teams)
        };
        let ghost inner = team_views(inner_teams@);
        assert(bracket_entrants(self.anonymous, teams@, inner));
        assert(inner.len() == n) by {
            if !self.anonymous {
                let perm = choose|perm: Seq<int>| #[trigger] is_seed_sorted_by(team_views(teams@), inner, perm);
            }
        }
        proof {
            lemma_bracket_layout(inner, n as int, bracket as int);
        }
        let ghost pairs = bracket_pairings(inner, n as int);
        let ghost start = start_date.spec_day_number();
        let ghost span = search_span(season_config.spec_dates().spec_excluded_dates().len() as int);
        let date_configuration = season_config.date_configuration();
        let time_configuration = season_config.time_configuration();
        assert((4 * n + 2) * (1 + span) >= span) by (nonlinear_arith)
            requires
                n >= 2,
                span >= 0,
        ;
        let mut days = match GameDayScheduler::new(
            start_date,
            date_configuration.game_days(),
            date_configuration.excluded_dates(),
        ) {
            Ok(d) => d,
            Err(e) => {
                return Err(e);
            },
        };
        let interval = time_configuration.interval_between_games();
        let mut times = GameTimeScheduler::new(
            time_configuration.start_time(),
            &interval,
            time_configuration.game_duration(),
            season_config.number_fields(),
            time_configuration.start_break(),
            time_configuration.end_break(),
        );
        let bye_time = match GameTime::new(0, 0) {
            Ok(t) => t,
            Err(e) => {
                return Err(e);
            },
        };
        let mut schedule: Vec<Game> = Vec::new();
        let ghost mut budget: int = 4 * n + 1;
        proof {
            lemma_bracket_begins(days, times, inner, n as int, start, *season_config);
            assert(schedule@ =~= Seq::<Game>::empty());
            lemma_clock_begins(days, times, n as int, start, *season_config);
        }
        let ghost mut fresh: bool = false;
        let ghost middle: int = bracket / 2 + bracket / 4;
        proof {
            lemma_later_rounds_len((bracket / 4) as nat);
        }
        let mut i: usize = 0;
        while i < byes
            invariant
                i <= byes,
                byes == bracket - n,
                first_real == (n - byes) / 2,
                bracket == bracket_size(n as int),
                n <= bracket < 2 * n,
                2 <= n,
                n == teams@.len(),
                middle == bracket / 2 + bracket / 4,
                single_elimination_validation(n as int, *season_config) is Ok,
                season_config.spec_dates().spec_game_days().len() > 0,
                inner == team_views(inner_teams@),
                inner_teams@.len() == n,
                pairs == bracket_pairings(inner, n as int),
                pairs.len() == bracket_game_count(n as int),
                start == start_date.spec_day_number(),
                pairs.len() <= bracket,
                byes + first_real == bracket / 2,
                forall|k: int| 0 <= k < byes ==> #[trigger] pairs[k] == (inner[k], stand_in(BYE_NAME)),
                schedule@.len() == i,
                bye_time.minutes() == 0,
                bye_time == GameTime::of_minutes(0),
                !fresh,
                budget >= 4 * n - 2 * schedule@.len() + 1,
                bracket_so_far(schedule@, days, times, inner, n as int, start, *season_config, budget, fresh),
                on_bracket_clock(schedule@, days, times, n as int, start, *season_config, fresh),
            decreases byes - i,
        {
            proof {
                lemma_bracket_room(schedule@, days, times, inner, n as int, start, *season_config, budget, fresh);
            }
            let game = match Game::new_with_game_day(
                inner_teams[i].duplicate(),
                Team::bye(),
                *days.current_day(),
                bye_time,
                None,
            ) {
                Ok(g) => g,
                Err(e) => {
                    proof {
                        lemma_starts_later_round_negative((bracket / 4) as nat, i - middle);
                        lemma_clock_bye_slot(schedule@, days, times, n as int, start, *season_config);
                        assert(first_refused_slot(i as int, n as int, start, *season_config));
                    }
                    return Err(e);
                },
            };
            let ghost before = schedule@;
            schedule.push(game);
            proof {
                assert(schedule@.drop_last() =~= before);
                assert(inner[i as int] == inner_teams@[i as int]@);
                lemma_starts_later_round_negative((bracket / 4) as nat, i - middle);
                lemma_bracket_step(before, schedule@, days, days, times, times, inner, n as int, start, *season_config, budget, fresh);
                lemma_clock_bye(before, schedule@, days, times, n as int, start, *season_config);
                budget = budget - 1;
            }
            i = i + 1;
        }
        let mut o: usize = 0;
        while o < first_real
            invariant
                o <= first_real,
                byes == bracket - n,
                first_real == (n - byes) / 2,
                bracket == bracket_size(n as int),
                n <= bracket < 2 * n,
                2 <= n,
                n == teams@.len(),
                middle == bracket / 2 + bracket / 4,
                single_elimination_validation(n as int, *season_config) is Ok,
                season_config.spec_dates().spec_game_days().len() > 0,
                inner == team_views(inner_teams@),
                inner_teams@.len() == n,
                pairs == bracket_pairings(inner, n as int),
                pairs.len() == bracket_game_count(n as int),
                start == start_date.spec_day_number(),
                pairs.len() <= bracket,
                byes + first_real == bracket / 2,
                forall|o2: int| 0 <= o2 < first_real ==> #[trigger] pairs[byes + o2] == (inner[byes + o2], inner[n - 1 - o2]),
                schedule@.len() == byes + o,
                !fresh,
                budget >= 4 * n - 2 * schedule@.len() + 1,
                bracket_so_far(schedule@, days, times, inner, n as int, start, *season_config, budget, fresh),
                on_bracket_clock(schedule@, days, times, n as int, start, *season_config, fresh),
            decreases first_real - o,
        {
            proof {
                lemma_bracket_room(schedule@, days, times, inner, n as int, start, *season_config, budget, fresh);
            }
            let ghost before = schedule@;
            let ghost days_before = days;
            let ghost times_before = times;
            let home = inner_teams[byes + o].duplicate();
            let away = inner_teams[n - 1 - o].duplicate();
            match place_game(&mut schedule, &mut days, &mut times, home, away) {
                Err(e) => {
                    proof {
                        lemma_starts_later_round_negative((bracket / 4) as nat, (byes + o) - middle);
                        lemma_clock_attempt(before, days_before, days, times_before, n as int, start, *season_config, fresh);
                        assert(first_refused_slot(before.len() as int, n as int, start, *season_config));
                    }
                    return Err(e);
                },
                Ok(()) => {},
            }
            proof {
                lemma_starts_later_round_negative((bracket / 4) as nat, (byes + o) - middle);
                lemma_bracket_step(before, schedule@, days_before, days, times_before, times, inner, n as int, start, *season_config, budget, fresh);
                lemma_clock_game(before, schedule@, days_before, days, times_before, times, n as int, start, *season_config, fresh);
                budget = budget - 1;
            }
            o = o + 1;
        }
        proof {
            lemma_bracket_room(schedule@, days, times, inner, n as int, start, *season_config, budget, fresh);
        }
        let ghost days_before = days;
        let ghost times_before = times;
        let _ = days.advance();
        times.reset();
        proof {
            lemma_bracket_advance(schedule@, days_before, days, times_before, times, inner, n as int, start, *season_config, budget, fresh);
            lemma_clock_advance(schedule@, days_before, days, times_before, times, n as int, start, *season_config);
            budget = budget - 1;
            fresh = true;
        }
        let half_byes = byes / 2;
        let mut q: usize = 0;
        while q < half_byes
            invariant
                q <= half_byes,
                half_byes == byes / 2,
                byes == bracket - n,
                first_real == (n - byes) / 2,
                bracket == bracket_size(n as int),
                n <= bracket < 2 * n,
                2 <= n,
                n == teams@.len(),
                middle == bracket / 2 + bracket / 4,
                middle == bracket / 2 + bracket / 4,
                single_elimination_validation(n as int, *season_config) is Ok,
                season_config.spec_dates().spec_game_days().len() > 0,
                inner == team_views(inner_teams@),
                inner_teams@.len() == n,
                pairs == bracket_pairings(inner, n as int),
                pairs.len() == bracket_game_count(n as int),
                start == start_date.spec_day_number(),
                pairs.len() <= bracket,
                byes + first_real == bracket / 2,
                byes / 2 + byes % 2 + (first_real - byes % 2) / 2 == bracket / 4,
                forall|p2: int| 0 <= p2 < byes / 2 ==> #[trigger] pairs[bracket / 2 + p2] == (inner[2 * p2], inner[2 * p2 + 1]),
                schedule@.len() == bracket / 2 + q,
                fresh == (q == 0),
                budget >= 4 * n - 2 * schedule@.len() + (if fresh { 0int } else { 1int }),
                bracket_so_far(schedule@, days, times, inner, n as int, start, *season_config, budget, fresh),
                on_bracket_clock(schedule@, days, times, n as int, start, *season_config, fresh),
            decreases half_byes - q,
        {
            proof {
                lemma_bracket_room(schedule@, days, times, inner, n as int, start, *season_config, budget, fresh);
            }
            let ghost before = schedule@;
            let ghost days_before = days;
            let ghost times_before = times;
            let home = inner_teams[2 * q].duplicate();
            let away = inner_teams[2 * q + 1].duplicate();
            match place_game(&mut schedule, &mut days, &mut times, home, away) {
                Err(e) => {
                    proof {
                        lemma_starts_later_round_negative((bracket / 4) as nat, (bracket / 2 + q) - middle);
                        lemma_clock_attempt(before, days_before, days, times_before, n as int, start, *season_config, fresh);
                        assert(first_refused_slot(before.len() as int, n as int, start, *season_config));
                    }
                    return Err(e);
                },
                Ok(()) => {},
            }
            proof {
                lemma_starts_later_round_negative((bracket / 4) as nat, (bracket / 2 + q) - middle);
                lemma_bracket_step(before, schedule@, days_before, days, times_before, times, inner, n as int, start, *season_config, budget, fresh);
                lemma_clock_game(before, schedule@, days_before, days, times_before, times, n as int, start, *season_config, fresh);
                budget = budget - 1;
                fresh = false;
            }
            q = q + 1;
        }
        let mut winner_previous_slots = first_real;
        if byes % 2 == 1 {
            proof {
                lemma_bracket_room(schedule@, days, times, inner, n as int, start, *season_config, budget, fresh);
            }
            let ghost before = schedule@;
            let ghost days_before = days;
            let ghost times_before = times;
            let home = inner_teams[byes - 1].duplicate();
            let away = Team::from_parts(WINNER_PREVIOUS_NAME, None);
            match place_game(&mut schedule, &mut days, &mut times, home, away) {
                Err(e) => {
                    proof {
                        lemma_starts_later_round_negative((bracket / 4) as nat, (bracket / 2 + half_byes) - middle);
                        lemma_clock_attempt(before, days_before, days, times_before, n as int, start, *season_config, fresh);
                        assert(first_refused_slot(before.len() as int, n as int, start, *season_config));
                    }
                    return Err(e);
                },
                Ok(()) => {},
            }
            proof {
                lemma_starts_later_round_negative((bracket / 4) as nat, (bracket / 2 + half_byes) - middle);
                lemma_bracket_step(before, schedule@, days_before, days, times_before, times, inner, n as int, start, *season_config, budget, fresh);
                lemma_clock_game(before, schedule@, days_before, days, times_before, times, n as int, start, *season_config, fresh);
                budget = budget - 1;
                fresh = false;
            }
            winner_previous_slots = winner_previous_slots - 1;
        }
        let undecided = winner_previous_slots / 2;
        let mut w: usize = 0;
        while w < undecided
            invariant
                w <= undecided,
                undecided == (first_real - byes % 2) / 2,
                byes == bracket - n,
                first_real == (n - byes) / 2,
                bracket == bracket_size(n as int),
                n <= bracket < 2 * n,
                2 <= n,
                n == teams@.len(),
                middle == bracket / 2 + bracket / 4,
                middle == bracket / 2 + bracket / 4,
                single_elimination_validation(n as int, *season_config) is Ok,
                season_config.spec_dates().spec_game_days().len() > 0,
                inner == team_views(inner_teams@),
                inner_teams@.len() == n,
                pairs == bracket_pairings(inner, n as int),
                pairs.len() == bracket_game_count(n as int),
                start == start_date.spec_day_number(),
                pairs.len() <= bracket,
                byes / 2 + byes % 2 + (first_real - byes % 2) / 2 == bracket / 4,
                forall|i2: int| 0 <= i2 < (first_real - byes % 2) / 2 ==> #[trigger] pairs[bracket / 2 + byes / 2 + byes % 2 + i2] == (stand_in(WINNER_A_NAME), stand_in(WINNER_B_NAME)),
                schedule@.len() == bracket / 2 + byes / 2 + byes % 2 + w,
                fresh == (schedule@.len() == bracket / 2),
                budget >= 4 * n - 2 * schedule@.len() + (if fresh { 0int } else { 1int }),
                bracket_so_far(schedule@, days, times, inner, n as int, start, *season_config, budget, fresh),
                on_bracket_clock(schedule@, days, times, n as int, start, *season_config, fresh),
            decreases undecided - w,
        {
            proof {
                lemma_bracket_room(schedule@, days, times, inner, n as int, start, *season_config, budget, fresh);
            }
            let ghost before = schedule@;
            let ghost days_before = days;
            let ghost times_before = times;
            let home = Team::from_parts(WINNER_A_NAME, None);
            let away = Team::from_parts(WINNER_B_NAME, None);
            match place_game(&mut schedule, &mut days, &mut times, home, away) {
                Err(e) => {
                    proof {
                        lemma_starts_later_round_negative((bracket / 4) as nat, before.len() - middle);
                        lemma_clock_attempt(before, days_before, days, times_before, n as int, start, *season_config, fresh);
                        assert(first_refused_slot(before.len() as int, n as int, start, *season_config));
                    }
                    return Err(e);
                },
                Ok(()) => {},
            }
            proof {
                lemma_starts_later_round_negative((bracket / 4) as nat, before.len() - middle);
                lemma_bracket_step(before, schedule@, days_before, days, times_before, times, inner, n as int, start, *season_config, budget, fresh);
                lemma_clock_game(before, schedule@, days_before, days, times_before, times, n as int, start, *season_config, fresh);
                budget = budget - 1;
                fresh = false;
            }
            w = w + 1;
        }
        let mut games = bracket / 4;
        let ghost total_later = later_rounds((bracket / 4) as nat);
        let ghost mut offset: int = 0;
        while games > 1
            invariant
                bracket == bracket_size(n as int),
                n <= bracket < 2 * n,
                2 <= n,
                n == teams@.len(),
                middle == bracket / 2 + bracket / 4,
                middle == bracket / 2 + bracket / 4,
                single_elimination_validation(n as int, *season_config) is Ok,
                season_config.spec_dates().spec_game_days().len() > 0,
                inner == team_views(inner_teams@),
                inner_teams@.len() == n,
                pairs == bracket_pairings(inner, n as int),
                pairs.len() == bracket_game_count(n as int),
                start == start_date.spec_day_number(),
                pairs.len() == middle + total_later.len(),
                pairs.len() <= bracket,
                total_later == later_rounds((bracket / 4) as nat),
                forall|j: int| 0 <= j < total_later.len() ==> #[trigger] pairs[middle + j] == total_later[j],
                0 <= offset <= total_later.len(),
                total_later == total_later.take(offset) + later_rounds(games as nat),
                forall|j: int| j >= offset ==> #[trigger] starts_later_round((bracket / 4) as nat, j) == starts_later_round(games as nat, j - offset),
                schedule@.len() == middle + offset,
                fresh ==> games == 0,
                budget >= 4 * n - 2 * schedule@.len() + (if fresh { 0int } else { 1int }),
                bracket_so_far(schedule@, days, times, inner, n as int, start, *season_config, budget, fresh),
                on_bracket_clock(schedule@, days, times, n as int, start, *season_config, fresh),
            decreases games,
        {
            let half = games / 2;
            proof {
                lemma_bracket_room(schedule@, days, times, inner, n as int, start, *season_config, budget, fresh);
                assert(later_rounds(games as nat) == Seq::new(half as nat, |i: int| (stand_in(WINNER_A_NAME), stand_in(WINNER_B_NAME))) + later_rounds(half as nat));
            }
            let ghost days_before = days;
            let ghost times_before = times;
            let _ = days.advance();
            times.reset();
            proof {
                lemma_bracket_advance(schedule@, days_before, days, times_before, times, inner, n as int, start, *season_config, budget, fresh);
                lemma_clock_advance(schedule@, days_before, days, times_before, times, n as int, start, *season_config);
                budget = budget - 1;
                fresh = true;
            }
            let mut j: usize = 0;
            while j < half
                invariant
                    j <= half,
                    half == games / 2,
                    games > 1,
                    bracket == bracket_size(n as int),
                    n <= bracket < 2 * n,
                    2 <= n,
                    n == teams@.len(),
                n == teams@.len(),
                middle == bracket / 2 + bracket / 4,
                    middle == bracket / 2 + bracket / 4,
                    single_elimination_validation(n as int, *season_config) is Ok,
                    season_config.spec_dates().spec_game_days().len() > 0,
                    inner == team_views(inner_teams@),
                    inner_teams@.len() == n,
                    pairs == bracket_pairings(inner, n as int),
                    pairs.len() == bracket_game_count(n as int),
                    start == start_date.spec_day_number(),
                start == start_date.spec_day_number(),
                pairs.len() == bracket_game_count(n as int),
                start == start_date.spec_day_number(),
                    pairs.len() == middle + total_later.len(),
                    pairs.len() <= bracket,
                    total_later == later_rounds((bracket / 4) as nat),
                    forall|j2: int| 0 <= j2 < total_later.len() ==> #[trigger] pairs[middle + j2] == total_later[j2],
                    0 <= offset,
                    offset + half <= total_later.len(),
                    total_later == total_later.take(offset) + later_rounds(games as nat),
                    later_rounds(games as nat) == Seq::new(half as nat, |i: int| (stand_in(WINNER_A_NAME), stand_in(WINNER_B_NAME))) + later_rounds(half as nat),
                    forall|j2: int| j2 >= offset ==> #[trigger] starts_later_round((bracket / 4) as nat, j2) == starts_later_round(games as nat, j2 - offset),
                    schedule@.len() == middle + offset + j,
                    fresh == (j == 0),
                    budget >= 4 * n - 2 * schedule@.len() + (if fresh { 0int } else { 1int }),
                    bracket_so_far(schedule@, days, times, inner, n as int, start, *season_config, budget, fresh),
                    on_bracket_clock(schedule@, days, times, n as int, start, *season_config, fresh),
                decreases half - j,
            {
                proof {
                    lemma_bracket_room(schedule@, days, times, inner, n as int, start, *season_config, budget, fresh);
                    assert(total_later[offset + j] == later_rounds(games as nat)[j as int]);
                    assert(pairs[middle + offset + j] == total_later[offset + j]);
                    if j > 0 {
                        lemma_starts_later_round_negative(half as nat, j - half);
                        assert(!starts_later_round(games as nat, j as int));
                    }
                }
                let ghost before = schedule@;
                let ghost days_before = days;
                let ghost times_before = times;
                let home = Team::from_parts(WINNER_A_NAME, None);
                let away = Team::from_parts(WINNER_B_NAME, None);
                match place_game(&mut schedule, &mut days, &mut times, home, away) {
                    Err(e) => {
                        proof {
                            lemma_clock_attempt(before, days_before, days, times_before, n as int, start, *season_config, fresh);
                            assert(first_refused_slot(before.len() as int, n as int, start, *season_config));
                        }
                        return Err(e);
                    },
                    Ok(()) => {},
                }
                proof {
                    lemma_bracket_step(before, schedule@, days_before, days, times_before, times, inner, n as int, start, *season_config, budget, fresh);
                    lemma_clock_game(before, schedule@, days_before, days, times_before, times, n as int, start, *season_config, fresh);
                    budget = budget - 1;
                    fresh = false;
                }
                j = j + 1;
            }
            proof {
                let old_offset = offset;
                offset = offset + half;
                assert(total_later =~= total_later.take(offset) + later_rounds(half as nat));
                assert forall|j2: int| j2 >= offset implies #[trigger] starts_later_round((bracket / 4) as nat, j2) == starts_later_round(half as nat, j2 - offset) by {
                    assert(starts_later_round((bracket / 4) as nat, j2) == starts_later_round(games as nat, j2 - old_offset));
                }
            }
            games = half;
        }
        proof {
            assert(later_rounds(games as nat) =~= Seq::<(TeamView, TeamView)>::empty());
            assert(total_later.len() == offset);
            lemma_bracket_done(schedule@, days, times, inner, n as int, start, *season_config, budget, fresh);
            assert(bracket_entrants(self.spec_anonymous(), teams@, inner));
            assert(is_bracket_schedule(game_views(schedule@), inner, teams@.len() as int, start, *season_config));
        }
        Ok(schedule)
    }
}


/// Law of the anonymous playoff: its games depend on the number of teams
/// alone. Two anonymous brackets of as many teams, from the same day and
/// with the same configuration, are the same games, whatever the teams.
pub proof fn law_anonymous_bracket_ignores_teams(
    games1: Seq<crate::game::GameView>,
    games2: Seq<crate::game::GameView>,
    teams1: Seq<Team>,
    teams2: Seq<Team>,
    start: int,
    season_config: SeasonConfig,
)
    requires
        teams1.len() == teams2.len(),
        is_bracket_schedule(
            games1,
            anonymous_entrants(teams1.len() as int),
            teams1.len() as int,
            start,
            season_config,
        ),
        is_bracket_schedule(
            games2,
            anonymous_entrants(teams2.len() as int),
            teams2.len() as int,
            start,
            season_config,
        ),
    ensures
        games1 == games2,
{
    let n = teams1.len() as int;
    let pairs = bracket_pairings(anonymous_entrants(n), n);
    assert(game_pairs(games1).len() == games1.len());
    assert(game_pairs(games2).len() == games2.len());
    assert forall|k: int| 0 <= k < games1.len() implies #[trigger] games1[k] == games2[k] by {
        assert(game_pairs(games1)[k] == pairs[k]);
        assert(game_pairs(games2)[k] == pairs[k]);
    }
    assert(games1 =~= games2);
}

/// Law of the refused playoff: a bracket is refused with one error only,
/// that of its first game whose local time does not happen exactly once.
/// With the law of the anonymous playoff, an anonymous bracket of as many
/// teams from the same day with the same configuration is scheduled or
/// refused alike, whatever the teams.
pub proof fn law_bracket_refusal_is_unique(
    n: int,
    start: int,
    season_config: SeasonConfig,
    e1: AppError,
    e2: AppError,
)
    requires
        bracket_refusal(n, start, season_config, e1),
        bracket_refusal(n, start, season_config, e2),
    ensures
        e1 == e2,
{
    let k1 = choose|k: int|
        #[trigger] first_refused_slot(k, n, start, season_config) && (e1 matches AppError::InvalidGameDay(
            d,
            t,
        ) && d.spec_day_number() == bracket_slot(k, n, start, season_config).0 && t == GameTime::of_minutes(
            bracket_slot(k, n, start, season_config).1,
        ));
    let k2 = choose|k: int|
        #[trigger] first_refused_slot(k, n, start, season_config) && (e2 matches AppError::InvalidGameDay(
            d,
            t,
        ) && d.spec_day_number() == bracket_slot(k, n, start, season_config).0 && t == GameTime::of_minutes(
            bracket_slot(k, n, start, season_config).1,
        ));
    if k1 < k2 {
        assert(slot_is_unique(k1, n, start, season_config));
    }
    if k2 < k1 {
        assert(slot_is_unique(k2, n, start, season_config));
    }
    assert(k1 == k2);
    if let (AppError::InvalidGameDay(d1, _), AppError::InvalidGameDay(d2, _)) = (e1, e2) {
        Date::lemma_same_day_number(d1, d2);
    }
}

/// The bracket for `n` teams doubles from a place count of one, two, or a
/// multiple of four, and ends at no fewer than `n` places and fewer than
/// twice as many.
pub(crate) proof fn lemma_power_of_two_from(n: int, power: int)
    requires
        1 <= power < 2 * n,
        power == 1 || power == 2 || power % 4 == 0,
    ensures
        n <= power_of_two_from(n, power) < 2 * n,
        power_of_two_from(n, power) == 1 || power_of_two_from(n, power) == 2 || power_of_two_from(n, power)
            % 4 == 0,
    decreases (if power < n {
        n - power
    } else {
        0
    }),
{
    if power < n {
        lemma_power_of_two_from(n, power * 2);
    }
}

/// Every game after the second round is between the stand-ins for two
/// winners.
proof fn lemma_later_rounds_stand_ins(games: nat)
    ensures
        forall|j: int| 0 <= j < later_rounds(games).len() ==> #[trigger] later_rounds(games)[j] == (
        stand_in(WINNER_A_NAME), stand_in(WINNER_B_NAME)),
    decreases games,
{
    if games > 1 {
        lemma_later_rounds_stand_ins(games / 2);
        let head = Seq::new(games / 2, |i: int| (stand_in(WINNER_A_NAME), stand_in(WINNER_B_NAME)));
        assert forall|j: int| 0 <= j < later_rounds(games).len() implies #[trigger] later_rounds(games)[j] == (
        stand_in(WINNER_A_NAME), stand_in(WINNER_B_NAME)) by {
            if j >= head.len() {
                assert(later_rounds(games)[j] == later_rounds(games / 2)[j - head.len()]);
            }
        }
    }
}

/// A name that the anonymous bracket of `n` teams can give a side of a
/// game: a number from 1 to `n`, the bye, or a stand-in for a winner.
pub open spec fn anonymous_side_name(name: Seq<char>, n: int) -> bool {
    ||| exists|v: nat| 1 <= v <= n && name == #[trigger] decimal_text(v)
    ||| name == BYE_NAME@
    ||| name == WINNER_PREVIOUS_NAME@
    ||| name == WINNER_A_NAME@
    ||| name == WINNER_B_NAME@
}

/// Each side of the entrant `i` of an anonymous bracket is named by its
/// number.
proof fn lemma_anonymous_entrant_name(n: int, i: int)
    requires
        0 <= i < n,
    ensures
        anonymous_side_name(anonymous_entrants(n)[i].0, n),
{
    assert(anonymous_entrants(n)[i].0 == decimal_text((i + 1) as nat));
}

/// Law of the anonymous playoff's names: an anonymous bracket names no team
/// of its input. Each side of each of its games is a number from 1 to the
/// number of teams, the bye, or a stand-in for a winner, so a team with
/// none of these names never appears in it.
pub proof fn law_anonymous_bracket_hides_teams(
    games: Seq<crate::game::GameView>,
    teams: Seq<Team>,
    start: int,
    season_config: SeasonConfig,
    k: int,
    p: int,
)
    requires
        teams.len() >= 2,
        is_bracket_schedule(
            games,
            anonymous_entrants(teams.len() as int),
            teams.len() as int,
            start,
            season_config,
        ),
        0 <= k < games.len(),
        0 <= p < teams.len(),
        !anonymous_side_name(teams[p]@.0, teams.len() as int),
    ensures
        anonymous_side_name(games[k].home.0, teams.len() as int),
        anonymous_side_name(games[k].away.0, teams.len() as int),
        games[k].home.0 != teams[p]@.0,
        games[k].away.0 != teams[p]@.0,
{
    let n = teams.len() as int;
    let inner = anonymous_entrants(n);
    let b = bracket_size(n);
    lemma_power_of_two_from(n, 1);
    lemma_bracket_layout(inner, n, b);
    lemma_later_rounds_stand_ins((b / 4) as nat);
    let pairs = bracket_pairings(inner, n);
    let byes = b - n;
    let first_real = (n - byes) / 2;
    assert(game_pairs(games)[k] == (games[k].home, games[k].away));
    assert(pairs[k] == (games[k].home, games[k].away));
    if k < byes {
        assert(pairs[k] == (inner[k], stand_in(BYE_NAME)));
        lemma_anonymous_entrant_name(n, k);
    } else if k < b / 2 {
        let o = k - byes;
        assert(pairs[byes + o] == (inner[byes + o], inner[n - 1 - o]));
        lemma_anonymous_entrant_name(n, byes + o);
        lemma_anonymous_entrant_name(n, n - 1 - o);
    } else if k < b / 2 + byes / 2 {
        let q = k - b / 2;
        assert(pairs[b / 2 + q] == (inner[2 * q], inner[2 * q + 1]));
        lemma_anonymous_entrant_name(n, 2 * q);
        lemma_anonymous_entrant_name(n, 2 * q + 1);
    } else if byes % 2 == 1 && k == b / 2 + byes / 2 {
        lemma_anonymous_entrant_name(n, byes - 1);
    } else if k < b / 2 + b / 4 {
        let i = k - (b / 2 + byes / 2 + byes % 2);
        assert(pairs[b / 2 + byes / 2 + byes % 2 + i] == (stand_in(WINNER_A_NAME), stand_in(WINNER_B_NAME)));
    } else {
        let j = k - (b / 2 + b / 4);
        assert(pairs[b / 2 + b / 4 + j] == later_rounds((b / 4) as nat)[j]);
    }
}

} // verus!
