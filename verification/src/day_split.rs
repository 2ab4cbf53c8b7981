use vstd::prelude::*;

use crate::circle::{circle_index, lemma_circle_index_range, lemma_seat_of, seat_of};
use crate::double_round_robin::no_bye_team;
use crate::game::{Game, GameView};
use crate::laws::distinct_names;
use crate::leg_merge::{first_bye_partner, is_bye_view, moved_to, real_games};
use crate::calendar::Date;
use crate::configuration::TimeConfiguration;
use crate::double_round_robin::{
    bye_partner, is_merged_legs, is_round_robin_schedule, lemma_even_leg_has_no_bye,
    lemma_legs_mergeable,
};
use crate::referees::{referees_assigned, team_views};
use crate::game_time_scheduler::next_slot_minutes;
use crate::laws::lemma_round_dates_increase;
use crate::leg_merge::{
    in_day_rounds, lemma_matching_round, matches_round, matching_round, merged_views, mergeable,
    round_date, round_games, round_matched, schedule_has_bye,
};
use crate::round_robin::{
    lemma_counted_slots_fit, round_robin_validation, slots_after_break, slots_before_break,
    div_ceil, entrant, games_per_round, is_leg_game, is_leg_order, is_leg_schedule, leg_away,
    leg_game_is_bye, leg_home, leg_slot, lemma_leg_order_facts, lemma_round_has_bye,
    lemma_round_index, padded_count, real_games_before, scheduled_game,
};
use crate::season_config::SeasonConfig;
use crate::team::{Team, BYE_NAME};

verus! {

/// The game is a real game with the team named `a` on one side.
pub open spec fn plays_real(game: GameView, a: Seq<char>) -> bool {
    !is_bye_view(game) && (game.home.0 == a || game.away.0 == a)
}

/// How many of the games `f` holds of.
pub open spec fn count_where(games: Seq<GameView>, f: spec_fn(GameView) -> bool) -> nat
    decreases games.len(),
{
    if games.len() == 0 {
        0
    } else {
        count_where(games.drop_last(), f) + if f(games.last()) {
            1nat
        } else {
            0nat
        }
    }
}

/// A real game of the team named `a` on day `day`.
pub open spec fn on_day(a: Seq<char>, day: int) -> spec_fn(GameView) -> bool {
    |g: GameView| plays_real(g, a) && g.day == day
}

/// A real game of the team named `a` on day `day` that starts before minute
/// `t`.
pub open spec fn on_day_before(a: Seq<char>, day: int, t: int) -> spec_fn(GameView) -> bool {
    |g: GameView| plays_real(g, a) && g.day == day && g.time < t
}

/// A real game of the team named `a` on day `day` that starts at minute `t`
/// or later.
pub open spec fn on_day_from(a: Seq<char>, day: int, t: int) -> spec_fn(GameView) -> bool {
    |g: GameView| plays_real(g, a) && g.day == day && g.time >= t
}

/// The real games the team named `a` plays on day `day`.
pub open spec fn games_of_on(games: Seq<GameView>, a: Seq<char>, day: int) -> nat {
    count_where(games, on_day(a, day))
}

/// The real games the team named `a` plays on day `day` that start before
/// minute `t`.
pub open spec fn games_of_on_before(games: Seq<GameView>, a: Seq<char>, day: int, t: int) -> nat {
    count_where(games, on_day_before(a, day, t))
}

/// The real games the team named `a` plays on day `day` that start at
/// minute `t` or later.
pub open spec fn games_of_on_from(games: Seq<GameView>, a: Seq<char>, day: int, t: int) -> nat {
    count_where(games, on_day_from(a, day, t))
}

/// Counting over two lists one after the other adds up their counts.
pub(crate) proof fn lemma_count_concat(s1: Seq<GameView>, s2: Seq<GameView>, f: spec_fn(GameView) -> bool)
    ensures
        count_where(s1 + s2, f) == count_where(s1, f) + count_where(s2, f),
    decreases s2.len(),
{
    if s2.len() > 0 {
        assert((s1 + s2).drop_last() =~= s1 + s2.drop_last());
        assert((s1 + s2).last() == s2.last());
        lemma_count_concat(s1, s2.drop_last(), f);
    } else {
        assert(s1 + s2 =~= s1);
    }
}

/// A list where `f` holds of no game counts none.
pub(crate) proof fn lemma_count_none(s: Seq<GameView>, f: spec_fn(GameView) -> bool)
    requires
        forall|i: int| 0 <= i < s.len() ==> !f(#[trigger] s[i]),
    ensures
        count_where(s, f) == 0,
    decreases s.len(),
{
    if s.len() > 0 {
        assert(s.last() == s[s.len() - 1]);
        assert forall|i: int| 0 <= i < s.drop_last().len() implies !f(#[trigger] s.drop_last()[i]) by {
            assert(s.drop_last()[i] == s[i]);
        }
        lemma_count_none(s.drop_last(), f);
    }
}

/// A list where `f` holds of at most one game counts at most one.
proof fn lemma_count_at_most_one(s: Seq<GameView>, f: spec_fn(GameView) -> bool)
    requires
        forall|i: int, j: int|
            0 <= i < s.len() && 0 <= j < s.len() && f(#[trigger] s[i]) && f(#[trigger] s[j]) ==> i == j,
    ensures
        count_where(s, f) <= 1,
    decreases s.len(),
{
    if s.len() > 0 {
        let n = s.len() - 1;
        let rest = s.drop_last();
        assert forall|i: int, j: int|
            0 <= i < rest.len() && 0 <= j < rest.len() && f(#[trigger] rest[i]) && f(#[trigger] rest[j]) implies i == j by {
            assert(rest[i] == s[i]);
            assert(rest[j] == s[j]);
        }
        lemma_count_at_most_one(rest, f);
        assert(s.last() == s[n]);
        if f(s[n]) {
            assert forall|i: int| 0 <= i < rest.len() implies !f(#[trigger] rest[i]) by {
                assert(rest[i] == s[i]);
            }
            lemma_count_none(rest, f);
        }
    }
}

/// Two tests that agree on every game of a list count alike.
proof fn lemma_count_agree(
    s: Seq<GameView>,
    f: spec_fn(GameView) -> bool,
    g: spec_fn(GameView) -> bool,
)
    requires
        forall|i: int| 0 <= i < s.len() ==> f(#[trigger] s[i]) == g(s[i]),
    ensures
        count_where(s, f) == count_where(s, g),
    decreases s.len(),
{
    if s.len() > 0 {
        assert(s.last() == s[s.len() - 1]);
        assert forall|i: int| 0 <= i < s.drop_last().len() implies f(#[trigger] s.drop_last()[i]) == g(
            s.drop_last()[i],
        ) by {
            assert(s.drop_last()[i] == s[i]);
        }
        lemma_count_agree(s.drop_last(), f, g);
    }
}

/// Counting a test that holds of real games only, the byes left out of a
/// round moved to another day change nothing.
pub(crate) proof fn lemma_count_real_moved(
    games: Seq<Game>,
    day: crate::calendar::Date,
    f: spec_fn(GameView) -> bool,
)
    requires
        forall|v: GameView| #[trigger] f(v) ==> !is_bye_view(v),
    ensures
        count_where(real_games(games).map_values(|g: Game| moved_to(g, day)), f) == count_where(
            games.map_values(|g: Game| moved_to(g, day)),
            f,
        ),
    decreases games.len(),
{
    if games.len() > 0 {
        let rest = games.drop_last();
        lemma_count_real_moved(rest, day, f);
        assert(games.map_values(|g: Game| moved_to(g, day)).drop_last() =~= rest.map_values(
            |g: Game| moved_to(g, day),
        ));
        assert(games.map_values(|g: Game| moved_to(g, day)).last() == moved_to(games.last(), day));
        if !is_bye_view(games.last()@) {
            assert(real_games(games).map_values(|g: Game| moved_to(g, day)) =~= real_games(
                rest,
            ).map_values(|g: Game| moved_to(g, day)).push(moved_to(games.last(), day)));
            assert(real_games(games).map_values(|g: Game| moved_to(g, day)).drop_last()
                =~= real_games(rest).map_values(|g: Game| moved_to(g, day)));
        } else {
            assert(is_bye_view(moved_to(games.last(), day)));
        }
    } else {
        assert(games.map_values(|g: Game| moved_to(g, day)) =~= Seq::<GameView>::empty());
        assert(real_games(games).map_values(|g: Game| moved_to(g, day)) =~= Seq::<GameView>::empty());
    }
}

/// In round `round` of a leg, a game with the team `p` on one side sits at
/// the seat of `p`'s entrant or across from it.
proof fn lemma_team_seat(teams: Seq<Team>, order: Seq<usize>, round: int, p: int, i: int)
    requires
        is_leg_order(order, teams.len() as int),
        teams.len() >= 4,
        order.len() <= usize::MAX,
        no_bye_team(teams),
        distinct_names(teams),
        0 <= p < teams.len(),
        0 <= i < order.len() as int / 2,
        leg_home(teams, order, round, i).0 == teams[p]@.0 || leg_away(teams, order, round, i).0
            == teams[p]@.0,
    ensures
        ({
            let m = order.len() as int;
            let x = choose|x: int| 0 <= x < m && order[x] == p as usize;
            0 <= x < m && (i == seat_of(m, round, x) || i == m - 1 - seat_of(m, round, x))
        }),
{
    let t = teams.len() as int;
    let m = order.len() as int;
    lemma_leg_order_facts(order, t);
    assert(padded_count(t) >= 4);
    assert(order.contains(p as usize));
    let x = choose|x: int| 0 <= x < m && order[x] == p as usize;
    let a = teams[p]@.0;
    assert(a != BYE_NAME@);
    // The entrant at seat `s` named like `p` is `p`'s entrant.
    assert forall|s: int| 0 <= s < m && #[trigger] entrant(teams, order, circle_index(m, round, s)).0 == a
        implies circle_index(m, round, s) == x by {
        lemma_circle_index_range(m, round, s);
        let c = circle_index(m, round, s);
        if !((order[c] as int) < t) {
            assert(entrant(teams, order, c).0 == BYE_NAME@);
        }
        assert((order[c] as int) < t);
        assert(teams[order[c] as int]@.0 == a);
        if order[c] as int != p {
            assert(teams[order[c] as int]@.0 != teams[p]@.0);
        }
        assert(order[c] == order[x]);
    }
    if leg_home(teams, order, round, i).0 == a {
        assert(entrant(teams, order, circle_index(m, round, i)).0 == a);
        lemma_seat_of(m, round, x, i);
    } else {
        assert(entrant(teams, order, circle_index(m, round, m - 1 - i)).0 == a);
        lemma_seat_of(m, round, x, m - 1 - i);
    }
}

/// In a round of a leg, a team plays at most one game.
proof fn lemma_team_once_in_round(
    teams: Seq<Team>,
    order: Seq<usize>,
    round: int,
    p: int,
    i1: int,
    i2: int,
)
    requires
        is_leg_order(order, teams.len() as int),
        teams.len() >= 4,
        order.len() <= usize::MAX,
        no_bye_team(teams),
        distinct_names(teams),
        0 <= p < teams.len(),
        0 <= i1 < order.len() as int / 2,
        0 <= i2 < order.len() as int / 2,
        leg_home(teams, order, round, i1).0 == teams[p]@.0 || leg_away(teams, order, round, i1).0
            == teams[p]@.0,
        leg_home(teams, order, round, i2).0 == teams[p]@.0 || leg_away(teams, order, round, i2).0
            == teams[p]@.0,
    ensures
        i1 == i2,
{
    let m = order.len() as int;
    lemma_leg_order_facts(order, teams.len() as int);
    lemma_team_seat(teams, order, round, p, i1);
    lemma_team_seat(teams, order, round, p, i2);
    assert(m % 2 == 0);
}

/// Among the first `i` games of a round, at most `i` are real, and one fewer
/// when one of them is a bye.
pub(crate) proof fn lemma_real_games_before_bound(teams: Seq<Team>, order: Seq<usize>, round: int, i: int, j: int)
    requires
        0 <= i,
    ensures
        0 <= real_games_before(teams, order, round, i) <= i,
        0 <= j < i && leg_game_is_bye(teams, order, round, j) ==> real_games_before(
            teams,
            order,
            round,
            i,
        ) <= i - 1,
    decreases i,
{
    if i > 0 {
        lemma_real_games_before_bound(teams, order, round, i - 1, j);
    }
}

/// A real game of a round takes one of the slots a leg needs: fewer real
/// games come before it than a round has.
pub(crate) proof fn lemma_real_slot_bound(teams: Seq<Team>, order: Seq<usize>, round: int, i: int, fields: int)
    requires
        is_leg_order(order, teams.len() as int),
        4 <= teams.len() < u32::MAX,
        order.len() <= usize::MAX,
        0 <= round,
        0 <= i < order.len() as int / 2,
        !leg_game_is_bye(teams, order, round, i),
        fields >= 1,
    ensures
        0 <= real_games_before(teams, order, round, i) < games_per_round(teams.len() as int),
        real_games_before(teams, order, round, i) / fields < div_ceil(
            games_per_round(teams.len() as int),
            fields,
        ),
{
    let t = teams.len() as int;
    let m = order.len() as int;
    let half = m / 2;
    let n = real_games_before(teams, order, round, i);
    assert(games_per_round(t) == t / 2);
    if t % 2 == 1 {
        lemma_round_has_bye(teams, order, round);
        let j = choose|j: int| 0 <= j < half && leg_game_is_bye(teams, order, round, j);
        lemma_real_games_before_bound(teams, order, round, i, j);
    } else {
        lemma_real_games_before_bound(teams, order, round, i, 0);
    }
    let g = t / 2;
    assert(n < g);
    let q = (g - 1) / fields;
    let r = (g - 1) % fields;
    vstd::arithmetic::div_mod::lemma_fundamental_div_mod(g - 1, fields);
    vstd::arithmetic::div_mod::lemma_mod_bound(g - 1, fields);
    vstd::arithmetic::div_mod::lemma_div_is_ordered(n, g - 1, fields);
    assert(g + fields - 1 == (q + 1) * fields + r) by (nonlinear_arith)
        requires
            g - 1 == fields * q + r,
    ;
    vstd::arithmetic::div_mod::lemma_fundamental_div_mod_converse_div(g + fields - 1, fields, q + 1, r);
}

/// The slot that game `i` of round `round` takes: its place among the real
/// games of the round, a slot per `fields` games.
pub open spec fn slot_of(teams: Seq<Team>, order: Seq<usize>, round: int, i: int, fields: int) -> nat {
    (real_games_before(teams, order, round, i) / fields) as nat
}

/// Slots a leg needs each day: the real games of a round, a slot per field.
pub open spec fn slots_needed(teams_len: int, season_config: SeasonConfig) -> int {
    div_ceil(games_per_round(teams_len), season_config.spec_number_fields() as int)
}

/// A round of a leg, moved to day `day`: the team `p` plays at most one of
/// its real games, none when `day` is not `d`, and each of its real games
/// takes one of the slots the leg needs.
proof fn lemma_round_plays(
    leg: Seq<Game>,
    teams: Seq<Team>,
    order: Seq<usize>,
    start: int,
    season_config: SeasonConfig,
    leg_start: int,
    r: int,
    p: int,
    day: Date,
    d: int,
)
    requires
        is_leg_schedule(leg, teams, order, start, season_config, leg_start),
        is_leg_order(order, teams.len() as int),
        4 <= teams.len() < u32::MAX,
        order.len() <= usize::MAX,
        no_bye_team(teams),
        distinct_names(teams),
        0 <= p < teams.len(),
        0 <= r < order.len() - 1,
        season_config.spec_number_fields() >= 1,
    ensures
        ({
            let half = order.len() as int / 2;
            let moved = round_games(leg, half, r).map_values(|g: Game| moved_to(g, day));
            let a = teams[p]@.0;
            let fields = season_config.spec_number_fields() as int;
            &&& moved.len() == half
            &&& count_where(moved, on_day(a, d)) <= 1
            &&& day.spec_day_number() != d ==> count_where(moved, on_day(a, d)) == 0
            &&& forall|i: int|
                0 <= i < half && plays_real(#[trigger] moved[i], a) ==> {
                    &&& moved[i].time == leg_slot(
                        season_config.spec_time(),
                        leg_start,
                        slot_of(teams, order, r, i, fields),
                    )
                    &&& slot_of(teams, order, r, i, fields) < slots_needed(
                        teams.len() as int,
                        season_config,
                    )
                }
        }),
{
    let t = teams.len() as int;
    let m = order.len() as int;
    let half = m / 2;
    let a = teams[p]@.0;
    let fields = season_config.spec_number_fields() as int;
    let moved = round_games(leg, half, r).map_values(|g: Game| moved_to(g, day));
    lemma_leg_order_facts(order, t);
    lemma_round_index(r, half - 1, m - 1, half);
    assert(moved.len() == half);
    assert forall|i: int| 0 <= i < half implies {
        &&& (#[trigger] moved[i]).home == leg_home(teams, order, r, i)
        &&& moved[i].away == leg_away(teams, order, r, i)
        &&& moved[i].day == day.spec_day_number()
        &&& moved[i].time == leg_slot(season_config.spec_time(), leg_start, slot_of(teams, order, r, i, fields))
    } by {
        lemma_round_index(r, i, m - 1, half);
        assert(round_games(leg, half, r)[i] == scheduled_game(leg, half, r, i));
        assert(is_leg_game(
            scheduled_game(leg, half, r, i),
            leg,
            teams,
            order,
            start,
            season_config,
            leg_start,
            r,
            i,
        ));
    }
    assert forall|i: int, j: int|
        0 <= i < moved.len() && 0 <= j < moved.len() && on_day(a, d)(#[trigger] moved[i]) && on_day(a, d)(
            #[trigger] moved[j],
        ) implies i == j by {
        lemma_team_once_in_round(teams, order, r, p, i, j);
    }
    lemma_count_at_most_one(moved, on_day(a, d));
    if day.spec_day_number() != d {
        lemma_count_none(moved, on_day(a, d));
    }
    assert forall|i: int| 0 <= i < half && plays_real(#[trigger] moved[i], a) implies slot_of(
        teams,
        order,
        r,
        i,
        fields,
    ) < slots_needed(t, season_config) by {
        lemma_real_slot_bound(teams, order, r, i, fields);
    }
}

/// Every slot the leg after the break needs each day starts once the break
/// is over: none has come round past midnight to before its end.
pub open spec fn second_leg_after_break(teams_len: int, season_config: SeasonConfig) -> bool {
    let times = season_config.spec_time();
    forall|s: nat|
        s < slots_needed(teams_len, season_config) ==> #[trigger] leg_slot(
            times,
            times.spec_end_break().minutes(),
            s,
        ) >= times.spec_end_break().minutes()
}

/// The slots the leg after the break needs each day all start before
/// midnight, counted an interval apart from the end of the break.
pub open spec fn second_leg_before_midnight(teams_len: int, season_config: SeasonConfig) -> bool {
    let times = season_config.spec_time();
    times.spec_end_break().minutes() + (slots_needed(teams_len, season_config) - 1)
        * times.spec_interval() < 1440
}

/// While they stay before midnight, the slots of the leg after the break
/// follow each other an interval apart from the end of the break.
#[verifier::spinoff_prover]
pub(crate) proof fn lemma_late_slot(times: TimeConfiguration, s: nat)
    requires
        times.spec_end_break().minutes() + s * times.spec_interval() < 1440,
    ensures
        leg_slot(times, times.spec_end_break().minutes(), s) == times.spec_end_break().minutes() + s
            * times.spec_interval(),
    decreases s,
{
    let eb = times.spec_end_break().minutes();
    let interval = times.spec_interval();
    times.spec_end_break().lemma_minutes_nonnegative();
    assert(interval >= 0);
    if s > 0 {
        assert((s - 1) * interval <= s * interval && (s - 1) * interval + interval == s * interval
            && s * interval >= 0) by (nonlinear_arith)
            requires
                interval >= 0,
                s >= 1,
        ;
        lemma_late_slot(times, (s - 1) as nat);
        let next = eb + s * interval;
        assert(0 <= next < 1440);
        assert(next % 1440 == next);
        assert(leg_slot(times, eb, s) == next_slot_minutes(
            leg_slot(times, eb, (s - 1) as nat),
            interval,
            times.spec_game_duration().minutes(),
            times.spec_start_break().minutes(),
            eb,
        ));
        assert((leg_slot(times, eb, (s - 1) as nat) + interval) % 1440 == next);
        assert(leg_slot(times, eb, s) == next);
    } else {
        assert(leg_slot(times, eb, s) == eb);
    }
}

/// When the slots the leg after the break needs stay before midnight, they
/// all start once the break is over.
pub proof fn lemma_after_break_before_midnight(teams_len: int, season_config: SeasonConfig)
    requires
        second_leg_before_midnight(teams_len, season_config),
    ensures
        second_leg_after_break(teams_len, season_config),
{
    let times = season_config.spec_time();
    let eb = times.spec_end_break().minutes();
    let interval = times.spec_interval();
    let needed = slots_needed(teams_len, season_config);
    assert forall|s: nat| s < needed implies #[trigger] leg_slot(times, eb, s) >= eb by {
        assert(eb + s * interval < 1440 && s * interval >= 0) by (nonlinear_arith)
            requires
                0 <= s < needed,
                interval >= 0,
                eb + (needed - 1) * interval < 1440,
        ;
        lemma_late_slot(times, s);
    }
}

/// Round `r` of the leg before the break: the team `p` plays there at most
/// one real game, before the break, and none on another day than the
/// round's.
proof fn lemma_first_part(
    first: Seq<Game>,
    teams: Seq<Team>,
    order: Seq<usize>,
    start: int,
    season_config: SeasonConfig,
    r: int,
    p: int,
    d: int,
)
    requires
        is_leg_schedule(
            first,
            teams,
            order,
            start,
            season_config,
            season_config.spec_time().spec_start_time().minutes(),
        ),
        is_leg_order(order, teams.len() as int),
        4 <= teams.len() < u32::MAX,
        order.len() <= usize::MAX,
        no_bye_team(teams),
        distinct_names(teams),
        0 <= p < teams.len(),
        0 <= r < order.len() - 1,
        round_robin_validation(teams.len() as int, season_config) is Ok,
        season_config.spec_time().spec_start_break().minutes()
            <= season_config.spec_time().spec_end_break().minutes(),
    ensures
        ({
            let half = order.len() as int / 2;
            let part = round_games(first, half, r).map_values(|g: Game| g@);
            let a = teams[p]@.0;
            let times = season_config.spec_time();
            let sb = times.spec_start_break().minutes();
            let eb = times.spec_end_break().minutes();
            &&& count_where(part, on_day(a, d)) == count_where(part, on_day_before(a, d, sb))
            &&& count_where(part, on_day_from(a, d, eb)) == 0
            &&& count_where(part, on_day_before(a, d, sb)) <= 1
            &&& round_date(first, half, r).spec_day_number() != d ==> count_where(
                part,
                on_day_before(a, d, sb),
            ) == 0
        }),
{
    let t = teams.len() as int;
    let m = order.len() as int;
    let half = m / 2;
    let a = teams[p]@.0;
    let times = season_config.spec_time();
    let st = times.spec_start_time().minutes();
    let sb = times.spec_start_break().minutes();
    let eb = times.spec_end_break().minutes();
    let fields = season_config.spec_number_fields() as int;
    let day = round_date(first, half, r);
    let part = round_games(first, half, r).map_values(|g: Game| g@);
    let moved = round_games(first, half, r).map_values(|g: Game| moved_to(g, day));
    lemma_leg_order_facts(order, t);
    lemma_round_index(r, half - 1, m - 1, half);
    lemma_round_index(r, 0, m - 1, half);
    assert(is_leg_game(scheduled_game(first, half, r, 0), first, teams, order, start, season_config, st, r, 0));
    assert forall|i: int| 0 <= i < half implies #[trigger] part[i] == moved[i] by {
        lemma_round_index(r, i, m - 1, half);
        assert(round_games(first, half, r)[i] == scheduled_game(first, half, r, i));
        assert(is_leg_game(scheduled_game(first, half, r, i), first, teams, order, start, season_config, st, r, i));
    }
    assert(part =~= moved);
    lemma_round_plays(first, teams, order, start, season_config, st, r, p, day, d);
    assert forall|i: int| 0 <= i < part.len() && plays_real(#[trigger] part[i], a) implies part[i].time < sb by {
        let s = slot_of(teams, order, r, i, fields);
        lemma_counted_slots_fit(times, st, true, 0, s);
    }
    assert forall|i: int| 0 <= i < part.len() implies on_day(a, d)(#[trigger] part[i]) == on_day_before(a, d, sb)(part[i]) by {
        if plays_real(part[i], a) {
            assert(part[i].time < sb);
        }
    }
    lemma_count_agree(part, on_day(a, d), on_day_before(a, d, sb));
    assert forall|i: int| 0 <= i < part.len() implies !on_day_from(a, d, eb)(#[trigger] part[i]) by {
        if plays_real(part[i], a) {
            assert(part[i].time < sb);
        }
    }
    lemma_count_none(part, on_day_from(a, d, eb));
}

/// The real games of round `j` of the leg after the break, moved to day
/// `day`: the team `p` plays there at most one, after the break, and none on
/// another day.
proof fn lemma_second_part(
    second: Seq<Game>,
    teams: Seq<Team>,
    order: Seq<usize>,
    start: int,
    season_config: SeasonConfig,
    j: int,
    p: int,
    day: Date,
    d: int,
)
    requires
        is_leg_schedule(
            second,
            teams,
            order,
            start,
            season_config,
            season_config.spec_time().spec_end_break().minutes(),
        ),
        is_leg_order(order, teams.len() as int),
        4 <= teams.len() < u32::MAX,
        order.len() <= usize::MAX,
        no_bye_team(teams),
        distinct_names(teams),
        0 <= p < teams.len(),
        0 <= j < order.len() - 1,
        round_robin_validation(teams.len() as int, season_config) is Ok,
        season_config.spec_time().spec_start_break().minutes()
            <= season_config.spec_time().spec_end_break().minutes(),
        second_leg_after_break(teams.len() as int, season_config),
    ensures
        ({
            let half = order.len() as int / 2;
            let part = real_games(round_games(second, half, j)).map_values(|g: Game| moved_to(g, day));
            let a = teams[p]@.0;
            let times = season_config.spec_time();
            let sb = times.spec_start_break().minutes();
            let eb = times.spec_end_break().minutes();
            &&& count_where(part, on_day(a, d)) == count_where(part, on_day_from(a, d, eb))
            &&& count_where(part, on_day_before(a, d, sb)) == 0
            &&& count_where(part, on_day_from(a, d, eb)) <= 1
            &&& day.spec_day_number() != d ==> count_where(part, on_day_from(a, d, eb)) == 0
        }),
{
    let t = teams.len() as int;
    let m = order.len() as int;
    let half = m / 2;
    let a = teams[p]@.0;
    let times = season_config.spec_time();
    let sb = times.spec_start_break().minutes();
    let eb = times.spec_end_break().minutes();
    let interval = times.spec_interval();
    let fields = season_config.spec_number_fields() as int;
    let games = round_games(second, half, j);
    let moved = games.map_values(|g: Game| moved_to(g, day));
    lemma_count_real_moved(games, day, on_day(a, d));
    lemma_count_real_moved(games, day, on_day_before(a, d, sb));
    lemma_count_real_moved(games, day, on_day_from(a, d, eb));
    lemma_round_plays(second, teams, order, start, season_config, eb, j, p, day, d);
    assert forall|i: int| 0 <= i < moved.len() && plays_real(#[trigger] moved[i], a) implies moved[i].time >= eb by {
        let s = slot_of(teams, order, j, i, fields);
        assert(leg_slot(times, eb, s) >= eb);
    }
    assert forall|i: int| 0 <= i < moved.len() implies on_day(a, d)(#[trigger] moved[i]) == on_day_from(a, d, eb)(moved[i]) by {
        if plays_real(moved[i], a) {
            assert(moved[i].time >= eb);
        }
    }
    lemma_count_agree(moved, on_day(a, d), on_day_from(a, d, eb));
    assert forall|i: int| 0 <= i < moved.len() implies !on_day_before(a, d, sb)(#[trigger] moved[i]) by {
        if plays_real(moved[i], a) {
            assert(moved[i].time >= eb);
        }
    }
    lemma_count_none(moved, on_day_before(a, d, sb));
}

/// The first `k` rounds of two merged legs: the team `p` plays each of its
/// real games of day `d` before the break or after it, at most one of each,
/// and none when none of those rounds is on day `d`.
proof fn lemma_merged_day_counts(
    first: Seq<Game>,
    second: Seq<Game>,
    teams: Seq<Team>,
    order_a: Seq<usize>,
    order_b: Seq<usize>,
    start: int,
    season_config: SeasonConfig,
    k: int,
    p: int,
    d: int,
)
    requires
        is_leg_schedule(
            first,
            teams,
            order_a,
            start,
            season_config,
            season_config.spec_time().spec_start_time().minutes(),
        ),
        is_leg_schedule(
            second,
            teams,
            order_b,
            start,
            season_config,
            season_config.spec_time().spec_end_break().minutes(),
        ),
        is_leg_order(order_a, teams.len() as int),
        is_leg_order(order_b, teams.len() as int),
        order_a.len() == order_b.len(),
        mergeable(first, second, order_a.len() as int / 2, order_a.len() - 1),
        4 <= teams.len() < u32::MAX,
        order_a.len() <= usize::MAX,
        no_bye_team(teams),
        distinct_names(teams),
        0 <= p < teams.len(),
        0 <= k <= order_a.len() - 1,
        round_robin_validation(teams.len() as int, season_config) is Ok,
        season_config.spec_time().spec_start_break().minutes()
            <= season_config.spec_time().spec_end_break().minutes(),
        second_leg_after_break(teams.len() as int, season_config),
    ensures
        ({
            let half = order_a.len() as int / 2;
            let rounds = order_a.len() - 1;
            let merged = merged_views(first, second, half, schedule_has_bye(first), rounds, k);
            let a = teams[p]@.0;
            let sb = season_config.spec_time().spec_start_break().minutes();
            let eb = season_config.spec_time().spec_end_break().minutes();
            &&& games_of_on(merged, a, d) == games_of_on_before(merged, a, d, sb) + games_of_on_from(
                merged,
                a,
                d,
                eb,
            )
            &&& games_of_on_before(merged, a, d, sb) <= 1
            &&& games_of_on_from(merged, a, d, eb) <= 1
            &&& (forall|r: int| 0 <= r < k ==> #[trigger] round_date(first, half, r).spec_day_number() != d)
                ==> games_of_on_before(merged, a, d, sb) == 0 && games_of_on_from(merged, a, d, eb) == 0
        }),
    decreases k,
{
    let half = order_a.len() as int / 2;
    let rounds = order_a.len() - 1;
    let has_bye = schedule_has_bye(first);
    let a = teams[p]@.0;
    let sb = season_config.spec_time().spec_start_break().minutes();
    let eb = season_config.spec_time().spec_end_break().minutes();
    let merged = merged_views(first, second, half, has_bye, rounds, k);
    if k > 0 {
        let r = k - 1;
        lemma_merged_day_counts(first, second, teams, order_a, order_b, start, season_config, k - 1, p, d);
        let earlier = merged_views(first, second, half, has_bye, rounds, k - 1);
        assert(round_matched(first, second, half, has_bye, r, rounds));
        let j0 = choose|j: int| 0 <= j < rounds && #[trigger] matches_round(first, second, half, has_bye, r, j);
        lemma_matching_round(first, second, half, has_bye, r, 0, rounds, j0);
        let j = matching_round(first, second, half, has_bye, r, 0, rounds);
        let day = round_date(first, half, r);
        let part_a = round_games(first, half, r).map_values(|g: Game| g@);
        let part_b = real_games(round_games(second, half, j)).map_values(|g: Game| moved_to(g, day));
        assert(merged == earlier + part_a + part_b);
        lemma_first_part(first, teams, order_a, start, season_config, r, p, d);
        lemma_second_part(second, teams, order_b, start, season_config, j, p, day, d);
        lemma_count_concat(earlier, part_a, on_day(a, d));
        lemma_count_concat(earlier + part_a, part_b, on_day(a, d));
        lemma_count_concat(earlier, part_a, on_day_before(a, d, sb));
        lemma_count_concat(earlier + part_a, part_b, on_day_before(a, d, sb));
        lemma_count_concat(earlier, part_a, on_day_from(a, d, eb));
        lemma_count_concat(earlier + part_a, part_b, on_day_from(a, d, eb));
        if day.spec_day_number() == d {
            assert forall|r2: int| 0 <= r2 < k - 1 implies #[trigger] round_date(first, half, r2).spec_day_number() != d by {
                lemma_round_dates_increase(first, half, rounds, r2, r);
            }
        }
    } else {
        assert(merged =~= Seq::<GameView>::empty());
    }
}

/// Law of the group stage's days: on each day, a team plays at most one
/// real game before the break and at most one after it, and every real game
/// it plays that day is one or the other. So its two games of a match day
/// are always separated by the break. It holds when the break does not end
/// before it starts and the slots after the break have not come round past
/// midnight to before its end.
pub proof fn law_games_split_by_break(
    games: Seq<GameView>,
    teams: Seq<Team>,
    start: int,
    season_config: SeasonConfig,
    p: int,
    d: int,
)
    requires
        is_merged_legs(games, teams, start, season_config),
        round_robin_validation(teams.len() as int, season_config) is Ok,
        4 <= teams.len() < u32::MAX,
        no_bye_team(teams),
        distinct_names(teams),
        0 <= p < teams.len(),
        season_config.spec_time().spec_start_break().minutes()
            <= season_config.spec_time().spec_end_break().minutes(),
        second_leg_after_break(teams.len() as int, season_config),
    ensures
        games_of_on(games, teams[p]@.0, d) == games_of_on_before(
            games,
            teams[p]@.0,
            d,
            season_config.spec_time().spec_start_break().minutes(),
        ) + games_of_on_from(
            games,
            teams[p]@.0,
            d,
            season_config.spec_time().spec_end_break().minutes(),
        ),
        games_of_on_before(
            games,
            teams[p]@.0,
            d,
            season_config.spec_time().spec_start_break().minutes(),
        ) <= 1,
        games_of_on_from(
            games,
            teams[p]@.0,
            d,
            season_config.spec_time().spec_end_break().minutes(),
        ) <= 1,
{
    let t = teams.len() as int;
    let m = padded_count(t);
    let times = season_config.spec_time();
    let (order_a, order_b, first, second) = choose|
        order_a: Seq<usize>,
        order_b: Seq<usize>,
        first: Seq<Game>,
        second: Seq<Game>,
    |
        {
            &&& is_leg_order(order_a, t)
            &&& is_leg_order(order_b, t)
            &&& #[trigger] is_leg_schedule(
                first,
                teams,
                order_a,
                start,
                season_config,
                times.spec_start_time().minutes(),
            )
            &&& #[trigger] is_leg_schedule(
                second,
                teams,
                order_b,
                start,
                season_config,
                times.spec_end_break().minutes(),
            )
            &&& !crate::leg_merge::merge_refused(first, second, m / 2, schedule_has_bye(first), m - 1, m - 1)
            &&& merged_views(first, second, m / 2, schedule_has_bye(first), m - 1, m - 1) == games
        };
    assert(order_a.len() == m && order_b.len() == m);
    assert(m <= usize::MAX);
    lemma_legs_mergeable(
        first,
        second,
        teams,
        order_a,
        order_b,
        start,
        season_config,
        times.spec_start_time().minutes(),
        times.spec_end_break().minutes(),
    );
    lemma_merged_day_counts(first, second, teams, order_a, order_b, start, season_config, m - 1, p, d);
}

/// Two lists of games that a test finds alike game by game count alike.
pub(crate) proof fn lemma_count_same(before: Seq<GameView>, after: Seq<GameView>, f: spec_fn(GameView) -> bool)
    requires
        after.len() == before.len(),
        forall|k: int| 0 <= k < before.len() ==> f(#[trigger] after[k]) == f(before[k]),
    ensures
        count_where(after, f) == count_where(before, f),
    decreases before.len(),
{
    if before.len() > 0 {
        let n = before.len() - 1;
        assert forall|k: int| 0 <= k < n implies f(#[trigger] after.drop_last()[k]) == f(before.drop_last()[k]) by {
            assert(after.drop_last()[k] == after[k]);
            assert(before.drop_last()[k] == before[k]);
        }
        lemma_count_same(before.drop_last(), after.drop_last(), f);
        assert(after.last() == after[n]);
        assert(before.last() == before[n]);
    }
}

/// The split of a team's games by the break holds of a round-robin
/// schedule with or without referees: naming referees moves no game.
pub(crate) proof fn lemma_round_robin_games_split_by_break(
    games: Seq<GameView>,
    teams: Seq<Team>,
    start: int,
    season_config: SeasonConfig,
    with_referees: bool,
    p: int,
    d: int,
)
    requires
        is_round_robin_schedule(games, teams, start, season_config, with_referees),
        round_robin_validation(teams.len() as int, season_config) is Ok,
        4 <= teams.len() < u32::MAX,
        no_bye_team(teams),
        distinct_names(teams),
        0 <= p < teams.len(),
        season_config.spec_time().spec_start_break().minutes()
            <= season_config.spec_time().spec_end_break().minutes(),
        second_leg_after_break(teams.len() as int, season_config),
    ensures
        games_of_on(games, teams[p]@.0, d) == games_of_on_before(
            games,
            teams[p]@.0,
            d,
            season_config.spec_time().spec_start_break().minutes(),
        ) + games_of_on_from(
            games,
            teams[p]@.0,
            d,
            season_config.spec_time().spec_end_break().minutes(),
        ),
        games_of_on_before(
            games,
            teams[p]@.0,
            d,
            season_config.spec_time().spec_start_break().minutes(),
        ) <= 1,
        games_of_on_from(
            games,
            teams[p]@.0,
            d,
            season_config.spec_time().spec_end_break().minutes(),
        ) <= 1,
{
    let a = teams[p]@.0;
    let sb = season_config.spec_time().spec_start_break().minutes();
    let eb = season_config.spec_time().spec_end_break().minutes();
    if with_referees {
        let merged = choose|merged: Seq<GameView>|
            #[trigger] is_merged_legs(merged, teams, start, season_config) && referees_assigned(
                merged,
                games,
                team_views(teams),
            );
        law_games_split_by_break(merged, teams, start, season_config, p, d);
        lemma_count_same(merged, games, on_day(a, d));
        lemma_count_same(merged, games, on_day_before(a, d, sb));
        lemma_count_same(merged, games, on_day_from(a, d, eb));
    } else {
        law_games_split_by_break(games, teams, start, season_config, p, d);
    }
}

/// The game has the team named `a` on one side, against a team or the bye.
pub open spec fn plays_in(game: GameView, a: Seq<char>) -> bool {
    game.home.0 == a || game.away.0 == a
}

/// A game on day `day` in which the team named `a` faces the bye.
pub open spec fn on_day_bye(a: Seq<char>, day: int) -> spec_fn(GameView) -> bool {
    |g: GameView| is_bye_view(g) && plays_in(g, a) && g.day == day
}

/// A game on day `day`.
pub open spec fn on_day_any(day: int) -> spec_fn(GameView) -> bool {
    |g: GameView| g.day == day
}

/// The games on day `day` in which the team named `a` sits out.
pub open spec fn byes_of_on(games: Seq<GameView>, a: Seq<char>, day: int) -> nat {
    count_where(games, on_day_bye(a, day))
}

/// A list where `f` holds of the game at `k` counts at least one.
proof fn lemma_count_positive(s: Seq<GameView>, f: spec_fn(GameView) -> bool, k: int)
    requires
        0 <= k < s.len(),
        f(s[k]),
    ensures
        count_where(s, f) >= 1,
    decreases s.len(),
{
    if k < s.len() - 1 {
        assert(s.drop_last()[k] == s[k]);
        lemma_count_positive(s.drop_last(), f, k);
    } else {
        assert(s.last() == s[k]);
    }
}

/// A list where `f` holds of the game at `k` and of no other counts one.
pub(crate) proof fn lemma_count_one(s: Seq<GameView>, f: spec_fn(GameView) -> bool, k: int)
    requires
        0 <= k < s.len(),
        f(s[k]),
        forall|j: int| 0 <= j < s.len() && f(#[trigger] s[j]) ==> j == k,
    ensures
        count_where(s, f) == 1,
{
    lemma_count_positive(s, f, k);
    lemma_count_at_most_one(s, f);
}

/// In round `round` of a leg, two games with the bye on one side are the
/// same game.
pub(crate) proof fn lemma_bye_once_in_round(teams: Seq<Team>, order: Seq<usize>, round: int, i1: int, i2: int)
    requires
        is_leg_order(order, teams.len() as int),
        teams.len() >= 4,
        order.len() <= usize::MAX,
        no_bye_team(teams),
        0 <= i1 < order.len() as int / 2,
        0 <= i2 < order.len() as int / 2,
        leg_game_is_bye(teams, order, round, i1),
        leg_game_is_bye(teams, order, round, i2),
    ensures
        i1 == i2,
{
    let t = teams.len() as int;
    let m = order.len() as int;
    lemma_leg_order_facts(order, t);
    assert(padded_count(t) >= 4);
    assert(m % 2 == 0);
    // Only one entrant is the bye: the one whose index is past the teams.
    assert forall|x: int| 0 <= x < m && #[trigger] entrant(teams, order, x).0 == BYE_NAME@ implies (order[x]
        as int) >= t by {
        if (order[x] as int) < t {
            assert(teams[order[x] as int]@.0 != BYE_NAME@);
        }
    }
    assert forall|x: int, y: int|
        0 <= x < m && 0 <= y < m && (order[x] as int) >= t && (order[y] as int) >= t implies x == y by {
        assert(order[x] as int == t && order[y] as int == t) by {
            if t % 2 == 0 {
                assert(m == t);
            } else {
                assert(m == t + 1);
            }
        }
    }
    assert forall|i: int| 0 <= i < m / 2 && #[trigger] leg_game_is_bye(teams, order, round, i) implies exists|x: int|
        0 <= x < m && (order[x] as int) >= t && (i == seat_of(m, round, x) || i == m - 1 - seat_of(m, round, x)) by {
        lemma_circle_index_range(m, round, i);
        lemma_circle_index_range(m, round, m - 1 - i);
        if leg_home(teams, order, round, i).0 == BYE_NAME@ {
            let x = circle_index(m, round, i);
            lemma_seat_of(m, round, x, i);
            assert(0 <= x < m && (order[x] as int) >= t && i == seat_of(m, round, x));
        } else {
            let x = circle_index(m, round, m - 1 - i);
            lemma_seat_of(m, round, x, m - 1 - i);
            assert(0 <= x < m && (order[x] as int) >= t && i == m - 1 - seat_of(m, round, x));
        }
    }
    let x1 = choose|x: int|
        0 <= x < m && (order[x] as int) >= t && (i1 == seat_of(m, round, x) || i1 == m - 1 - seat_of(m, round, x));
    let x2 = choose|x: int|
        0 <= x < m && (order[x] as int) >= t && (i2 == seat_of(m, round, x) || i2 == m - 1 - seat_of(m, round, x));
    assert(x1 == x2);
}

/// The first bye of a list of games is one of its games, and the team it
/// names faces the bye there.
proof fn lemma_first_bye_partner_found(games: Seq<Game>)
    requires
        first_bye_partner(games) is Some,
    ensures
        exists|k: int|
            0 <= k < games.len() && is_bye_view(#[trigger] games[k]@) && bye_partner(games[k]@)
                == first_bye_partner(games)->0,
    decreases games.len(),
{
    if games[0]@.home.0 == BYE_NAME@ || games[0]@.away.0 == BYE_NAME@ {
        assert(is_bye_view(games[0]@));
    } else {
        let rest = games.drop_first();
        lemma_first_bye_partner_found(rest);
        let k = choose|k: int|
            0 <= k < rest.len() && is_bye_view(#[trigger] rest[k]@) && bye_partner(rest[k]@)
                == first_bye_partner(rest)->0;
        assert(rest[k] == games[k + 1]);
    }
}

/// Every bye of a list of games has the same team facing it, the first
/// bye's team.
proof fn lemma_first_bye_partner_of(games: Seq<Game>, k: int)
    requires
        0 <= k < games.len(),
        is_bye_view(games[k]@),
        forall|j: int| 0 <= j < games.len() && is_bye_view(#[trigger] games[j]@) ==> j == k,
    ensures
        first_bye_partner(games) == Some(bye_partner(games[k]@)),
    decreases games.len(),
{
    if k > 0 {
        assert(!is_bye_view(games[0]@));
        let rest = games.drop_first();
        assert forall|j: int| 0 <= j < rest.len() && is_bye_view(#[trigger] rest[j]@) implies j == k - 1 by {
            assert(rest[j] == games[j + 1]);
        }
        assert(rest[k - 1] == games[k]);
        lemma_first_bye_partner_of(rest, k - 1);
    }
}

/// A round of a leg, moved to day `day`: the team `p` plays exactly one game
/// of it, a real one unless it is the team sitting the round out.
proof fn lemma_round_presence(
    leg: Seq<Game>,
    teams: Seq<Team>,
    order: Seq<usize>,
    start: int,
    season_config: SeasonConfig,
    leg_start: int,
    r: int,
    p: int,
    day: Date,
    d: int,
)
    requires
        is_leg_schedule(leg, teams, order, start, season_config, leg_start),
        is_leg_order(order, teams.len() as int),
        4 <= teams.len() < u32::MAX,
        order.len() <= usize::MAX,
        no_bye_team(teams),
        distinct_names(teams),
        0 <= p < teams.len(),
        0 <= r < order.len() - 1,
    ensures
        ({
            let games = round_games(leg, order.len() as int / 2, r);
            let moved = games.map_values(|g: Game| moved_to(g, day));
            let a = teams[p]@.0;
            let sits = first_bye_partner(games) == Some(a);
            &&& count_where(moved, on_day(a, d)) == if day.spec_day_number() == d && !sits {
                1nat
            } else {
                0nat
            }
            &&& count_where(moved, on_day_bye(a, d)) == if day.spec_day_number() == d && sits {
                1nat
            } else {
                0nat
            }
        }),
{
    let t = teams.len() as int;
    let m = order.len() as int;
    let half = m / 2;
    let a = teams[p]@.0;
    let games = round_games(leg, half, r);
    let moved = games.map_values(|g: Game| moved_to(g, day));
    let sits = first_bye_partner(games) == Some(a);
    lemma_leg_order_facts(order, t);
    assert(padded_count(t) >= 4);
    assert(m % 2 == 0);
    lemma_round_index(r, half - 1, m - 1, half);
    assert(games.len() == half && moved.len() == half);
    assert forall|i: int| 0 <= i < half implies {
        &&& (#[trigger] moved[i]).home == leg_home(teams, order, r, i)
        &&& moved[i].away == leg_away(teams, order, r, i)
        &&& moved[i].day == day.spec_day_number()
        &&& games[i]@.home == moved[i].home
        &&& games[i]@.away == moved[i].away
    } by {
        lemma_round_index(r, i, m - 1, half);
        assert(games[i] == scheduled_game(leg, half, r, i));
        assert(is_leg_game(scheduled_game(leg, half, r, i), leg, teams, order, start, season_config, leg_start, r, i));
    }
    // The game of `p` in this round.
    assert(a != BYE_NAME@);
    assert(order.contains(p as usize));
    let x = choose|x: int| 0 <= x < m && order[x] == p as usize;
    let seat = seat_of(m, r, x);
    lemma_seat_of(m, r, x, 0);
    let i0 = if seat < half {
        seat
    } else {
        m - 1 - seat
    };
    assert(entrant(teams, order, x) == teams[p]@);
    if seat < half {
        assert(leg_home(teams, order, r, i0).0 == a);
    } else {
        assert(m - 1 - i0 == seat);
        assert(leg_away(teams, order, r, i0).0 == a);
    }
    assert(plays_in(moved[i0], a));
    assert forall|i: int| 0 <= i < half && plays_in(#[trigger] moved[i], a) implies i == i0 by {
        lemma_team_once_in_round(teams, order, r, p, i, i0);
    }
    // `p` sits the round out exactly when its game is the bye.
    if is_bye_view(moved[i0]) {
        assert forall|j: int| 0 <= j < games.len() && is_bye_view(#[trigger] games[j]@) implies j == i0 by {
            assert(moved[j].home == leg_home(teams, order, r, j));
            assert(moved[i0].home == leg_home(teams, order, r, i0));
            assert(leg_game_is_bye(teams, order, r, j));
            assert(leg_game_is_bye(teams, order, r, i0));
            lemma_bye_once_in_round(teams, order, r, j, i0);
        }
        assert(is_bye_view(games[i0]@));
        lemma_first_bye_partner_of(games, i0);
        assert(bye_partner(games[i0]@) == a);
        assert(sits);
    } else if sits {
        lemma_first_bye_partner_found(games);
        let k = choose|k: int|
            0 <= k < games.len() && is_bye_view(#[trigger] games[k]@) && bye_partner(games[k]@)
                == first_bye_partner(games)->0;
        assert(plays_in(moved[k], a));
        assert(k == i0);
        assert(false);
    }
    assert(sits == is_bye_view(moved[i0]));
    if day.spec_day_number() == d {
        if sits {
            assert forall|i: int| 0 <= i < moved.len() implies !on_day(a, d)(#[trigger] moved[i]) by {
                if plays_in(moved[i], a) {
                    assert(i == i0);
                }
            }
            lemma_count_none(moved, on_day(a, d));
            assert forall|j: int| 0 <= j < moved.len() && on_day_bye(a, d)(#[trigger] moved[j]) implies j == i0 by {
            }
            lemma_count_one(moved, on_day_bye(a, d), i0);
        } else {
            assert forall|j: int| 0 <= j < moved.len() && on_day(a, d)(#[trigger] moved[j]) implies j == i0 by {
            }
            lemma_count_one(moved, on_day(a, d), i0);
            assert forall|i: int| 0 <= i < moved.len() implies !on_day_bye(a, d)(#[trigger] moved[i]) by {
                if plays_in(moved[i], a) {
                    assert(i == i0);
                }
            }
            lemma_count_none(moved, on_day_bye(a, d));
        }
    } else {
        lemma_count_none(moved, on_day(a, d));
        lemma_count_none(moved, on_day_bye(a, d));
    }
}

/// The real games of a list have no bye.
proof fn lemma_real_games_real(games: Seq<Game>)
    ensures
        forall|i: int| 0 <= i < real_games(games).len() ==> !is_bye_view(#[trigger] real_games(games)[i]@),
    decreases games.len(),
{
    if games.len() > 0 {
        lemma_real_games_real(games.drop_last());
        let rest = real_games(games.drop_last());
        if !is_bye_view(games.last()@) {
            assert forall|i: int| 0 <= i < real_games(games).len() implies !is_bye_view(#[trigger] real_games(games)[i]@) by {
                if i < rest.len() {
                    assert(real_games(games)[i] == rest[i]);
                }
            }
        }
    }
}

/// A leg without a bye has no round with a team sitting out.
proof fn lemma_no_bye_partner(leg: Seq<Game>, half: int, r: int, rounds: int)
    requires
        !schedule_has_bye(leg),
        half >= 1,
        0 <= r < rounds,
        leg.len() == rounds * half,
    ensures
        first_bye_partner(round_games(leg, half, r)) is None,
{
    let games = round_games(leg, half, r);
    if first_bye_partner(games) is Some {
        lemma_first_bye_partner_found(games);
        let k = choose|k: int|
            0 <= k < games.len() && is_bye_view(#[trigger] games[k]@) && bye_partner(games[k]@)
                == first_bye_partner(games)->0;
        lemma_round_index(r, half - 1, rounds, half);
        lemma_round_index(r, k, rounds, half);
        assert(games[k] == leg[r * half + k]);
        assert(is_bye_view(leg[r * half + k]@));
    }
}

/// Round `r` of the first leg with the round of the second that goes with
/// it: on their day the team `p` plays two real games, or sits out in both
/// and plays none; on other days they hold no game at all.
proof fn lemma_block_presence(
    first: Seq<Game>,
    second: Seq<Game>,
    teams: Seq<Team>,
    order_a: Seq<usize>,
    order_b: Seq<usize>,
    start: int,
    season_config: SeasonConfig,
    r: int,
    p: int,
    d: int,
)
    requires
        is_leg_schedule(
            first,
            teams,
            order_a,
            start,
            season_config,
            season_config.spec_time().spec_start_time().minutes(),
        ),
        is_leg_schedule(
            second,
            teams,
            order_b,
            start,
            season_config,
            season_config.spec_time().spec_end_break().minutes(),
        ),
        is_leg_order(order_a, teams.len() as int),
        is_leg_order(order_b, teams.len() as int),
        order_a.len() == order_b.len(),
        mergeable(first, second, order_a.len() as int / 2, order_a.len() - 1),
        4 <= teams.len() < u32::MAX,
        order_a.len() <= usize::MAX,
        no_bye_team(teams),
        distinct_names(teams),
        0 <= p < teams.len(),
        0 <= r < order_a.len() - 1,
    ensures
        ({
            let half = order_a.len() as int / 2;
            let rounds = order_a.len() - 1;
            let has_bye = schedule_has_bye(first);
            let j = matching_round(first, second, half, has_bye, r, 0, rounds);
            let day = round_date(first, half, r);
            let part_a = round_games(first, half, r).map_values(|g: Game| g@);
            let part_b = real_games(round_games(second, half, j)).map_values(|g: Game| moved_to(g, day));
            let a = teams[p]@.0;
            let sits = first_bye_partner(round_games(first, half, r)) == Some(a);
            &&& count_where(part_a, on_day(a, d)) + count_where(part_b, on_day(a, d)) == if day.spec_day_number()
                == d && !sits {
                2nat
            } else {
                0nat
            }
            &&& count_where(part_a, on_day_bye(a, d)) + count_where(part_b, on_day_bye(a, d)) == if day.spec_day_number()
                == d && sits {
                1nat
            } else {
                0nat
            }
            &&& day.spec_day_number() != d ==> count_where(part_a, on_day_any(d)) + count_where(
                part_b,
                on_day_any(d),
            ) == 0
        }),
{
    let t = teams.len() as int;
    let m = order_a.len() as int;
    let half = m / 2;
    let rounds = m - 1;
    let has_bye = schedule_has_bye(first);
    let a = teams[p]@.0;
    let st = season_config.spec_time().spec_start_time().minutes();
    let eb = season_config.spec_time().spec_end_break().minutes();
    lemma_leg_order_facts(order_a, t);
    assert(padded_count(t) >= 4);
    assert(round_matched(first, second, half, has_bye, r, rounds));
    let j0 = choose|j: int| 0 <= j < rounds && #[trigger] matches_round(first, second, half, has_bye, r, j);
    lemma_matching_round(first, second, half, has_bye, r, 0, rounds, j0);
    let j = matching_round(first, second, half, has_bye, r, 0, rounds);
    let day = round_date(first, half, r);
    let part_a = round_games(first, half, r).map_values(|g: Game| g@);
    let moved_a = round_games(first, half, r).map_values(|g: Game| moved_to(g, day));
    let games_b = round_games(second, half, j);
    let moved_b = games_b.map_values(|g: Game| moved_to(g, day));
    let part_b = real_games(games_b).map_values(|g: Game| moved_to(g, day));
    // The first leg's round is already on its day.
    lemma_round_index(r, half - 1, m - 1, half);
    lemma_round_index(r, 0, m - 1, half);
    assert(is_leg_game(scheduled_game(first, half, r, 0), first, teams, order_a, start, season_config, st, r, 0));
    assert forall|i: int| 0 <= i < half implies #[trigger] part_a[i] == moved_a[i] by {
        lemma_round_index(r, i, m - 1, half);
        assert(round_games(first, half, r)[i] == scheduled_game(first, half, r, i));
        assert(is_leg_game(scheduled_game(first, half, r, i), first, teams, order_a, start, season_config, st, r, i));
    }
    assert(part_a =~= moved_a);
    lemma_round_presence(first, teams, order_a, start, season_config, st, r, p, day, d);
    lemma_round_presence(second, teams, order_b, start, season_config, eb, j, p, day, d);
    lemma_count_real_moved(games_b, day, on_day(a, d));
    lemma_real_games_real(games_b);
    assert forall|i: int| 0 <= i < part_b.len() implies !on_day_bye(a, d)(#[trigger] part_b[i]) by {
        assert(part_b[i] == moved_to(real_games(games_b)[i], day));
        assert(!is_bye_view(real_games(games_b)[i]@));
    }
    lemma_count_none(part_b, on_day_bye(a, d));
    // The same team sits out in both rounds.
    if t % 2 == 1 {
        crate::round_robin::lemma_round_has_bye(teams, order_a, 0);
        let i = choose|i: int| 0 <= i < half && leg_game_is_bye(teams, order_a, 0, i);
        lemma_round_index(0, i, m - 1, half);
        assert(is_leg_game(scheduled_game(first, half, 0, i), first, teams, order_a, start, season_config, st, 0, i));
        assert(first[0 * half + i] == scheduled_game(first, half, 0, i));
        assert(is_bye_view(first[0 * half + i]@));
        assert(has_bye);
        assert(matches_round(first, second, half, has_bye, r, j));
    } else {
        lemma_even_leg_has_no_bye(first, teams, order_a, start, season_config, st);
        lemma_even_leg_has_no_bye(second, teams, order_b, start, season_config, eb);
        crate::double_round_robin::lemma_leg_in_day_rounds(first, teams, order_a, start, season_config, st);
        crate::double_round_robin::lemma_leg_in_day_rounds(second, teams, order_b, start, season_config, eb);
        lemma_no_bye_partner(first, half, r, rounds);
        lemma_no_bye_partner(second, half, j, rounds);
    }
    if day.spec_day_number() != d {
        assert forall|i: int| 0 <= i < part_a.len() implies !on_day_any(d)(#[trigger] part_a[i]) by {
            assert(part_a[i] == moved_a[i]);
        }
        lemma_count_none(part_a, on_day_any(d));
        assert forall|i: int| 0 <= i < part_b.len() implies !on_day_any(d)(#[trigger] part_b[i]) by {
            assert(part_b[i] == moved_to(real_games(games_b)[i], day));
        }
        lemma_count_none(part_b, on_day_any(d));
    }
}

/// The first `k` rounds of two merged legs: on a day of one of them the team
/// `p` plays two real games, or sits out and plays none; on any other day
/// they hold no game.
proof fn lemma_merged_presence(
    first: Seq<Game>,
    second: Seq<Game>,
    teams: Seq<Team>,
    order_a: Seq<usize>,
    order_b: Seq<usize>,
    start: int,
    season_config: SeasonConfig,
    k: int,
    p: int,
    d: int,
)
    requires
        is_leg_schedule(
            first,
            teams,
            order_a,
            start,
            season_config,
            season_config.spec_time().spec_start_time().minutes(),
        ),
        is_leg_schedule(
            second,
            teams,
            order_b,
            start,
            season_config,
            season_config.spec_time().spec_end_break().minutes(),
        ),
        is_leg_order(order_a, teams.len() as int),
        is_leg_order(order_b, teams.len() as int),
        order_a.len() == order_b.len(),
        mergeable(first, second, order_a.len() as int / 2, order_a.len() - 1),
        4 <= teams.len() < u32::MAX,
        order_a.len() <= usize::MAX,
        no_bye_team(teams),
        distinct_names(teams),
        0 <= p < teams.len(),
        0 <= k <= order_a.len() - 1,
    ensures
        ({
            let half = order_a.len() as int / 2;
            let rounds = order_a.len() - 1;
            let merged = merged_views(first, second, half, schedule_has_bye(first), rounds, k);
            let a = teams[p]@.0;
            &&& (forall|r: int| 0 <= r < k ==> #[trigger] round_date(first, half, r).spec_day_number() != d)
                ==> games_of_on(merged, a, d) == 0 && byes_of_on(merged, a, d) == 0 && count_where(
                merged,
                on_day_any(d),
            ) == 0
            &&& (exists|r: int| 0 <= r < k && #[trigger] round_date(first, half, r).spec_day_number() == d)
                ==> games_of_on(merged, a, d) + 2 * byes_of_on(merged, a, d) == 2 && byes_of_on(
                merged,
                a,
                d,
            ) <= 1
        }),
    decreases k,
{
    let half = order_a.len() as int / 2;
    let rounds = order_a.len() - 1;
    let has_bye = schedule_has_bye(first);
    let a = teams[p]@.0;
    let merged = merged_views(first, second, half, has_bye, rounds, k);
    if k > 0 {
        let r = k - 1;
        lemma_merged_presence(first, second, teams, order_a, order_b, start, season_config, k - 1, p, d);
        let earlier = merged_views(first, second, half, has_bye, rounds, k - 1);
        let j = matching_round(first, second, half, has_bye, r, 0, rounds);
        let day = round_date(first, half, r);
        let part_a = round_games(first, half, r).map_values(|g: Game| g@);
        let part_b = real_games(round_games(second, half, j)).map_values(|g: Game| moved_to(g, day));
        assert(merged == earlier + part_a + part_b);
        lemma_block_presence(first, second, teams, order_a, order_b, start, season_config, r, p, d);
        lemma_count_concat(earlier, part_a, on_day(a, d));
        lemma_count_concat(earlier + part_a, part_b, on_day(a, d));
        lemma_count_concat(earlier, part_a, on_day_bye(a, d));
        lemma_count_concat(earlier + part_a, part_b, on_day_bye(a, d));
        lemma_count_concat(earlier, part_a, on_day_any(d));
        lemma_count_concat(earlier + part_a, part_b, on_day_any(d));
        if day.spec_day_number() == d {
            assert forall|r2: int| 0 <= r2 < k - 1 implies #[trigger] round_date(first, half, r2).spec_day_number() != d by {
                lemma_round_dates_increase(first, half, rounds, r2, r);
            }
        } else {
            if exists|r2: int| 0 <= r2 < k && #[trigger] round_date(first, half, r2).spec_day_number() == d {
                let r2 = choose|r2: int| 0 <= r2 < k && #[trigger] round_date(first, half, r2).spec_day_number() == d;
                assert(r2 < k - 1);
            }
        }
    } else {
        assert(merged =~= Seq::<GameView>::empty());
    }
}

/// Law of the group stage's match days: on a day with games, a team plays
/// exactly two real games, or, sitting the day out, plays none and faces
/// the bye once.
pub proof fn law_two_games_a_match_day(
    games: Seq<GameView>,
    teams: Seq<Team>,
    start: int,
    season_config: SeasonConfig,
    p: int,
    d: int,
)
    requires
        is_merged_legs(games, teams, start, season_config),
        4 <= teams.len() < u32::MAX,
        no_bye_team(teams),
        distinct_names(teams),
        0 <= p < teams.len(),
        exists|k: int| 0 <= k < games.len() && (#[trigger] games[k]).day == d,
    ensures
        games_of_on(games, teams[p]@.0, d) + 2 * byes_of_on(games, teams[p]@.0, d) == 2,
        byes_of_on(games, teams[p]@.0, d) <= 1,
{
    let t = teams.len() as int;
    let m = padded_count(t);
    let times = season_config.spec_time();
    let (order_a, order_b, first, second) = choose|
        order_a: Seq<usize>,
        order_b: Seq<usize>,
        first: Seq<Game>,
        second: Seq<Game>,
    |
        {
            &&& is_leg_order(order_a, t)
            &&& is_leg_order(order_b, t)
            &&& #[trigger] is_leg_schedule(
                first,
                teams,
                order_a,
                start,
                season_config,
                times.spec_start_time().minutes(),
            )
            &&& #[trigger] is_leg_schedule(
                second,
                teams,
                order_b,
                start,
                season_config,
                times.spec_end_break().minutes(),
            )
            &&& !crate::leg_merge::merge_refused(first, second, m / 2, schedule_has_bye(first), m - 1, m - 1)
            &&& merged_views(first, second, m / 2, schedule_has_bye(first), m - 1, m - 1) == games
        };
    assert(order_a.len() == m && order_b.len() == m);
    assert(m <= usize::MAX);
    lemma_legs_mergeable(
        first,
        second,
        teams,
        order_a,
        order_b,
        start,
        season_config,
        times.spec_start_time().minutes(),
        times.spec_end_break().minutes(),
    );
    lemma_merged_presence(first, second, teams, order_a, order_b, start, season_config, m - 1, p, d);
    let k0 = choose|k: int| 0 <= k < games.len() && (#[trigger] games[k]).day == d;
    lemma_count_positive(games, on_day_any(d), k0);
    if !exists|r: int| 0 <= r < m - 1 && #[trigger] round_date(first, m / 2, r).spec_day_number() == d {
        assert forall|r: int| 0 <= r < m - 1 implies #[trigger] round_date(first, m / 2, r).spec_day_number() != d by {
        }
        assert(false);
    }
}

/// Two games a match day holds of a round-robin schedule with or without
/// referees: naming referees moves no game.
pub(crate) proof fn lemma_round_robin_two_games_a_match_day(
    games: Seq<GameView>,
    teams: Seq<Team>,
    start: int,
    season_config: SeasonConfig,
    with_referees: bool,
    p: int,
    d: int,
)
    requires
        is_round_robin_schedule(games, teams, start, season_config, with_referees),
        4 <= teams.len() < u32::MAX,
        no_bye_team(teams),
        distinct_names(teams),
        0 <= p < teams.len(),
        exists|k: int| 0 <= k < games.len() && (#[trigger] games[k]).day == d,
    ensures
        games_of_on(games, teams[p]@.0, d) + 2 * byes_of_on(games, teams[p]@.0, d) == 2,
        byes_of_on(games, teams[p]@.0, d) <= 1,
{
    let a = teams[p]@.0;
    if with_referees {
        let merged = choose|merged: Seq<GameView>|
            #[trigger] is_merged_legs(merged, teams, start, season_config) && referees_assigned(
                merged,
                games,
                team_views(teams),
            );
        let k0 = choose|k: int| 0 <= k < games.len() && (#[trigger] games[k]).day == d;
        assert(merged[k0].day == d);
        law_two_games_a_match_day(merged, teams, start, season_config, p, d);
        lemma_count_same(merged, games, on_day(a, d));
        lemma_count_same(merged, games, on_day_bye(a, d));
    } else {
        law_two_games_a_match_day(games, teams, start, season_config, p, d);
    }
}

} // verus!
