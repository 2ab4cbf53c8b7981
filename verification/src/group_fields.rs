use vstd::prelude::*;

use crate::bracket_fields::at_moment;
use crate::calendar::Date;
use crate::configuration::TimeConfiguration;
use crate::day_split::{
    count_where, lemma_after_break_before_midnight, lemma_count_concat, lemma_count_none,
    lemma_count_real_moved, lemma_count_same,
    lemma_late_slot, lemma_real_games_before_bound,
    lemma_real_slot_bound, second_leg_before_midnight, slot_of, slots_needed,
};
use crate::double_round_robin::no_bye_team;
use crate::game::{Game, GameView};
use crate::leg_merge::{
    is_bye_view, lemma_matching_round, matches_round, matching_round, merge_refused, mergeable,
    merged_views, moved_to, real_games, round_date, round_games, round_matched, schedule_has_bye,
};
use crate::double_round_robin::{is_merged_legs, is_round_robin_schedule, lemma_legs_mergeable};
use crate::home_away::{is_group_stage, lemma_oriented_count, oriented, swap_sides};
use crate::laws::lemma_round_dates_increase;
use crate::referees::{referees_assigned, team_views};
use crate::round_robin::{
    is_leg_game, is_leg_order, is_leg_schedule, leg_game_is_bye, leg_slot, lemma_counted_slots_fit,
    lemma_real_games_monotone, lemma_round_index, padded_count, real_games_before, round_robin_validation,
    scheduled_game, slots_before_break,
};
use crate::season_config::SeasonConfig;
use crate::team::Team;

verus! {

/// The real games of a round at one moment, all in the slot `s`: the last
/// of those among the first `i` games has at least as many real games
/// before it, from the slot's first on, as there are such games.
proof fn lemma_round_moment_prefix(
    moved: Seq<GameView>,
    teams: Seq<Team>,
    order: Seq<usize>,
    round: int,
    fields: int,
    s: int,
    day: int,
    time: int,
    i: int,
)
    requires
        0 <= i <= moved.len(),
        fields >= 1,
        forall|x: int| 0 <= x < moved.len() ==> is_bye_view(#[trigger] moved[x]) == leg_game_is_bye(teams, order, round, x),
        forall|x: int|
            0 <= x < moved.len() && at_moment(day, time)(#[trigger] moved[x]) ==> real_games_before(
                teams,
                order,
                round,
                x,
            ) / fields == s,
    ensures
        count_where(moved.take(i), at_moment(day, time)) > 0 ==> exists|k: int|
            0 <= k < i && at_moment(day, time)(#[trigger] moved[k]) && real_games_before(teams, order, round, k)
                >= s * fields + count_where(moved.take(i), at_moment(day, time)) - 1,
    decreases i,
{
    let f = at_moment(day, time);
    if i > 0 {
        lemma_round_moment_prefix(moved, teams, order, round, fields, s, day, time, i - 1);
        assert(moved.take(i).drop_last() =~= moved.take(i - 1));
        assert(moved.take(i).last() == moved[i - 1]);
        let x = i - 1;
        if f(moved[x]) {
            let rx = real_games_before(teams, order, round, x);
            lemma_real_games_before_bound(teams, order, round, x, 0);
            assert(s * fields <= rx) by (nonlinear_arith)
                requires
                    rx / fields == s,
                    rx >= 0,
                    fields >= 1,
            ;
            if count_where(moved.take(i - 1), f) > 0 {
                let k = choose|k: int|
                    0 <= k < i - 1 && f(#[trigger] moved[k]) && real_games_before(teams, order, round, k)
                        >= s * fields + count_where(moved.take(i - 1), f) - 1;
                assert(!leg_game_is_bye(teams, order, round, k));
                assert(real_games_before(teams, order, round, k + 1) == real_games_before(teams, order, round, k) + 1);
                lemma_real_games_monotone(teams, order, round, k + 1, x);
            }
        } else if count_where(moved.take(i - 1), f) > 0 {
            let k = choose|k: int|
                0 <= k < i - 1 && f(#[trigger] moved[k]) && real_games_before(teams, order, round, k)
                    >= s * fields + count_where(moved.take(i - 1), f) - 1;
            assert(f(moved[k]));
        }
    }
}

/// A round of a leg, moved to any day: as long as different slots of the
/// leg start at different times, at most as many of its real games start at
/// one moment as there are fields.
proof fn lemma_round_moment(
    leg: Seq<Game>,
    teams: Seq<Team>,
    order: Seq<usize>,
    start: int,
    season_config: SeasonConfig,
    leg_start: int,
    r: int,
    day: Date,
    d: int,
    time: int,
)
    requires
        is_leg_schedule(leg, teams, order, start, season_config, leg_start),
        is_leg_order(order, teams.len() as int),
        4 <= teams.len() < u32::MAX,
        order.len() <= usize::MAX,
        0 <= r < order.len() - 1,
        season_config.spec_number_fields() >= 1,
        forall|s1: nat, s2: nat|
            s1 < slots_needed(teams.len() as int, season_config) && s2 < slots_needed(teams.len() as int, season_config)
                && #[trigger] leg_slot(season_config.spec_time(), leg_start, s1) == #[trigger] leg_slot(
                season_config.spec_time(),
                leg_start,
                s2,
            ) ==> s1 == s2,
    ensures
        count_where(
            round_games(leg, order.len() as int / 2, r).map_values(|g: Game| moved_to(g, day)),
            at_moment(d, time),
        ) <= season_config.spec_number_fields(),
{
    let t = teams.len() as int;
    let m = order.len() as int;
    let half = m / 2;
    let fields = season_config.spec_number_fields() as int;
    let times = season_config.spec_time();
    let f = at_moment(d, time);
    let moved = round_games(leg, half, r).map_values(|g: Game| moved_to(g, day));
    assert(m == crate::round_robin::padded_count(t));
    lemma_round_index(r, 0, m - 1, half);
    lemma_round_index(r, half - 1, m - 1, half);
    assert(moved.len() == half);
    assert forall|x: int| 0 <= x < moved.len() implies {
        &&& is_bye_view(#[trigger] moved[x]) == leg_game_is_bye(teams, order, r, x)
        &&& moved[x].time == leg_slot(times, leg_start, slot_of(teams, order, r, x, fields))
    } by {
        lemma_round_index(r, x, m - 1, half);
        assert(round_games(leg, half, r)[x] == scheduled_game(leg, half, r, x));
        assert(is_leg_game(scheduled_game(leg, half, r, x), leg, teams, order, start, season_config, leg_start, r, x));
    }
    if count_where(moved, f) > 0 {
        if forall|x: int| 0 <= x < moved.len() ==> !f(#[trigger] moved[x]) {
            lemma_count_none(moved, f);
        }
        let x0 = choose|x: int| 0 <= x < moved.len() && f(#[trigger] moved[x]);
        let s = slot_of(teams, order, r, x0, fields);
        lemma_real_slot_bound(teams, order, r, x0, fields);
        assert forall|x: int| 0 <= x < moved.len() && f(#[trigger] moved[x]) implies real_games_before(
            teams,
            order,
            r,
            x,
        ) / fields == s by {
            lemma_real_slot_bound(teams, order, r, x, fields);
            lemma_real_games_before_bound(teams, order, r, x, 0);
            let sx = slot_of(teams, order, r, x, fields);
            assert(leg_slot(times, leg_start, sx) == leg_slot(times, leg_start, s));
        }
        lemma_round_moment_prefix(moved, teams, order, r, fields, s as int, d, time, moved.len() as int);
        assert(moved.take(moved.len() as int) =~= moved);
        let k = choose|k: int|
            0 <= k < moved.len() && f(#[trigger] moved[k]) && real_games_before(teams, order, r, k) >= s
                * fields + count_where(moved.take(moved.len() as int), f) - 1;
        let rk = real_games_before(teams, order, r, k);
        lemma_real_games_before_bound(teams, order, r, k, 0);
        assert(rk < s * fields + fields) by (nonlinear_arith)
            requires
                rk / fields == s,
                rk >= 0,
                fields >= 1,
        ;
    }
}

/// A slot of a leg starts at a minute of the day.
proof fn lemma_leg_slot_nonnegative(times: TimeConfiguration, leg_start: int, slot: nat)
    requires
        leg_start >= 0,
    ensures
        leg_slot(times, leg_start, slot) >= 0,
    decreases slot,
{
    times.spec_end_break().lemma_minutes_nonnegative();
    if slot > 0 {
        lemma_leg_slot_nonnegative(times, leg_start, (slot - 1) as nat);
    }
}

/// The slots the leg before the break needs start at different times: they
/// all start before the break, so each starts later than the one before.
proof fn lemma_first_leg_slots_distinct(teams_len: int, season_config: SeasonConfig)
    requires
        round_robin_validation(teams_len, season_config) is Ok,
        season_config.spec_time().spec_start_break().minutes()
            <= season_config.spec_time().spec_end_break().minutes(),
        second_leg_before_midnight(teams_len, season_config),
        season_config.spec_time().spec_interval() > 0,
    ensures
        forall|s1: nat, s2: nat|
            s1 < slots_needed(teams_len, season_config) && s2 < slots_needed(teams_len, season_config)
                && #[trigger] leg_slot(
                season_config.spec_time(),
                season_config.spec_time().spec_start_time().minutes(),
                s1,
            ) == #[trigger] leg_slot(
                season_config.spec_time(),
                season_config.spec_time().spec_start_time().minutes(),
                s2,
            ) ==> s1 == s2,
{
    let times = season_config.spec_time();
    let st = times.spec_start_time().minutes();
    let sb = times.spec_start_break().minutes();
    let eb = times.spec_end_break().minutes();
    let interval = times.spec_interval();
    let needed = slots_needed(teams_len, season_config);
    times.spec_start_time().lemma_minutes_nonnegative();
    assert(needed <= slots_before_break(times));
    assert forall|s: nat| s < needed implies #[trigger] leg_slot(times, st, s) < sb by {
        lemma_counted_slots_fit(times, st, true, 0, s);
    }
    assert forall|s: nat| s + 1 < needed implies leg_slot(times, st, s) < #[trigger] leg_slot(times, st, s + 1) by {
        assert((needed - 1) * interval >= interval) by (nonlinear_arith)
            requires
                needed >= 2,
                interval > 0,
        ;
        lemma_leg_slot_nonnegative(times, st, s);
        let here = leg_slot(times, st, s);
        assert(here < sb);
        assert(here + interval < 1440);
        assert((here + interval) % 1440 == here + interval);
    }
    assert forall|s1: nat, s2: nat| s1 < s2 < needed implies leg_slot(times, st, s1) < leg_slot(times, st, s2) by {
        lemma_slots_increase(times, st, needed, s1, s2);
    }
}

/// Slots that each start later than the one before start at different
/// times.
proof fn lemma_slots_increase(times: TimeConfiguration, leg_start: int, needed: int, s1: nat, s2: nat)
    requires
        s1 < s2 < needed,
        forall|s: nat| s + 1 < needed ==> leg_slot(times, leg_start, s) < #[trigger] leg_slot(times, leg_start, s + 1),
    ensures
        leg_slot(times, leg_start, s1) < leg_slot(times, leg_start, s2),
    decreases s2 - s1,
{
    let p = (s2 - 1) as nat;
    assert(leg_slot(times, leg_start, p) < leg_slot(times, leg_start, p + 1));
    if s1 < p {
        lemma_slots_increase(times, leg_start, needed, s1, p);
    }
}

/// The slots the leg after the break needs start at different times: an
/// interval apart from the end of the break.
proof fn lemma_second_leg_slots_distinct(teams_len: int, season_config: SeasonConfig)
    requires
        second_leg_before_midnight(teams_len, season_config),
        season_config.spec_time().spec_interval() > 0,
    ensures
        forall|s1: nat, s2: nat|
            s1 < slots_needed(teams_len, season_config) && s2 < slots_needed(teams_len, season_config)
                && #[trigger] leg_slot(
                season_config.spec_time(),
                season_config.spec_time().spec_end_break().minutes(),
                s1,
            ) == #[trigger] leg_slot(
                season_config.spec_time(),
                season_config.spec_time().spec_end_break().minutes(),
                s2,
            ) ==> s1 == s2,
{
    let times = season_config.spec_time();
    let eb = times.spec_end_break().minutes();
    let interval = times.spec_interval();
    let needed = slots_needed(teams_len, season_config);
    assert forall|s: nat| s < needed implies #[trigger] leg_slot(times, eb, s) == eb + s * interval by {
        assert(s * interval <= (needed - 1) * interval) by (nonlinear_arith)
            requires
                s <= needed - 1,
                interval > 0,
        ;
        lemma_late_slot(times, s);
    }
    assert forall|s1: nat, s2: nat|
        s1 < needed && s2 < needed && #[trigger] leg_slot(times, eb, s1) == #[trigger] leg_slot(times, eb, s2) implies s1
        == s2 by {
        assert(eb + s1 * interval == eb + s2 * interval);
        assert(s1 == s2) by (nonlinear_arith)
            requires
                s1 * interval == s2 * interval,
                interval > 0,
        ;
    }
}

/// The games of one day of merged legs: a round of the first leg and the
/// real games of the second leg's round that goes with it, moved to its
/// day. At most as many of them start at one moment as there are fields,
/// and none on another day.
#[verifier::spinoff_prover]
#[verifier::rlimit(40)]
proof fn lemma_block_moment(
    first: Seq<Game>,
    second: Seq<Game>,
    teams: Seq<Team>,
    order_a: Seq<usize>,
    order_b: Seq<usize>,
    start: int,
    season_config: SeasonConfig,
    r: int,
    j: int,
    d: int,
    time: int,
)
    requires
        is_leg_schedule(first, teams, order_a, start, season_config, season_config.spec_time().spec_start_time().minutes()),
        is_leg_schedule(second, teams, order_b, start, season_config, season_config.spec_time().spec_end_break().minutes()),
        is_leg_order(order_a, teams.len() as int),
        is_leg_order(order_b, teams.len() as int),
        4 <= teams.len() < u32::MAX,
        order_a.len() <= usize::MAX,
        0 <= r < order_a.len() - 1,
        0 <= j < order_a.len() - 1,
        round_robin_validation(teams.len() as int, season_config) is Ok,
        season_config.spec_time().spec_start_break().minutes()
            <= season_config.spec_time().spec_end_break().minutes(),
        second_leg_before_midnight(teams.len() as int, season_config),
        season_config.spec_time().spec_interval() > 0,
    ensures
        ({
            let half = order_a.len() as int / 2;
            let day = round_date(first, half, r);
            let part_a = round_games(first, half, r).map_values(|g: Game| g@);
            let part_b = real_games(round_games(second, half, j)).map_values(|g: Game| moved_to(g, day));
            &&& count_where(part_a, at_moment(d, time)) + count_where(part_b, at_moment(d, time))
                <= season_config.spec_number_fields()
            &&& day.spec_day_number() != d ==> count_where(part_a, at_moment(d, time)) + count_where(
                part_b,
                at_moment(d, time),
            ) == 0
        }),
{
    let t = teams.len() as int;
    let m = order_a.len() as int;
    let half = m / 2;
    let times = season_config.spec_time();
    let st = times.spec_start_time().minutes();
    let sb = times.spec_start_break().minutes();
    let eb = times.spec_end_break().minutes();
    let fields = season_config.spec_number_fields() as int;
    let needed = slots_needed(t, season_config);
    let f = at_moment(d, time);
    let day = round_date(first, half, r);
    let games_a = round_games(first, half, r);
    let games_b = round_games(second, half, j);
    let part_a = games_a.map_values(|g: Game| g@);
    let moved_a = games_a.map_values(|g: Game| moved_to(g, day));
    let moved_b = games_b.map_values(|g: Game| moved_to(g, day));
    let part_b = real_games(games_b).map_values(|g: Game| moved_to(g, day));
    assert(m == crate::round_robin::padded_count(t));
    assert(order_b.len() == m);
    lemma_round_index(r, 0, m - 1, half);
    lemma_round_index(r, half - 1, m - 1, half);
    lemma_round_index(j, half - 1, m - 1, half);
    assert(is_leg_game(scheduled_game(first, half, r, 0), first, teams, order_a, start, season_config, st, r, 0));
    assert forall|x: int| 0 <= x < half implies {
        &&& #[trigger] part_a[x] == moved_a[x]
        &&& (!is_bye_view(part_a[x]) ==> part_a[x].time < sb)
        &&& part_a[x].day == day.spec_day_number()
    } by {
        lemma_round_index(r, x, m - 1, half);
        assert(games_a[x] == scheduled_game(first, half, r, x));
        assert(is_leg_game(scheduled_game(first, half, r, x), first, teams, order_a, start, season_config, st, r, x));
        if !is_bye_view(part_a[x]) {
            lemma_real_slot_bound(teams, order_a, r, x, fields);
            lemma_counted_slots_fit(times, st, true, 0, slot_of(teams, order_a, r, x, fields));
        }
    }
    assert(part_a =~= moved_a);
    lemma_after_break_before_midnight(t, season_config);
    assert forall|x: int| 0 <= x < half implies {
        &&& (!is_bye_view(#[trigger] moved_b[x]) ==> moved_b[x].time >= eb)
        &&& moved_b[x].day == day.spec_day_number()
    } by {
        lemma_round_index(j, x, m - 1, half);
        assert(games_b[x] == scheduled_game(second, half, j, x));
        assert(is_leg_game(scheduled_game(second, half, j, x), second, teams, order_b, start, season_config, eb, j, x));
        if !is_bye_view(moved_b[x]) {
            lemma_real_slot_bound(teams, order_b, j, x, fields);
            assert(leg_slot(times, eb, slot_of(teams, order_b, j, x, fields)) >= eb);
        }
    }
    lemma_count_real_moved(games_b, day, f);
    lemma_first_leg_slots_distinct(t, season_config);
    lemma_second_leg_slots_distinct(t, season_config);
    lemma_round_moment(first, teams, order_a, start, season_config, st, r, day, d, time);
    lemma_round_moment(second, teams, order_b, start, season_config, eb, j, day, d, time);
    if time < sb || day.spec_day_number() != d {
        assert forall|x: int| 0 <= x < moved_b.len() implies !f(#[trigger] moved_b[x]) by {}
        lemma_count_none(moved_b, f);
    }
    if time >= sb || day.spec_day_number() != d {
        assert forall|x: int| 0 <= x < part_a.len() implies !f(#[trigger] part_a[x]) by {}
        lemma_count_none(part_a, f);
    }
}

/// The first `k` days of merged legs: at most as many real games start at
/// one moment as there are fields, and none on a day none of them is.
proof fn lemma_merged_moment(
    first: Seq<Game>,
    second: Seq<Game>,
    teams: Seq<Team>,
    order_a: Seq<usize>,
    order_b: Seq<usize>,
    start: int,
    season_config: SeasonConfig,
    k: int,
    d: int,
    time: int,
)
    requires
        is_leg_schedule(first, teams, order_a, start, season_config, season_config.spec_time().spec_start_time().minutes()),
        is_leg_schedule(second, teams, order_b, start, season_config, season_config.spec_time().spec_end_break().minutes()),
        is_leg_order(order_a, teams.len() as int),
        is_leg_order(order_b, teams.len() as int),
        mergeable(first, second, order_a.len() as int / 2, order_a.len() - 1),
        4 <= teams.len() < u32::MAX,
        order_a.len() <= usize::MAX,
        0 <= k <= order_a.len() - 1,
        round_robin_validation(teams.len() as int, season_config) is Ok,
        season_config.spec_time().spec_start_break().minutes()
            <= season_config.spec_time().spec_end_break().minutes(),
        second_leg_before_midnight(teams.len() as int, season_config),
        season_config.spec_time().spec_interval() > 0,
    ensures
        ({
            let half = order_a.len() as int / 2;
            let rounds = order_a.len() - 1;
            let merged = merged_views(first, second, half, schedule_has_bye(first), rounds, k);
            &&& count_where(merged, at_moment(d, time)) <= season_config.spec_number_fields()
            &&& (forall|r: int| 0 <= r < k ==> #[trigger] round_date(first, half, r).spec_day_number() != d)
                ==> count_where(merged, at_moment(d, time)) == 0
        }),
    decreases k,
{
    let half = order_a.len() as int / 2;
    let rounds = order_a.len() - 1;
    let has_bye = schedule_has_bye(first);
    let f = at_moment(d, time);
    let merged = merged_views(first, second, half, has_bye, rounds, k);
    if k > 0 {
        let r = k - 1;
        lemma_merged_moment(first, second, teams, order_a, order_b, start, season_config, k - 1, d, time);
        let earlier = merged_views(first, second, half, has_bye, rounds, k - 1);
        assert(round_matched(first, second, half, has_bye, r, rounds));
        let j0 = choose|j: int| 0 <= j < rounds && #[trigger] matches_round(first, second, half, has_bye, r, j);
        lemma_matching_round(first, second, half, has_bye, r, 0, rounds, j0);
        let j = matching_round(first, second, half, has_bye, r, 0, rounds);
        let day = round_date(first, half, r);
        let part_a = round_games(first, half, r).map_values(|g: Game| g@);
        let part_b = real_games(round_games(second, half, j)).map_values(|g: Game| moved_to(g, day));
        assert(merged == earlier + part_a + part_b);
        lemma_block_moment(first, second, teams, order_a, order_b, start, season_config, r, j, d, time);
        lemma_count_concat(earlier, part_a, f);
        lemma_count_concat(earlier + part_a, part_b, f);
        if day.spec_day_number() == d {
            assert forall|r2: int| 0 <= r2 < k - 1 implies #[trigger] round_date(first, half, r2).spec_day_number() != d by {
                lemma_round_dates_increase(first, half, rounds, r2, r);
            }
        }
    } else {
        assert(merged =~= Seq::<GameView>::empty());
    }
}

/// Law of the group stage's fields: when the break does not end before it
/// starts, games are spaced apart, and the slots after the break do not run
/// past midnight, at most as many real games start at one moment as there
/// are fields.
pub proof fn law_group_stage_fields_cap(
    games: Seq<GameView>,
    teams: Seq<Team>,
    start: int,
    season_config: SeasonConfig,
    with_referees: bool,
    d: int,
    time: int,
)
    requires
        is_group_stage(games, teams, start, season_config, with_referees),
        round_robin_validation(teams.len() as int, season_config) is Ok,
        4 <= teams.len() < u32::MAX,
        no_bye_team(teams),
        season_config.spec_time().spec_start_break().minutes()
            <= season_config.spec_time().spec_end_break().minutes(),
        second_leg_before_midnight(teams.len() as int, season_config),
        season_config.spec_time().spec_interval() > 0,
    ensures
        count_where(games, at_moment(d, time)) <= season_config.spec_number_fields(),
{
    let t = teams.len() as int;
    let f = at_moment(d, time);
    let plain = choose|plain: Seq<GameView>|
        #[trigger] is_round_robin_schedule(plain, teams, start, season_config, with_referees)
            && games == oriented(plain);
    let merged = if with_referees {
        choose|merged: Seq<GameView>|
            #[trigger] is_merged_legs(merged, teams, start, season_config) && referees_assigned(
                merged,
                plain,
                team_views(teams),
            )
    } else {
        plain
    };
    assert(is_merged_legs(merged, teams, start, season_config));
    let m = padded_count(t);
    let times = season_config.spec_time();
    let (order_a, order_b, first, second) = choose|
        order_a: Seq<usize>,
        order_b: Seq<usize>,
        first: Seq<Game>,
        second: Seq<Game>,
    |
        {
            &&& is_leg_order(order_a, t)
            &&& is_leg_order(order_b, t)
            &&& #[trigger] is_leg_schedule(
                first,
                teams,
                order_a,
                start,
                season_config,
                times.spec_start_time().minutes(),
            )
            &&& #[trigger] is_leg_schedule(
                second,
                teams,
                order_b,
                start,
                season_config,
                times.spec_end_break().minutes(),
            )
            &&& !merge_refused(first, second, m / 2, schedule_has_bye(first), m - 1, m - 1)
            &&& merged_views(first, second, m / 2, schedule_has_bye(first), m - 1, m - 1) == merged
        };
    lemma_legs_mergeable(
        first,
        second,
        teams,
        order_a,
        order_b,
        start,
        season_config,
        times.spec_start_time().minutes(),
        times.spec_end_break().minutes(),
    );
    lemma_merged_moment(first, second, teams, order_a, order_b, start, season_config, m - 1, d, time);
    if with_referees {
        lemma_count_same(merged, plain, f);
    }
    assert forall|g: GameView| #[trigger] f(g) == f(swap_sides(g)) by {}
    lemma_oriented_count(plain, f);
}

} // verus!
