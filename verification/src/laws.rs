use vstd::prelude::*;

use crate::circle::{circle_index, circle_meets, lemma_circle_index_range, lemma_circle_pairs_once};
use crate::calendar::Date;
use crate::circle::{lemma_seat_of, seat_of};
use crate::double_round_robin::{
    bye_opponent, bye_position, is_merged_legs, is_round_robin_schedule, lemma_even_leg_has_no_bye, lemma_leg_in_day_rounds,
    lemma_leg_round_bye_partner, lemma_leg_round_dates_agree, lemma_legs_mergeable, no_bye_team,
};
use crate::leg_merge::{
    first_bye_partner, has_rematch, in_day_rounds, is_bye_view, lemma_matching_round, matches_round,
    matching_round, merge_refused, merged_views, mergeable, moved_to, real_games, round_date,
    round_games, schedule_has_bye,
};
use crate::game::{Game, GameView};
use crate::round_robin::{
    entrant, game_of, is_leg_game, is_leg_order, is_leg_schedule, lemma_leg_order_facts,
    lemma_round_index, leg_game_matches, padded_count, scheduled_game,
};
use crate::season_config::SeasonConfig;
use crate::referees::{referees_assigned, team_views};
use crate::team::{Team, BYE_NAME};

verus! {

/// No two of the teams share a name.
pub open spec fn distinct_names(teams: Seq<Team>) -> bool {
    forall|p: int, q: int|
        0 <= p < teams.len() && 0 <= q < teams.len() && p != q ==> (#[trigger] teams[p]@).0
            != (#[trigger] teams[q]@).0
}

/// The game is between the teams named `a` and `b`, either way round.
pub open spec fn pairs_teams(game: GameView, a: Seq<char>, b: Seq<char>) -> bool {
    (game.home.0 == a && game.away.0 == b) || (game.home.0 == b && game.away.0 == a)
}

/// Splits a position of a schedule of `half` games a round into its round
/// and its place in the round.
proof fn lemma_round_and_place(k: int, half: int, rounds: int) -> (ri: (int, int))
    requires
        half >= 1,
        0 <= k < rounds * half,
    ensures
        0 <= ri.0 < rounds,
        0 <= ri.1 < half,
        k == ri.0 * half + ri.1,
{
    let r = k / half;
    let i = k % half;
    assert(k == r * half + i && 0 <= i < half) by (nonlinear_arith)
        requires
            half >= 1,
            r == k / half,
            i == k % half,
            k >= 0,
    ;
    assert(0 <= r < rounds) by (nonlinear_arith)
        requires
            half >= 1,
            r == k / half,
            0 <= k < rounds * half,
    ;
    (r, i)
}

/// In one leg, two different teams meet in exactly one game.
pub proof fn law_leg_pairs_meet_once(
    schedule: Seq<Game>,
    teams: Seq<Team>,
    order: Seq<usize>,
    start: int,
    season_config: SeasonConfig,
    leg_start: int,
    p: int,
    q: int,
)
    requires
        is_leg_schedule(schedule, teams, order, start, season_config, leg_start),
        is_leg_order(order, teams.len() as int),
        teams.len() >= 4,
        order.len() <= usize::MAX,
        no_bye_team(teams),
        distinct_names(teams),
        0 <= p < teams.len(),
        0 <= q < teams.len(),
        p != q,
    ensures
        exists|k: int|
            0 <= k < schedule.len() && pairs_teams(
                (#[trigger] schedule[k])@,
                teams[p]@.0,
                teams[q]@.0,
            ),
        forall|k1: int, k2: int|
            0 <= k1 < schedule.len() && 0 <= k2 < schedule.len() && pairs_teams(
                (#[trigger] schedule[k1])@,
                teams[p]@.0,
                teams[q]@.0,
            ) && pairs_teams((#[trigger] schedule[k2])@, teams[p]@.0, teams[q]@.0) ==> k1 == k2,
{
    let t = teams.len() as int;
    let m = order.len() as int;
    let half = m / 2;
    let rounds = m - 1;
    let a = teams[p]@.0;
    let b = teams[q]@.0;
    lemma_leg_order_facts(order, t);
    assert(order.contains(p as usize));
    assert(order.contains(q as usize));
    let x = choose|x: int| 0 <= x < m && order[x] == p as usize;
    let y = choose|y: int| 0 <= y < m && order[y] == q as usize;
    assert(x != y);
    assert(entrant(teams, order, x).0 == a);
    assert(entrant(teams, order, y).0 == b);
    lemma_circle_pairs_once(m, x, y);
    let (round, place) = choose|round: int, place: int|
        0 <= round < m - 1 && 0 <= place < m / 2 && #[trigger] circle_meets(m, round, place, x, y);
    lemma_round_index(round, place, rounds, half);
    let k0 = round * half + place;
    assert(is_leg_game(
        scheduled_game(schedule, half, round, place),
        schedule,
        teams,
        order,
        start,
        season_config,
        leg_start,
        round,
        place,
    ));
    assert(schedule[k0] == game_of(schedule, half, round, place));
    assert(pairs_teams(schedule[k0]@, a, b));
    // Any game pairing the two teams is game `place` of round `round`.
    assert forall|k: int|
        0 <= k < schedule.len() && pairs_teams((#[trigger] schedule[k])@, a, b) implies k == k0 by {
        let (r, i) = lemma_round_and_place(k, half, rounds);
        assert(is_leg_game(
            scheduled_game(schedule, half, r, i),
            schedule,
            teams,
            order,
            start,
            season_config,
            leg_start,
            r,
            i,
        ));
        assert(schedule[k] == game_of(schedule, half, r, i));
        let home = circle_index(m, r, i);
        let away = circle_index(m, r, m - 1 - i);
        lemma_circle_index_range(m, r, i);
        lemma_circle_index_range(m, r, m - 1 - i);
        // A seat whose entrant carries the name of team `p` holds entrant `x`,
        // and one carrying the name of team `q` holds `y`.
        assert forall|z: int| 0 <= z < m && (#[trigger] entrant(teams, order, z)).0 == a implies z == x by {
            if order[z] < t {
                if order[z] as int != p {
                    assert(teams[order[z] as int]@.0 != teams[p]@.0);
                }
            } else {
                assert(teams[p]@.0 != BYE_NAME@);
            }
        }
        assert forall|z: int| 0 <= z < m && (#[trigger] entrant(teams, order, z)).0 == b implies z == y by {
            if order[z] < t {
                if order[z] as int != q {
                    assert(teams[order[z] as int]@.0 != teams[q]@.0);
                }
            } else {
                assert(teams[q]@.0 != BYE_NAME@);
            }
        }
        assert(circle_meets(m, r, i, x, y));
        assert(r == round && i == place);
    }
}

/// How many of the games are between the teams named `a` and `b`.
pub open spec fn pair_count(games: Seq<GameView>, a: Seq<char>, b: Seq<char>) -> nat
    decreases games.len(),
{
    if games.len() == 0 {
        0
    } else {
        pair_count(games.drop_last(), a, b) + if pairs_teams(games.last(), a, b) {
            1nat
        } else {
            0nat
        }
    }
}

/// How many of the games on day `day` are between the teams named `a` and
/// `b`.
pub open spec fn pair_count_on(games: Seq<GameView>, a: Seq<char>, b: Seq<char>, day: int) -> nat
    decreases games.len(),
{
    if games.len() == 0 {
        0
    } else {
        pair_count_on(games.drop_last(), a, b, day) + if pairs_teams(games.last(), a, b)
            && games.last().day == day {
            1nat
        } else {
            0nat
        }
    }
}

proof fn lemma_pair_count_concat(s1: Seq<GameView>, s2: Seq<GameView>, a: Seq<char>, b: Seq<char>, day: int)
    ensures
        pair_count(s1 + s2, a, b) == pair_count(s1, a, b) + pair_count(s2, a, b),
        pair_count_on(s1 + s2, a, b, day) == pair_count_on(s1, a, b, day) + pair_count_on(s2, a, b, day),
    decreases s2.len(),
{
    if s2.len() > 0 {
        assert((s1 + s2).drop_last() =~= s1 + s2.drop_last());
        assert((s1 + s2).last() == s2.last());
        lemma_pair_count_concat(s1, s2.drop_last(), a, b, day);
    } else {
        assert(s1 + s2 =~= s1);
    }
}

/// A list where exactly the game at `k` is between the two teams counts
/// one such game; a list without any counts none.
proof fn lemma_pair_count_unique(games: Seq<GameView>, a: Seq<char>, b: Seq<char>, k: int, n: int)
    requires
        0 <= n <= games.len(),
        forall|j: int| 0 <= j < games.len() && #[trigger] pairs_teams(games[j], a, b) ==> j == k,
    ensures
        pair_count(games.take(n), a, b) == (if 0 <= k < n && pairs_teams(games[k], a, b) {
            1nat
        } else {
            0nat
        }),
    decreases n,
{
    if n > 0 {
        assert(games.take(n).drop_last() =~= games.take(n - 1));
        assert(games.take(n).last() == games[n - 1]);
        lemma_pair_count_unique(games, a, b, k, n - 1);
    } else {
        assert(games.take(0) =~= Seq::<GameView>::empty());
    }
}

/// Games between two real teams, moved to another day, still pair them;
/// games with the bye never do.
proof fn lemma_real_moved_count(
    games: Seq<Game>,
    day: Date,
    a: Seq<char>,
    b: Seq<char>,
    d: int,
)
    requires
        a != BYE_NAME@,
        b != BYE_NAME@,
    ensures
        pair_count(real_games(games).map_values(|g: Game| moved_to(g, day)), a, b) == pair_count(
            games.map_values(|g: Game| g@),
            a,
            b,
        ),
        pair_count_on(real_games(games).map_values(|g: Game| moved_to(g, day)), a, b, d) == (if day.spec_day_number() == d {
            pair_count(games.map_values(|g: Game| g@), a, b)
        } else {
            0
        }),
    decreases games.len(),
{
    if games.len() > 0 {
        let rest = games.drop_last();
        lemma_real_moved_count(rest, day, a, b, d);
        assert(games.map_values(|g: Game| g@).drop_last() =~= rest.map_values(|g: Game| g@));
        assert(games.map_values(|g: Game| g@).last() == games.last()@);
        if !is_bye_view(games.last()@) {
            assert(real_games(games).map_values(|g: Game| moved_to(g, day)) =~= real_games(rest).map_values(
                |g: Game| moved_to(g, day),
            ).push(moved_to(games.last(), day)));
            assert(real_games(games).map_values(|g: Game| moved_to(g, day)).drop_last() =~= real_games(rest).map_values(
                |g: Game| moved_to(g, day),
            ));
        }
    } else {
        assert(games.map_values(|g: Game| g@) =~= Seq::<GameView>::empty());
        assert(real_games(games).map_values(|g: Game| moved_to(g, day)) =~= Seq::<GameView>::empty());
    }
}

/// Games all on one day count on that day as they count at all, and on no
/// other day.
proof fn lemma_count_on_one_day(games: Seq<GameView>, a: Seq<char>, b: Seq<char>, day: int, d: int)
    requires
        forall|i: int| 0 <= i < games.len() ==> (#[trigger] games[i]).day == day,
    ensures
        pair_count_on(games, a, b, d) == (if day == d {
            pair_count(games, a, b)
        } else {
            0
        }),
    decreases games.len(),
{
    if games.len() > 0 {
        let rest = games.drop_last();
        assert forall|i: int| 0 <= i < rest.len() implies (#[trigger] rest[i]).day == day by {
            assert(rest[i] == games[i]);
        }
        lemma_count_on_one_day(rest, a, b, day, d);
    }
}

/// The games of round `r` of the first leg and of the round of the second
/// leg that goes with it between the teams named `a` and `b`.
pub open spec fn block_count(
    first: Seq<Game>,
    second: Seq<Game>,
    half: int,
    has_bye: bool,
    rounds: int,
    r: int,
    a: Seq<char>,
    b: Seq<char>,
) -> nat {
    pair_count(round_games(first, half, r).map_values(|g: Game| g@), a, b) + pair_count(
        round_games(second, half, matching_round(first, second, half, has_bye, r, 0, rounds)).map_values(
            |g: Game| g@,
        ),
        a,
        b,
    )
}

/// The block counts of the first `k` rounds, added up.
pub open spec fn blocks_total(
    first: Seq<Game>,
    second: Seq<Game>,
    half: int,
    has_bye: bool,
    rounds: int,
    k: int,
    a: Seq<char>,
    b: Seq<char>,
) -> nat
    decreases k,
{
    if k <= 0 {
        0
    } else {
        blocks_total(first, second, half, has_bye, rounds, k - 1, a, b) + block_count(
            first,
            second,
            half,
            has_bye,
            rounds,
            k - 1,
            a,
            b,
        )
    }
}

/// The block counts of the first `k` rounds played on day `d`, added up.
pub open spec fn blocks_on_day(
    first: Seq<Game>,
    second: Seq<Game>,
    half: int,
    has_bye: bool,
    rounds: int,
    k: int,
    a: Seq<char>,
    b: Seq<char>,
    d: int,
) -> nat
    decreases k,
{
    if k <= 0 {
        0
    } else {
        blocks_on_day(first, second, half, has_bye, rounds, k - 1, a, b, d) + if round_date(
            first,
            half,
            k - 1,
        ).spec_day_number() == d {
            block_count(first, second, half, has_bye, rounds, k - 1, a, b)
        } else {
            0
        }
    }
}

/// The merged legs count, in all and day by day, what their blocks count.
proof fn lemma_merged_counts(
    first: Seq<Game>,
    second: Seq<Game>,
    half: int,
    has_bye: bool,
    rounds: int,
    k: int,
    a: Seq<char>,
    b: Seq<char>,
    d: int,
)
    requires
        a != BYE_NAME@,
        b != BYE_NAME@,
        in_day_rounds(first, half, rounds),
        0 <= k <= rounds,
    ensures
        pair_count(merged_views(first, second, half, has_bye, rounds, k), a, b) == blocks_total(
            first,
            second,
            half,
            has_bye,
            rounds,
            k,
            a,
            b,
        ),
        pair_count_on(merged_views(first, second, half, has_bye, rounds, k), a, b, d)
            == blocks_on_day(first, second, half, has_bye, rounds, k, a, b, d),
    decreases k,
{
    if k > 0 {
        let r = k - 1;
        let j = matching_round(first, second, half, has_bye, r, 0, rounds);
        let day = round_date(first, half, r);
        lemma_merged_counts(first, second, half, has_bye, rounds, k - 1, a, b, d);
        let earlier = merged_views(first, second, half, has_bye, rounds, k - 1);
        let part_a = round_games(first, half, r).map_values(|g: Game| g@);
        let part_b = real_games(round_games(second, half, j)).map_values(|g: Game| moved_to(g, day));
        assert(merged_views(first, second, half, has_bye, rounds, k) == earlier + part_a + part_b);
        lemma_pair_count_concat(earlier, part_a, a, b, d);
        lemma_pair_count_concat(earlier + part_a, part_b, a, b, d);
        lemma_real_moved_count(round_games(second, half, j), day, a, b, d);
        lemma_round_index(r, half - 1, rounds, half);
        assert(part_a.len() == half);
        assert forall|i: int| 0 <= i < part_a.len() implies (#[trigger] part_a[i]).day == day.spec_day_number() by {
            assert(round_games(first, half, r)[i] == game_of(first, half, r, i));
            lemma_round_index(r, i, rounds, half);
        }
        lemma_count_on_one_day(part_a, a, b, day.spec_day_number(), d);
    } else {
        assert(merged_views(first, second, half, has_bye, rounds, 0) =~= Seq::<GameView>::empty());
    }
}

/// With the game at `kstar` the only one between the two teams, round `r`
/// counts one such game when it holds `kstar`, and none otherwise.
proof fn lemma_round_count(
    leg: Seq<Game>,
    half: int,
    rounds: int,
    a: Seq<char>,
    b: Seq<char>,
    kstar: int,
    r: int,
)
    requires
        half >= 1,
        leg.len() == rounds * half,
        0 <= kstar < leg.len(),
        pairs_teams(leg[kstar]@, a, b),
        forall|k: int| 0 <= k < leg.len() && pairs_teams((#[trigger] leg[k])@, a, b) ==> k == kstar,
        0 <= r < rounds,
    ensures
        pair_count(round_games(leg, half, r).map_values(|g: Game| g@), a, b) == (if r == kstar / half {
            1nat
        } else {
            0nat
        }),
{
    let views = round_games(leg, half, r).map_values(|g: Game| g@);
    lemma_round_index(r, half - 1, rounds, half);
    assert(views.len() == half);
    let local = kstar - r * half;
    assert forall|j: int| 0 <= j < views.len() && #[trigger] pairs_teams(views[j], a, b) implies j
        == local by {
        lemma_round_index(r, j, rounds, half);
        assert(views[j] == leg[r * half + j]@);
    }
    lemma_pair_count_unique(views, a, b, local, half);
    assert(views.take(half) =~= views);
    assert((0 <= local < half) == (r == kstar / half)) by (nonlinear_arith)
        requires
            half >= 1,
            local == kstar - r * half,
            0 <= kstar,
    ;
    if 0 <= local < half {
        assert(views[local] == leg[kstar]@);
    }
}

/// Round dates of a leg in day rounds increase with the round.
pub(crate) proof fn lemma_round_dates_increase(schedule: Seq<Game>, half: int, rounds: int, r1: int, r2: int)
    requires
        in_day_rounds(schedule, half, rounds),
        0 <= r1 < r2 < rounds,
    ensures
        round_date(schedule, half, r1).spec_day_number() < round_date(schedule, half, r2).spec_day_number(),
    decreases r2 - r1,
{
    let r = r2 - 1;
    assert(round_date(schedule, half, r).spec_day_number() < round_date(schedule, half, r + 1).spec_day_number());
    if r1 < r2 - 1 {
        lemma_round_dates_increase(schedule, half, rounds, r1, r2 - 1);
    }
}

/// The round that goes with round `r` is the one round that matches it.
proof fn lemma_matching_unique(
    first: Seq<Game>,
    second: Seq<Game>,
    half: int,
    has_bye: bool,
    r: int,
    from: int,
    rounds: int,
    j: int,
)
    requires
        0 <= from <= j < rounds,
        matches_round(first, second, half, has_bye, r, j),
        forall|j2: int|
            from <= j2 < rounds && #[trigger] matches_round(first, second, half, has_bye, r, j2) ==> j2
                == j,
    ensures
        matching_round(first, second, half, has_bye, r, from, rounds) == j,
    decreases j - from,
{
    if from < j {
        assert(!matches_round(first, second, half, has_bye, r, from));
        lemma_matching_unique(first, second, half, has_bye, r, from + 1, rounds, j);
    }
}

/// The team named `name` sits one of the first `rounds` rounds out.
pub open spec fn sits_out_in(schedule: Seq<Game>, half: int, rounds: int, name: Seq<char>) -> bool {
    exists|r: int| 0 <= r < rounds && #[trigger] first_bye_partner(round_games(schedule, half, r)) == Some(name)
}

/// Law of the byes: in a leg with an odd number of teams, one team sits out
/// every round, the teams that sit out differ from round to round, and every
/// team sits out in some round.
pub proof fn law_leg_byes_rotate(
    schedule: Seq<Game>,
    teams: Seq<Team>,
    order: Seq<usize>,
    start: int,
    season_config: SeasonConfig,
    leg_start: int,
)
    requires
        is_leg_schedule(schedule, teams, order, start, season_config, leg_start),
        is_leg_order(order, teams.len() as int),
        teams.len() % 2 == 1,
        teams.len() >= 3,
        no_bye_team(teams),
        distinct_names(teams),
        order.len() <= usize::MAX,
    ensures
        forall|r: int|
            0 <= r < order.len() - 1 ==> #[trigger] first_bye_partner(
                round_games(schedule, order.len() as int / 2, r),
            ) is Some,
        forall|r1: int, r2: int|
            0 <= r1 < order.len() - 1 && 0 <= r2 < order.len() - 1 && #[trigger] first_bye_partner(
                round_games(schedule, order.len() as int / 2, r1),
            ) == #[trigger] first_bye_partner(round_games(schedule, order.len() as int / 2, r2))
                ==> r1 == r2,
        forall|x: int|
            0 <= x < teams.len() ==> #[trigger] sits_out_in(
                schedule,
                order.len() as int / 2,
                order.len() - 1,
                teams[x]@.0,
            ),
{
    let t = teams.len() as int;
    let m = order.len() as int;
    let half = m / 2;
    lemma_leg_order_facts(order, t);
    assert(order.contains(t as usize));
    let bye = bye_position(order, t);
    assert(0 <= bye < m && order[bye] == t as usize);
    assert forall|r: int| 0 <= r < m - 1 implies #[trigger] first_bye_partner(
        round_games(schedule, half, r),
    ) is Some by {
        lemma_leg_round_bye_partner(schedule, teams, order, start, season_config, leg_start, r);
    }
    assert forall|r1: int, r2: int|
        0 <= r1 < m - 1 && 0 <= r2 < m - 1 && #[trigger] first_bye_partner(round_games(schedule, half, r1))
            == #[trigger] first_bye_partner(round_games(schedule, half, r2)) implies r1 == r2 by {
        lemma_leg_round_bye_partner(schedule, teams, order, start, season_config, leg_start, r1);
        lemma_leg_round_bye_partner(schedule, teams, order, start, season_config, leg_start, r2);
        let y1 = bye_opponent(order, t, r1);
        let y2 = bye_opponent(order, t, r2);
        assert(teams[order[y1] as int]@.0 == teams[order[y2] as int]@.0);
        assert(order[y1] == order[y2]);
        assert(y1 == y2);
        assert(y1 != bye);
        lemma_circle_pairs_once(m, bye, y1);
        let i1 = if seat_of(m, r1, bye) < m / 2 {
            seat_of(m, r1, bye)
        } else {
            m - 1 - seat_of(m, r1, bye)
        };
        let i2 = if seat_of(m, r2, bye) < m / 2 {
            seat_of(m, r2, bye)
        } else {
            m - 1 - seat_of(m, r2, bye)
        };
        lemma_seat_of(m, r1, bye, 0);
        lemma_seat_of(m, r2, bye, 0);
        assert(circle_meets(m, r1, i1, bye, y1));
        assert(circle_meets(m, r2, i2, bye, y1));
    }
    assert forall|x: int| 0 <= x < teams.len() implies #[trigger] sits_out_in(
        schedule,
        order.len() as int / 2,
        order.len() - 1,
        teams[x]@.0,
    ) by {
        assert(order.contains(x as usize));
        let y = choose|y: int| 0 <= y < m && order[y] == x as usize;
        assert(y != bye);
        lemma_circle_pairs_once(m, bye, y);
        let (r, i) = choose|r: int, i: int|
            0 <= r < m - 1 && 0 <= i < m / 2 && #[trigger] circle_meets(m, r, i, bye, y);
        lemma_seat_of(m, r, bye, i);
        lemma_seat_of(m, r, bye, m - 1 - i);
        assert(bye_opponent(order, t, r) == y);
        lemma_leg_round_bye_partner(schedule, teams, order, start, season_config, leg_start, r);
        assert(first_bye_partner(round_games(schedule, half, r)) == Some(teams[x]@.0));
    }
}

/// Each round of the second leg goes with exactly one round of the first.
proof fn lemma_matching_bijective(
    first: Seq<Game>,
    second: Seq<Game>,
    teams: Seq<Team>,
    order_a: Seq<usize>,
    order_b: Seq<usize>,
    start: int,
    season_config: SeasonConfig,
    start_a: int,
    start_b: int,
    target: int,
) -> (r0: int)
    requires
        is_leg_schedule(first, teams, order_a, start, season_config, start_a),
        is_leg_schedule(second, teams, order_b, start, season_config, start_b),
        is_leg_order(order_a, teams.len() as int),
        is_leg_order(order_b, teams.len() as int),
        teams.len() >= 4,
        teams.len() < u32::MAX,
        no_bye_team(teams),
        distinct_names(teams),
        0 <= target < order_a.len() - 1,
    ensures
        0 <= r0 < order_a.len() - 1,
        forall|r: int|
            0 <= r < order_a.len() - 1 ==> (#[trigger] matching_round(
                first,
                second,
                order_a.len() as int / 2,
                schedule_has_bye(first),
                r,
                0,
                order_a.len() - 1,
            ) == target) == (r == r0),
{
    let t = teams.len() as int;
    let m = order_a.len() as int;
    let half = m / 2;
    let rounds = m - 1;
    let has_bye = schedule_has_bye(first);
    lemma_legs_mergeable(first, second, teams, order_a, order_b, start, season_config, start_a, start_b);
    assert(order_b.len() == m);
    if !has_bye {
        assert forall|r: int| 0 <= r < rounds implies #[trigger] matching_round(
            first,
            second,
            half,
            has_bye,
            r,
            0,
            rounds,
        ) == r by {
            lemma_leg_round_dates_agree(first, second, teams, order_a, order_b, start, season_config, start_a, start_b, r);
            assert forall|j: int| 0 <= j < rounds && #[trigger] matches_round(first, second, half, has_bye, r, j)
                implies j == r by {
                lemma_leg_round_dates_agree(first, second, teams, order_a, order_b, start, season_config, start_a, start_b, j);
                if j < r {
                    lemma_round_dates_increase(first, half, rounds, j, r);
                } else if r < j {
                    lemma_round_dates_increase(first, half, rounds, r, j);
                }
            }
            lemma_matching_unique(first, second, half, has_bye, r, 0, rounds, r);
        }
        target
    } else {
        if t % 2 == 0 {
            lemma_even_leg_has_no_bye(first, teams, order_a, start, season_config, start_a);
        }
        assert(t % 2 == 1);
        law_leg_byes_rotate(first, teams, order_a, start, season_config, start_a);
        law_leg_byes_rotate(second, teams, order_b, start, season_config, start_b);
        lemma_leg_round_bye_partner(second, teams, order_b, start, season_config, start_b, target);
        let x = order_b[bye_opponent(order_b, t, target)] as int;
        assert(sits_out_in(first, half, rounds, teams[x]@.0));
        let r0 = choose|r: int| 0 <= r < rounds && #[trigger] first_bye_partner(round_games(first, half, r)) == Some(teams[x]@.0);
        assert forall|r: int| 0 <= r < rounds implies (#[trigger] matching_round(
            first,
            second,
            half,
            has_bye,
            r,
            0,
            rounds,
        ) == target) == (r == r0) by {
            lemma_leg_round_bye_partner(first, teams, order_a, start, season_config, start_a, r);
            let y = order_a[bye_opponent(order_a, t, r)] as int;
            assert(sits_out_in(second, half, rounds, teams[y]@.0));
            let j = choose|j: int| 0 <= j < rounds && #[trigger] first_bye_partner(round_games(second, half, j)) == Some(teams[y]@.0);
            assert(matches_round(first, second, half, has_bye, r, j));
            assert forall|j2: int| 0 <= j2 < rounds && #[trigger] matches_round(first, second, half, has_bye, r, j2)
                implies j2 == j by {
                assert(first_bye_partner(round_games(second, half, j2)) == first_bye_partner(round_games(second, half, j)));
            }
            lemma_matching_unique(first, second, half, has_bye, r, 0, rounds, j);
            if j == target {
                assert(first_bye_partner(round_games(first, half, r)) == first_bye_partner(round_games(first, half, r0)));
            }
            if r == r0 {
                assert(first_bye_partner(round_games(second, half, j)) == first_bye_partner(round_games(second, half, target)));
            }
        }
        r0
    }
}

/// Adding up the blocks when the first leg's meeting is in round `ra` and
/// the second leg's in the round that goes with round `rb`.
proof fn lemma_blocks_sum(
    first: Seq<Game>,
    second: Seq<Game>,
    half: int,
    has_bye: bool,
    rounds: int,
    a: Seq<char>,
    b: Seq<char>,
    ra: int,
    rb: int,
    k: int,
    d: int,
)
    requires
        0 <= k <= rounds,
        forall|r: int|
            0 <= r < rounds ==> #[trigger] block_count(first, second, half, has_bye, rounds, r, a, b) == (if r
                == ra {
                1nat
            } else {
                0nat
            }) + (if r == rb {
                1nat
            } else {
                0nat
            }),
    ensures
        blocks_total(first, second, half, has_bye, rounds, k, a, b) == (if 0 <= ra < k {
            1nat
        } else {
            0nat
        }) + (if 0 <= rb < k {
            1nat
        } else {
            0nat
        }),
        blocks_on_day(first, second, half, has_bye, rounds, k, a, b, d) == (if 0 <= ra < k
            && round_date(first, half, ra).spec_day_number() == d {
            1nat
        } else {
            0nat
        }) + (if 0 <= rb < k && round_date(first, half, rb).spec_day_number() == d {
            1nat
        } else {
            0nat
        }),
    decreases k,
{
    if k > 0 {
        lemma_blocks_sum(first, second, half, has_bye, rounds, a, b, ra, rb, k - 1, d);
        assert(block_count(first, second, half, has_bye, rounds, k - 1, a, b) == (if k - 1 == ra {
            1nat
        } else {
            0nat
        }) + (if k - 1 == rb {
            1nat
        } else {
            0nat
        }));
    }
}

/// Law of the group stage: in a double round-robin of teams with distinct
/// names, two different teams meet exactly twice, and never twice on the
/// same day.
pub proof fn law_pairs_meet_twice_on_different_days(
    games: Seq<GameView>,
    teams: Seq<Team>,
    start: int,
    season_config: SeasonConfig,
    p: int,
    q: int,
)
    requires
        is_merged_legs(games, teams, start, season_config),
        4 <= teams.len() < u32::MAX,
        no_bye_team(teams),
        distinct_names(teams),
        0 <= p < teams.len(),
        0 <= q < teams.len(),
        p != q,
    ensures
        pair_count(games, teams[p]@.0, teams[q]@.0) == 2,
        forall|d: int| #[trigger] pair_count_on(games, teams[p]@.0, teams[q]@.0, d) <= 1,
{
    let t = teams.len() as int;
    let m = padded_count(t);
    let half = m / 2;
    let rounds = m - 1;
    let times = season_config.spec_time();
    let a = teams[p]@.0;
    let b = teams[q]@.0;
    let (order_a, order_b, first, second) = choose|
        order_a: Seq<usize>,
        order_b: Seq<usize>,
        first: Seq<Game>,
        second: Seq<Game>,
    |
        {
            &&& is_leg_order(order_a, t)
            &&& is_leg_order(order_b, t)
            &&& #[trigger] is_leg_schedule(
                first,
                teams,
                order_a,
                start,
                season_config,
                times.spec_start_time().minutes(),
            )
            &&& #[trigger] is_leg_schedule(
                second,
                teams,
                order_b,
                start,
                season_config,
                times.spec_end_break().minutes(),
            )
            &&& !merge_refused(first, second, m / 2, schedule_has_bye(first), m - 1, m - 1)
            &&& merged_views(first, second, m / 2, schedule_has_bye(first), m - 1, m - 1) == games
        };
    let has_bye = schedule_has_bye(first);
    let start_a = times.spec_start_time().minutes();
    let start_b = times.spec_end_break().minutes();
    assert(order_a.len() == m && order_b.len() == m);
    lemma_legs_mergeable(first, second, teams, order_a, order_b, start, season_config, start_a, start_b);
    assert(a != BYE_NAME@ && b != BYE_NAME@);
    law_leg_pairs_meet_once(first, teams, order_a, start, season_config, start_a, p, q);
    law_leg_pairs_meet_once(second, teams, order_b, start, season_config, start_b, p, q);
    let ka = choose|k: int| 0 <= k < first.len() && pairs_teams((#[trigger] first[k])@, a, b);
    let kb = choose|k: int| 0 <= k < second.len() && pairs_teams((#[trigger] second[k])@, a, b);
    let ra = ka / half;
    let rb = kb / half;
    assert(0 <= ra < rounds && 0 <= rb < rounds) by (nonlinear_arith)
        requires
            half >= 1,
            0 <= ka < rounds * half,
            0 <= kb < rounds * half,
            ra == ka / half,
            rb == kb / half,
    ;
    let r0 = lemma_matching_bijective(first, second, teams, order_a, order_b, start, season_config, start_a, start_b, rb);
    assert forall|r: int| 0 <= r < rounds implies #[trigger] block_count(first, second, half, has_bye, rounds, r, a, b) == (if r
        == ra {
        1nat
    } else {
        0nat
    }) + (if r == r0 {
        1nat
    } else {
        0nat
    }) by {
        lemma_round_count(first, half, rounds, a, b, ka, r);
        assert(crate::leg_merge::round_matched(first, second, half, has_bye, r, rounds));
        let j = choose|j: int| 0 <= j < rounds && #[trigger] matches_round(first, second, half, has_bye, r, j);
        lemma_matching_round(first, second, half, has_bye, r, 0, rounds, j);
        let sigma = matching_round(first, second, half, has_bye, r, 0, rounds);
        lemma_round_count(second, half, rounds, a, b, kb, sigma);
        assert((sigma == rb) == (r == r0));
    }
    // The two meetings are not in one block: that would be a rematch on one day.
    if ra == r0 {
        let games_a = round_games(first, half, ra);
        let games_b = round_games(second, half, rb);
        lemma_round_index(ra, half - 1, rounds, half);
        lemma_round_index(rb, half - 1, rounds, half);
        let ia = ka - ra * half;
        let ib = kb - rb * half;
        assert(0 <= ia < half && 0 <= ib < half) by (nonlinear_arith)
            requires
                half >= 1,
                ra == ka / half,
                rb == kb / half,
                ia == ka - ra * half,
                ib == kb - rb * half,
                ka >= 0,
                kb >= 0,
        ;
        assert(games_a[ia] == first[ka]);
        assert(games_b[ib] == second[kb]);
        assert(matching_round(first, second, half, has_bye, ra, 0, rounds) == rb);
        assert(has_rematch(games_a, games_b));
        assert(merge_refused(first, second, half, has_bye, rounds, rounds));
    }
    lemma_merged_counts(first, second, half, has_bye, rounds, rounds, a, b, 0);
    lemma_blocks_sum(first, second, half, has_bye, rounds, a, b, ra, r0, rounds, 0);
    assert forall|d: int| #[trigger] pair_count_on(games, a, b, d) <= 1 by {
        lemma_merged_counts(first, second, half, has_bye, rounds, rounds, a, b, d);
        lemma_blocks_sum(first, second, half, has_bye, rounds, a, b, ra, r0, rounds, d);
        if round_date(first, half, ra).spec_day_number() == d && round_date(first, half, r0).spec_day_number() == d {
            if ra < r0 {
                lemma_round_dates_increase(first, half, rounds, ra, r0);
            } else if r0 < ra {
                lemma_round_dates_increase(first, half, rounds, r0, ra);
            }
        }
    }
}

/// Two lists of games that agree game by game on who plays and on which day
/// hold the same meetings of two teams, in all and on each day.
proof fn lemma_same_meetings(before: Seq<GameView>, after: Seq<GameView>, a: Seq<char>, b: Seq<char>, day: int)
    requires
        after.len() == before.len(),
        forall|k: int|
            0 <= k < before.len() ==> {
                &&& (#[trigger] after[k]).home == before[k].home
                &&& after[k].away == before[k].away
                &&& after[k].day == before[k].day
            },
    ensures
        pair_count(after, a, b) == pair_count(before, a, b),
        pair_count_on(after, a, b, day) == pair_count_on(before, a, b, day),
    decreases before.len(),
{
    if before.len() > 0 {
        let n = before.len() - 1;
        assert forall|k: int| 0 <= k < n implies {
            &&& (#[trigger] after.drop_last()[k]).home == before.drop_last()[k].home
            &&& after.drop_last()[k].away == before.drop_last()[k].away
            &&& after.drop_last()[k].day == before.drop_last()[k].day
        } by {
            assert(after.drop_last()[k] == after[k]);
            assert(before.drop_last()[k] == before[k]);
        }
        lemma_same_meetings(before.drop_last(), after.drop_last(), a, b, day);
        assert(after.last() == after[n]);
        assert(before.last() == before[n]);
    }
}

/// A round-robin schedule, with or without referees: two different teams
/// with distinct names meet exactly twice, and never twice on the same day.
/// Naming referees changes none of the meetings.
pub(crate) proof fn lemma_round_robin_pairs_meet_twice(
    games: Seq<GameView>,
    teams: Seq<Team>,
    start: int,
    season_config: SeasonConfig,
    with_referees: bool,
    p: int,
    q: int,
)
    requires
        is_round_robin_schedule(games, teams, start, season_config, with_referees),
        4 <= teams.len() < u32::MAX,
        no_bye_team(teams),
        distinct_names(teams),
        0 <= p < teams.len(),
        0 <= q < teams.len(),
        p != q,
    ensures
        pair_count(games, teams[p]@.0, teams[q]@.0) == 2,
        forall|d: int| #[trigger] pair_count_on(games, teams[p]@.0, teams[q]@.0, d) <= 1,
{
    let a = teams[p]@.0;
    let b = teams[q]@.0;
    if with_referees {
        let merged = choose|merged: Seq<GameView>|
            #[trigger] is_merged_legs(merged, teams, start, season_config) && referees_assigned(
                merged,
                games,
                team_views(teams),
            );
        law_pairs_meet_twice_on_different_days(merged, teams, start, season_config, p, q);
        lemma_same_meetings(merged, games, a, b, 0);
        assert forall|d: int| #[trigger] pair_count_on(games, a, b, d) <= 1 by {
            lemma_same_meetings(merged, games, a, b, d);
            assert(pair_count_on(merged, a, b, d) <= 1);
        }
    } else {
        law_pairs_meet_twice_on_different_days(games, teams, start, season_config, p, q);
    }
}

} // verus!
