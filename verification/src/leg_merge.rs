use vstd::prelude::*;

use crate::calendar::Date;
use crate::game::{zurich_local_time_is_unique, Game, GameView};
use crate::round_robin::{game_of, RoundRobin};
use crate::text::same_text;
use crate::team::BYE_NAME;

verus! {

/// A game with the bye on one side.
pub open spec fn is_bye_view(game: GameView) -> bool {
    game.home.0 == BYE_NAME@ || game.away.0 == BYE_NAME@
}

/// The games of a list that are not byes, in order.
pub open spec fn real_games(games: Seq<Game>) -> Seq<Game>
    decreases games.len(),
{
    if games.len() == 0 {
        seq![]
    } else if is_bye_view(games.last()@) {
        real_games(games.drop_last())
    } else {
        real_games(games.drop_last()).push(games.last())
    }
}

/// The name of the team sitting out, for the first bye among `games`.
pub open spec fn first_bye_partner(games: Seq<Game>) -> Option<Seq<char>>
    decreases games.len(),
{
    if games.len() == 0 {
        None
    } else if games[0]@.home.0 == BYE_NAME@ {
        Some(games[0]@.away.0)
    } else if games[0]@.away.0 == BYE_NAME@ {
        Some(games[0]@.home.0)
    } else {
        first_bye_partner(games.drop_first())
    }
}

/// The games played on each day, day by day: maximal runs of consecutive
/// games on one day, with that day.
pub open spec fn day_groups(games: Seq<Game>) -> Seq<(Date, Seq<Game>)>
    decreases games.len(),
{
    if games.len() == 0 {
        seq![]
    } else {
        let groups = day_groups(games.drop_last());
        let game = games.last();
        if groups.len() > 0 && groups.last().0 == game.spec_date() {
            groups.update(groups.len() - 1, (groups.last().0, groups.last().1.push(game)))
        } else {
            groups.push((game.spec_date(), seq![game]))
        }
    }
}

/// The day groups of a list of games, seen through their contents.
pub open spec fn groups_view(groups: Seq<(Date, Vec<Game>)>) -> Seq<(Date, Seq<Game>)> {
    groups.map_values(|g: (Date, Vec<Game>)| (g.0, g.1@))
}

/// The two games pair the same two teams, in either order.
pub open spec fn same_pairing(a: GameView, b: GameView) -> bool {
    (a.home.0 == b.home.0 && a.away.0 == b.away.0) || (a.home.0 == b.away.0 && a.away.0
        == b.home.0)
}

/// A real game of `games_b` repeats the pairing of a real game of
/// `games_a`.
pub open spec fn has_rematch(games_a: Seq<Game>, games_b: Seq<Game>) -> bool {
    exists|ka: int, kb: int|
        0 <= ka < games_a.len() && 0 <= kb < games_b.len() && !is_bye_view(
            #[trigger] games_a[ka]@,
        ) && !is_bye_view(#[trigger] games_b[kb]@) && same_pairing(games_a[ka]@, games_b[kb]@)
}

/// Every real game of `games` happens once at its time on day `day`.
pub open spec fn all_times_exist_on(games: Seq<Game>, day: Date) -> bool {
    forall|k: int|
        0 <= k < games.len() && !is_bye_view(#[trigger] games[k]@) ==> zurich_local_time_is_unique(
            day.spec_day_number() as i32,
            games[k].spec_time().spec_hour(),
            games[k].spec_time().spec_minute(),
        )
}

/// A game moved to day `day`.
pub open spec fn moved_to(game: Game, day: Date) -> GameView {
    GameView {
        home: game@.home,
        away: game@.away,
        day: day.spec_day_number(),
        time: game@.time,
        referee: game@.referee,
    }
}

/// The games of round `round` of a schedule of `half` games a round.
pub open spec fn round_games(schedule: Seq<Game>, half: int, round: int) -> Seq<Game> {
    schedule.subrange(round * half, round * half + half)
}

/// The day of round `round`: the day of its first game.
pub open spec fn round_date(schedule: Seq<Game>, half: int, round: int) -> Date {
    game_of(schedule, half, round, 0).spec_date()
}

/// The schedule comes in `rounds` rounds of `half` games, each round on one
/// day, later than the day of the round before.
pub open spec fn in_day_rounds(schedule: Seq<Game>, half: int, rounds: int) -> bool {
    &&& half >= 1
    &&& rounds >= 1
    &&& schedule.len() == rounds * half
    &&& forall|r: int, i: int|
        0 <= r < rounds && 0 <= i < half ==> (#[trigger] game_of(
            schedule,
            half,
            r,
            i,
        )).spec_date() == round_date(schedule, half, r)
    &&& forall|r: int|
        0 <= r < rounds - 1 ==> round_date(schedule, half, r).spec_day_number() < (
        #[trigger] round_date(schedule, half, r + 1)).spec_day_number()
}

/// The rounds of a schedule, with their days.
pub open spec fn rounds_with_dates(schedule: Seq<Game>, half: int, rounds: int) -> Seq<
    (Date, Seq<Game>),
> {
    Seq::new(
        rounds as nat,
        |r: int| (round_date(schedule, half, r), round_games(schedule, half, r)),
    )
}

proof fn lemma_day_groups_prefix(schedule: Seq<Game>, half: int, rounds: int, r: int, i: int)
    requires
        in_day_rounds(schedule, half, rounds),
        0 <= r < rounds,
        0 <= i < half,
    ensures
        day_groups(schedule.take(r * half + i + 1)) == rounds_with_dates(schedule, half, r).push(
            (round_date(schedule, half, r), round_games(schedule, half, r).take(i + 1)),
        ),
    decreases r * half + i,
{
    let k = r * half + i;
    assert(0 <= k < rounds * half) by (nonlinear_arith)
        requires
            0 <= r < rounds,
            0 <= i < half,
            k == r * half + i,
    ;
    assert(r * half + half <= rounds * half) by (nonlinear_arith)
        requires
            0 <= r < rounds,
            half >= 1,
    ;
    assert(r * half >= 0) by (nonlinear_arith)
        requires
            0 <= r,
            half >= 1,
    ;
    let prefix = schedule.take(k + 1);
    assert(prefix.drop_last() =~= schedule.take(k));
    assert(prefix.last() == game_of(schedule, half, r, i));
    let round_r = round_games(schedule, half, r);
    assert(round_r.take(i + 1) =~= round_r.take(i).push(game_of(schedule, half, r, i)));
    if i > 0 {
        lemma_day_groups_prefix(schedule, half, rounds, r, i - 1);
        let earlier = rounds_with_dates(schedule, half, r);
        let groups = day_groups(schedule.take(k));
        assert(groups == earlier.push((round_date(schedule, half, r), round_r.take(i))));
        assert(day_groups(prefix) =~= earlier.push(
            (round_date(schedule, half, r), round_r.take(i + 1)),
        ));
    } else if r > 0 {
        assert((r - 1) * half + (half - 1) + 1 == k) by (nonlinear_arith)
            requires
                k == r * half + i,
                i == 0,
        ;
        lemma_day_groups_prefix(schedule, half, rounds, r - 1, half - 1);
        let previous = round_games(schedule, half, r - 1);
        assert(previous.take(half) =~= previous);
        assert(rounds_with_dates(schedule, half, r - 1).push(
            (round_date(schedule, half, r - 1), previous),
        ) =~= rounds_with_dates(schedule, half, r));
        assert(round_date(schedule, half, r - 1).spec_day_number() < round_date(
            schedule,
            half,
            r,
        ).spec_day_number());
        assert(day_groups(prefix) =~= rounds_with_dates(schedule, half, r).push(
            (round_date(schedule, half, r), seq![game_of(schedule, half, r, i)]),
        ));
        assert(round_r.take(1) =~= seq![game_of(schedule, half, r, i)]);
    } else {
        assert(k == 0);
        assert(schedule.take(k) =~= seq![]);
        assert(day_groups(prefix.drop_last()) == Seq::<(Date, Seq<Game>)>::empty());
        assert(r == 0 && i == 0);
        assert(rounds_with_dates(schedule, half, 0) =~= seq![]);
        assert(round_r.take(1) =~= seq![game_of(schedule, half, r, i)]);
        assert(day_groups(prefix) =~= seq![
            (round_date(schedule, half, 0), seq![game_of(schedule, half, 0, 0)]),
        ]);
    }
}

/// A schedule in day rounds splits into day groups that are its rounds.
pub proof fn lemma_day_groups_of_rounds(schedule: Seq<Game>, half: int, rounds: int)
    requires
        in_day_rounds(schedule, half, rounds),
    ensures
        day_groups(schedule) == rounds_with_dates(schedule, half, rounds),
{
    lemma_day_groups_prefix(schedule, half, rounds, rounds - 1, half - 1);
    assert((rounds - 1) * half + (half - 1) + 1 == rounds * half) by (nonlinear_arith);
    assert(schedule.take(rounds * half) =~= schedule);
    let last = round_games(schedule, half, rounds - 1);
    assert(last.take(half) =~= last);
    assert(rounds_with_dates(schedule, half, rounds - 1).push(
        (round_date(schedule, half, rounds - 1), last),
    ) =~= rounds_with_dates(schedule, half, rounds));
}

/// Whether one of the games has the bye on one side.
pub fn any_bye_game(games: &Vec<Game>) -> (r: bool)
    ensures
        r == exists|k: int| 0 <= k < games@.len() && is_bye_view(#[trigger] games@[k]@),
{
    let mut k: usize = 0;
    while k < games.len()
        invariant
            k <= games@.len(),
            forall|j: int| 0 <= j < k ==> !is_bye_view(#[trigger] games@[j]@),
        decreases games@.len() - k,
    {
        if games[k].is_bye_game() {
            return true;
        }
        k = k + 1;
    }
    false
}

/// The name of the team sitting out, for the first bye among `games`.
pub fn bye_team_name(games: &Vec<Game>) -> (r: Option<&str>)
    ensures
        match r {
            Some(name) => first_bye_partner(games@) == Some(name@),
            None => first_bye_partner(games@) is None,
        },
{
    let mut k: usize = 0;
    assert(games@.skip(0) =~= games@);
    while k < games.len()
        invariant
            k <= games@.len(),
            first_bye_partner(games@) == first_bye_partner(games@.skip(k as int)),
        decreases games@.len() - k,
    {
        let ghost rest = games@.skip(k as int);
        assert(rest[0] == games@[k as int]);
        assert(rest.drop_first() =~= games@.skip(k + 1));
        let game = &games[k];
        if game.get_home_team().is_bye() {
            return Some(game.get_away_team().get_name());
        } else if game.get_away_team().is_bye() {
            return Some(game.get_home_team().get_name());
        }
        k = k + 1;
    }
    assert(games@.skip(k as int) =~= seq![]);
    None
}

/// Groups games into calendar-day runs, keeping the order: games already
/// come contiguous by day from a leg, which only ever moves forward.
pub fn group_by_day(games: Vec<Game>) -> (r: Vec<(Date, Vec<Game>)>)
    ensures
        groups_view(r@) == day_groups(games@),
{
    let ghost input = games@;
    let mut rest = games;
    let mut groups: Vec<(Date, Vec<Game>)> = Vec::new();
    let mut current: Vec<Game> = Vec::new();
    let mut current_day: Option<Date> = None;
    let ghost mut k: int = 0;
    while rest.len() > 0
        invariant
            0 <= k <= input.len(),
            rest@ == input.skip(k),
            current_day is None <==> k == 0,
            current_day is None ==> current@.len() == 0,
            current_day matches Some(day) ==> groups_view(groups@).push((day, current@))
                == day_groups(input.take(k)),
            current_day is None ==> groups@.len() == 0,
        decreases rest@.len(),
    {
        let game = rest.remove(0);
        assert(game == input[k]);
        let day = *game.get_game_day();
        let ghost before = input.take(k);
        assert(input.take(k + 1).drop_last() =~= before);
        assert(input.take(k + 1).last() == input[k]);
        match current_day {
            Some(d) => {
                let ghost all = groups_view(groups@).push((d, current@));
                if d == day {
                    let ghost old_current = current@;
                    current.push(game);
                    assert(current@ =~= old_current.push(input[k]));
                    assert(groups_view(groups@).push((d, current@)) =~= all.update(
                        all.len() - 1,
                        (all.last().0, all.last().1.push(input[k])),
                    ));
                } else {
                    let finished = current;
                    current = Vec::new();
                    current.push(game);
                    assert(current@ =~= seq![input[k]]);
                    groups.push((d, finished));
                    assert(groups_view(groups@) =~= all);
                    assert(groups_view(groups@).push((day, current@)) =~= all.push(
                        (day, seq![input[k]]),
                    ));
                }
            },
            None => {
                current.push(game);
                assert(current@ =~= seq![input[k]]);
                assert(groups_view(groups@) =~= seq![]);
                assert(groups_view(groups@).push((day, current@)) =~= seq![
                    (day, seq![input[k]]),
                ]);
            },
        }
        current_day = Some(day);
        proof {
            assert(day_groups(input.take(k + 1)) == {
                let groups = day_groups(before);
                if groups.len() > 0 && groups.last().0 == input[k].spec_date() {
                    groups.update(
                        groups.len() - 1,
                        (groups.last().0, groups.last().1.push(input[k])),
                    )
                } else {
                    groups.push((input[k].spec_date(), seq![input[k]]))
                }
            });
            k = k + 1;
            assert(rest@ =~= input.skip(k));
        }
    }
    assert(input.take(k) =~= input);
    match current_day {
        Some(d) => {
            let ghost all = groups_view(groups@).push((d, current@));
            groups.push((d, current));
            assert(groups_view(groups@) =~= all);
        },
        None => {
            assert(groups_view(groups@) =~= seq![]);
        },
    }
    groups
}

/// The schedule has a game with the bye.
pub open spec fn schedule_has_bye(schedule: Seq<Game>) -> bool {
    exists|k: int| 0 <= k < schedule.len() && is_bye_view(#[trigger] schedule[k]@)
}

/// Round `j` of the second leg goes with round `r` of the first: the same
/// team sits out, or, with no byes, the same day.
pub open spec fn matches_round(
    first: Seq<Game>,
    second: Seq<Game>,
    half: int,
    has_bye: bool,
    r: int,
    j: int,
) -> bool {
    if has_bye {
        first_bye_partner(round_games(second, half, j)) == first_bye_partner(
            round_games(first, half, r),
        )
    } else {
        round_date(second, half, j) == round_date(first, half, r)
    }
}

/// The first round of the second leg, from `from` on, that goes with round
/// `r` of the first; -1 when there is none.
pub open spec fn matching_round(
    first: Seq<Game>,
    second: Seq<Game>,
    half: int,
    has_bye: bool,
    r: int,
    from: int,
    rounds: int,
) -> int
    decreases rounds - from,
{
    if from >= rounds {
        -1
    } else if matches_round(first, second, half, has_bye, r, from) {
        from
    } else {
        matching_round(first, second, half, has_bye, r, from + 1, rounds)
    }
}

pub proof fn lemma_matching_round(
    first: Seq<Game>,
    second: Seq<Game>,
    half: int,
    has_bye: bool,
    r: int,
    from: int,
    rounds: int,
    j: int,
)
    requires
        0 <= from <= j < rounds,
        matches_round(first, second, half, has_bye, r, j),
    ensures
        from <= matching_round(first, second, half, has_bye, r, from, rounds) <= j,
        matches_round(
            first,
            second,
            half,
            has_bye,
            r,
            matching_round(first, second, half, has_bye, r, from, rounds),
        ),
    decreases j - from,
{
    if !matches_round(first, second, half, has_bye, r, from) {
        lemma_matching_round(first, second, half, has_bye, r, from + 1, rounds, j);
    }
}

/// The first `k` rounds of the merged legs: each round of the first leg,
/// followed by the real games of the round of the second leg that goes with
/// it, moved to the first leg's day.
pub open spec fn merged_views(
    first: Seq<Game>,
    second: Seq<Game>,
    half: int,
    has_bye: bool,
    rounds: int,
    k: int,
) -> Seq<GameView>
    decreases k,
{
    if k <= 0 {
        seq![]
    } else {
        let r = k - 1;
        let j = matching_round(first, second, half, has_bye, r, 0, rounds);
        merged_views(first, second, half, has_bye, rounds, k - 1) + round_games(
            first,
            half,
            r,
        ).map_values(|g: Game| g@) + real_games(round_games(second, half, j)).map_values(
            |g: Game| moved_to(g, round_date(first, half, r)),
        )
    }
}

/// One of the first `k` rounds cannot be merged: the round of the second
/// leg that goes with it repeats one of its pairings, or one of its times
/// does not exist on the first leg's day.
pub open spec fn merge_refused(
    first: Seq<Game>,
    second: Seq<Game>,
    half: int,
    has_bye: bool,
    rounds: int,
    k: int,
) -> bool {
    exists|r: int|
        0 <= r < k && {
            let j = matching_round(first, second, half, has_bye, r, 0, rounds);
            has_rematch(#[trigger] round_games(first, half, r), round_games(second, half, j))
                || !all_times_exist_on(round_games(second, half, j), round_date(first, half, r))
        }
}

/// The two legs can be merged round by round: both come in the same number
/// of day rounds, every round goes with a round of the other leg, and, when
/// there are byes, every round has one.
pub open spec fn mergeable(first: Seq<Game>, second: Seq<Game>, half: int, rounds: int) -> bool {
    let has_bye = schedule_has_bye(first);
    &&& in_day_rounds(first, half, rounds)
    &&& in_day_rounds(second, half, rounds)
    &&& has_bye ==> forall|r: int|
        0 <= r < rounds ==> (#[trigger] first_bye_partner(round_games(first, half, r))) is Some
    &&& has_bye ==> forall|j: int|
        0 <= j < rounds ==> (#[trigger] first_bye_partner(round_games(second, half, j))) is Some
    &&& forall|r: int|
        0 <= r < rounds ==> #[trigger] round_matched(first, second, half, has_bye, r, rounds)
}

/// Round `r` of the first leg goes with some round of the second.
pub open spec fn round_matched(
    first: Seq<Game>,
    second: Seq<Game>,
    half: int,
    has_bye: bool,
    r: int,
    rounds: int,
) -> bool {
    exists|j: int| 0 <= j < rounds && #[trigger] matches_round(first, second, half, has_bye, r, j)
}

/// Whether a real game of `games_b` repeats the pairing of a real game of
/// `games_a`.
fn find_rematch(games_a: &Vec<Game>, games_b: &Vec<Game>) -> (r: bool)
    ensures
        r == has_rematch(games_a@, games_b@),
{
    let mut kb: usize = 0;
    while kb < games_b.len()
        invariant
            kb <= games_b@.len(),
            forall|ka: int, j: int|
                0 <= ka < games_a@.len() && 0 <= j < kb ==> !(!is_bye_view(
                    #[trigger] games_a@[ka]@,
                ) && !is_bye_view(#[trigger] games_b@[j]@) && same_pairing(
                    games_a@[ka]@,
                    games_b@[j]@,
                )),
        decreases games_b@.len() - kb,
    {
        let game_b = &games_b[kb];
        if !game_b.is_bye_game() {
            let mut ka: usize = 0;
            while ka < games_a.len()
                invariant
                    ka <= games_a@.len(),
                    kb < games_b@.len(),
                    *game_b == games_b@[kb as int],
                    !is_bye_view(game_b@),
                    forall|i: int|
                        0 <= i < ka ==> !(!is_bye_view(#[trigger] games_a@[i]@) && same_pairing(
                            games_a@[i]@,
                            game_b@,
                        )),
                decreases games_a@.len() - ka,
            {
                let game_a = &games_a[ka];
                if !game_a.is_bye_game() {
                    let home_a = game_a.get_home_team().get_name();
                    let away_a = game_a.get_away_team().get_name();
                    let home_b = game_b.get_home_team().get_name();
                    let away_b = game_b.get_away_team().get_name();
                    if (same_text(home_a, home_b) && same_text(away_a, away_b)) || (same_text(
                        home_a,
                        away_b,
                    ) && same_text(away_a, home_b)) {
                        assert(same_pairing(games_a@[ka as int]@, games_b@[kb as int]@));
                        return true;
                    }
                }
                ka = ka + 1;
            }
        }
        kb = kb + 1;
    }
    false
}

impl RoundRobin {
    /// Merges two legs into one schedule where every team plays twice a
    /// match day. Rounds are matched by the team that sits out (or, without
    /// byes, by the day, both legs sharing their days), so a team's bye in
    /// both legs falls on one day off. The second leg's games keep their
    /// time, on the first leg's day. Gives `None` when a round of the second
    /// leg repeats a pairing of the round it is matched with, or one of its
    /// times does not exist on that day: the two legs do not combine.
    pub(crate) fn merge_schedules(
        &self,
        pass_a: Vec<Game>,
        pass_b: Vec<Game>,
        Ghost(half): Ghost<int>,
        Ghost(rounds): Ghost<int>,
    ) -> (result: Option<Vec<Game>>)
        requires
            mergeable(pass_a@, pass_b@, half, rounds),
        ensures
            result is None <==> merge_refused(
                pass_a@,
                pass_b@,
                half,
                schedule_has_bye(pass_a@),
                rounds,
                rounds,
            ),
            result matches Some(merged) ==> merged@.map_values(|g: Game| g@) == merged_views(
                pass_a@,
                pass_b@,
                half,
                schedule_has_bye(pass_a@),
                rounds,
                rounds,
            ),
    {
        let ghost first = pass_a@;
        let ghost second = pass_b@;
        let has_bye = any_bye_game(&pass_a);
        let pass_a_days = group_by_day(pass_a);
        let pass_b_days = group_by_day(pass_b);
        proof {
            lemma_day_groups_of_rounds(first, half, rounds);
            lemma_day_groups_of_rounds(second, half, rounds);
            assert(groups_view(pass_a_days@).len() == pass_a_days@.len());
            assert(groups_view(pass_b_days@).len() == pass_b_days@.len());
            assert(merged_views(first, second, half, has_bye, rounds, 0) =~= seq![]);
        }
        let mut merged: Vec<Game> = Vec::new();
        let mut r: usize = 0;
        while r < pass_a_days.len()
            invariant
                first == pass_a@,
                second == pass_b@,
                mergeable(first, second, half, rounds),
                has_bye == schedule_has_bye(first),
                groups_view(pass_a_days@) == rounds_with_dates(first, half, rounds),
                groups_view(pass_b_days@) == rounds_with_dates(second, half, rounds),
                pass_a_days@.len() == rounds,
                pass_b_days@.len() == rounds,
                r <= rounds,
                !merge_refused(first, second, half, has_bye, rounds, r as int),
                merged@.map_values(|g: Game| g@) == merged_views(
                    first,
                    second,
                    half,
                    has_bye,
                    rounds,
                    r as int,
                ),
            decreases rounds - r,
        {
            let day = pass_a_days[r].0;
            let games_a = &pass_a_days[r].1;
            assert(groups_view(pass_a_days@)[r as int] == (pass_a_days@[r as int].0, games_a@));
            assert(games_a@ == round_games(first, half, r as int));
            assert(day == round_date(first, half, r as int));
            assert(round_matched(first, second, half, has_bye, r as int, rounds));
            let ghost target = choose|j: int|
                0 <= j < rounds && #[trigger] matches_round(first, second, half, has_bye, r as int, j);
            proof {
                lemma_matching_round(first, second, half, has_bye, r as int, 0, rounds, target);
            }
            let ghost sigma = matching_round(first, second, half, has_bye, r as int, 0, rounds);
            let mut j: usize = 0;
            let mut found = false;
            let name_a = if has_bye {
                bye_team_name(games_a)
            } else {
                None
            };
            while !found && j < pass_b_days.len()
                invariant
                    j <= rounds,
                    pass_b_days@.len() == rounds,
                    groups_view(pass_b_days@) == rounds_with_dates(second, half, rounds),
                    has_bye ==> (name_a matches Some(n) && Some(n@) == first_bye_partner(
                        round_games(first, half, r as int),
                    )),
                    day == round_date(first, half, r as int),
                    matching_round(first, second, half, has_bye, r as int, 0, rounds)
                        == matching_round(first, second, half, has_bye, r as int, j as int, rounds),
                    found ==> j < rounds && matches_round(
                        first,
                        second,
                        half,
                        has_bye,
                        r as int,
                        j as int,
                    ),
                decreases rounds - j + (if found {
                    0int
                } else {
                    1int
                }),
            {
                assert(groups_view(pass_b_days@)[j as int] == (
                    pass_b_days@[j as int].0,
                    pass_b_days@[j as int].1@,
                ));
                let hit = if has_bye {
                    match (bye_team_name(&pass_b_days[j].1), name_a) {
                        (Some(name_b), Some(name)) => same_text(name_b, name),
                        _ => false,
                    }
                } else {
                    pass_b_days[j].0 == day
                };
                if hit {
                    found = true;
                } else {
                    j = j + 1;
                }
            }
            if !found {
                assert(matching_round(first, second, half, has_bye, r as int, j as int, rounds)
                    == -1);
                assert(false);
                return None;
            }
            assert(j == sigma);
            let games_b = &pass_b_days[j].1;
            assert(groups_view(pass_b_days@)[j as int] == (pass_b_days@[j as int].0, games_b@));
            assert(games_b@ == round_games(second, half, j as int));
            if find_rematch(games_a, games_b) {
                assert(has_rematch(
                    round_games(first, half, r as int),
                    round_games(second, half, sigma),
                ));
                assert(merge_refused(first, second, half, has_bye, rounds, rounds));
                return None;
            }
            let ghost before = merged@.map_values(|g: Game| g@);
            let mut ka: usize = 0;
            while ka < games_a.len()
                invariant
                    ka <= games_a@.len(),
                    merged@.map_values(|g: Game| g@) == before + games_a@.take(
                        ka as int,
                    ).map_values(|g: Game| g@),
                decreases games_a@.len() - ka,
            {
                let ghost old_merged = merged@;
                merged.push(games_a[ka].duplicate());
                assert(games_a@.take(ka + 1) =~= games_a@.take(ka as int).push(games_a@[ka as int]));
                assert(merged@ =~= old_merged.push(merged@.last()));
                assert(merged@.last()@ == games_a@[ka as int]@);
                assert(merged@.map_values(|g: Game| g@) =~= old_merged.map_values(|g: Game| g@).push(
                    games_a@[ka as int]@,
                ));
                assert(games_a@.take(ka + 1).map_values(|g: Game| g@) =~= games_a@.take(
                    ka as int,
                ).map_values(|g: Game| g@).push(games_a@[ka as int]@));
                assert(merged@.map_values(|g: Game| g@) =~= before + games_a@.take(
                    ka + 1,
                ).map_values(|g: Game| g@));
                ka = ka + 1;
            }
            assert(games_a@.take(games_a@.len() as int) =~= games_a@);
            let ghost middle = merged@.map_values(|g: Game| g@);
            let mut kb: usize = 0;
            while kb < games_b.len()
                invariant
                    kb <= games_b@.len(),
                    day == round_date(first, half, r as int),
                    r < rounds,
                    games_b@ == round_games(second, half, sigma),
                    sigma == matching_round(first, second, half, has_bye, r as int, 0, rounds),
                    has_bye == schedule_has_bye(first),
                    first == pass_a@,
                    second == pass_b@,
                    merged@.map_values(|g: Game| g@) == middle + real_games(
                        games_b@.take(kb as int),
                    ).map_values(|g: Game| moved_to(g, day)),
                    forall|k: int|
                        0 <= k < kb && !is_bye_view(#[trigger] games_b@[k]@)
                            ==> zurich_local_time_is_unique(
                            day.spec_day_number() as i32,
                            games_b@[k].spec_time().spec_hour(),
                            games_b@[k].spec_time().spec_minute(),
                        ),
                decreases games_b@.len() - kb,
            {
                let game = &games_b[kb];
                assert(games_b@.take(kb + 1).drop_last() =~= games_b@.take(kb as int));
                assert(games_b@.take(kb + 1).last() == games_b@[kb as int]);
                if !game.is_bye_game() {
                    let referee = match game.get_referee() {
                        Some(t) => Some(t.duplicate()),
                        None => None,
                    };
                    let time = match game.get_game_time() {
                        Ok(t) => t,
                        Err(_) => {
                            return None;
                        },
                    };
                    let ghost old_merged = merged@;
                    match Game::new_with_game_day(
                        game.get_home_team().duplicate(),
                        game.get_away_team().duplicate(),
                        day,
                        time,
                        referee,
                    ) {
                        Ok(moved) => {
                            assert(moved@ == moved_to(*game, day));
                            merged.push(moved);
                            assert(merged@ =~= old_merged.push(moved));
                            assert(merged@.map_values(|g: Game| g@) =~= old_merged.map_values(
                                |g: Game| g@,
                            ).push(moved_to(*game, day)));
                        },
                        Err(_) => {
                            let ghost games = round_games(second, half, sigma);
                            assert(games_b@[kb as int] == *game);
                            assert(games[kb as int] == *game);
                            assert(!is_bye_view(games[kb as int]@));
                            assert(!zurich_local_time_is_unique(
                                round_date(first, half, r as int).spec_day_number() as i32,
                                games[kb as int].spec_time().spec_hour(),
                                games[kb as int].spec_time().spec_minute(),
                            ));
                            assert(!all_times_exist_on(
                                round_games(second, half, sigma),
                                round_date(first, half, r as int),
                            ));
                            assert(merge_refused(first, second, half, has_bye, rounds, rounds));
                            return None;
                        },
                    }
                    assert(real_games(games_b@.take(kb + 1)) =~= real_games(
                        games_b@.take(kb as int),
                    ).push(*game));
                    assert(real_games(games_b@.take(kb + 1)).map_values(
                        |g: Game| moved_to(g, day),
                    ) =~= real_games(games_b@.take(kb as int)).map_values(
                        |g: Game| moved_to(g, day),
                    ).push(moved_to(*game, day)));
                    assert(merged@.map_values(|g: Game| g@) =~= middle + real_games(
                        games_b@.take(kb + 1),
                    ).map_values(|g: Game| moved_to(g, day)));
                } else {
                    assert(real_games(games_b@.take(kb + 1)) == real_games(
                        games_b@.take(kb as int),
                    ));
                }
                kb = kb + 1;
            }
            assert(games_b@.take(games_b@.len() as int) =~= games_b@);
            r = r + 1;
        }
        Some(merged)
    }
}

} // verus!
