use vstd::prelude::*;

use crate::day_split::count_where;
use crate::error::AppError;
use crate::game::{Game, GameView};
use crate::leg_merge::is_bye_view;
use crate::team::{Team, TeamView, BYE_NAME};

verus! {

/// The views of a list of games.
pub open spec fn game_views(games: Seq<Game>) -> Seq<GameView> {
    games.map_values(|g: Game| g@)
}

/// The views of a list of teams.
pub open spec fn team_views(teams: Seq<Team>) -> Seq<TeamView> {
    teams.map_values(|t: Team| t@)
}

/// The two games start at the same moment: same day, same time.
pub open spec fn same_slot(a: GameView, b: GameView) -> bool {
    a.day == b.day && a.time == b.time
}

/// `team` is one of the two sides of the game.
pub open spec fn plays_in(game: GameView, team: TeamView) -> bool {
    game.home == team || game.away == team
}

/// The team facing the bye, in a game with the bye on one side.
pub open spec fn bye_partner_team(game: GameView) -> TeamView {
    if game.home.0 == BYE_NAME@ {
        game.away
    } else {
        game.home
    }
}

/// The team that sits day `day` out: the one facing the bye in the last
/// game with the bye on that day.
pub open spec fn day_bye(games: Seq<GameView>, day: int) -> Option<TeamView>
    decreases games.len(),
{
    if games.len() == 0 {
        None
    } else if games.last().day == day && is_bye_view(games.last()) {
        Some(bye_partner_team(games.last()))
    } else {
        day_bye(games.drop_last(), day)
    }
}

/// `team` can referee game `k`: it plays no game at that moment and does
/// not sit that day out.
pub open spec fn free_to_referee(games: Seq<GameView>, k: int, team: TeamView) -> bool {
    &&& forall|k2: int|
        0 <= k2 < games.len() && same_slot(games[k2], games[k]) ==> !plays_in(
            #[trigger] games[k2],
            team,
        )
    &&& day_bye(games, games[k].day) != Some(team)
}

/// The teams free to referee game `k`.
pub open spec fn free_referees(games: Seq<GameView>, teams: Seq<TeamView>, k: int) -> Set<
    TeamView,
> {
    teams.to_set().filter(|t: TeamView| free_to_referee(games, k, t))
}

/// How many of the first `n` games are real games at the moment of `slot`.
pub open spec fn real_in_slot_before(games: Seq<GameView>, slot: GameView, n: int) -> int
    decreases n,
{
    if n <= 0 {
        0
    } else {
        real_in_slot_before(games, slot, n - 1) + if !is_bye_view(games[n - 1]) && same_slot(
            games[n - 1],
            slot,
        ) {
            1int
        } else {
            0int
        }
    }
}

/// Some real game comes at a moment when every team free to referee it
/// already referees an earlier game at that moment: there are more real
/// games at that moment than teams free for them.
pub open spec fn referees_run_short(games: Seq<GameView>, teams: Seq<TeamView>) -> bool {
    exists|k: int|
        0 <= k < games.len() && !is_bye_view(#[trigger] games[k]) && free_referees(
            games,
            teams,
            k,
        ).len() <= real_in_slot_before(games, games[k], k)
}

/// `after` is `before` with a referee for every real game: one of the teams,
/// free to referee it, and no team refereeing two games at one moment. Games
/// with the bye are kept as they are.
pub open spec fn referees_assigned(
    before: Seq<GameView>,
    after: Seq<GameView>,
    teams: Seq<TeamView>,
) -> bool {
    &&& after.len() == before.len()
    &&& forall|k: int|
        0 <= k < before.len() ==> {
            &&& (#[trigger] after[k]).home == before[k].home
            &&& after[k].away == before[k].away
            &&& after[k].day == before[k].day
            &&& after[k].time == before[k].time
        }
    &&& forall|k: int| 0 <= k < before.len() && is_bye_view(before[k]) ==> #[trigger] after[k] == before[k]
    &&& forall|k: int|
        0 <= k < before.len() && !is_bye_view(before[k]) ==> ((#[trigger] after[k]).referee matches Some(
            t,
        ) && teams.contains(t) && free_to_referee(before, k, t))
    &&& forall|k1: int, k2: int|
        0 <= k1 < before.len() && 0 <= k2 < before.len() && k1 != k2 && !is_bye_view(before[k1])
            && !is_bye_view(before[k2]) && same_slot(before[k1], before[k2]) ==> (#[trigger] after[k1]).referee
            != (#[trigger] after[k2]).referee
}

/// Whether `team` plays a game at the moment of game `k`.
fn plays_in_slot(schedule: &Vec<Game>, k: usize, team: &Team) -> (r: bool)
    requires
        k < schedule@.len(),
    ensures
        r == exists|k2: int|
            0 <= k2 < schedule@.len() && same_slot(schedule@[k2]@, schedule@[k as int]@)
                && plays_in(#[trigger] schedule@[k2]@, team@),
{
    let day = schedule[k].get_game_day().day_number();
    let time = schedule[k].get_game_time();
    let minutes = match time {
        Ok(t) => t.to_minutes(),
        Err(_) => 0,
    };
    let mut k2: usize = 0;
    while k2 < schedule.len()
        invariant
            k2 <= schedule@.len(),
            k < schedule@.len(),
            day == schedule@[k as int]@.day,
            minutes == schedule@[k as int]@.time,
            forall|j: int|
                0 <= j < k2 ==> !(same_slot(schedule@[j]@, schedule@[k as int]@) && plays_in(
                    #[trigger] schedule@[j]@,
                    team@,
                )),
        decreases schedule@.len() - k2,
    {
        let game = &schedule[k2];
        let other_minutes = match game.get_game_time() {
            Ok(t) => t.to_minutes(),
            Err(_) => 0,
        };
        if game.get_game_day().day_number() == day && other_minutes == minutes && (
        game.get_home_team().same_team(team) || game.get_away_team().same_team(team)) {
            assert(plays_in(schedule@[k2 as int]@, team@));
            return true;
        }
        k2 = k2 + 1;
    }
    false
}

/// The last game with the bye on day `day`, if there is one.
fn last_bye_game_on(schedule: &Vec<Game>, day: i32) -> (r: Option<usize>)
    ensures
        r is None ==> day_bye(game_views(schedule@), day as int) is None,
        r matches Some(k) ==> k < schedule@.len() && day_bye(game_views(schedule@), day as int)
            == Some(bye_partner_team(schedule@[k as int]@)) && is_bye_view(schedule@[k as int]@),
{
    let ghost views = game_views(schedule@);
    let mut n: usize = schedule.len();
    assert(views.take(n as int) =~= views);
    while n > 0
        invariant
            n <= schedule@.len(),
            views == game_views(schedule@),
            day_bye(views, day as int) == day_bye(views.take(n as int), day as int),
        decreases n,
    {
        let game = &schedule[n - 1];
        assert(views.take(n as int).last() == game@);
        assert(views.take(n as int).drop_last() =~= views.take(n - 1));
        if game.get_game_day().day_number() == day && game.is_bye_game() {
            return Some(n - 1);
        }
        n = n - 1;
    }
    assert(views.take(0) =~= Seq::<GameView>::empty());
    None
}

/// The referee of each game, as a team view, where one is assigned.
pub open spec fn referee_views(assigned: Seq<Option<usize>>, teams: Seq<Team>) -> Seq<
    Option<TeamView>,
> {
    assigned.map_values(
        |a: Option<usize>|
            match a {
                Some(q) => Some(teams[q as int]@),
                None => None,
            },
    )
}

/// The referees of the real games among the first `n` at the moment of
/// `slot`, in order.
pub open spec fn slot_referees(
    games: Seq<GameView>,
    refs: Seq<Option<TeamView>>,
    slot: GameView,
    n: int,
) -> Seq<TeamView>
    decreases n,
{
    if n <= 0 {
        seq![]
    } else {
        let earlier = slot_referees(games, refs, slot, n - 1);
        if !is_bye_view(games[n - 1]) && same_slot(games[n - 1], slot) && refs[n - 1] is Some {
            earlier.push(refs[n - 1]->0)
        } else {
            earlier
        }
    }
}

proof fn lemma_slot_referees(
    games: Seq<GameView>,
    refs: Seq<Option<TeamView>>,
    slot: GameView,
    n: int,
)
    requires
        0 <= n <= games.len(),
        refs.len() == games.len(),
        forall|j: int| 0 <= j < n && !is_bye_view(games[j]) ==> (#[trigger] refs[j]) is Some,
    ensures
        slot_referees(games, refs, slot, n).len() == real_in_slot_before(games, slot, n),
        forall|t: TeamView|
            slot_referees(games, refs, slot, n).contains(t) <==> exists|j: int|
                0 <= j < n && !is_bye_view(games[j]) && same_slot(games[j], slot) && #[trigger] refs[j]
                    == Some(t),
    decreases n,
{
    if n > 0 {
        lemma_slot_referees(games, refs, slot, n - 1);
        let earlier = slot_referees(games, refs, slot, n - 1);
        assert forall|t: TeamView|
            slot_referees(games, refs, slot, n).contains(t) <==> exists|j: int|
                0 <= j < n && !is_bye_view(games[j]) && same_slot(games[j], slot) && #[trigger] refs[j]
                    == Some(t) by {
            if slot_referees(games, refs, slot, n).contains(t) {
                if earlier.contains(t) {
                    let j = choose|j: int|
                        0 <= j < n - 1 && !is_bye_view(games[j]) && same_slot(games[j], slot)
                            && #[trigger] refs[j] == Some(t);
                    assert(refs[j] == Some(t));
                } else {
                    let i = choose|i: int|
                        0 <= i < slot_referees(games, refs, slot, n).len() && slot_referees(
                            games,
                            refs,
                            slot,
                            n,
                        )[i] == t;
                    assert(!is_bye_view(games[n - 1]) && same_slot(games[n - 1], slot)
                        && refs[n - 1] is Some);
                    assert(i == earlier.len());
                    assert(refs[n - 1] == Some(t));
                }
            }
            if exists|j: int|
                0 <= j < n && !is_bye_view(games[j]) && same_slot(games[j], slot) && #[trigger] refs[j]
                    == Some(t) {
                let j = choose|j: int|
                    0 <= j < n && !is_bye_view(games[j]) && same_slot(games[j], slot) && #[trigger] refs[j]
                        == Some(t);
                if j == n - 1 {
                    assert(slot_referees(games, refs, slot, n)[earlier.len() as int] == t);
                } else {
                    assert(earlier.contains(t));
                    let i = choose|i: int| 0 <= i < earlier.len() && earlier[i] == t;
                    assert(slot_referees(games, refs, slot, n)[i] == t);
                }
            }
        }
    }
}

proof fn lemma_slot_referees_distinct(
    games: Seq<GameView>,
    refs: Seq<Option<TeamView>>,
    slot: GameView,
    n: int,
)
    requires
        0 <= n <= games.len(),
        refs.len() == games.len(),
        forall|j: int| 0 <= j < n && !is_bye_view(games[j]) ==> (#[trigger] refs[j]) is Some,
        forall|j1: int, j2: int|
            0 <= j1 < n && 0 <= j2 < n && j1 != j2 && !is_bye_view(games[j1]) && !is_bye_view(
                games[j2],
            ) && same_slot(games[j1], games[j2]) ==> #[trigger] refs[j1] != #[trigger] refs[j2],
    ensures
        slot_referees(games, refs, slot, n).no_duplicates(),
    decreases n,
{
    if n > 0 {
        lemma_slot_referees_distinct(games, refs, slot, n - 1);
        lemma_slot_referees(games, refs, slot, n - 1);
        let earlier = slot_referees(games, refs, slot, n - 1);
        if !is_bye_view(games[n - 1]) && same_slot(games[n - 1], slot) {
            let t = refs[n - 1]->0;
            if earlier.contains(t) {
                let j = choose|j: int|
                    0 <= j < n - 1 && !is_bye_view(games[j]) && same_slot(games[j], slot) && #[trigger] refs[j]
                        == Some(t);
                assert(refs[j] != refs[n - 1]);
            }
        }
    }
}

/// Being free to referee depends only on the moment of the game.
proof fn lemma_free_in_slot(games: Seq<GameView>, j: int, k: int, t: TeamView)
    requires
        0 <= j < games.len(),
        0 <= k < games.len(),
        same_slot(games[j], games[k]),
    ensures
        free_to_referee(games, j, t) == free_to_referee(games, k, t),
{
}

/// The team facing the bye in a game with the bye on one side.
fn bye_partner_of(game: &Game) -> (r: &Team)
    ensures
        r@ == bye_partner_team(game@),
{
    if game.get_home_team().is_bye() {
        game.get_away_team()
    } else {
        game.get_home_team()
    }
}

/// Whether a team equal to `team` referees one of the first `limit` games at
/// the moment of game `k`.
fn refereeing_in_slot(
    schedule: &Vec<Game>,
    teams: &[Team],
    assigned: &Vec<Option<usize>>,
    k: usize,
    limit: usize,
    team: &Team,
) -> (r: bool)
    requires
        k < schedule@.len(),
        limit <= schedule@.len(),
        assigned@.len() == schedule@.len(),
        forall|j: int| 0 <= j < assigned@.len() && (#[trigger] assigned@[j]) is Some ==> assigned@[j]->0 < teams@.len(),
    ensures
        r == exists|j: int|
            0 <= j < limit && same_slot(schedule@[j]@, schedule@[k as int]@) && #[trigger] referee_views(
                assigned@,
                teams@,
            )[j] == Some(team@),
{
    let day = schedule[k].get_game_day().day_number();
    let minutes = match schedule[k].get_game_time() {
        Ok(t) => t.to_minutes(),
        Err(_) => 0,
    };
    let mut j: usize = 0;
    while j < limit
        invariant
            j <= limit,
            limit <= schedule@.len(),
            k < schedule@.len(),
            assigned@.len() == schedule@.len(),
            forall|j: int| 0 <= j < assigned@.len() && (#[trigger] assigned@[j]) is Some ==> assigned@[j]->0 < teams@.len(),
            day == schedule@[k as int]@.day,
            minutes == schedule@[k as int]@.time,
            forall|i: int|
                0 <= i < j ==> !(same_slot(schedule@[i]@, schedule@[k as int]@) && #[trigger] referee_views(
                    assigned@,
                    teams@,
                )[i] == Some(team@)),
        decreases limit - j,
    {
        match assigned[j] {
            Some(q) => {
                let game = &schedule[j];
                let other_minutes = match game.get_game_time() {
                    Ok(t) => t.to_minutes(),
                    Err(_) => 0,
                };
                if game.get_game_day().day_number() == day && other_minutes == minutes
                    && teams[q].same_team(team) {
                    assert(referee_views(assigned@, teams@)[j as int] == Some(team@));
                    return true;
                }
            },
            None => {},
        }
        j = j + 1;
    }
    false
}

/// `team` can referee game `k` now: it is free then, and no earlier game at
/// that moment has it as its referee yet.
pub open spec fn eligible_referee(
    games: Seq<GameView>,
    refs: Seq<Option<TeamView>>,
    k: int,
    team: TeamView,
) -> bool {
    free_to_referee(games, k, team) && !slot_referees(games, refs, games[k], k).contains(team)
}

/// What the referees assigned so far satisfy: exactly the real games among
/// the first `done` have one, a team free for the game, and no team has two
/// games at one moment.
pub open spec fn assignment_holds(
    games: Seq<GameView>,
    refs: Seq<Option<TeamView>>,
    teams: Seq<TeamView>,
    done: int,
) -> bool {
    &&& refs.len() == games.len()
    &&& forall|j: int| 0 <= j < games.len() ==> ((#[trigger] refs[j]) is Some <==> j < done && !is_bye_view(games[j]))
    &&& forall|j: int|
        0 <= j < games.len() && (#[trigger] refs[j]) is Some ==> teams.contains(refs[j]->0)
            && free_to_referee(games, j, refs[j]->0)
    &&& forall|j1: int, j2: int|
        0 <= j1 < games.len() && 0 <= j2 < games.len() && j1 != j2 && (#[trigger] refs[j1]) is Some
            && (#[trigger] refs[j2]) is Some && same_slot(games[j1], games[j2]) ==> refs[j1]
            != refs[j2]
}

/// When no team can referee game `k`, the teams free for it all referee
/// earlier games at that moment; when one can, there are more teams free for
/// it than earlier real games at that moment.
proof fn lemma_referee_count(
    games: Seq<GameView>,
    refs: Seq<Option<TeamView>>,
    teams: Seq<TeamView>,
    k: int,
)
    requires
        0 <= k < games.len(),
        assignment_holds(games, refs, teams, k),
    ensures
        (forall|q: int| 0 <= q < teams.len() ==> !eligible_referee(games, refs, k, #[trigger] teams[q]))
            ==> free_referees(games, teams, k).len() <= real_in_slot_before(games, games[k], k),
        (exists|q: int| 0 <= q < teams.len() && eligible_referee(games, refs, k, #[trigger] teams[q]))
            ==> free_referees(games, teams, k).len() > real_in_slot_before(games, games[k], k),
{
    broadcast use vstd::seq_lib::seq_to_set_is_finite;

    let slot = games[k];
    let taken = slot_referees(games, refs, slot, k);
    lemma_slot_referees(games, refs, slot, k);
    assert forall|j1: int, j2: int|
        0 <= j1 < k && 0 <= j2 < k && j1 != j2 && !is_bye_view(games[j1]) && !is_bye_view(
            games[j2],
        ) && same_slot(games[j1], games[j2]) implies #[trigger] refs[j1] != #[trigger] refs[j2] by {
        assert(refs[j1] is Some);
        assert(refs[j2] is Some);
    }
    lemma_slot_referees_distinct(games, refs, slot, k);
    taken.unique_seq_to_set();
    let taken_set = taken.to_set();
    let free = free_referees(games, teams, k);
    assert(free.finite()) by {
        vstd::set_lib::lemma_len_subset(free, teams.to_set());
    }
    assert forall|t: TeamView| taken_set.contains(t) implies free.contains(t) by {
        assert(taken.contains(t));
        let j = choose|j: int|
            0 <= j < k && !is_bye_view(games[j]) && same_slot(games[j], slot) && #[trigger] refs[j]
                == Some(t);
        lemma_free_in_slot(games, j, k, t);
    }
    if forall|q: int| 0 <= q < teams.len() ==> !eligible_referee(games, refs, k, #[trigger] teams[q]) {
        assert forall|t: TeamView| free.contains(t) implies taken_set.contains(t) by {
            assert(teams.contains(t));
            let q = choose|q: int| 0 <= q < teams.len() && teams[q] == t;
            assert(!eligible_referee(games, refs, k, teams[q]));
        }
        vstd::set_lib::lemma_len_subset(free, taken_set);
    }
    if exists|q: int| 0 <= q < teams.len() && eligible_referee(games, refs, k, #[trigger] teams[q]) {
        let q = choose|q: int| 0 <= q < teams.len() && eligible_referee(games, refs, k, #[trigger] teams[q]);
        let t = teams[q];
        assert(teams.to_set().contains(t));
        assert(free.contains(t));
        assert(!taken_set.contains(t));
        assert(taken_set.insert(t).subset_of(free));
        vstd::set_lib::lemma_len_subset(taken_set.insert(t), free);
    }
}

/// A real game refereed by `t`.
pub open spec fn refereed_by(t: TeamView) -> spec_fn(GameView) -> bool {
    |g: GameView| !is_bye_view(g) && g.referee == Some(t)
}

/// How many real games `t` referees.
pub open spec fn refereed_games(games: Seq<GameView>, t: TeamView) -> nat {
    count_where(games, refereed_by(t))
}

/// `t` could take over refereeing game `j` of `before`, whose real games
/// have the referees of `after`: it is free then and referees no real game
/// at that moment.
pub open spec fn could_take_over(before: Seq<GameView>, after: Seq<GameView>, j: int, t: TeamView) -> bool {
    &&& free_to_referee(before, j, t)
    &&& !exists|i: int|
        0 <= i < before.len() && !is_bye_view(before[i]) && same_slot(before[i], before[j])
            && #[trigger] after[i].referee == Some(t)
}

/// No two of the teams are the same team.
pub open spec fn distinct_teams(teams: Seq<TeamView>) -> bool {
    forall|p: int, q: int| 0 <= p < teams.len() && 0 <= q < teams.len() && p != q ==> teams[p] != teams[q]
}

/// The referees are spread as evenly as moving one game at a time from a
/// most used team to a least used one gets them: any two teams referee
/// numbers of games at most one apart, or some most used team has no game
/// that some least used team could take over.
pub open spec fn referees_spread(before: Seq<GameView>, after: Seq<GameView>, teams: Seq<TeamView>) -> bool {
    ||| forall|p: int, q: int|
        0 <= p < teams.len() && 0 <= q < teams.len() ==> #[trigger] refereed_games(after, teams[p])
            <= #[trigger] refereed_games(after, teams[q]) + 1
    ||| exists|hi: int, lo: int|
        #![trigger teams[hi], teams[lo]]
        {
            &&& 0 <= hi < teams.len()
            &&& 0 <= lo < teams.len()
            &&& forall|q: int|
                0 <= q < teams.len() ==> refereed_games(after, #[trigger] teams[q]) <= refereed_games(
                    after,
                    teams[hi],
                ) && refereed_games(after, teams[lo]) <= refereed_games(after, teams[q])
            &&& forall|j: int|
                0 <= j < before.len() && #[trigger] refereed_by(teams[hi])(after[j]) ==> !could_take_over(
                    before,
                    after,
                    j,
                    teams[lo],
                )
        }
}

/// `t` could take over refereeing game `j`, whose moment's games have the
/// referees `refs`: it is free then and referees no game at that moment.
spec fn could_take(games: Seq<GameView>, refs: Seq<Option<TeamView>>, j: int, t: TeamView) -> bool {
    &&& free_to_referee(games, j, t)
    &&& !exists|i: int| 0 <= i < games.len() && same_slot(games[i], games[j]) && #[trigger] refs[i] == Some(t)
}

/// Where moving games between referees stops: the counts are at most one
/// apart, or a most used team has no game that a least used team could take
/// over.
#[verifier::opaque]
spec fn spread_reached(games: Seq<GameView>, assigned: Seq<Option<usize>>, counts: Seq<usize>, teams: Seq<Team>) -> bool {
    ||| forall|p: int, q: int|
        0 <= p < counts.len() && 0 <= q < counts.len() ==> #[trigger] counts[p] <= #[trigger] counts[q] + 1
    ||| exists|hi: int, lo: int|
        #![trigger counts[hi], counts[lo]]
        {
            &&& 0 <= hi < counts.len()
            &&& 0 <= lo < counts.len()
            &&& forall|q: int| 0 <= q < counts.len() ==> #[trigger] counts[q] <= counts[hi] && counts[lo] <= counts[q]
            &&& forall|j: int|
                0 <= j < assigned.len() && #[trigger] assigned[j] == Some(hi as usize) ==> !could_take(
                    games,
                    referee_views(assigned, teams),
                    j,
                    teams[lo]@,
                )
        }
}

/// How many games have team number `q` as their referee.
spec fn assigned_count(assigned: Seq<Option<usize>>, q: usize) -> nat
    decreases assigned.len(),
{
    if assigned.len() == 0 {
        0
    } else {
        assigned_count(assigned.drop_last(), q) + if assigned.last() == Some(q) {
            1nat
        } else {
            0nat
        }
    }
}

proof fn lemma_assigned_count_none(assigned: Seq<Option<usize>>, q: usize)
    requires
        forall|j: int| 0 <= j < assigned.len() ==> (#[trigger] assigned[j]) is None,
    ensures
        assigned_count(assigned, q) == 0,
    decreases assigned.len(),
{
    if assigned.len() > 0 {
        assert(assigned.last() == assigned[assigned.len() - 1]);
        lemma_assigned_count_none(assigned.drop_last(), q);
    }
}

proof fn lemma_assigned_count_update(assigned: Seq<Option<usize>>, s: int, v: Option<usize>, q: usize)
    requires
        0 <= s < assigned.len(),
    ensures
        assigned_count(assigned.update(s, v), q) + (if assigned[s] == Some(q) {
            1int
        } else {
            0int
        }) == assigned_count(assigned, q) + (if v == Some(q) {
            1int
        } else {
            0int
        }),
    decreases assigned.len(),
{
    let after = assigned.update(s, v);
    if s == assigned.len() - 1 {
        assert(after.drop_last() =~= assigned.drop_last());
    } else {
        assert(after.drop_last() =~= assigned.drop_last().update(s, v));
        lemma_assigned_count_update(assigned.drop_last(), s, v, q);
    }
}

/// The games a team referees, counted on the games' views.
proof fn lemma_refereed_games(games: Seq<GameView>, assigned: Seq<Option<usize>>, t: TeamView, q: usize)
    requires
        games.len() == assigned.len(),
        forall|j: int| 0 <= j < games.len() ==> refereed_by(t)(#[trigger] games[j]) == (assigned[j] == Some(q)),
    ensures
        refereed_games(games, t) == assigned_count(assigned, q),
    decreases games.len(),
{
    if games.len() > 0 {
        let n = games.len() - 1;
        assert forall|j: int| 0 <= j < n implies refereed_by(t)(#[trigger] games.drop_last()[j]) == (
        assigned.drop_last()[j] == Some(q)) by {
            assert(games.drop_last()[j] == games[j]);
        }
        lemma_refereed_games(games.drop_last(), assigned.drop_last(), t, q);
        assert(games.last() == games[n]);
    }
}

/// The sum of the squares of the counts.
spec fn sum_of_squares(counts: Seq<usize>) -> nat
    decreases counts.len(),
{
    if counts.len() == 0 {
        0
    } else {
        sum_of_squares(counts.drop_last()) + (counts.last() as nat) * (counts.last() as nat)
    }
}

proof fn lemma_sum_of_squares_update(counts: Seq<usize>, i: int, v: usize)
    requires
        0 <= i < counts.len(),
    ensures
        sum_of_squares(counts.update(i, v)) + counts[i] * counts[i] == sum_of_squares(counts) + v * v,
    decreases counts.len(),
{
    let after = counts.update(i, v);
    if i == counts.len() - 1 {
        assert(after.drop_last() =~= counts.drop_last());
    } else {
        assert(after.drop_last() =~= counts.drop_last().update(i, v));
        lemma_sum_of_squares_update(counts.drop_last(), i, v);
    }
}

/// Moving one game from a team with at least two more games to another
/// lowers the sum of the squares of the counts.
proof fn lemma_move_lowers_squares(counts: Seq<usize>, hi: int, lo: int)
    requires
        0 <= hi < counts.len(),
        0 <= lo < counts.len(),
        counts[hi] >= counts[lo] + 2,
    ensures
        sum_of_squares(counts.update(hi, (counts[hi] - 1) as usize).update(lo, (counts[lo] + 1) as usize))
            < sum_of_squares(counts),
{
    let a = counts[hi] as int;
    let b = counts[lo] as int;
    let mid = counts.update(hi, (a - 1) as usize);
    lemma_sum_of_squares_update(counts, hi, (a - 1) as usize);
    lemma_sum_of_squares_update(mid, lo, (b + 1) as usize);
    assert(mid[lo] == b);
    assert((a - 1) * (a - 1) + (b + 1) * (b + 1) < a * a + b * b) by (nonlinear_arith)
        requires
            a >= b + 2,
            b >= 0,
    ;
}

/// Team number `q` referees, in the games handed back, the games it was
/// given.
proof fn lemma_count_of_games(
    views: Seq<GameView>,
    after: Seq<GameView>,
    assigned: Seq<Option<usize>>,
    teams: Seq<Team>,
    q: usize,
)
    requires
        q < teams.len(),
        after.len() == views.len(),
        assigned.len() == views.len(),
        distinct_teams(team_views(teams)),
        forall|j: int| 0 <= j < assigned.len() && (#[trigger] assigned[j]) is Some ==> assigned[j]->0 < teams.len(),
        forall|j: int| 0 <= j < views.len() ==> ((#[trigger] assigned[j]) is Some <==> !is_bye_view(views[j])),
        forall|j: int|
            0 <= j < views.len() && !is_bye_view(views[j]) ==> (#[trigger] after[j]).referee == referee_views(
                assigned,
                teams,
            )[j],
        forall|j: int| 0 <= j < views.len() ==> is_bye_view(#[trigger] after[j]) == is_bye_view(views[j]),
    ensures
        refereed_games(after, teams[q as int]@) == assigned_count(assigned, q),
        forall|j: int| 0 <= j < after.len() ==> refereed_by(teams[q as int]@)(#[trigger] after[j]) == (assigned[j] == Some(q)),
{
    let tv = team_views(teams);
    let refs = referee_views(assigned, teams);
    let t = teams[q as int]@;
    assert forall|j: int| 0 <= j < after.len() implies refereed_by(t)(#[trigger] after[j]) == (assigned[j]
        == Some(q)) by {
        if assigned[j] == Some(q) {
            assert(refs[j] == Some(t));
            assert(!is_bye_view(views[j]));
        }
        if refereed_by(t)(after[j]) {
            assert(!is_bye_view(views[j]));
            let a = assigned[j]->0 as int;
            assert(refs[j] == Some(teams[a]@));
            assert(tv[a] == teams[a]@ && tv[q as int] == t);
            assert(a == q);
        }
    }
    lemma_refereed_games(after, assigned, t, q);
}

/// A game that team `t` could not take over on the numbered assignment it
/// cannot take over in the games handed back either.
proof fn lemma_no_take_over(
    views: Seq<GameView>,
    after: Seq<GameView>,
    refs: Seq<Option<TeamView>>,
    j: int,
    t: TeamView,
)
    requires
        0 <= j < views.len(),
        after.len() == views.len(),
        refs.len() == views.len(),
        forall|i: int| 0 <= i < views.len() && (#[trigger] refs[i]) is Some ==> !is_bye_view(views[i]),
        forall|i: int|
            0 <= i < views.len() && !is_bye_view(views[i]) ==> (#[trigger] after[i]).referee == refs[i],
        !could_take(views, refs, j, t),
    ensures
        !could_take_over(views, after, j, t),
{
    if could_take_over(views, after, j, t) {
        assert forall|i: int| 0 <= i < views.len() && same_slot(views[i], views[j]) implies #[trigger] refs[i]
            != Some(t) by {
            if refs[i] == Some(t) {
                assert(after[i].referee == Some(t));
            }
        }
    }
}

/// The spread reached on the numbered assignment is the spread of the
/// referees in the games handed back.
#[verifier::spinoff_prover]
proof fn lemma_spread_of_games(
    views: Seq<GameView>,
    after: Seq<GameView>,
    assigned: Seq<Option<usize>>,
    counts: Seq<usize>,
    teams: Seq<Team>,
)
    requires
        after.len() == views.len(),
        assigned.len() == views.len(),
        counts.len() == teams.len(),
        teams.len() <= usize::MAX,
        distinct_teams(team_views(teams)),
        forall|q: int| 0 <= q < counts.len() ==> #[trigger] counts[q] == assigned_count(assigned, q as usize),
        forall|j: int| 0 <= j < assigned.len() && (#[trigger] assigned[j]) is Some ==> assigned[j]->0 < teams.len(),
        forall|j: int| 0 <= j < views.len() ==> ((#[trigger] assigned[j]) is Some <==> !is_bye_view(views[j])),
        forall|j: int|
            0 <= j < views.len() && !is_bye_view(views[j]) ==> (#[trigger] after[j]).referee == referee_views(
                assigned,
                teams,
            )[j],
        forall|j: int| 0 <= j < views.len() ==> is_bye_view(#[trigger] after[j]) == is_bye_view(views[j]),
        spread_reached(views, assigned, counts, teams),
    ensures
        referees_spread(views, after, team_views(teams)),
{
    let tv = team_views(teams);
    let refs = referee_views(assigned, teams);
    assert forall|q: int| 0 <= q < counts.len() implies refereed_games(after, #[trigger] tv[q]) == counts[q] by {
        lemma_count_of_games(views, after, assigned, teams, q as usize);
    }
    if forall|p: int, q: int|
        0 <= p < counts.len() && 0 <= q < counts.len() ==> #[trigger] counts[p] <= #[trigger] counts[q] + 1 {
        assert forall|p: int, q: int| 0 <= p < tv.len() && 0 <= q < tv.len() implies #[trigger] refereed_games(
            after,
            tv[p],
        ) <= #[trigger] refereed_games(after, tv[q]) + 1 by {
            assert(counts[p] <= counts[q] + 1);
        }
    } else {
        reveal(spread_reached);
        let (hi, lo) = choose|hi: int, lo: int|
            #![trigger counts[hi], counts[lo]]
            {
                &&& 0 <= hi < counts.len()
                &&& 0 <= lo < counts.len()
                &&& forall|q: int| 0 <= q < counts.len() ==> #[trigger] counts[q] <= counts[hi] && counts[lo] <= counts[q]
                &&& forall|j: int|
                    0 <= j < assigned.len() && #[trigger] assigned[j] == Some(hi as usize) ==> !could_take(
                        views,
                        refs,
                        j,
                        teams[lo]@,
                    )
            };
        lemma_count_of_games(views, after, assigned, teams, hi as usize);
        assert(tv[hi] == teams[hi]@ && tv[lo] == teams[lo]@);
        assert forall|i: int| 0 <= i < views.len() && (#[trigger] refs[i]) is Some implies !is_bye_view(views[i]) by {
            assert(assigned[i] is Some);
        }
        assert forall|j: int| 0 <= j < views.len() && #[trigger] refereed_by(tv[hi])(after[j]) implies !could_take(
            views,
            refs,
            j,
            tv[lo],
        ) by {
            assert(assigned[j] == Some(hi as usize));
        }
        assert forall|q: int| 0 <= q < tv.len() implies refereed_games(after, #[trigger] tv[q]) <= refereed_games(
            after,
            tv[hi],
        ) && refereed_games(after, tv[lo]) <= refereed_games(after, tv[q]) by {
            assert(counts[q] <= counts[hi] && counts[lo] <= counts[q]);
        }
        lemma_stuck_spread(views, after, refs, tv, hi, lo);
    }
}

/// When a most used team has no game a least used team could take over,
/// the referees are spread as far as moving games gets them.
proof fn lemma_stuck_spread(
    views: Seq<GameView>,
    after: Seq<GameView>,
    refs: Seq<Option<TeamView>>,
    tv: Seq<TeamView>,
    hi: int,
    lo: int,
)
    requires
        0 <= hi < tv.len(),
        0 <= lo < tv.len(),
        after.len() == views.len(),
        refs.len() == views.len(),
        forall|i: int| 0 <= i < views.len() && (#[trigger] refs[i]) is Some ==> !is_bye_view(views[i]),
        forall|i: int|
            0 <= i < views.len() && !is_bye_view(views[i]) ==> (#[trigger] after[i]).referee == refs[i],
        forall|q: int|
            0 <= q < tv.len() ==> refereed_games(after, #[trigger] tv[q]) <= refereed_games(after, tv[hi])
                && refereed_games(after, tv[lo]) <= refereed_games(after, tv[q]),
        forall|j: int|
            0 <= j < views.len() && #[trigger] refereed_by(tv[hi])(after[j]) ==> !could_take(views, refs, j, tv[lo]),
    ensures
        referees_spread(views, after, tv),
{
    assert forall|j: int| 0 <= j < views.len() && #[trigger] refereed_by(tv[hi])(after[j]) implies !could_take_over(
        views,
        after,
        j,
        tv[lo],
    ) by {
        lemma_no_take_over(views, after, refs, j, tv[lo]);
    }
    assert(tv[hi] == tv[hi] && tv[lo] == tv[lo]);
}

impl crate::round_robin::RoundRobin {
    /// Gives every real game a referee: a team that plays no game at that
    /// moment, does not sit that day out, and referees no other game at that
    /// moment. Each game goes to the least used such team; afterwards games
    /// move one at a time from the most used team to the least used one while
    /// that keeps every rule, until their counts differ by at most one or no
    /// game of the one can pass to the other. Refused when some game finds no
    /// such team.
    pub fn add_referees(&self, schedule: Vec<Game>, teams: &[Team]) -> (r: Result<
        Vec<Game>,
        AppError,
    >)
        ensures
            r is Err <==> referees_run_short(game_views(schedule@), team_views(teams@)),
            r is Err ==> r == Err::<Vec<Game>, AppError>(AppError::EmptyEligibleReferees),
            r matches Ok(out) ==> referees_assigned(
                game_views(schedule@),
                game_views(out@),
                team_views(teams@),
            ),
            r matches Ok(out) ==> (distinct_teams(team_views(teams@)) ==> referees_spread(
                game_views(schedule@),
                game_views(out@),
                team_views(teams@),
            )),
    {
        let n = schedule.len();
        let ghost views = game_views(schedule@);
        let ghost tv = team_views(teams@);
        let mut assigned: Vec<Option<usize>> = Vec::new();
        let mut i: usize = 0;
        while i < n
            invariant
                i <= n,
                n == schedule@.len(),
                assigned@.len() == i,
                forall|j: int| 0 <= j < i ==> (#[trigger] assigned@[j]) is None,
            decreases n - i,
        {
            assigned.push(None);
            i = i + 1;
        }
        let mut counts: Vec<usize> = Vec::new();
        let mut i: usize = 0;
        while i < teams.len()
            invariant
                i <= teams@.len(),
                counts@.len() == i,
                forall|q: int| 0 <= q < i ==> #[trigger] counts@[q] == 0,
            decreases teams@.len() - i,
        {
            counts.push(0);
            i = i + 1;
        }
        proof {
            assert forall|j: int| 0 <= j < n implies (#[trigger] referee_views(assigned@, teams@)[j]) is None by {
                assert(assigned@[j] is None);
            }
            assert forall|q: int| 0 <= q < counts@.len() implies #[trigger] counts@[q] == assigned_count(
                assigned@,
                q as usize,
            ) by {
                lemma_assigned_count_none(assigned@, q as usize);
            }
        }
        let mut k: usize = 0;
        while k < n
            invariant
                k <= n,
                n == schedule@.len(),
                views == game_views(schedule@),
                tv == team_views(teams@),
                assigned@.len() == n,
                counts@.len() == teams@.len(),
                forall|q: int| 0 <= q < counts@.len() ==> #[trigger] counts@[q] <= k,
                forall|q: int| 0 <= q < counts@.len() ==> #[trigger] counts@[q] == assigned_count(assigned@, q as usize),
                forall|j: int| 0 <= j < n && (#[trigger] assigned@[j]) is Some ==> assigned@[j]->0 < teams@.len(),
                assignment_holds(views, referee_views(assigned@, teams@), tv, k as int),
                forall|j: int|
                    0 <= j < k && !is_bye_view(#[trigger] views[j]) ==> free_referees(views, tv, j).len()
                        > real_in_slot_before(views, views[j], j),
            decreases n - k,
        {
            let ghost refs = referee_views(assigned@, teams@);
            let game = &schedule[k];
            assert(views[k as int] == game@);
            if !game.is_bye_game() {
                let bye_game = last_bye_game_on(&schedule, game.get_game_day().day_number());
                let mut best: Option<usize> = None;
                let mut q: usize = 0;
                while q < teams.len()
                    invariant
                        q <= teams@.len(),
                        k < n,
                        n == schedule@.len(),
                        views == game_views(schedule@),
                        tv == team_views(teams@),
                        refs == referee_views(assigned@, teams@),
                        assigned@.len() == n,
                        forall|j: int| 0 <= j < n && (#[trigger] assigned@[j]) is Some ==> assigned@[j]->0 < teams@.len(),
                        assignment_holds(views, refs, tv, k as int),
                        counts@.len() == teams@.len(),
                        *game == schedule@[k as int],
                        bye_game is None ==> day_bye(views, game@.day) is None,
                        bye_game matches Some(kb) ==> kb < n && day_bye(views, game@.day) == Some(
                            bye_partner_team(schedule@[kb as int]@),
                        ),
                        best matches Some(b) ==> b < q && eligible_referee(views, refs, k as int, tv[b as int]),
                        best is None ==> forall|q2: int|
                            0 <= q2 < q ==> !eligible_referee(views, refs, k as int, #[trigger] tv[q2]),
                    decreases teams@.len() - q,
                {
                    let team = &teams[q];
                    assert(tv[q as int] == team@);
                    let busy = plays_in_slot(&schedule, k, team);
                    let sits_out = match bye_game {
                        Some(kb) => bye_partner_of(&schedule[kb]).same_team(team),
                        None => false,
                    };
                    let already = refereeing_in_slot(&schedule, teams, &assigned, k, k, team);
                    proof {
                        lemma_slot_referees(views, refs, views[k as int], k as int);
                        assert forall|k2: int| 0 <= k2 < views.len() implies #[trigger] views[k2]
                            == schedule@[k2]@ by {}
                        if busy {
                            let k2 = choose|k2: int|
                                0 <= k2 < schedule@.len() && same_slot(schedule@[k2]@, schedule@[k as int]@)
                                    && plays_in(#[trigger] schedule@[k2]@, team@);
                            assert(views[k2] == schedule@[k2]@);
                        } else {
                            assert forall|k2: int|
                                0 <= k2 < views.len() && same_slot(views[k2], views[k as int]) implies !plays_in(
                                #[trigger] views[k2],
                                team@,
                            ) by {
                                assert(views[k2] == schedule@[k2]@);
                                assert(!plays_in(schedule@[k2]@, team@));
                            }
                        }
                        assert(busy == !(forall|k2: int|
                            0 <= k2 < views.len() && same_slot(views[k2], views[k as int]) ==> !plays_in(
                                #[trigger] views[k2],
                                team@,
                            )));
                        assert(sits_out == (day_bye(views, views[k as int].day) == Some(team@)));
                        if already {
                            let j = choose|j: int|
                                0 <= j < k && same_slot(schedule@[j]@, schedule@[k as int]@) && #[trigger] referee_views(
                                    assigned@,
                                    teams@,
                                )[j] == Some(team@);
                            assert(refs[j] is Some);
                            assert(!is_bye_view(views[j]));
                        }
                        assert(already == slot_referees(views, refs, views[k as int], k as int).contains(team@));
                    }
                    if !busy && !sits_out && !already {
                        match best {
                            Some(b) => {
                                if counts[q] < counts[b] {
                                    best = Some(q);
                                }
                            },
                            None => {
                                best = Some(q);
                            },
                        }
                    }
                    q = q + 1;
                }
                proof {
                    lemma_referee_count(views, refs, tv, k as int);
                }
                match best {
                    None => {
                        proof {
                            assert(!is_bye_view(views[k as int]));
                            assert(referees_run_short(views, tv));
                        }
                        return Err(AppError::EmptyEligibleReferees);
                    },
                    Some(b) => {
                        proof {
                            assert(eligible_referee(views, refs, k as int, tv[b as int]));
                            lemma_slot_referees(views, refs, views[k as int], k as int);
                        }
                        let ghost old_assigned = assigned@;
                        let ghost old_counts = counts@;
                        assert(refs[k as int] is None);
                        assigned.set(k, Some(b));
                        counts.set(b, counts[b] + 1);
                        proof {
                            assert forall|q2: int| 0 <= q2 < counts@.len() implies #[trigger] counts@[q2]
                                == assigned_count(assigned@, q2 as usize) by {
                                lemma_assigned_count_update(old_assigned, k as int, Some(b), q2 as usize);
                                assert(old_counts[q2] == assigned_count(old_assigned, q2 as usize));
                            }
                            let new_refs = referee_views(assigned@, teams@);
                            assert(new_refs =~= refs.update(k as int, Some(tv[b as int])));
                            assert forall|j1: int, j2: int|
                                0 <= j1 < views.len() && 0 <= j2 < views.len() && j1 != j2 && (
                                #[trigger] new_refs[j1]) is Some && (#[trigger] new_refs[j2]) is Some
                                    && same_slot(views[j1], views[j2]) implies new_refs[j1] != new_refs[j2] by {
                                if j1 == k {
                                    assert(refs[j2] is Some);
                                    assert(!is_bye_view(views[j2]));
                                    assert(!slot_referees(views, refs, views[k as int], k as int).contains(tv[b as int]));
                                } else if j2 == k {
                                    assert(refs[j1] is Some);
                                    assert(!is_bye_view(views[j1]));
                                    assert(!slot_referees(views, refs, views[k as int], k as int).contains(tv[b as int]));
                                }
                            }
                            assert(tv.contains(tv[b as int]));
                        }
                    },
                }
            } else {
                proof {
                    assert(referee_views(assigned@, teams@) == refs);
                }
            }
            k = k + 1;
        }
        proof {
            assert(!referees_run_short(views, tv));
        }
        loop
            invariant
                n == schedule@.len(),
                views == game_views(schedule@),
                tv == team_views(teams@),
                assigned@.len() == n,
                counts@.len() == teams@.len(),
                forall|j: int| 0 <= j < n && (#[trigger] assigned@[j]) is Some ==> assigned@[j]->0 < teams@.len(),
                assignment_holds(views, referee_views(assigned@, teams@), tv, n as int),
                forall|q: int| 0 <= q < counts@.len() ==> #[trigger] counts@[q] == assigned_count(assigned@, q as usize),
            ensures
                spread_reached(views, assigned@, counts@, teams@),
            decreases sum_of_squares(counts@),
        {
            if teams.len() == 0 {
                proof {
                    reveal(spread_reached);
                }
                break;
            }
            let mut max_q: usize = 0;
            let mut min_q: usize = 0;
            let mut q: usize = 1;
            while q < teams.len()
                invariant
                    1 <= q <= teams@.len(),
                    counts@.len() == teams@.len(),
                    max_q < teams@.len(),
                    min_q < teams@.len(),
                    forall|q2: int| 0 <= q2 < q ==> #[trigger] counts@[q2] <= counts@[max_q as int] && counts@[q2]
                        >= counts@[min_q as int],
                decreases teams@.len() - q,
            {
                if counts[q] > counts[max_q] {
                    max_q = q;
                }
                if counts[q] < counts[min_q] {
                    min_q = q;
                }
                q = q + 1;
            }
            assert(counts@[min_q as int] <= counts@[max_q as int]);
            if counts[max_q] - counts[min_q] <= 1 {
                proof {
                    reveal(spread_reached);
                    assert forall|p: int, q2: int| 0 <= p < counts@.len() && 0 <= q2 < counts@.len() implies #[trigger] counts@[p]
                        <= #[trigger] counts@[q2] + 1 by {}
                }
                break;
            }
            let ghost refs = referee_views(assigned@, teams@);
            let candidate = &teams[min_q];
            let mut found: Option<usize> = None;
            let mut j: usize = 0;
            while j < n
                invariant
                    j <= n,
                    n == schedule@.len(),
                    views == game_views(schedule@),
                    refs == referee_views(assigned@, teams@),
                    assigned@.len() == n,
                    forall|i: int| 0 <= i < n && (#[trigger] assigned@[i]) is Some ==> assigned@[i]->0 < teams@.len(),
                    *candidate == teams@[min_q as int],
                    found matches Some(s) ==> s < n && assigned@[s as int] == Some(max_q) && free_to_referee(
                        views,
                        s as int,
                        candidate@,
                    ) && !(exists|i: int|
                        0 <= i < n && same_slot(schedule@[i]@, schedule@[s as int]@) && #[trigger] refs[i]
                            == Some(candidate@)),
                    found is None ==> forall|i: int|
                        0 <= i < j && #[trigger] assigned@[i] == Some(max_q) ==> !could_take(
                            views,
                            refs,
                            i,
                            candidate@,
                        ),
                decreases n - j,
            {
                if found.is_none() && assigned[j] == Some(max_q) {
                    let busy = plays_in_slot(&schedule, j, candidate);
                    let bye_game = last_bye_game_on(&schedule, schedule[j].get_game_day().day_number());
                    let sits_out = match bye_game {
                        Some(kb) => bye_partner_of(&schedule[kb]).same_team(candidate),
                        None => false,
                    };
                    let already = refereeing_in_slot(&schedule, teams, &assigned, j, n, candidate);
                    proof {
                        assert(views[j as int] == schedule@[j as int]@);
                        assert forall|k2: int| 0 <= k2 < views.len() implies #[trigger] views[k2]
                            == schedule@[k2]@ by {}
                        if busy {
                            let k2 = choose|k2: int|
                                0 <= k2 < schedule@.len() && same_slot(schedule@[k2]@, schedule@[j as int]@)
                                    && plays_in(#[trigger] schedule@[k2]@, candidate@);
                            assert(views[k2] == schedule@[k2]@);
                            assert(!free_to_referee(views, j as int, candidate@));
                        }
                        assert(sits_out == (day_bye(views, views[j as int].day) == Some(candidate@)));
                        if already {
                            let i = choose|i: int|
                                0 <= i < n && same_slot(schedule@[i]@, schedule@[j as int]@) && #[trigger] referee_views(
                                    assigned@,
                                    teams@,
                                )[i] == Some(candidate@);
                            assert(views[i] == schedule@[i]@);
                            assert(refs[i] == Some(candidate@));
                            assert(!could_take(views, refs, j as int, candidate@));
                        }
                        if !already {
                            assert forall|i: int| 0 <= i < views.len() && same_slot(views[i], views[j as int])
                                implies #[trigger] refs[i] != Some(candidate@) by {
                                assert(views[i] == schedule@[i]@);
                            }
                        }
                    }
                    if !busy && !sits_out && !already {
                        proof {
                            assert forall|k2: int|
                                0 <= k2 < views.len() && same_slot(views[k2], views[j as int]) implies !plays_in(
                                #[trigger] views[k2],
                                candidate@,
                            ) by {
                                assert(views[k2] == schedule@[k2]@);
                                assert(!plays_in(schedule@[k2]@, candidate@));
                            }
                        }
                        found = Some(j);
                    }
                }
                j = j + 1;
            }
            match found {
                None => {
                    proof {
                        reveal(spread_reached);
                        let hi = max_q as int;
                        let lo = min_q as int;
                        assert(tv[lo] == candidate@);
                        assert(forall|q2: int| 0 <= q2 < counts@.len() ==> #[trigger] counts@[q2] <= counts@[hi] && counts@[lo] <= counts@[q2]);
                        assert(counts@[hi] == counts@[hi] && counts@[lo] == counts@[lo]);
                    }
                    break;
                },
                Some(s) => {
                    proof {
                        assert(refs[s as int] is Some);
                        assert(!is_bye_view(views[s as int]));
                    }
                    let ghost old_assigned = assigned@;
                    let ghost old_counts = counts@;
                    assigned.set(s, Some(min_q));
                    counts.set(max_q, counts[max_q] - 1);
                    counts.set(min_q, counts[min_q] + 1);
                    proof {
                        assert(max_q != min_q);
                        assert(counts@ == old_counts.update(max_q as int, (old_counts[max_q as int] - 1) as usize).update(
                            min_q as int,
                            (old_counts[min_q as int] + 1) as usize,
                        ));
                        lemma_move_lowers_squares(old_counts, max_q as int, min_q as int);
                        assert forall|q2: int| 0 <= q2 < counts@.len() implies #[trigger] counts@[q2] == assigned_count(
                            assigned@,
                            q2 as usize,
                        ) by {
                            lemma_assigned_count_update(old_assigned, s as int, Some(min_q), q2 as usize);
                            assert(old_counts[q2] == assigned_count(old_assigned, q2 as usize));
                        }
                        let new_refs = referee_views(assigned@, teams@);
                        assert(new_refs =~= refs.update(s as int, Some(tv[min_q as int])));
                        assert(tv[min_q as int] == candidate@);
                        assert forall|j1: int, j2: int|
                            0 <= j1 < views.len() && 0 <= j2 < views.len() && j1 != j2 && (
                            #[trigger] new_refs[j1]) is Some && (#[trigger] new_refs[j2]) is Some
                                && same_slot(views[j1], views[j2]) implies new_refs[j1] != new_refs[j2] by {
                            if j1 == s {
                                assert(views[j2] == schedule@[j2]@);
                                assert(views[s as int] == schedule@[s as int]@);
                                assert(refs[j2] != Some(candidate@));
                            } else if j2 == s {
                                assert(views[j1] == schedule@[j1]@);
                                assert(views[s as int] == schedule@[s as int]@);
                                assert(refs[j1] != Some(candidate@));
                            }
                        }
                        assert(tv.contains(tv[min_q as int]));
                    }
                },
            }
        }
        let mut out: Vec<Game> = Vec::new();
        let mut k: usize = 0;
        while k < n
            invariant
                k <= n,
                n == schedule@.len(),
                views == game_views(schedule@),
                tv == team_views(teams@),
                assigned@.len() == n,
                forall|j: int| 0 <= j < n && (#[trigger] assigned@[j]) is Some ==> assigned@[j]->0 < teams@.len(),
                counts@.len() == teams@.len(),
                forall|q: int| 0 <= q < counts@.len() ==> #[trigger] counts@[q] == assigned_count(assigned@, q as usize),
                spread_reached(views, assigned@, counts@, teams@),
                out@.len() == k,
                forall|j: int|
                    0 <= j < k ==> (#[trigger] out@[j])@ == (GameView {
                        home: views[j].home,
                        away: views[j].away,
                        day: views[j].day,
                        time: views[j].time,
                        referee: if referee_views(assigned@, teams@)[j] is Some {
                            referee_views(assigned@, teams@)[j]
                        } else {
                            views[j].referee
                        },
                    }),
            decreases n - k,
        {
            let game = &schedule[k];
            assert(views[k as int] == game@);
            match assigned[k] {
                Some(q) => {
                    out.push(game.with_referee(Some(teams[q].duplicate())));
                },
                None => {
                    out.push(game.duplicate());
                },
            }
            k = k + 1;
        }
        proof {
            let refs = referee_views(assigned@, teams@);
            let after = game_views(out@);
            assert forall|j: int| 0 <= j < n implies #[trigger] after[j] == out@[j]@ by {}
            assert forall|k1: int, k2: int|
                0 <= k1 < views.len() && 0 <= k2 < views.len() && k1 != k2 && !is_bye_view(views[k1])
                    && !is_bye_view(views[k2]) && same_slot(views[k1], views[k2]) implies (#[trigger] after[k1]).referee
                != (#[trigger] after[k2]).referee by {
                assert(refs[k1] is Some);
                assert(refs[k2] is Some);
            }
            assert forall|j: int| 0 <= j < views.len() && !is_bye_view(views[j]) implies ((#[trigger] after[j]).referee matches Some(
                t,
            ) && tv.contains(t) && free_to_referee(views, j, t)) by {
                assert(refs[j] is Some);
            }
            assert forall|j: int| 0 <= j < views.len() && is_bye_view(views[j]) implies #[trigger] after[j] == views[j] by {
                assert(refs[j] is None);
            }
            if distinct_teams(tv) {
                assert forall|j: int| 0 <= j < views.len() implies ((#[trigger] assigned@[j]) is Some
                    <==> !is_bye_view(views[j])) by {
                    assert(refs[j] is Some <==> assigned@[j] is Some);
                }
                assert forall|j: int| 0 <= j < views.len() implies is_bye_view(#[trigger] after[j]) == is_bye_view(
                    views[j],
                ) by {}
                lemma_spread_of_games(views, after, assigned@, counts@, teams@);
            }
        }
        Ok(out)
    }
}

} // verus!
