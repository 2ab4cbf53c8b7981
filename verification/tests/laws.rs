use std::collections::HashMap;

use organi_bandit::calendar::{Date, Weekday};
use organi_bandit::configuration::{DateConfiguration, TimeConfiguration};
use organi_bandit::game::Game;
use organi_bandit::game_time::GameTime;
use organi_bandit::round_robin::RoundRobin;
use organi_bandit::season_config::SeasonConfig;
use organi_bandit::team::Team;

fn start_date() -> Date {
    Date::from_ymd_opt(2026, 5, 16).unwrap()
}

fn teams(count: usize) -> Vec<Team> {
    (0..count)
        .map(|i| Team::new(&format!("Team {i}"), None).unwrap())
        .collect()
}

// Games of 45 minutes an hour apart on two fields, from 9:00, with a break
// from 12:00 to 13:30, on Saturdays.
fn season_config() -> SeasonConfig {
    SeasonConfig::new(
        TimeConfiguration::new(
            GameTime::new(9, 0).unwrap(),
            GameTime::new(12, 0).unwrap(),
            GameTime::new(13, 30).unwrap(),
            GameTime::new(0, 45).unwrap(),
            GameTime::new(0, 15).unwrap(),
        ),
        DateConfiguration::new(start_date(), vec![Weekday::Sat], vec![], false),
        2,
    )
}

fn group_stage(count: usize) -> (Vec<Team>, Vec<Game>) {
    let teams = teams(count);
    let schedule = RoundRobin
        .compute_schedule(&teams, &start_date(), &season_config(), true)
        .expect("the group stage is feasible");
    (teams, schedule)
}

fn real_games(schedule: &[Game]) -> Vec<&Game> {
    schedule.iter().filter(|game| !game.is_bye_game()).collect()
}

fn plays(game: &Game, team: &Team) -> bool {
    game.get_home_team().get_name() == team.get_name()
        || game.get_away_team().get_name() == team.get_name()
}

fn minutes(game: &Game) -> u32 {
    game.get_game_time().unwrap().to_minutes()
}

fn check_pairs_meet_twice_on_different_days(count: usize) {
    let (teams, schedule) = group_stage(count);
    let games = real_games(&schedule);
    for (p, a) in teams.iter().enumerate() {
        for b in teams.iter().skip(p + 1) {
            let days: Vec<i32> = games
                .iter()
                .filter(|game| plays(game, a) && plays(game, b))
                .map(|game| game.get_game_day().day_number())
                .collect();
            assert_eq!(days.len(), 2, "{} and {} meet {} times", a.get_name(), b.get_name(), days.len());
            assert_ne!(days[0], days[1]);
        }
    }
}

#[test]
fn group_stage_pairs_meet_twice_on_different_days_with_an_even_count() {
    check_pairs_meet_twice_on_different_days(6);
}

#[test]
fn group_stage_pairs_meet_twice_on_different_days_with_an_odd_count() {
    check_pairs_meet_twice_on_different_days(7);
}

fn check_games_split_by_break(count: usize) {
    let (teams, schedule) = group_stage(count);
    let start_break = 12 * 60;
    let end_break = 13 * 60 + 30;
    for team in &teams {
        let mut by_day: HashMap<i32, Vec<u32>> = HashMap::new();
        for game in real_games(&schedule) {
            if plays(game, team) {
                by_day
                    .entry(game.get_game_day().day_number())
                    .or_default()
                    .push(minutes(game));
            }
        }
        for times in by_day.values() {
            let before = times.iter().filter(|t| **t < start_break).count();
            let after = times.iter().filter(|t| **t >= end_break).count();
            assert!(before <= 1 && after <= 1);
            assert_eq!(before + after, times.len());
        }
    }
}

#[test]
fn group_stage_games_of_a_day_are_split_by_the_break_with_an_even_count() {
    check_games_split_by_break(6);
}

#[test]
fn group_stage_games_of_a_day_are_split_by_the_break_with_an_odd_count() {
    check_games_split_by_break(7);
}

#[test]
fn group_stage_byes_rotate_with_an_odd_count() {
    let (teams, schedule) = group_stage(7);
    let byes: Vec<&Game> = schedule.iter().filter(|game| game.is_bye_game()).collect();
    // One bye a round of the leg before the break: seven rounds.
    assert_eq!(byes.len(), 7);
    for team in &teams {
        assert_eq!(byes.iter().filter(|game| plays(game, team)).count(), 1);
    }
    let mut days: Vec<i32> = byes.iter().map(|game| game.get_game_day().day_number()).collect();
    days.sort();
    days.dedup();
    assert_eq!(days.len(), 7);
}

#[test]
fn group_stage_has_no_bye_with_an_even_count() {
    let (_, schedule) = group_stage(6);
    assert!(schedule.iter().all(|game| !game.is_bye_game()));
}

#[test]
fn group_stage_referees_are_free_and_distinct_in_each_slot() {
    let (teams, schedule) = group_stage(7);
    let games = real_games(&schedule);
    for (k, game) in games.iter().enumerate() {
        let referee = game.get_referee().as_ref().expect("every real game has a referee");
        assert!(teams.contains(referee));
        for (other_k, other) in games.iter().enumerate() {
            let same_slot = other.get_game_day().day_number() == game.get_game_day().day_number()
                && minutes(other) == minutes(game);
            if same_slot {
                assert!(!plays(other, referee), "a referee plays in the same slot");
                if other_k != k {
                    assert_ne!(other.get_referee().as_ref(), Some(referee));
                }
            }
        }
    }
}

#[test]
fn one_leg_pairs_meet_once() {
    let teams = teams(6);
    let order: Vec<usize> = vec![3, 0, 5, 1, 4, 2];
    let leg = RoundRobin
        .single_leg_schedule(
            &teams,
            &order,
            &start_date(),
            &season_config(),
            &GameTime::new(9, 0).unwrap(),
        )
        .unwrap();
    assert_eq!(leg.len(), 15);
    for (p, a) in teams.iter().enumerate() {
        for b in teams.iter().skip(p + 1) {
            let meetings = leg.iter().filter(|game| plays(game, a) && plays(game, b)).count();
            assert_eq!(meetings, 1);
        }
    }
}

fn check_two_games_a_match_day(count: usize) {
    let (teams, schedule) = group_stage(count);
    let mut days: Vec<i32> = schedule.iter().map(|game| game.get_game_day().day_number()).collect();
    days.sort();
    days.dedup();
    for day in days {
        let on_day: Vec<&Game> = schedule
            .iter()
            .filter(|game| game.get_game_day().day_number() == day)
            .collect();
        for team in &teams {
            let real = on_day.iter().filter(|game| !game.is_bye_game() && plays(game, team)).count();
            let byes = on_day.iter().filter(|game| game.is_bye_game() && plays(game, team)).count();
            assert!(
                (real == 2 && byes == 0) || (real == 0 && byes == 1),
                "{} plays {} games and sits out {} times on day {}",
                team.get_name(),
                real,
                byes,
                day
            );
        }
    }
}

#[test]
fn group_stage_teams_play_two_games_a_match_day_with_an_even_count() {
    check_two_games_a_match_day(6);
}

#[test]
fn group_stage_teams_play_two_games_or_sit_out_with_an_odd_count() {
    check_two_games_a_match_day(7);
}

fn check_home_and_away(count: usize) {
    let (teams, schedule) = group_stage(count);
    let games = real_games(&schedule);
    for a in teams.iter() {
        for b in teams.iter() {
            if a.get_name() == b.get_name() {
                continue;
            }
            let at_home = games
                .iter()
                .filter(|game| {
                    game.get_home_team().get_name() == a.get_name()
                        && game.get_away_team().get_name() == b.get_name()
                })
                .count();
            assert_eq!(at_home, 1, "{} hosts {} {} times", a.get_name(), b.get_name(), at_home);
        }
    }
}

#[test]
fn group_stage_pairs_meet_once_at_home_and_once_away_with_an_even_count() {
    check_home_and_away(6);
}

#[test]
fn group_stage_pairs_meet_once_at_home_and_once_away_with_an_odd_count() {
    check_home_and_away(7);
}

fn slot_of(game: &Game) -> (i32, u32) {
    let minutes = match game.get_game_time() {
        Ok(time) => time.to_minutes(),
        Err(_) => 0,
    };
    (game.get_game_day().day_number(), minutes)
}

fn sits_out(schedule: &[Game], day: i32, team: &Team) -> bool {
    match schedule
        .iter()
        .filter(|game| game.get_game_day().day_number() == day && game.is_bye_game())
        .last()
    {
        Some(game) => {
            let partner = if game.get_home_team().get_name() == "Bye" {
                game.get_away_team()
            } else {
                game.get_home_team()
            };
            partner == team
        }
        None => false,
    }
}

fn could_take_over(schedule: &[Game], game: &Game, team: &Team) -> bool {
    let slot = slot_of(game);
    let plays_then = schedule.iter().any(|other| slot_of(other) == slot && plays(other, team));
    let referees_then = schedule.iter().any(|other| {
        !other.is_bye_game() && slot_of(other) == slot && other.get_referee().as_ref() == Some(team)
    });
    !plays_then && !referees_then && !sits_out(schedule, slot.0, team)
}

fn check_referees_spread(count: usize) {
    let (teams, schedule) = group_stage(count);
    let refereed = |team: &Team| {
        schedule
            .iter()
            .filter(|game| !game.is_bye_game() && game.get_referee().as_ref() == Some(team))
            .count()
    };
    let counts: Vec<usize> = teams.iter().map(|team| refereed(team)).collect();
    let most = *counts.iter().max().unwrap();
    let least = *counts.iter().min().unwrap();
    assert_eq!(counts.iter().sum::<usize>(), real_games(&schedule).len());
    if most - least <= 1 {
        return;
    }
    let stuck = teams.iter().filter(|hi| refereed(hi) == most).any(|hi| {
        teams.iter().filter(|lo| refereed(lo) == least).any(|lo| {
            schedule
                .iter()
                .filter(|game| !game.is_bye_game() && game.get_referee().as_ref() == Some(hi))
                .all(|game| !could_take_over(&schedule, game, lo))
        })
    });
    assert!(stuck, "referee counts {:?} could still be evened out", counts);
}

#[test]
fn group_stage_referees_are_spread_evenly_with_an_even_count() {
    check_referees_spread(6);
}

#[test]
fn group_stage_referees_are_spread_evenly_with_an_odd_count() {
    check_referees_spread(9);
}

#[test]
fn group_stage_size_with_an_even_count() {
    let (_, schedule) = group_stage(6);
    assert_eq!(schedule.len(), 6 * 5);
}

#[test]
fn group_stage_size_with_an_odd_count() {
    let (_, schedule) = group_stage(7);
    assert_eq!(schedule.len(), 7 * 7);
    assert_eq!(real_games(&schedule).len(), 7 * 6);
}

fn check_fields_cap(count: usize) {
    let (_, schedule) = group_stage(count);
    let mut at_moment: HashMap<(i32, u32), usize> = HashMap::new();
    for game in real_games(&schedule) {
        *at_moment.entry(slot_of(game)).or_insert(0) += 1;
    }
    assert!(at_moment.values().all(|&games| games <= 2), "{:?}", at_moment);
}

#[test]
fn group_stage_never_runs_more_games_than_fields_with_an_even_count() {
    check_fields_cap(6);
}

#[test]
fn group_stage_never_runs_more_games_than_fields_with_an_odd_count() {
    check_fields_cap(9);
}
