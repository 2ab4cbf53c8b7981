use std::collections::{HashMap, HashSet};

use organi_bandit::calendar::{Date, Weekday};
use organi_bandit::configuration::{DateConfiguration, TimeConfiguration};
use organi_bandit::error::AppError;
use organi_bandit::game::Game;
use organi_bandit::game_time::GameTime;
use organi_bandit::round_robin::RoundRobin;
use organi_bandit::season_config::SeasonConfig;
use organi_bandit::team::Team;

fn start_date() -> Date {
    Date::from_ymd_opt(2026, 5, 13).unwrap()
}

fn many_teams(count: usize) -> Vec<Team> {
    (0..count)
        .map(|i| Team::new(&format!("T{i}"), None).unwrap())
        .collect()
}

// A season where games take no time of their own and start
// `time_between_games` apart.
fn season_config(
    start_date: Date,
    start_time: GameTime,
    start_break: GameTime,
    end_break: GameTime,
    time_between_games: GameTime,
    number_fields: u32,
    game_days: Vec<Weekday>,
) -> SeasonConfig {
    SeasonConfig::new(
        TimeConfiguration::new(
            start_time,
            start_break,
            end_break,
            GameTime::new(0, 0).unwrap(),
            time_between_games,
        ),
        DateConfiguration::new(start_date, game_days, vec![], false),
        number_fields,
    )
}

#[test]
fn test_round_robin_parameter_validation_1() {
    let season_config = season_config(
        start_date(),
        GameTime::new(9, 0).unwrap(),
        GameTime::new(12, 0).unwrap(),
        GameTime::new(13, 30).unwrap(),
        GameTime::new(1, 30).unwrap(),
        1,
        vec![Weekday::Sat],
    );
    let round_robin = RoundRobin;

    let result = round_robin.validate_parameters(&many_teams(5), &season_config);

    assert!(result.is_ok(), "passed parameters are not valid");
}

#[test]
fn compute_schedule_rejects_fewer_than_two_teams() {
    let season_config = season_config(
        start_date(),
        GameTime::new(9, 0).unwrap(),
        GameTime::new(12, 0).unwrap(),
        GameTime::new(13, 30).unwrap(),
        GameTime::new(1, 30).unwrap(),
        1,
        vec![Weekday::Sat],
    );

    let result = RoundRobin.compute_schedule(&many_teams(1), &start_date(), &season_config, false);

    assert!(matches!(result, Err(AppError::NotEnoughTeams(1, 4))));
}

#[test]
fn round_robin_compute_schedule_rejects_zero_fields() {
    let season_config = season_config(
        start_date(),
        GameTime::new(9, 0).unwrap(),
        GameTime::new(12, 0).unwrap(),
        GameTime::new(13, 30).unwrap(),
        GameTime::new(1, 30).unwrap(),
        0,
        vec![Weekday::Sat],
    );

    let result = RoundRobin.compute_schedule(&many_teams(5), &start_date(), &season_config, false);

    assert!(matches!(result, Err(AppError::InvalidNumberOfFields(0))));
}

// 8 teams need 4 morning slots, but a 9:00 start with a 12:00 lunch only
// offers 3 (9:00, 10:00, 11:00) an hour apart.
#[test]
fn compute_schedule_rejects_insufficient_daily_capacity() {
    let teams = many_teams(8);
    let season_config = season_config(
        start_date(),
        GameTime::new(9, 0).unwrap(),
        GameTime::new(12, 0).unwrap(),
        GameTime::new(13, 0).unwrap(),
        GameTime::new(1, 0).unwrap(),
        1,
        vec![Weekday::Sat],
    );

    let result = RoundRobin.compute_schedule(&teams, &start_date(), &season_config, false);

    assert!(matches!(
        result,
        Err(AppError::InsufficientDailyCapacity(4, 3))
    ));
}

// With 4 teams and 2 fields, both of a leg's games share a time slot, so
// every team plays then and nobody is left to referee.
#[test]
fn compute_schedule_rejects_when_no_eligible_referees_remain() {
    let teams = many_teams(4);
    let season_config = season_config(
        start_date(),
        GameTime::new(9, 0).unwrap(),
        GameTime::new(12, 0).unwrap(),
        GameTime::new(13, 30).unwrap(),
        GameTime::new(1, 30).unwrap(),
        2,
        vec![Weekday::Sat],
    );

    let result = RoundRobin.compute_schedule(&teams, &start_date(), &season_config, true);

    assert!(matches!(result, Err(AppError::EmptyEligibleReferees)));
}

#[test]
fn test_smallest_valid_team_count() {
    let teams = many_teams(4);
    let season_config = season_config(
        start_date(),
        GameTime::new(9, 0).unwrap(),
        GameTime::new(12, 0).unwrap(),
        GameTime::new(13, 30).unwrap(),
        GameTime::new(1, 30).unwrap(),
        1,
        vec![Weekday::Sat],
    );

    let schedule = RoundRobin
        .compute_schedule(&teams, &start_date(), &season_config, false)
        .unwrap();

    assert_schedule(&schedule, &teams, &start_date(), &season_config, false);
}

// Five teams cannot be merged without a same-day rematch, so every try is
// refused and the season is infeasible.
#[test]
fn compute_schedule_rejects_infeasible_five_teams() {
    let teams = many_teams(5);
    let season_config = season_config(
        start_date(),
        GameTime::new(9, 0).unwrap(),
        GameTime::new(12, 0).unwrap(),
        GameTime::new(13, 30).unwrap(),
        GameTime::new(1, 30).unwrap(),
        2,
        vec![Weekday::Wed, Weekday::Sat],
    );

    let result = RoundRobin.compute_schedule(&teams, &start_date(), &season_config, false);

    assert!(matches!(
        result,
        Err(AppError::InfeasibleDailyDoubleRoundRobin(_))
    ));
}

#[test]
fn test_even_team_count() {
    let teams = many_teams(6);
    let season_config = season_config(
        start_date(),
        GameTime::new(9, 0).unwrap(),
        GameTime::new(12, 0).unwrap(),
        GameTime::new(13, 30).unwrap(),
        GameTime::new(1, 30).unwrap(),
        3,
        vec![Weekday::Wed, Weekday::Sat],
    );

    let schedule = RoundRobin
        .compute_schedule(&teams, &start_date(), &season_config, false)
        .unwrap();

    assert_schedule(&schedule, &teams, &start_date(), &season_config, false);
}

#[test]
fn test_referees_requested() {
    let teams = many_teams(9);
    let season_config = season_config(
        start_date(),
        GameTime::new(9, 0).unwrap(),
        GameTime::new(12, 0).unwrap(),
        GameTime::new(14, 0).unwrap(),
        GameTime::new(2, 0).unwrap(),
        2,
        vec![Weekday::Sat],
    );

    let schedule = RoundRobin
        .compute_schedule(&teams, &start_date(), &season_config, true)
        .unwrap();

    assert_schedule(&schedule, &teams, &start_date(), &season_config, true);
}

#[test]
fn test_single_field() {
    let teams = many_teams(8);
    let season_config = season_config(
        start_date(),
        GameTime::new(9, 0).unwrap(),
        GameTime::new(13, 0).unwrap(),
        GameTime::new(14, 0).unwrap(),
        GameTime::new(1, 0).unwrap(),
        1,
        vec![Weekday::Wed, Weekday::Sat],
    );

    let schedule = RoundRobin
        .compute_schedule(&teams, &start_date(), &season_config, false)
        .unwrap();

    assert_schedule(&schedule, &teams, &start_date(), &season_config, false);
}

#[test]
fn test_two_fields() {
    let teams = many_teams(8);
    let season_config = season_config(
        start_date(),
        GameTime::new(9, 0).unwrap(),
        GameTime::new(12, 0).unwrap(),
        GameTime::new(14, 0).unwrap(),
        GameTime::new(2, 0).unwrap(),
        2,
        vec![Weekday::Sat],
    );

    let schedule = RoundRobin
        .compute_schedule(&teams, &start_date(), &season_config, false)
        .unwrap();

    assert_schedule(&schedule, &teams, &start_date(), &season_config, false);
}

#[test]
fn test_multiple_game_days() {
    let teams = many_teams(7);
    let season_config = season_config(
        start_date(),
        GameTime::new(9, 0).unwrap(),
        GameTime::new(12, 0).unwrap(),
        GameTime::new(13, 30).unwrap(),
        GameTime::new(2, 0).unwrap(),
        2,
        vec![Weekday::Wed, Weekday::Sat, Weekday::Sun],
    );

    let schedule = RoundRobin
        .compute_schedule(&teams, &start_date(), &season_config, false)
        .unwrap();

    let days_used: HashSet<Weekday> = schedule
        .iter()
        .map(|game| game.get_game_day().weekday())
        .collect();
    assert!(
        days_used.len() > 1,
        "expected the schedule to actually use more than one configured weekday"
    );

    assert_schedule(&schedule, &teams, &start_date(), &season_config, false);
}

#[test]
fn round_robin_is_named() {
    assert_eq!(RoundRobin.name(), "Round Robin");
}

#[test]
fn referees_are_refused_when_a_slot_has_more_games_than_free_teams() {
    // One slot, two games, four teams: nobody is free.
    let day = start_date();
    let time = GameTime::new(9, 0).unwrap();
    let teams = many_teams(4);
    let schedule = vec![
        Game::new_with_game_day(teams[0].clone(), teams[1].clone(), day, time, None).unwrap(),
        Game::new_with_game_day(teams[2].clone(), teams[3].clone(), day, time, None).unwrap(),
    ];
    assert!(matches!(
        RoundRobin.add_referees(schedule, &teams),
        Err(AppError::EmptyEligibleReferees)
    ));
}

#[test]
fn referees_go_to_free_teams_and_never_to_the_day_off_team() {
    let day = start_date();
    let teams = many_teams(5);
    let nine = GameTime::new(9, 0).unwrap();
    let ten = GameTime::new(10, 0).unwrap();
    let schedule = vec![
        Game::new_with_game_day(teams[0].clone(), teams[1].clone(), day, nine, None).unwrap(),
        Game::new_with_game_day(teams[2].clone(), Team::bye(), day, nine, None).unwrap(),
        Game::new_with_game_day(teams[3].clone(), teams[4].clone(), day, ten, None).unwrap(),
    ];
    let assigned = RoundRobin.add_referees(schedule, &teams).unwrap();
    assert_eq!(assigned.len(), 3);
    let first = assigned[0].get_referee().clone().unwrap();
    assert!(first == teams[3] || first == teams[4]);
    assert_eq!(assigned[1].get_referee(), &None);
    let third = assigned[2].get_referee().clone().unwrap();
    assert!(third == teams[0] || third == teams[1]);
}

fn assert_schedule(
    schedule: &[Game],
    teams: &[Team],
    start_date: &Date,
    season_config: &SeasonConfig,
    with_referees: bool,
) {
    let is_odd = teams.len() % 2 == 1;
    let times = season_config.time_configuration();

    let input_names: HashSet<&str> = teams.iter().map(Team::get_name).collect();
    assert_eq!(
        teams.len(),
        input_names.len(),
        "input teams have duplicate names"
    );
    let input_team_set: HashSet<&Team> = teams.iter().collect();

    // N * (N - 1) real games (every pair meets twice), plus one bye game
    // per team when the count is odd.
    let expected_total = if is_odd {
        teams.len() * teams.len()
    } else {
        teams.len() * (teams.len() - 1)
    };
    assert_eq!(
        schedule.len(),
        expected_total,
        "unexpected total game count"
    );

    let schedule_team_names: HashSet<&str> = schedule
        .iter()
        .flat_map(|game| [game.get_home_team(), game.get_away_team()])
        .map(Team::get_name)
        .filter(|&name| name != "Bye")
        .collect();
    assert_eq!(
        schedule_team_names, input_names,
        "not every input team appears in the schedule"
    );

    for game in schedule.iter() {
        for team in [game.get_home_team(), game.get_away_team()] {
            if team.get_name() != "Bye" {
                assert!(
                    input_team_set.contains(team),
                    "team {team:?} in the schedule doesn't match any input team exactly"
                );
            }
        }
    }

    let mut bye_weeks: HashMap<&str, u32> = HashMap::new();
    let mut computed_game_days: HashMap<(Date, GameTime), u32> = HashMap::new();
    let mut team_real_game_days: HashMap<&str, HashSet<Date>> = HashMap::new();
    let mut team_bye_days: HashMap<&str, Date> = HashMap::new();
    let mut times_by_day: HashMap<Date, HashSet<GameTime>> = HashMap::new();
    let mut team_daily_times: HashMap<(&str, Date), Vec<GameTime>> = HashMap::new();
    let mut pair_counts: HashMap<(String, String), u32> = HashMap::new();
    let mut pair_days: HashMap<(String, String), HashSet<Date>> = HashMap::new();

    for game in schedule.iter() {
        let home_team = game.get_home_team();
        let away_team = game.get_away_team();
        let day = *game.get_game_day();

        assert_ne!(home_team, away_team, "a team was scheduled against itself");

        assert!(
            season_config
                .date_configuration()
                .game_days()
                .contains(&day.weekday()),
            "game on {day:?} falls on a day of the week not in the configured game days"
        );

        assert!(
            day >= *start_date,
            "game on {day:?} is scheduled before the season start date"
        );

        let is_bye = home_team.get_name() == "Bye" || away_team.get_name() == "Bye";
        if !is_bye {
            let game_time = game
                .get_game_time()
                .expect("a real game's time should always be extractable");
            *computed_game_days.entry((day, game_time)).or_insert(0) += 1;
            team_real_game_days
                .entry(home_team.get_name())
                .or_default()
                .insert(day);
            team_real_game_days
                .entry(away_team.get_name())
                .or_default()
                .insert(day);

            assert!(
                !(game_time > *times.start_break() && game_time < *times.end_break()),
                "game at {game_time:?} on {day:?} falls inside the break window"
            );

            times_by_day.entry(day).or_default().insert(game_time);
            team_daily_times
                .entry((home_team.get_name(), day))
                .or_default()
                .push(game_time);
            team_daily_times
                .entry((away_team.get_name(), day))
                .or_default()
                .push(game_time);

            let mut names = [
                home_team.get_name().to_owned(),
                away_team.get_name().to_owned(),
            ];
            names.sort();
            let key = (names[0].clone(), names[1].clone());
            *pair_counts.entry(key.clone()).or_insert(0) += 1;
            pair_days.entry(key).or_default().insert(day);

            if with_referees {
                assert!(
                    game.get_referee().is_some(),
                    "real game on {day:?} at {game_time:?} has no referee assigned"
                );
                let referee = game
                    .get_referee()
                    .as_ref()
                    .expect("checked above that a referee is present");
                assert_ne!(referee, home_team, "referee is playing in their own game");
                assert_ne!(referee, away_team, "referee is playing in their own game");
            }
        } else {
            let bye_team_name = if home_team.get_name() == "Bye" {
                away_team.get_name()
            } else {
                home_team.get_name()
            };
            *bye_weeks.entry(bye_team_name).or_insert(0) += 1;
            team_bye_days.insert(bye_team_name, day);
        }
    }

    if is_odd {
        assert_eq!(bye_weeks.len(), teams.len(), "not every team has a bye");
        assert!(
            bye_weeks.values().all(|&count| count == 1),
            "every team should have exactly one bye"
        );
    } else {
        assert!(
            bye_weeks.is_empty(),
            "an even team count should never produce a bye"
        );
    }

    for (team, bye_day) in team_bye_days.iter() {
        assert!(
            !team_real_game_days
                .get(team)
                .is_some_and(|days| days.contains(bye_day)),
            "team {team} has a real game scheduled on its bye day {bye_day:?}"
        );
    }

    assert!(
        computed_game_days
            .values()
            .all(|&count| count <= season_config.number_fields()),
        "some time slot has more games than the configured number of fields"
    );

    for (day, day_times) in times_by_day.iter() {
        let mut sorted_times: Vec<GameTime> = day_times.iter().copied().collect();
        sorted_times.sort();
        for pair in sorted_times.windows(2) {
            assert!(
                pair[0] + *times.time_between_games() <= pair[1],
                "games on {day:?} at {:?} and {:?} are closer together than the configured spacing",
                pair[0],
                pair[1]
            );
        }
    }

    for ((team, day), mut day_times) in team_daily_times {
        assert_eq!(
            day_times.len(),
            2,
            "team {team} should play exactly 2 games on {day:?}, played {}",
            day_times.len()
        );
        day_times.sort();
        assert!(
            day_times[0] < *times.start_break() && day_times[1] >= *times.end_break(),
            "team {team}'s games on {day:?} at {:?} and {:?} aren't separated by the break window",
            day_times[0],
            day_times[1]
        );
    }

    for i in 0..teams.len() {
        for j in (i + 1)..teams.len() {
            let mut names = [
                teams[i].get_name().to_owned(),
                teams[j].get_name().to_owned(),
            ];
            names.sort();
            let key = (names[0].clone(), names[1].clone());
            assert_eq!(
                pair_counts.get(&key).copied().unwrap_or(0),
                2,
                "pair {key:?} should meet exactly twice, met {:?} times",
                pair_counts.get(&key)
            );
            assert_eq!(
                pair_days.get(&key).map(HashSet::len).unwrap_or(0),
                2,
                "pair {key:?} should meet on two different days, met on {:?}",
                pair_days.get(&key)
            );
        }
    }

    let first = schedule.iter().map(|game| game.get_game_day().day_number()).min();
    let last = schedule.iter().map(|game| game.get_game_day().day_number()).max();
    if let (Some(first), Some(last)) = (first, last) {
        let span_days = last - first;
        assert!(
            span_days <= 3650,
            "season spans an unreasonable number of days ({span_days}) for {} teams",
            teams.len()
        );
    }

    if with_referees {
        let mut referee_counts: HashMap<&str, u32> =
            teams.iter().map(|team| (team.get_name(), 0)).collect();
        let mut referees_at_time: HashMap<(Date, GameTime), HashSet<&str>> = HashMap::new();
        for game in schedule.iter() {
            if let Some(referee) = game.get_referee() {
                *referee_counts.entry(referee.get_name()).or_insert(0) += 1;

                let moment = (*game.get_game_day(), game.get_game_time().unwrap());
                let already_refereeing = !referees_at_time
                    .entry(moment)
                    .or_default()
                    .insert(referee.get_name());
                assert!(
                    !already_refereeing,
                    "{} was assigned as referee for two games at {:?}",
                    referee.get_name(),
                    moment
                );
            }
        }
        let min_count = referee_counts.values().min().copied().unwrap_or(0);
        let max_count = referee_counts.values().max().copied().unwrap_or(0);
        assert!(
            max_count - min_count <= 2,
            "referee assignments are not evenly spread: counts range from {min_count} to {max_count}"
        );
    }
}

#[test]
fn a_leg_is_refused_at_its_first_game_in_the_spring_forward_gap() {
    // On Sunday 29 March 2026 the Zurich clocks skip from 2:00 to 3:00, so
    // the second game of the first round, due at 2:00, names no moment.
    let sunday = Date::from_ymd_opt(2026, 3, 29).unwrap();
    let config = season_config(
        sunday,
        GameTime::new(1, 30).unwrap(),
        GameTime::new(12, 0).unwrap(),
        GameTime::new(13, 0).unwrap(),
        GameTime::new(0, 30).unwrap(),
        1,
        vec![Weekday::Sun],
    );
    let teams = many_teams(4);
    let result = RoundRobin.single_leg_schedule(
        &teams,
        &[0, 1, 2, 3],
        &sunday,
        &config,
        &GameTime::new(1, 30).unwrap(),
    );
    match result {
        Err(AppError::InvalidGameDay(day, time)) => {
            assert_eq!(day.day_number(), sunday.day_number());
            assert_eq!((time.hour(), time.minute()), (2, 0));
        }
        Err(other) => panic!("refused for another reason: {:?}", other),
        Ok(leg) => panic!("a leg of {} games was scheduled", leg.len()),
    }
}

fn draw_config() -> SeasonConfig {
    season_config(
        start_date(),
        GameTime::new(9, 0).unwrap(),
        GameTime::new(12, 0).unwrap(),
        GameTime::new(13, 0).unwrap(),
        GameTime::new(1, 0).unwrap(),
        3,
        vec![Weekday::Sat],
    )
}

fn outline(result: &Result<Vec<Game>, AppError>) -> String {
    match result {
        Ok(games) => games
            .iter()
            .map(|game| {
                format!(
                    "{}-{}@{}/{:?}",
                    game.get_home_team().get_name(),
                    game.get_away_team().get_name(),
                    game.get_game_day().day_number(),
                    game.get_game_time().ok().map(|time| time.to_minutes())
                )
            })
            .collect::<Vec<_>>()
            .join(","),
        Err(e) => format!("{:?}", e),
    }
}

#[test]
fn legs_seated_alike_never_combine() {
    let teams = many_teams(6);
    let natural: Vec<usize> = (0..6).collect();
    let result = RoundRobin.schedule_draws(
        &teams,
        &vec![natural.clone(), natural.clone()],
        &vec![vec![natural.clone()], vec![natural.clone(), natural.clone()]],
        &start_date(),
        &draw_config(),
        false,
    );
    assert!(matches!(result, Err(AppError::InfeasibleDailyDoubleRoundRobin(6))));
}

#[test]
fn a_refused_second_leg_gives_way_to_the_next() {
    let teams = many_teams(6);
    let natural: Vec<usize> = (0..6).collect();
    let other: Vec<usize> = vec![0, 3, 1, 5, 2, 4];
    let tried_first = RoundRobin.schedule_draws(
        &teams,
        &vec![natural.clone()],
        &vec![vec![natural.clone(), other.clone()]],
        &start_date(),
        &draw_config(),
        false,
    );
    let alone = RoundRobin.schedule_draws(
        &teams,
        &vec![natural.clone()],
        &vec![vec![other.clone()]],
        &start_date(),
        &draw_config(),
        false,
    );
    assert_eq!(outline(&tried_first), outline(&alone));
}

#[test]
fn no_draws_is_infeasible() {
    let teams = many_teams(6);
    let result = RoundRobin.schedule_draws(&teams, &vec![], &vec![], &start_date(), &draw_config(), false);
    assert!(matches!(result, Err(AppError::InfeasibleDailyDoubleRoundRobin(6))));
}
