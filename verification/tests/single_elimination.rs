use std::collections::{HashMap, HashSet};

use organi_bandit::calendar::{Date, Weekday};
use organi_bandit::configuration::{DateConfiguration, TimeConfiguration};
use organi_bandit::error::AppError;
use organi_bandit::game::Game;
use organi_bandit::game_time::GameTime;
use organi_bandit::season_config::SeasonConfig;
use organi_bandit::single_elimination::SingleElimination;
use organi_bandit::team::Team;

fn start_date() -> Date {
    Date::from_ymd_opt(2026, 5, 13).unwrap()
}

fn team(name: &str, seed: Option<u32>) -> Team {
    Team::new(name, seed).unwrap()
}

fn teams() -> [Team; 5] {
    [
        team("Morges Bandits", None),
        team("Yverdon Ducs", None),
        team("Lausanne Rockets", None),
        team("Team A", None),
        team("Team B", None),
    ]
}

fn teams_bigger() -> [Team; 9] {
    [
        team("Morges Bandits", None),
        team("Yverdon Ducs", None),
        team("Lausanne Rockets", None),
        team("Team A", None),
        team("Team B", None),
        team("Team C", None),
        team("Team D", None),
        team("Team E", None),
        team("Team F", None),
    ]
}

// A season where games take no time of their own and start
// `time_between_games` apart.
fn season_config(
    start_date: Date,
    start_time: GameTime,
    start_break: GameTime,
    end_break: GameTime,
    time_between_games: GameTime,
    number_fields: u32,
    game_days: Vec<Weekday>,
) -> SeasonConfig {
    SeasonConfig::new(
        TimeConfiguration::new(
            start_time,
            start_break,
            end_break,
            GameTime::new(0, 0).unwrap(),
            time_between_games,
        ),
        DateConfiguration::new(start_date, game_days, vec![], false),
        number_fields,
    )
}

fn standard_config(number_fields: u32, game_days: Vec<Weekday>) -> SeasonConfig {
    season_config(
        start_date(),
        GameTime::new(9, 0).unwrap(),
        GameTime::new(12, 0).unwrap(),
        GameTime::new(13, 30).unwrap(),
        GameTime::new(1, 30).unwrap(),
        number_fields,
        game_days,
    )
}

#[test]
fn test_single_elimination_valid_parameter_validation_1() {
    let season_config = standard_config(1, vec![Weekday::Sat]);
    let single_elimination = SingleElimination::new(false);

    let result = single_elimination.validate_parameters(&teams(), &season_config);

    assert!(result.is_ok(), "passed parameters should be valid");
}

#[test]
fn test_single_elimination_parameter_validation_rejects_too_few_teams() {
    let season_config = standard_config(1, vec![Weekday::Sat]);
    let single_elimination = SingleElimination::new(false);

    let result =
        single_elimination.validate_parameters(&[team("Solo Team", None)], &season_config);

    assert!(matches!(result, Err(AppError::NotEnoughTeams(1, 2))));
}

#[test]
fn test_single_elimination_parameter_validation_rejects_zero_fields() {
    let season_config = standard_config(0, vec![Weekday::Sat]);
    let single_elimination = SingleElimination::new(false);

    let result = single_elimination.validate_parameters(&teams(), &season_config);

    assert!(matches!(result, Err(AppError::InvalidNumberOfFields(0))));
}

#[test]
fn compute_schedule_rejects_empty_teams() {
    let season_config = standard_config(1, vec![Weekday::Sat]);

    let result =
        SingleElimination::new(false).compute_schedule(&[], &start_date(), &season_config, false);

    assert!(matches!(result, Err(AppError::NotEnoughTeams(0, 2))));
}

#[test]
fn single_elimination_compute_schedule_rejects_zero_fields() {
    let season_config = standard_config(0, vec![Weekday::Sat]);

    let result = SingleElimination::new(false).compute_schedule(
        &teams(),
        &start_date(),
        &season_config,
        false,
    );

    assert!(matches!(result, Err(AppError::InvalidNumberOfFields(0))));
}

// No game days configured means no day can ever be found to play on.
#[test]
fn compute_schedule_rejects_empty_game_days() {
    let season_config = standard_config(1, vec![]);

    let result = SingleElimination::new(false).compute_schedule(
        &teams(),
        &start_date(),
        &season_config,
        false,
    );

    assert!(matches!(result, Err(AppError::EmptyGameDays)));
}

#[test]
fn test_single_elimination_schedule_3_rounds() {
    let season_config = standard_config(2, vec![Weekday::Sat]);

    let single_elimination = SingleElimination::new(false);

    let maybe_schedule =
        single_elimination.compute_schedule(&teams(), &start_date(), &season_config, true);

    assert!(maybe_schedule.is_ok());

    let schedule = maybe_schedule.unwrap();

    assert_schedule(&schedule, &teams(), season_config.number_fields())
}

#[test]
fn test_single_elimination_schedule_4_rounds() {
    let season_config = standard_config(2, vec![Weekday::Sat]);

    let single_elimination = SingleElimination::new(false);

    let maybe_schedule = single_elimination.compute_schedule(
        &teams_bigger(),
        &start_date(),
        &season_config,
        true,
    );

    assert!(maybe_schedule.is_ok());

    let schedule = maybe_schedule.unwrap();

    assert_schedule(&schedule, &teams_bigger(), season_config.number_fields())
}

#[test]
fn test_single_elimination_later_rounds_advance_the_day() {
    // 9 teams need 4 rounds (a bracket of 16), so rounds 3 and 4 both exist.
    let season_config = standard_config(2, vec![Weekday::Sat]);

    let teams = teams_bigger();
    let schedule = SingleElimination::new(false)
        .compute_schedule(&teams, &start_date(), &season_config, false)
        .unwrap();

    let bracket_size = teams.len().next_power_of_two();
    let number_of_byes = bracket_size - teams.len();
    let first_real_round_games = (teams.len() - number_of_byes) / 2;
    let round_1_games = number_of_byes + first_real_round_games;
    let round_2_games = bracket_size / 4;
    let round_3_games = bracket_size / 8;
    let round_3_start = round_1_games + round_2_games;
    let round_4_start = round_3_start + round_3_games;

    let round_3_day = *schedule[round_3_start].get_game_day();
    let round_4_day = *schedule[round_4_start].get_game_day();

    assert!(
        round_4_day > round_3_day,
        "round 4 ({round_4_day:?}) should be scheduled after round 3 ({round_3_day:?}), not the same day"
    );
}

#[test]
fn test_large_bracket_respects_single_field_capacity() {
    let teams: Vec<Team> = (0..32).map(|i| team(&format!("T{i}"), None)).collect();
    let season_config = standard_config(1, vec![Weekday::Wed, Weekday::Sat]);

    let schedule = SingleElimination::new(false)
        .compute_schedule(&teams, &start_date(), &season_config, false)
        .unwrap();

    let days_used: HashSet<Weekday> = schedule
        .iter()
        .map(|game| game.get_game_day().weekday())
        .collect();
    assert!(
        days_used.len() > 1,
        "expected the schedule to actually use more than one configured weekday"
    );

    assert_schedule(&schedule, &teams, season_config.number_fields());
}

#[test]
fn test_round_2_respects_single_field_capacity() {
    let teams: Vec<Team> = (0..20).map(|i| team(&format!("T{i}"), None)).collect();
    let season_config = season_config(
        start_date(),
        GameTime::new(9, 0).unwrap(),
        GameTime::new(12, 0).unwrap(),
        GameTime::new(20, 0).unwrap(),
        GameTime::new(1, 30).unwrap(),
        1,
        vec![Weekday::Wed, Weekday::Sat],
    );

    let schedule = SingleElimination::new(false)
        .compute_schedule(&teams, &start_date(), &season_config, false)
        .unwrap();

    assert_schedule(&schedule, &teams, season_config.number_fields());
}

#[test]
fn test_break_window_within_game_time_range() {
    let teams = teams_bigger();
    let season_config = season_config(
        start_date(),
        GameTime::new(9, 0).unwrap(),
        GameTime::new(11, 0).unwrap(),
        GameTime::new(12, 30).unwrap(),
        GameTime::new(1, 0).unwrap(),
        2,
        vec![Weekday::Sat],
    );

    let schedule = SingleElimination::new(false)
        .compute_schedule(&teams, &start_date(), &season_config, false)
        .unwrap();

    assert_schedule(&schedule, &teams, season_config.number_fields());
}

#[test]
fn test_single_elimination_anonymous_mode() {
    let season_config = standard_config(2, vec![Weekday::Sat]);

    let single_elimination = SingleElimination::new(true);

    let schedule = single_elimination
        .compute_schedule(&teams(), &start_date(), &season_config, false)
        .unwrap();

    assert_schedule(&schedule, &teams(), season_config.number_fields());

    // Anonymous mode never shows the real team names.
    let input_teams = teams();
    let real_names: HashSet<&str> = input_teams.iter().map(|team| team.get_name()).collect();
    for game in schedule.iter() {
        assert!(!real_names.contains(game.get_home_team().get_name()));
        assert!(!real_names.contains(game.get_away_team().get_name()));
    }
}

#[test]
fn test_single_elimination_gives_byes_to_lowest_seed_numbers() {
    let teams = [
        team("Seed 1", Some(1)),
        team("Seed 2", Some(2)),
        team("Seed 3", Some(3)),
        team("Seed 4", Some(4)),
        team("Seed 5", Some(5)),
    ];
    let season_config = standard_config(2, vec![Weekday::Sat]);

    let schedule = SingleElimination::new(false)
        .compute_schedule(&teams, &start_date(), &season_config, false)
        .unwrap();

    // 5 teams -> bracket of 8 -> 3 byes, expected for seeds 1, 2, 3.
    let bye_recipients: HashSet<&str> = schedule[..3]
        .iter()
        .flat_map(|game| {
            [
                game.get_home_team().get_name(),
                game.get_away_team().get_name(),
            ]
        })
        .filter(|&name| name != "Bye")
        .collect();

    assert_eq!(
        bye_recipients,
        HashSet::from(["Seed 1", "Seed 2", "Seed 3"]),
        "byes should go to the lowest (best) seed numbers"
    );
}

#[test]
fn test_single_elimination_power_of_two_team_count_needs_no_byes() {
    let teams = [
        team("A", None),
        team("B", None),
        team("C", None),
        team("D", None),
    ];
    let season_config = standard_config(2, vec![Weekday::Sat]);

    let schedule = SingleElimination::new(false)
        .compute_schedule(&teams, &start_date(), &season_config, false)
        .unwrap();

    assert!(
        schedule
            .iter()
            .all(|game| game.get_home_team().get_name() != "Bye"
                && game.get_away_team().get_name() != "Bye"),
        "a power-of-two team count should never need a bye"
    );
    assert_schedule(&schedule, &teams, season_config.number_fields());
}

#[test]
fn test_single_elimination_two_teams_minimal_bracket() {
    let teams = [team("A", None), team("B", None)];
    let season_config = standard_config(1, vec![Weekday::Sat]);

    let schedule = SingleElimination::new(false)
        .compute_schedule(&teams, &start_date(), &season_config, false)
        .unwrap();

    assert_schedule(&schedule, &teams, season_config.number_fields());
}

#[test]
fn test_single_elimination_three_teams_smallest_bye_case() {
    let teams = [team("A", None), team("B", None), team("C", None)];
    let season_config = standard_config(1, vec![Weekday::Sat]);

    let schedule = SingleElimination::new(false)
        .compute_schedule(&teams, &start_date(), &season_config, false)
        .unwrap();

    assert_schedule(&schedule, &teams, season_config.number_fields());
}

#[test]
fn test_single_elimination_even_number_of_byes() {
    let teams = [
        team("A", None),
        team("B", None),
        team("C", None),
        team("D", None),
        team("E", None),
        team("F", None),
    ];
    let season_config = standard_config(2, vec![Weekday::Sat]);

    let schedule = SingleElimination::new(false)
        .compute_schedule(&teams, &start_date(), &season_config, false)
        .unwrap();

    // 6 teams -> bracket of 8 -> 2 byes (even).
    assert_eq!(
        schedule
            .iter()
            .filter(|game| game.get_home_team().get_name() == "Bye"
                || game.get_away_team().get_name() == "Bye")
            .count(),
        2
    );
    assert_schedule(&schedule, &teams, season_config.number_fields());
}

#[test]
fn test_is_anonymous_reflects_constructor_argument() {
    assert!(SingleElimination::new(true).is_anonymous());
    assert!(!SingleElimination::new(false).is_anonymous());
}

#[test]
fn single_elimination_is_named() {
    assert_eq!(SingleElimination::new(false).name(), "Single Elimination");
}

#[test]
fn anonymous_bracket_names_the_teams_by_number_and_seeds_them_in_reverse() {
    let season_config = standard_config(2, vec![Weekday::Sat]);
    let schedule = SingleElimination::new(true)
        .compute_schedule(&teams(), &start_date(), &season_config, false)
        .unwrap();
    // 5 teams: byes for "1", "2", "3", then "4" against "5".
    assert_eq!(schedule[0].get_home_team(), &team("1", Some(4)));
    assert_eq!(schedule[1].get_home_team(), &team("2", Some(3)));
    assert_eq!(schedule[2].get_home_team(), &team("3", Some(2)));
    assert_eq!(schedule[3].get_home_team(), &team("4", Some(1)));
    assert_eq!(schedule[3].get_away_team(), &team("5", Some(0)));
    // Round two: "1" against "2", then "3" against the first round's winner.
    assert_eq!(schedule[4].get_home_team().get_name(), "1");
    assert_eq!(schedule[4].get_away_team().get_name(), "2");
    assert_eq!(schedule[5].get_home_team().get_name(), "3");
    assert_eq!(schedule[5].get_away_team().get_name(), "WinnerPrevious");
    assert_eq!(schedule[6].get_home_team().get_name(), "WinnerA");
    assert_eq!(schedule[6].get_away_team().get_name(), "WinnerB");
    assert_eq!(schedule.len(), 7);
}

#[test]
fn byes_are_played_at_midnight_on_the_first_game_day() {
    let season_config = standard_config(2, vec![Weekday::Sat]);
    let schedule = SingleElimination::new(false)
        .compute_schedule(&teams(), &start_date(), &season_config, false)
        .unwrap();
    let first_saturday = Date::from_ymd_opt(2026, 5, 16).unwrap();
    for game in schedule[..3].iter() {
        assert_eq!(game.get_game_day(), &first_saturday);
        assert_eq!(game.get_game_time().unwrap(), GameTime::new(0, 0).unwrap());
    }
    // Round two is on the following Saturday.
    assert_eq!(schedule[4].get_game_day(), &Date::from_ymd_opt(2026, 5, 23).unwrap());
}

#[test]
fn equal_seeds_keep_their_order_in_the_bracket() {
    let teams = [
        team("Late", Some(2)),
        team("First", Some(1)),
        team("Second", Some(1)),
    ];
    let season_config = standard_config(1, vec![Weekday::Sat]);
    let schedule = SingleElimination::new(false)
        .compute_schedule(&teams, &start_date(), &season_config, false)
        .unwrap();
    // Three teams: one bye, for the best seed listed first.
    assert_eq!(schedule[0].get_home_team().get_name(), "First");
    assert_eq!(schedule[1].get_home_team().get_name(), "Second");
    assert_eq!(schedule[1].get_away_team().get_name(), "Late");
}

fn assert_schedule(schedule: &[Game], teams: &[Team], number_of_fields: u32) {
    let bracket_size = teams.len().next_power_of_two();
    assert_eq!(bracket_size - 1, schedule.len());
    let number_of_byes = bracket_size - teams.len();
    let first_real_round_games = (teams.len() - number_of_byes) / 2;

    for (index, game) in schedule.iter().enumerate() {
        assert_ne!(
            game.get_home_team(),
            game.get_away_team(),
            "home and away team should be different"
        );
        assert_eq!(
            game.get_referee(),
            &None,
            "single elimination does not support referees"
        );
        let is_bye = game.get_home_team().get_name() == "Bye"
            || game.get_away_team().get_name() == "Bye";
        assert_eq!(
            is_bye,
            index < number_of_byes,
            "bye games should be exactly the first {number_of_byes} games, found one at index {index}"
        );
    }

    let round_1_games = number_of_byes + first_real_round_games;
    let round_1_team_names: Vec<&str> = schedule[..round_1_games]
        .iter()
        .flat_map(|game| {
            [
                game.get_home_team().get_name(),
                game.get_away_team().get_name(),
            ]
        })
        .filter(|&name| name != "Bye")
        .collect();
    let unique_round_1_names: HashSet<&str> = round_1_team_names.iter().copied().collect();
    assert_eq!(
        round_1_team_names.len(),
        teams.len(),
        "round 1 should account for every input team exactly once"
    );
    assert_eq!(
        unique_round_1_names.len(),
        teams.len(),
        "round 1 should not have any duplicate teams"
    );

    let round_2_games = bracket_size / 4;
    if round_2_games > 0 {
        let bye_recipients: Vec<&str> = schedule[..number_of_byes]
            .iter()
            .flat_map(|game| {
                [
                    game.get_home_team().get_name(),
                    game.get_away_team().get_name(),
                ]
            })
            .filter(|&name| name != "Bye")
            .collect();
        let round_2_slice = &schedule[round_1_games..round_1_games + round_2_games];
        let round_2_names: Vec<&str> = round_2_slice
            .iter()
            .flat_map(|game| {
                [
                    game.get_home_team().get_name(),
                    game.get_away_team().get_name(),
                ]
            })
            .collect();
        let round_2_bye_recipient_names: Vec<&str> = round_2_names
            .iter()
            .copied()
            .filter(|name| bye_recipients.contains(name))
            .collect();
        let unique_round_2_bye_recipient_names: HashSet<&str> =
            round_2_bye_recipient_names.iter().copied().collect();
        assert_eq!(
            round_2_bye_recipient_names.len(),
            number_of_byes,
            "every round-1 bye recipient should appear in round 2 exactly once"
        );
        assert_eq!(
            unique_round_2_bye_recipient_names.len(),
            number_of_byes,
            "round 2 should not pair the same bye recipient more than once"
        );
        let unresolved_winner_count = round_2_names
            .iter()
            .filter(|&&name| name == "WinnerPrevious" || name == "WinnerA" || name == "WinnerB")
            .count();
        assert_eq!(
            unresolved_winner_count, first_real_round_games,
            "round 2 should have one unresolved-winner slot per round-1 real game"
        );
    }

    let mut games_per_time = HashMap::new();
    for game in schedule.iter() {
        if game.get_home_team().get_name() != "Bye" && game.get_away_team().get_name() != "Bye" {
            let game_time = game.get_game_time().unwrap();
            let game_date = *game.get_game_day();
            let date_identifier = (game_time, game_date);
            let value = games_per_time.entry(date_identifier).or_insert(0);
            *value += 1;
        }
    }

    assert!(
        games_per_time
            .values()
            .all(|value| *value <= number_of_fields),
        "too many games for a specific time"
    );
}

fn slots(schedule: &[Game]) -> Vec<((i32, u32, u32), (u8, u8))> {
    schedule
        .iter()
        .map(|game| {
            let day = game.get_game_day();
            let time = game.get_game_time().unwrap();
            ((day.year(), day.month(), day.day()), (time.hour(), time.minute()))
        })
        .collect()
}

#[test]
fn every_game_of_the_bracket_takes_its_slot() {
    let season_config = standard_config(1, vec![Weekday::Sat]);
    let schedule = SingleElimination::new(false)
        .compute_schedule(&teams(), &start_date(), &season_config, false)
        .unwrap();
    assert_eq!(
        slots(&schedule),
        vec![
            ((2026, 5, 16), (0, 0)),
            ((2026, 5, 16), (0, 0)),
            ((2026, 5, 16), (0, 0)),
            ((2026, 5, 16), (9, 0)),
            ((2026, 5, 23), (9, 0)),
            ((2026, 5, 23), (10, 30)),
            ((2026, 5, 30), (9, 0)),
        ]
    );
}

#[test]
fn a_round_that_outgrows_its_day_goes_on_the_next_game_day() {
    let teams: Vec<Team> = (0..20).map(|i| team(&format!("T{i}"), None)).collect();
    let season_config = standard_config(1, vec![Weekday::Sat]);
    let schedule = SingleElimination::new(false)
        .compute_schedule(&teams, &start_date(), &season_config, false)
        .unwrap();
    let mut expected = Vec::new();
    // Twelve byes, then the four real games of the first round.
    for _ in 0..12 {
        expected.push(((2026, 5, 16), (0, 0)));
    }
    for time in [(9, 0), (10, 30), (12, 0), (13, 30)] {
        expected.push(((2026, 5, 16), time));
    }
    // Eight games in round two: six fit by the 16:30 hard stop, two spill
    // over to the next Saturday.
    for time in [(9, 0), (10, 30), (12, 0), (13, 30), (15, 0), (16, 30)] {
        expected.push(((2026, 5, 23), time));
    }
    for time in [(9, 0), (10, 30)] {
        expected.push(((2026, 5, 30), time));
    }
    for time in [(9, 0), (10, 30), (12, 0), (13, 30)] {
        expected.push(((2026, 6, 6), time));
    }
    for time in [(9, 0), (10, 30)] {
        expected.push(((2026, 6, 13), time));
    }
    expected.push(((2026, 6, 20), (9, 0)));
    assert_eq!(slots(&schedule), expected);
}

#[test]
fn anonymous_bracket_is_the_same_whatever_the_teams() {
    let season_config = standard_config(2, vec![Weekday::Sat]);
    let others = [
        team("Geneva Owls", Some(7)),
        team("Sion Lynx", None),
        team("Bern Bears", Some(1)),
        team("Basel Eagles", None),
        team("Zug Foxes", Some(3)),
    ];
    let first = SingleElimination::new(true)
        .compute_schedule(&teams(), &start_date(), &season_config, false)
        .unwrap();
    let second = SingleElimination::new(true)
        .compute_schedule(&others, &start_date(), &season_config, false)
        .unwrap();
    assert_eq!(first.len(), second.len());
    for (g, h) in first.iter().zip(second.iter()) {
        assert_eq!(g.get_home_team(), h.get_home_team());
        assert_eq!(g.get_away_team(), h.get_away_team());
        assert_eq!(g.get_game_day().day_number(), h.get_game_day().day_number());
        assert_eq!(
            g.get_game_time().unwrap().to_minutes(),
            h.get_game_time().unwrap().to_minutes()
        );
    }
}
