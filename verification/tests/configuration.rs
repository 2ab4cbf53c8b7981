use organi_bandit::calendar::{Date, Weekday};
use organi_bandit::configuration::{DateConfiguration, TimeConfiguration};
use organi_bandit::game_time::GameTime;
use organi_bandit::season_config::SeasonConfig;

fn time_configuration(game_duration: GameTime, time_between_games: GameTime) -> TimeConfiguration {
    TimeConfiguration::new(
        GameTime::new(9, 0).unwrap(),
        GameTime::new(12, 0).unwrap(),
        GameTime::new(13, 0).unwrap(),
        game_duration,
        time_between_games,
    )
}

#[test]
fn interval_between_games_sums_the_duration_and_the_gap() {
    let configuration =
        time_configuration(GameTime::new(1, 0).unwrap(), GameTime::new(0, 30).unwrap());

    assert_eq!(
        configuration.interval_between_games(),
        GameTime::new(1, 30).unwrap()
    );
}

#[test]
fn interval_between_games_carries_minutes_into_the_hour() {
    let configuration =
        time_configuration(GameTime::new(0, 45).unwrap(), GameTime::new(0, 30).unwrap());

    assert_eq!(
        configuration.interval_between_games(),
        GameTime::new(1, 15).unwrap()
    );
}

#[test]
fn interval_between_games_equals_the_duration_when_there_is_no_gap() {
    let configuration =
        time_configuration(GameTime::new(0, 45).unwrap(), GameTime::new(0, 0).unwrap());

    assert_eq!(
        configuration.interval_between_games(),
        GameTime::new(0, 45).unwrap()
    );
}

#[test]
fn configurations_hand_back_what_they_were_made_with() {
    let times = time_configuration(GameTime::new(1, 0).unwrap(), GameTime::new(0, 30).unwrap());
    assert_eq!(times.start_time(), &GameTime::new(9, 0).unwrap());
    assert_eq!(times.start_break(), &GameTime::new(12, 0).unwrap());
    assert_eq!(times.end_break(), &GameTime::new(13, 0).unwrap());
    assert_eq!(times.game_duration(), &GameTime::new(1, 0).unwrap());
    assert_eq!(times.time_between_games(), &GameTime::new(0, 30).unwrap());

    let start = Date::from_ymd_opt(2026, 5, 13).unwrap();
    let excluded = Date::from_ymd_opt(2026, 5, 16).unwrap();
    let dates = DateConfiguration::new(start, vec![Weekday::Sat, Weekday::Wed], vec![excluded], true);
    assert_eq!(dates.start_date(), &start);
    assert_eq!(dates.game_days(), &[Weekday::Sat, Weekday::Wed]);
    assert_eq!(dates.excluded_dates(), &[excluded]);
    assert!(dates.single_game_per_week());

    let config = SeasonConfig::new(times, dates, 3);
    assert_eq!(config.number_fields(), 3);
    assert_eq!(config.time_configuration().start_time(), &GameTime::new(9, 0).unwrap());
    assert_eq!(config.date_configuration().start_date(), &start);
}
