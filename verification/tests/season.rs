use organi_bandit::calendar::{Date, Weekday};
use organi_bandit::configuration::{DateConfiguration, TimeConfiguration};
use organi_bandit::error::AppError;
use organi_bandit::game_time::GameTime;
use organi_bandit::round_robin::RoundRobin;
use organi_bandit::season::{Season, TournamentSelection};
use organi_bandit::season_config::SeasonConfig;
use organi_bandit::single_elimination::SingleElimination;
use organi_bandit::team::Team;

fn config(number_fields: u32) -> SeasonConfig {
    SeasonConfig::new(
        TimeConfiguration::new(
            GameTime::new(9, 0).unwrap(),
            GameTime::new(12, 0).unwrap(),
            GameTime::new(14, 0).unwrap(),
            GameTime::new(1, 0).unwrap(),
            GameTime::new(0, 30).unwrap(),
        ),
        DateConfiguration::new(
            Date::from_ymd_opt(2026, 5, 13).unwrap(),
            vec![Weekday::Sat],
            vec![],
            false,
        ),
        number_fields,
    )
}

fn many_teams(count: usize) -> Vec<Team> {
    (0..count)
        .map(|i| Team::new(&format!("T{i}"), None).unwrap())
        .collect()
}

#[test]
fn a_season_is_the_group_stage_then_the_playoff_of_the_first_eight() {
    let season = Season::new(
        config(3),
        TournamentSelection::new(RoundRobin, SingleElimination::new(true)),
    );
    let teams = many_teams(10);
    let schedule = season.compute_season_schedule(&teams).unwrap();
    // 10 teams: 90 group games with referees, then a bracket of 8: 7 games.
    assert_eq!(schedule.len(), 97);
    let group = &schedule[..90];
    let playoff = &schedule[90..];
    assert!(group.iter().all(|game| game.get_referee().is_some()));
    assert!(playoff.iter().all(|game| game.get_referee().is_none()));
    let last_group_day = group.iter().map(|game| *game.get_game_day()).max().unwrap();
    let first_playoff_day = *playoff[0].get_game_day();
    assert_eq!(first_playoff_day.day_number(), last_group_day.day_number() + 7);
    assert_eq!(playoff[0].get_home_team().get_name(), "1");
    assert_eq!(playoff[0].get_away_team().get_name(), "8");
}

#[test]
fn a_season_is_refused_when_its_group_stage_is() {
    let season = Season::new(
        config(0),
        TournamentSelection::new(RoundRobin, SingleElimination::new(false)),
    );
    assert!(matches!(
        season.compute_season_schedule(&many_teams(6)),
        Err(AppError::InvalidNumberOfFields(0))
    ));
}

#[test]
fn a_season_hands_back_its_parts() {
    let season = Season::new(
        config(2),
        TournamentSelection::new(RoundRobin, SingleElimination::new(true)),
    );
    assert_eq!(season.season_config().number_fields(), 2);
    assert!(season.tournament().playoff().is_anonymous());
    assert_eq!(season.tournament().group_stage(), &RoundRobin);
}

#[test]
fn a_season_fits_the_calendar_of_an_ordinary_year() {
    let season = Season::new(
        config(2),
        TournamentSelection::new(RoundRobin, SingleElimination::new(true)),
    );
    assert!(season.fits_calendar(10));
}

#[test]
fn a_season_does_not_fit_at_the_end_of_the_calendar() {
    let late = SeasonConfig::new(
        TimeConfiguration::new(
            GameTime::new(9, 0).unwrap(),
            GameTime::new(12, 0).unwrap(),
            GameTime::new(14, 0).unwrap(),
            GameTime::new(1, 0).unwrap(),
            GameTime::new(0, 30).unwrap(),
        ),
        DateConfiguration::new(
            Date::from_ymd_opt(262_142, 12, 1).unwrap(),
            vec![Weekday::Sat],
            vec![],
            false,
        ),
        2,
    );
    let season = Season::new(
        late,
        TournamentSelection::new(RoundRobin, SingleElimination::new(true)),
    );
    // Ten teams may need 10 * 8 days from the start; the calendar ends on
    // 31 December 262142.
    assert!(!season.fits_calendar(10));
    assert!(season.fits_calendar(0));
}

#[test]
fn a_season_without_group_games_is_refused_as_missing_a_game() {
    let season = Season::new(
        config(3),
        TournamentSelection::new(RoundRobin, SingleElimination::new(false)),
    );
    let result = season.season_from_group_stage(&many_teams(6), Vec::new());
    assert!(matches!(result, Err(AppError::MissingGame)));
}

#[test]
fn a_season_continues_its_group_stage_with_the_playoff() {
    let season = Season::new(
        config(2),
        TournamentSelection::new(RoundRobin, SingleElimination::new(false)),
    );
    let teams = many_teams(6);
    let group = RoundRobin
        .compute_schedule(&teams, &Date::from_ymd_opt(2026, 5, 13).unwrap(), &config(2), true)
        .unwrap();
    let group_len = group.len();
    let last_group_day = group.iter().map(|game| game.get_game_day().day_number()).max().unwrap();
    let season_schedule = season.season_from_group_stage(&teams, group).unwrap();
    // Six teams: the group stage, then a bracket of six with two byes: five
    // games and the two byes.
    let playoff = &season_schedule[group_len..];
    assert_eq!(playoff.len(), 7);
    assert!(playoff
        .iter()
        .all(|game| game.get_game_day().day_number() > last_group_day));
}
