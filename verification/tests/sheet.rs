use organi_bandit::calendar::{Date, Weekday};
use organi_bandit::configuration::DateConfiguration;
use organi_bandit::game::Game;
use organi_bandit::game_time::GameTime;
use organi_bandit::sheet::{group_consecutive_dates, sheet_rows, sort_by_start, weekly_day_choices, SheetRow};
use organi_bandit::team::Team;

fn date(year: i32, month: u32, day: u32) -> Date {
    Date::from_ymd_opt(year, month, day).unwrap()
}

#[test]
fn weekly_day_choices_offers_every_configured_weekday_in_that_week() {
    let configuration = DateConfiguration::new(
        date(2026, 5, 16),
        vec![Weekday::Sat, Weekday::Sun],
        vec![],
        true,
    );

    // Saturday 16/05; the Sunday of the same week is 17/05.
    let choices = weekly_day_choices(&date(2026, 5, 16), &configuration);

    assert_eq!(choices, vec![date(2026, 5, 16), date(2026, 5, 17)]);
}

#[test]
fn weekly_day_choices_offers_only_the_scheduled_day_when_the_option_is_off() {
    let configuration = DateConfiguration::new(
        date(2026, 5, 16),
        vec![Weekday::Sat, Weekday::Sun],
        vec![],
        false,
    );

    let choices = weekly_day_choices(&date(2026, 5, 16), &configuration);

    assert_eq!(choices, vec![date(2026, 5, 16)]);
}

#[test]
fn weekly_day_choices_offers_only_the_scheduled_day_for_a_single_weekday() {
    let configuration = DateConfiguration::new(date(2026, 5, 16), vec![Weekday::Sat], vec![], true);

    let choices = weekly_day_choices(&date(2026, 5, 16), &configuration);

    assert_eq!(choices, vec![date(2026, 5, 16)]);
}

#[test]
fn weekly_day_choices_leaves_out_excluded_alternatives() {
    let configuration = DateConfiguration::new(
        date(2026, 5, 16),
        vec![Weekday::Sat, Weekday::Sun],
        vec![date(2026, 5, 17)],
        true,
    );

    let choices = weekly_day_choices(&date(2026, 5, 16), &configuration);

    assert_eq!(choices, vec![date(2026, 5, 16)]);
}

#[test]
fn weekly_day_choices_includes_the_scheduled_day_after_a_fallback() {
    let configuration = DateConfiguration::new(
        date(2026, 5, 16),
        vec![Weekday::Sat, Weekday::Sun],
        vec![date(2026, 5, 23)],
        true,
    );

    // The Saturday was excluded, so this week runs on the Sunday.
    let choices = weekly_day_choices(&date(2026, 5, 24), &configuration);

    assert_eq!(choices, vec![date(2026, 5, 24)]);
}

#[test]
fn weekly_day_choices_puts_the_scheduled_day_first_when_it_is_not_a_game_day() {
    let configuration = DateConfiguration::new(
        date(2026, 5, 16),
        vec![Weekday::Sat, Weekday::Sun],
        vec![],
        true,
    );

    // Wednesday 20/05 is not a game weekday; its week's are 23/05 and 24/05.
    let choices = weekly_day_choices(&date(2026, 5, 20), &configuration);

    assert_eq!(choices, vec![date(2026, 5, 20), date(2026, 5, 23), date(2026, 5, 24)]);
}

#[test]
fn group_consecutive_dates_keeps_a_lone_date_on_its_own() {
    let groups = group_consecutive_dates(&[date(2026, 9, 10)]);

    assert_eq!(groups, vec!["10/09/2026"]);
}

#[test]
fn group_consecutive_dates_collapses_a_run_into_a_range() {
    let groups = group_consecutive_dates(&[
        date(2026, 9, 10),
        date(2026, 9, 11),
        date(2026, 9, 12),
        date(2026, 9, 13),
    ]);

    assert_eq!(groups, vec!["10/09/2026 - 13/09/2026"]);
}

#[test]
fn group_consecutive_dates_separates_runs_with_a_gap_between_them() {
    let groups = group_consecutive_dates(&[
        date(2026, 9, 10),
        date(2026, 9, 11),
        date(2026, 9, 20),
        date(2026, 9, 21),
        date(2026, 9, 25),
    ]);

    assert_eq!(
        groups,
        vec![
            "10/09/2026 - 11/09/2026",
            "20/09/2026 - 21/09/2026",
            "25/09/2026"
        ]
    );
}

#[test]
fn group_consecutive_dates_spans_month_and_year_boundaries() {
    let groups = group_consecutive_dates(&[
        date(2026, 9, 30),
        date(2026, 10, 1),
        date(2026, 12, 31),
        date(2027, 1, 1),
    ]);

    assert_eq!(
        groups,
        vec!["30/09/2026 - 01/10/2026", "31/12/2026 - 01/01/2027"]
    );
}

#[test]
fn group_consecutive_dates_sorts_and_deduplicates_its_input() {
    let groups = group_consecutive_dates(&[
        date(2026, 9, 12),
        date(2026, 9, 10),
        date(2026, 9, 11),
        date(2026, 9, 10),
    ]);

    assert_eq!(groups, vec!["10/09/2026 - 12/09/2026"]);
}

#[test]
fn group_consecutive_dates_returns_nothing_for_no_dates() {
    assert!(group_consecutive_dates(&[]).is_empty());
}

fn game(home: &str, away: &str, day: Date, hour: u8, minute: u8) -> Game {
    let away_team = if away == "Bye" {
        Team::bye()
    } else {
        Team::new(away, None).unwrap()
    };
    Game::new_with_game_day(
        Team::new(home, None).unwrap(),
        away_team,
        day,
        GameTime::new(hour, minute).unwrap(),
        None,
    )
    .unwrap()
}

#[test]
fn games_are_ordered_by_start_keeping_ties_in_order() {
    let saturday = date(2026, 5, 16);
    let sunday = date(2026, 5, 17);
    let games = vec![
        game("A", "B", sunday, 9, 0),
        game("C", "D", saturday, 14, 0),
        game("E", "F", saturday, 9, 0),
        game("G", "H", saturday, 14, 0),
    ];
    let sorted = sort_by_start(games);
    let homes: Vec<&str> = sorted.iter().map(|g| g.get_home_team().get_name()).collect();
    assert_eq!(homes, vec!["E", "C", "G", "A"]);
}

#[test]
fn sheet_rows_lay_out_days_times_breaks_and_byes() {
    let saturday = date(2026, 5, 16);
    let sunday = date(2026, 5, 17);
    let games = vec![
        game("A", "B", saturday, 9, 0),
        game("C", "D", saturday, 9, 0),
        game("E", "Bye", saturday, 9, 0),
        game("A", "C", saturday, 14, 0),
        game("B", "D", sunday, 9, 0),
    ];
    let rows = sheet_rows(
        &games,
        &GameTime::new(12, 0).unwrap(),
        &GameTime::new(13, 30).unwrap(),
    );
    let described: Vec<String> = rows
        .iter()
        .map(|row| match row {
            SheetRow::Day { row, date, day_index } => {
                format!("day {row} {} {day_index}", date.to_day_month_year())
            }
            SheetRow::Header { row } => format!("header {row}"),
            SheetRow::Break { row } => format!("break {row}"),
            SheetRow::Game { row, slot, game } => format!("game {row} {slot} {game}"),
            SheetRow::Bye { row, game } => format!("bye {row} {game}"),
        })
        .collect();
    assert_eq!(
        described,
        vec![
            "day 2 16/05/2026 1",
            "header 3",
            "game 4 0 0",
            "game 4 1 1",
            "bye 4 2",
            "break 5",
            "game 6 0 3",
            "day 8 17/05/2026 2",
            "header 9",
            "game 10 0 4",
        ]
    );
}

#[test]
fn sheet_rows_of_no_games_are_empty() {
    let rows = sheet_rows(
        &vec![],
        &GameTime::new(12, 0).unwrap(),
        &GameTime::new(13, 30).unwrap(),
    );
    assert!(rows.is_empty());
}
