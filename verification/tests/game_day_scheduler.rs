use chrono::{Datelike, TimeZone};
use chrono_tz::Europe::Zurich;
use organi_bandit::calendar::{Date, Weekday};
use organi_bandit::error::AppError;
use organi_bandit::game_day_scheduler::GameDayScheduler;

fn date(year: i32, month: u32, day: u32) -> Date {
    Date::from_ymd_opt(year, month, day).unwrap()
}

#[test]
fn new_rejects_empty_game_days() {
    let start_day = date(2026, 5, 12);
    let result = GameDayScheduler::new(&start_day, &[], &[]);
    assert!(matches!(result, Err(AppError::EmptyGameDays)));
}

#[test]
fn new_accepts_non_empty_game_days() {
    let start_day = date(2026, 5, 12);
    let result = GameDayScheduler::new(&start_day, &[Weekday::Tue, Weekday::Sat], &[]);
    assert!(result.is_ok());
}

#[test]
fn new_finds_next_game_day_across_year_boundary() {
    // Sunday, Jan 1 2023 falls in ISO week 52 of 2022, not 2023.
    let start_day = date(2023, 1, 1);
    let game_day_scheduler = GameDayScheduler::new(&start_day, &[Weekday::Mon], &[]).unwrap();

    let next_monday = date(2023, 1, 2);
    assert_eq!(game_day_scheduler.current_day(), &next_monday);
}

#[test]
fn test_advance() {
    let start_day = date(2026, 5, 12);
    let mut game_day_scheduler =
        GameDayScheduler::new(&start_day, &[Weekday::Tue, Weekday::Sat], &[]).unwrap();

    assert_eq!(game_day_scheduler.current_day(), &start_day);

    let next_saturday = date(2026, 5, 16);

    game_day_scheduler.advance().unwrap();
    assert_eq!(game_day_scheduler.current_day(), &next_saturday);

    let next_tuesday = date(2026, 5, 19);

    game_day_scheduler.advance().unwrap();
    assert_eq!(game_day_scheduler.current_day(), &next_tuesday);
}

#[test]
fn test_advance_from_other_weekday() {
    // Wednesday
    let local = Zurich
        .with_ymd_and_hms(2026, 5, 13, 8, 45, 0)
        .unwrap()
        .date_naive();
    let start_day = date(local.year(), local.month(), local.day());
    let mut game_day_scheduler =
        GameDayScheduler::new(&start_day, &[Weekday::Tue, Weekday::Sat], &[]).unwrap();

    let next_saturday = date(2026, 5, 16);

    assert_eq!(game_day_scheduler.current_day(), &next_saturday);

    let next_tuesday = date(2026, 5, 19);

    game_day_scheduler.advance().unwrap();
    assert_eq!(game_day_scheduler.current_day(), &next_tuesday);

    let next_saturday = date(2026, 5, 23);

    game_day_scheduler.advance().unwrap();
    assert_eq!(game_day_scheduler.current_day(), &next_saturday);
}

#[test]
fn test_advance_on_excluded() {
    let start_day = date(2026, 5, 12);
    let excluded_dates = vec![date(2026, 5, 16)];
    let mut game_day_scheduler =
        GameDayScheduler::new(&start_day, &[Weekday::Tue, Weekday::Sat], &excluded_dates)
            .unwrap();

    assert_eq!(game_day_scheduler.current_day(), &start_day);

    // The 16/05/2026 is excluded, so the next game day is the Tuesday after
    let next_tuesday = date(2026, 5, 19);

    game_day_scheduler.advance().unwrap();
    assert_eq!(game_day_scheduler.current_day(), &next_tuesday);
}

#[test]
fn new_skips_an_excluded_start_day() {
    let start_day = date(2026, 5, 12);
    let excluded_dates = vec![start_day];

    let game_day_scheduler =
        GameDayScheduler::new(&start_day, &[Weekday::Tue, Weekday::Sat], &excluded_dates)
            .unwrap();

    let next_saturday = date(2026, 5, 16);
    assert_eq!(game_day_scheduler.current_day(), &next_saturday);
}

#[test]
fn advance_skips_a_run_of_excluded_game_days() {
    // Saturdays only; the next three Saturdays are excluded.
    let start_day = date(2026, 5, 16);
    let excluded = vec![date(2026, 5, 23), date(2026, 5, 30), date(2026, 6, 6)];
    let mut scheduler = GameDayScheduler::new(&start_day, &[Weekday::Sat], &excluded).unwrap();
    assert_eq!(scheduler.current_day(), &start_day);
    scheduler.advance().unwrap();
    assert_eq!(scheduler.current_day(), &date(2026, 6, 13));
    assert_eq!(scheduler.current_day().weekday(), Weekday::Sat);
}

#[test]
fn dates_know_their_weekday_and_parts() {
    let day = date(2026, 5, 13);
    assert_eq!(day.weekday(), Weekday::Wed);
    assert_eq!((day.year(), day.month(), day.day()), (2026, 5, 13));
    assert_eq!(day.to_day_month_year(), "13/05/2026");
    assert_eq!(day.add_days(19), date(2026, 6, 1));
    assert!(Date::from_ymd_opt(2026, 2, 29).is_none());
}
