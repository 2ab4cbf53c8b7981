use organi_bandit::calendar::Date;
use organi_bandit::error::AppError;
use organi_bandit::game::Game;
use organi_bandit::game_time::GameTime;
use organi_bandit::team::Team;

fn team(name: &str) -> Team {
    Team::new(name, None).unwrap()
}

fn date(year: i32, month: u32, day: u32) -> Date {
    Date::from_ymd_opt(year, month, day).unwrap()
}

#[test]
fn new_with_game_day_combines_date_and_time() {
    let game = Game::new_with_game_day(
        team("Home"),
        team("Away"),
        date(2026, 7, 22),
        GameTime::new(20, 30).unwrap(),
        None,
    )
    .unwrap();

    let game_day = game.get_game_day();
    assert_eq!(game_day.year(), 2026);
    assert_eq!(game_day.month(), 7);
    assert_eq!(game_day.day(), 22);
    let game_time = game.get_game_time().unwrap();
    assert_eq!(game_time.hour(), 20);
    assert_eq!(game_time.minute(), 30);
}

#[test]
fn get_game_time_round_trips_the_stored_time() {
    let game = Game::new_with_game_day(
        team("Home"),
        team("Away"),
        date(2026, 7, 22),
        GameTime::new(9, 15).unwrap(),
        None,
    )
    .unwrap();

    assert_eq!(game.get_game_time().unwrap(), GameTime::new(9, 15).unwrap());
}

#[test]
fn get_referee_returns_the_assigned_referee() {
    let referee = team("Referee Team");
    let game = Game::new_with_game_day(
        team("Home"),
        team("Away"),
        date(2026, 7, 22),
        GameTime::new(9, 15).unwrap(),
        Some(referee.clone()),
    )
    .unwrap();

    assert_eq!(game.get_referee(), &Some(referee));
}

#[test]
fn new_with_game_day_errors_in_dst_spring_forward_gap() {
    // 2026-03-29 02:30 in Europe/Zurich falls in the gap where clocks jump
    // from 02:00 to 03:00, so this time does not exist.
    let result = Game::new_with_game_day(
        team("Home"),
        team("Away"),
        date(2026, 3, 29),
        GameTime::new(2, 30).unwrap(),
        None,
    );

    assert!(matches!(result, Err(AppError::InvalidGameDay(_, _))));
}

#[test]
fn new_with_game_day_errors_in_dst_fall_back_ambiguity() {
    // 2026-10-25 02:30 in Europe/Zurich happens twice, as clocks go back
    // from 03:00 to 02:00.
    let result = Game::new_with_game_day(
        team("Home"),
        team("Away"),
        date(2026, 10, 25),
        GameTime::new(2, 30).unwrap(),
        None,
    );

    assert!(matches!(result, Err(AppError::InvalidGameDay(_, _))));
}

#[test]
fn refused_game_names_its_day_and_time() {
    let day = date(2026, 3, 29);
    let time = GameTime::new(2, 0).unwrap();
    let result = Game::new_with_game_day(team("Home"), team("Away"), day, time, None);
    match result {
        Err(AppError::InvalidGameDay(refused_day, refused_time)) => {
            assert_eq!(refused_day, day);
            assert_eq!(refused_time, time);
        }
        other => panic!("expected the time to be refused, got {other:?}"),
    }
}

#[test]
fn a_game_with_a_bye_side_is_a_bye_game() {
    let game = Game::new_with_game_day(
        team("Home"),
        Team::bye(),
        date(2026, 7, 22),
        GameTime::new(0, 0).unwrap(),
        None,
    )
    .unwrap();
    assert!(game.is_bye_game());
    let real = Game::new_with_game_day(
        team("Home"),
        team("Away"),
        date(2026, 7, 22),
        GameTime::new(0, 0).unwrap(),
        None,
    )
    .unwrap();
    assert!(!real.is_bye_game());
}
