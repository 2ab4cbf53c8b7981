use organi_bandit::game_time::GameTime;
use organi_bandit::game_time_scheduler::GameTimeScheduler;

#[test]
fn test_try_advance() {
    let start_time = GameTime::new(9, 30).unwrap();
    let interval_between_games = GameTime::new(1, 30).unwrap();
    let game_duration = GameTime::new(1, 0).unwrap();
    let start_break = GameTime::new(12, 0).unwrap();
    let end_break = GameTime::new(13, 30).unwrap();

    let mut game_time_scheduler = GameTimeScheduler::new(
        &start_time,
        &interval_between_games,
        &game_duration,
        2,
        &start_break,
        &end_break,
    );

    // With 2 fields, only the second try_advance() call will change the time
    assert_eq!(game_time_scheduler.current_time(), &start_time);

    game_time_scheduler.try_advance();
    assert_eq!(game_time_scheduler.current_time(), &start_time);

    let expected_next_time = start_time + interval_between_games;

    game_time_scheduler.try_advance();
    assert_eq!(game_time_scheduler.current_time(), &expected_next_time);
}

#[test]
fn test_try_advance_during_break() {
    let start_time = GameTime::new(11, 0).unwrap();
    let interval_between_games = GameTime::new(1, 30).unwrap();
    let game_duration = GameTime::new(1, 0).unwrap();
    let start_break = GameTime::new(12, 0).unwrap();
    let end_break = GameTime::new(13, 30).unwrap();

    let mut game_time_scheduler = GameTimeScheduler::new(
        &start_time,
        &interval_between_games,
        &game_duration,
        2,
        &start_break,
        &end_break,
    );

    assert_eq!(game_time_scheduler.current_time(), &start_time);

    game_time_scheduler.try_advance();
    assert_eq!(game_time_scheduler.current_time(), &start_time);

    // The next time falls in the break, so play resumes at its end
    game_time_scheduler.try_advance();
    assert_eq!(game_time_scheduler.current_time(), &end_break);
}

#[test]
fn test_reset_then_advance() {
    let start_time = GameTime::new(9, 30).unwrap();
    let interval_between_games = GameTime::new(1, 30).unwrap();
    let game_duration = GameTime::new(1, 0).unwrap();
    let start_break = GameTime::new(12, 0).unwrap();
    let end_break = GameTime::new(13, 30).unwrap();

    let mut game_time_scheduler = GameTimeScheduler::new(
        &start_time,
        &interval_between_games,
        &game_duration,
        2,
        &start_break,
        &end_break,
    );

    game_time_scheduler.try_advance();
    game_time_scheduler.try_advance();
    game_time_scheduler.try_advance();

    game_time_scheduler.reset();

    assert_eq!(game_time_scheduler.current_time(), &start_time);

    game_time_scheduler.try_advance();
    assert_eq!(game_time_scheduler.current_time(), &start_time);

    let expected_next_time = start_time + interval_between_games;

    game_time_scheduler.try_advance();
    assert_eq!(game_time_scheduler.current_time(), &expected_next_time);
}

#[test]
fn is_past_hard_stop_false_before_17_00() {
    let start_time = GameTime::new(16, 30).unwrap();
    let interval_between_games = GameTime::new(0, 30).unwrap();
    let game_duration = GameTime::new(0, 30).unwrap();
    let start_break = GameTime::new(12, 0).unwrap();
    let end_break = GameTime::new(13, 30).unwrap();

    let game_time_scheduler = GameTimeScheduler::new(
        &start_time,
        &interval_between_games,
        &game_duration,
        1,
        &start_break,
        &end_break,
    );

    assert!(!game_time_scheduler.is_past_hard_stop());
}

#[test]
fn is_past_hard_stop_true_after_17_00() {
    let start_time = GameTime::new(17, 30).unwrap();
    let interval_between_games = GameTime::new(0, 30).unwrap();
    let game_duration = GameTime::new(0, 30).unwrap();
    let start_break = GameTime::new(12, 0).unwrap();
    let end_break = GameTime::new(13, 30).unwrap();

    let game_time_scheduler = GameTimeScheduler::new(
        &start_time,
        &interval_between_games,
        &game_duration,
        1,
        &start_break,
        &end_break,
    );

    assert!(game_time_scheduler.is_past_hard_stop());
}

#[test]
fn the_hard_stop_mirrors_the_room_before_the_break() {
    // Starting at 9:00 with a break from 12:00 to 13:30 leaves 3 hours
    // before the break, so the day stops at 16:30.
    let start_time = GameTime::new(9, 0).unwrap();
    let interval = GameTime::new(1, 0).unwrap();
    let duration = GameTime::new(1, 0).unwrap();
    let start_break = GameTime::new(12, 0).unwrap();
    let end_break = GameTime::new(13, 30).unwrap();
    let mut scheduler = GameTimeScheduler::new(&start_time, &interval, &duration, 1, &start_break, &end_break);
    let mut times = Vec::new();
    while !scheduler.is_past_hard_stop() {
        times.push(*scheduler.current_time());
        scheduler.try_advance();
    }
    let expected: Vec<GameTime> = [(9, 0), (10, 0), (11, 0), (13, 30), (14, 30), (15, 30)]
        .iter()
        .map(|&(h, m)| GameTime::new(h, m).unwrap())
        .collect();
    assert_eq!(times, expected);
}

#[test]
fn one_field_takes_one_game_per_slot() {
    let start_time = GameTime::new(9, 0).unwrap();
    let interval = GameTime::new(0, 45).unwrap();
    let duration = GameTime::new(0, 45).unwrap();
    let start_break = GameTime::new(12, 0).unwrap();
    let end_break = GameTime::new(13, 0).unwrap();
    let mut scheduler = GameTimeScheduler::new(&start_time, &interval, &duration, 1, &start_break, &end_break);
    assert_eq!(scheduler.current_games_per_time(), 1);
    scheduler.try_advance();
    assert_eq!(scheduler.current_time(), &GameTime::new(9, 45).unwrap());
    assert_eq!(scheduler.current_games_per_time(), 1);
}

#[test]
fn a_game_ending_after_midnight_is_past_the_hard_stop() {
    // Play starts after the break, so the day stops at 17:00; a two-hour
    // game from 23:00 ends at 1:00 the next day, well past it.
    let scheduler = GameTimeScheduler::new(
        &GameTime::new(23, 0).unwrap(),
        &GameTime::new(2, 0).unwrap(),
        &GameTime::new(2, 0).unwrap(),
        1,
        &GameTime::new(12, 0).unwrap(),
        &GameTime::new(13, 30).unwrap(),
    );
    assert!(scheduler.is_past_hard_stop());
}

#[test]
fn a_break_ending_late_puts_the_hard_stop_after_midnight() {
    // Three hours before a break from 12:00 to 23:30 put the stop at 2:30
    // the next day, so a game from 9:00 is well within it.
    let scheduler = GameTimeScheduler::new(
        &GameTime::new(9, 0).unwrap(),
        &GameTime::new(1, 0).unwrap(),
        &GameTime::new(1, 0).unwrap(),
        1,
        &GameTime::new(12, 0).unwrap(),
        &GameTime::new(23, 30).unwrap(),
    );
    assert!(!scheduler.is_past_hard_stop());
}
