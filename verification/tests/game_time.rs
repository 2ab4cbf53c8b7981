use organi_bandit::error::AppError;
use organi_bandit::game_time::GameTime;

#[test]
fn new_accepts_boundary_values() {
    assert!(GameTime::new(0, 0).is_ok());
    assert!(GameTime::new(23, 59).is_ok());
}

#[test]
fn new_rejects_invalid_hour() {
    let result = GameTime::new(24, 0);
    assert!(matches!(result, Err(AppError::InvalidTime(24, 0))));
}

#[test]
fn new_rejects_invalid_minute() {
    let result = GameTime::new(0, 60);
    assert!(matches!(result, Err(AppError::InvalidTime(0, 60))));
}

#[test]
fn hour_and_minute_return_constructed_values() {
    let time = GameTime::new(14, 5).unwrap();
    assert_eq!(time.hour(), 14);
    assert_eq!(time.minute(), 5);
}

#[test]
fn display_formats_with_leading_zeros() {
    let time = GameTime::new(9, 5).unwrap();
    assert_eq!(time.to_string(), "09:05");
}

#[test]
fn add_sums_hours_and_minutes_without_carry() {
    let start = GameTime::new(9, 0).unwrap();
    let duration = GameTime::new(1, 30).unwrap();
    assert_eq!(start + duration, GameTime::new(10, 30).unwrap());
}

#[test]
fn add_carries_minute_overflow_into_hour() {
    let start = GameTime::new(9, 45).unwrap();
    let duration = GameTime::new(0, 30).unwrap();
    assert_eq!(start + duration, GameTime::new(10, 15).unwrap());
}

#[test]
fn add_leaves_hour_23_unchanged_when_adding_zero() {
    let start = GameTime::new(23, 0).unwrap();
    let duration = GameTime::new(0, 0).unwrap();
    assert_eq!(start + duration, GameTime::new(23, 0).unwrap());
}

#[test]
fn add_wraps_past_midnight_at_hour_24() {
    let start = GameTime::new(23, 45).unwrap();
    let duration = GameTime::new(0, 30).unwrap();
    assert_eq!(start + duration, GameTime::new(0, 15).unwrap());
}

#[test]
fn subtraction_gives_the_time_between_two_times() {
    let later = GameTime::new(13, 30).unwrap();
    let earlier = GameTime::new(9, 45).unwrap();
    assert_eq!((later - earlier).unwrap(), GameTime::new(3, 45).unwrap());
}

#[test]
fn subtraction_refuses_a_later_time() {
    let later = GameTime::new(13, 30).unwrap();
    let earlier = GameTime::new(9, 45).unwrap();
    assert!(matches!(
        earlier - later,
        Err(AppError::GameTimeSubtractionUnderflow(_, _))
    ));
}

#[test]
fn adding_a_whole_day_of_minutes_is_the_identity() {
    let time = GameTime::new(17, 20).unwrap();
    let day = GameTime::new(23, 59).unwrap() + GameTime::new(0, 1).unwrap();
    assert_eq!(day, GameTime::new(0, 0).unwrap());
    assert_eq!(time + day, time);
}

#[test]
fn times_compare_by_the_time_of_day() {
    assert!(GameTime::new(9, 59).unwrap() < GameTime::new(10, 0).unwrap());
    assert!(GameTime::new(10, 0).unwrap().is_before(&GameTime::new(10, 1).unwrap()));
    assert!(!GameTime::new(10, 1).unwrap().is_before(&GameTime::new(10, 1).unwrap()));
}
