use organi_bandit::error::AppError;
use organi_bandit::team::Team;

#[test]
fn test_title_case_team_name() {
    let team_1 = Team::new("morges bandits", None).unwrap();
    assert_eq!(team_1.get_name(), "Morges Bandits");
    let team_2 = Team::new("mOrges BANDITS", None).unwrap();
    assert_eq!(team_2.get_name(), "Morges Bandits");
}

#[test]
fn test_reject_bye_named_teams() {
    let team_1 = Team::new("bye", None);
    assert!(team_1.is_err(), "team name 'bye' should be rejected");
    let team_2 = Team::new("Bye", None);
    assert!(team_2.is_err(), "team name 'Bye' should be rejected");
    let team_3 = Team::new("bYe", None);
    assert!(team_3.is_err(), "team name 'bYe' should be rejected");
    let team_4 = Team::new("byE", None);
    assert!(team_4.is_err(), "team name 'byE' should be rejected");
    let team_5 = Team::new("BYe", None);
    assert!(team_5.is_err(), "team name 'BYe' should be rejected");
    let team_6 = Team::new("ByE", None);
    assert!(team_6.is_err(), "team name 'ByE' should be rejected");
    let team_7 = Team::new("bYE", None);
    assert!(team_7.is_err(), "team name 'bYE' should be rejected");
    let team_8 = Team::new("BYE", None);
    assert!(team_8.is_err(), "team name 'BYE' should be rejected");
}

#[test]
fn test_is_bye_team() {
    let bye_team = Team::bye();

    assert!(bye_team.is_bye());
}

#[test]
fn refused_name_is_given_back_as_written() {
    let result = Team::new("  bYe ", None);
    match result {
        Err(AppError::InvalidTeamName(name)) => assert_eq!(name, "  bYe "),
        other => panic!("expected an invalid name, got {other:?}"),
    }
}

#[test]
fn title_case_collapses_extra_spaces_between_words() {
    let team = Team::new("  lausanne   ROCKETS ", Some(2)).unwrap();
    assert_eq!(team.get_name(), "Lausanne Rockets");
    assert_eq!(team.get_seed(), 2);
}

#[test]
fn an_absent_seed_counts_as_zero() {
    let team = Team::new("Yverdon Ducs", None).unwrap();
    assert_eq!(team.get_seed(), 0);
    assert!(!team.is_bye());
}

#[test]
fn teams_are_equal_when_name_and_seed_are() {
    assert_eq!(
        Team::new("yverdon ducs", Some(3)).unwrap(),
        Team::new("Yverdon Ducs", Some(3)).unwrap()
    );
    assert_ne!(
        Team::new("Yverdon Ducs", Some(3)).unwrap(),
        Team::new("Yverdon Ducs", None).unwrap()
    );
}

#[test]
fn a_seed_is_kept_as_given() {
    assert_eq!(Team::new("Yverdon Ducs", Some(0)).unwrap().seed(), Some(0));
    assert_eq!(Team::new("Yverdon Ducs", None).unwrap().seed(), None);
    assert_eq!(Team::bye().seed(), None);
}
