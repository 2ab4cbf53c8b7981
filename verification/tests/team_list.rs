use organi_bandit::error::AppError;
use organi_bandit::team::Team;
use organi_bandit::team_list::deduplicate_teams;

fn team(name: &str, seed: Option<u32>) -> Team {
    Team::new(name, seed).unwrap()
}

#[test]
fn deduplicate_teams_keeps_a_list_that_has_no_repeats() {
    let teams = vec![
        team("Morges Bandits", None),
        team("Yverdon Ducs", Some(3)),
        team("Lausanne Rockets", Some(1)),
    ];

    let deduplicated = deduplicate_teams(teams.clone()).unwrap();

    assert_eq!(deduplicated, teams);
}

#[test]
fn deduplicate_teams_drops_an_exact_repeat_and_keeps_the_order() {
    let teams = vec![
        team("Morges Bandits", None),
        team("Yverdon Ducs", Some(3)),
        team("Morges Bandits", None),
        team("Lausanne Rockets", Some(1)),
    ];

    let deduplicated = deduplicate_teams(teams).unwrap();

    assert_eq!(
        deduplicated,
        vec![
            team("Morges Bandits", None),
            team("Yverdon Ducs", Some(3)),
            team("Lausanne Rockets", Some(1)),
        ]
    );
}

#[test]
fn deduplicate_teams_drops_a_repeat_that_only_differs_by_whitespace() {
    let teams = vec![
        team("Morges Bandits", None),
        team("  morges bandits ", None),
        team("Morges   Bandits", None),
    ];

    let deduplicated = deduplicate_teams(teams).unwrap();

    assert_eq!(deduplicated, vec![team("Morges Bandits", None)]);
}

#[test]
fn deduplicate_teams_treats_an_absent_seed_as_zero() {
    let teams = vec![
        team("Morges Bandits", None),
        team("Morges Bandits", Some(0)),
    ];

    let deduplicated = deduplicate_teams(teams).unwrap();

    assert_eq!(deduplicated, vec![team("Morges Bandits", None)]);
}

#[test]
fn deduplicate_teams_rejects_one_name_with_two_seeds() {
    let teams = vec![
        team("Morges Bandits", Some(1)),
        team("Yverdon Ducs", Some(3)),
        team("Morges Bandits", Some(2)),
    ];

    let result = deduplicate_teams(teams);

    let Err(AppError::ConflictingTeamSeeds(name, first, second)) = result else {
        panic!("expected a conflicting-seed error, got {result:?}");
    };
    assert_eq!(name, "Morges Bandits");
    assert_eq!((first, second), (1, 2));
}

#[test]
fn deduplicate_teams_rejects_a_seeded_and_an_unseeded_entry() {
    let teams = vec![
        team("Morges Bandits", Some(2)),
        team("Morges Bandits", None),
    ];

    let result = deduplicate_teams(teams);

    assert!(matches!(result, Err(AppError::ConflictingTeamSeeds(..))));
}

#[test]
fn deduplicate_teams_accepts_an_empty_list() {
    assert!(deduplicate_teams(vec![]).unwrap().is_empty());
}

#[test]
fn deduplicated_names_are_distinct_and_every_name_is_kept() {
    let teams = vec![
        team("A", Some(1)),
        team("B", None),
        team("a", Some(1)),
        team("C", Some(4)),
        team("B", Some(0)),
        team("C", Some(4)),
    ];
    let deduplicated = deduplicate_teams(teams.clone()).unwrap();
    assert_eq!(deduplicated.len(), 3);
    for (i, first) in deduplicated.iter().enumerate() {
        for second in deduplicated.iter().skip(i + 1) {
            assert_ne!(first.get_name(), second.get_name());
        }
    }
    for original in teams.iter() {
        let kept = deduplicated
            .iter()
            .find(|team| team.get_name() == original.get_name())
            .expect("every name is kept");
        assert_eq!(kept.get_seed(), original.get_seed());
    }
}
