use advanced_constrained_secret_santa::config::{Config, RawParticipant};
use advanced_constrained_secret_santa::santa_engine::SantaEngine;

fn person(name: &str, family: usize, last_year: &[&str]) -> RawParticipant {
    RawParticipant {
        name: name.to_string(),
        family,
        last_year_targets: last_year.iter().map(|s| s.to_string()).collect(),
    }
}

fn config(n_gifts: usize, participants: Vec<RawParticipant>) -> Config {
    Config { n_gifts, participants }
}

#[test]
fn every_participant_is_excluded_from_itself() {
    let engine = SantaEngine::new(&config(
        1,
        vec![
            person("Ann", 0, &[]),
            person("Bob", 1, &[]),
            person("Cid", 2, &[]),
            person("Dee", 3, &[]),
        ],
    ));
    for p in 0..4 {
        assert!(engine.is_excluded(p, p));
    }
}

#[test]
fn same_family_is_excluded_in_both_directions() {
    let engine = SantaEngine::new(&config(
        1,
        vec![
            person("Ann", 7, &[]),
            person("Bob", 1, &[]),
            person("Cid", 7, &[]),
            person("Dee", 1, &[]),
        ],
    ));
    assert!(engine.is_excluded(0, 2));
    assert!(engine.is_excluded(2, 0));
    assert!(engine.is_excluded(1, 3));
    assert!(engine.is_excluded(3, 1));
}

#[test]
fn different_families_without_history_are_free() {
    let engine = SantaEngine::new(&config(
        1,
        vec![
            person("Ann", 7, &[]),
            person("Bob", 1, &[]),
            person("Cid", 7, &[]),
            person("Dee", 1, &[]),
        ],
    ));
    assert!(!engine.is_excluded(0, 1));
    assert!(!engine.is_excluded(1, 0));
    assert!(!engine.is_excluded(0, 3));
    assert!(!engine.is_excluded(2, 3));
    assert!(!engine.is_excluded(3, 2));
}

#[test]
fn previous_receiver_is_excluded_in_one_direction_only() {
    let engine = SantaEngine::new(&config(
        1,
        vec![person("Ann", 0, &["Cid"]), person("Bob", 1, &[]), person("Cid", 2, &[])],
    ));
    assert!(engine.is_excluded(0, 2));
    assert!(!engine.is_excluded(2, 0));
    assert!(!engine.is_excluded(0, 1));
}

#[test]
fn several_previous_receivers_are_all_excluded() {
    let engine = SantaEngine::new(&config(
        1,
        vec![
            person("Ann", 0, &["Dee", "Bob"]),
            person("Bob", 1, &[]),
            person("Cid", 2, &[]),
            person("Dee", 3, &[]),
        ],
    ));
    assert!(engine.is_excluded(0, 1));
    assert!(engine.is_excluded(0, 3));
    assert!(!engine.is_excluded(0, 2));
}

#[test]
fn unknown_previous_receiver_is_ignored() {
    let engine = SantaEngine::new(&config(
        1,
        vec![
            person("Ann", 0, &["Zed", "Bob", "Nobody"]),
            person("Bob", 1, &[]),
            person("Cid", 2, &[]),
        ],
    ));
    assert!(engine.is_excluded(0, 1));
    assert!(!engine.is_excluded(0, 2));
    assert!(!engine.is_excluded(1, 0));
    assert!(!engine.is_excluded(1, 2));
}

#[test]
fn a_name_borne_twice_stands_for_its_last_bearer() {
    let engine = SantaEngine::new(&config(
        1,
        vec![person("Ann", 0, &[]), person("Bob", 1, &["Ann"]), person("Ann", 2, &[])],
    ));
    assert!(engine.is_excluded(1, 2));
    assert!(!engine.is_excluded(1, 0));
}

#[test]
fn pairs_outside_the_participants_are_not_excluded() {
    let engine = SantaEngine::new(&config(1, vec![person("Ann", 0, &[]), person("Bob", 0, &[])]));
    assert!(engine.is_excluded(0, 1));
    assert!(!engine.is_excluded(0, 2));
    assert!(!engine.is_excluded(2, 0));
    assert!(!engine.is_excluded(5, 5));
    assert!(!engine.is_excluded(usize::MAX, usize::MAX));
}

#[test]
fn engine_keeps_names_in_order() {
    let engine = SantaEngine::new(&config(
        2,
        vec![person("Ann", 0, &[]), person("Bob", 1, &[]), person("Cid", 2, &[])],
    ));
    assert_eq!(engine.participants.len(), 3);
    assert_eq!(engine.participants[0].name, "Ann");
    assert_eq!(engine.participants[1].name, "Bob");
    assert_eq!(engine.participants[2].name, "Cid");
}

#[test]
fn engine_of_nobody_excludes_nothing() {
    let engine = SantaEngine::new(&config(0, vec![]));
    assert_eq!(engine.participants.len(), 0);
    assert!(!engine.is_excluded(0, 0));
}

#[test]
fn index_of_finds_the_last_bearer() {
    let cfg = config(
        1,
        vec![
            person("Ann", 0, &[]),
            person("Bob", 1, &[]),
            person("Ann", 2, &[]),
            person("Cid", 3, &[]),
        ],
    );
    assert_eq!(cfg.index_of(&"Ann".to_string()), Some(2));
    assert_eq!(cfg.index_of(&"Bob".to_string()), Some(1));
    assert_eq!(cfg.index_of(&"Cid".to_string()), Some(3));
}

#[test]
fn index_of_an_unknown_name_is_none() {
    let cfg = config(1, vec![person("Ann", 0, &[]), person("Bob", 1, &[])]);
    assert_eq!(cfg.index_of(&"ann".to_string()), None);
    assert_eq!(cfg.index_of(&"".to_string()), None);
    assert_eq!(config(1, vec![]).index_of(&"Ann".to_string()), None);
}

#[test]
fn indices_of_keeps_the_order_and_drops_the_unknown() {
    let cfg = config(
        1,
        vec![person("Ann", 0, &[]), person("Bob", 1, &[]), person("Cid", 2, &[])],
    );
    let wanted: Vec<String> =
        vec!["Cid".to_string(), "Zed".to_string(), "Ann".to_string(), "Cid".to_string()];
    assert_eq!(cfg.indices_of(&wanted), vec![2, 0, 2]);
    assert_eq!(cfg.indices_of(&Vec::new()), Vec::<usize>::new());
}
