use advanced_constrained_secret_santa::config::{Config, RawParticipant};
use advanced_constrained_secret_santa::edge_set::EdgeSet;
use advanced_constrained_secret_santa::santa_engine::SantaEngine;
use advanced_constrained_secret_santa::validate::{check_schedule, visits_each_once};
use advanced_constrained_secret_santa::SOLVER_LOOPS;

fn person(name: &str, family: usize, last_year: &[&str]) -> RawParticipant {
    RawParticipant {
        name: name.to_string(),
        family,
        last_year_targets: last_year.iter().map(|s| s.to_string()).collect(),
    }
}

fn strangers(n: usize, n_gifts: usize) -> SantaEngine {
    let participants = (0..n).map(|i| person(&format!("S{}", i), i, &[])).collect();
    SantaEngine::new(&Config { n_gifts, participants })
}

fn edges(cycle: &[usize]) -> Vec<(usize, usize)> {
    (0..cycle.len()).map(|i| (cycle[i], cycle[(i + 1) % cycle.len()])).collect()
}

fn is_permutation(cycle: &[usize], n: usize) -> bool {
    let mut sorted = cycle.to_vec();
    sorted.sort();
    sorted == (0..n).collect::<Vec<usize>>()
}

#[test]
fn solver_loops_is_positive() {
    assert!(SOLVER_LOOPS > 0);
}

#[test]
fn four_strangers_one_round_is_a_single_four_cycle() {
    let engine = strangers(4, 1);
    let schedule = engine.generate().unwrap();
    assert_eq!(schedule.len(), 1);
    assert_eq!(schedule[0].len(), 4);
    assert!(is_permutation(&schedule[0], 4));
    assert!(engine.check_constraints(&schedule));
    assert!(engine.assert_constraints(&schedule));
}

#[test]
fn four_strangers_two_rounds_never_share_or_reverse_an_edge() {
    let engine = strangers(4, 2);
    match engine.generate() {
        Some(schedule) => {
            assert_eq!(schedule.len(), 2);
            let mut all = edges(&schedule[0]);
            all.extend(edges(&schedule[1]));
            assert_eq!(all.len(), 8);
            for i in 0..all.len() {
                for j in 0..all.len() {
                    if i != j {
                        assert_ne!(all[i], all[j]);
                    }
                    assert_ne!(all[i], (all[j].1, all[j].0));
                }
            }
        }
        None => {}
    }
}

#[test]
fn five_strangers_two_rounds_use_ten_edges_and_no_reverse() {
    for _ in 0..20 {
        let engine = strangers(5, 2);
        let schedule = engine.generate().unwrap();
        assert_eq!(schedule.len(), 2);
        assert!(is_permutation(&schedule[0], 5));
        assert!(is_permutation(&schedule[1], 5));
        let mut all = edges(&schedule[0]);
        all.extend(edges(&schedule[1]));
        assert_eq!(all.len(), 10);
        for i in 0..all.len() {
            assert_ne!(all[i].0, all[i].1);
            for j in 0..all.len() {
                if i != j {
                    assert_ne!(all[i], all[j]);
                }
                assert_ne!(all[i], (all[j].1, all[j].0));
            }
        }
        assert!(engine.check_constraints(&schedule));
        assert!(engine.assert_constraints(&schedule));
    }
}

#[test]
fn seven_strangers_three_rounds() {
    let engine = strangers(7, 3);
    let schedule = engine.generate().unwrap();
    assert_eq!(schedule.len(), 3);
    assert!(engine.check_constraints(&schedule));
    assert!(engine.assert_constraints(&schedule));
}

#[test]
fn two_of_one_family_fail() {
    let engine = SantaEngine::new(&Config {
        n_gifts: 1,
        participants: vec![person("Ann", 3, &[]), person("Bob", 3, &[])],
    });
    assert_eq!(engine.generate(), None);
}

#[test]
fn one_family_of_four_fails() {
    let engine = SantaEngine::new(&Config {
        n_gifts: 2,
        participants: vec![
            person("Ann", 1, &[]),
            person("Bob", 1, &[]),
            person("Cid", 1, &[]),
            person("Dee", 1, &[]),
        ],
    });
    assert_eq!(engine.generate(), None);
}

#[test]
fn a_single_participant_fails() {
    let engine = strangers(1, 1);
    assert_eq!(engine.generate(), None);
}

#[test]
fn no_round_wanted_gives_the_empty_schedule() {
    assert_eq!(strangers(4, 0).generate(), Some(Vec::new()));
    assert_eq!(strangers(0, 0).generate(), Some(Vec::new()));
}

#[test]
fn more_rounds_than_there_can_be_fail() {
    let engine = strangers(3, 2);
    assert_eq!(engine.generate(), None);
}

#[test]
fn three_strangers_one_round() {
    let engine = strangers(3, 1);
    let schedule = engine.generate().unwrap();
    assert_eq!(schedule.len(), 1);
    assert!(is_permutation(&schedule[0], 3));
    assert!(engine.check_constraints(&schedule));
    assert!(engine.assert_constraints(&schedule));
}

#[test]
fn two_strangers_get_no_round() {
    // The only round there could be has the two give to each other.
    let engine = strangers(2, 1);
    assert_eq!(engine.generate(), None);
    assert_eq!(engine.generate_with_budget(1), None);
    assert!(!engine.check_constraints(&vec![vec![0, 1]]));
    assert!(!engine.check_constraints(&vec![vec![1, 0]]));
}

#[test]
fn two_strangers_and_no_round_wanted_succeed() {
    assert_eq!(strangers(2, 0).generate(), Some(Vec::new()));
}

#[test]
fn two_strangers_have_no_second_round() {
    assert_eq!(strangers(2, 2).generate(), None);
}

#[test]
fn the_sole_previous_receiver_is_never_given_to_again() {
    let engine = SantaEngine::new(&Config {
        n_gifts: 1,
        participants: vec![
            person("Xav", 0, &["Yan"]),
            person("Yan", 1, &[]),
            person("Ann", 2, &[]),
            person("Bob", 3, &[]),
        ],
    });
    for _ in 0..100 {
        let schedule = engine.generate().unwrap();
        assert_eq!(schedule.len(), 1);
        assert!(!edges(&schedule[0]).contains(&(0, 1)));
        assert!(engine.check_constraints(&schedule));
        assert!(engine.assert_constraints(&schedule));
    }
}

#[test]
fn families_never_give_within() {
    let engine = SantaEngine::new(&Config {
        n_gifts: 2,
        participants: vec![
            person("A1", 1, &["B1"]),
            person("A2", 1, &[]),
            person("B1", 2, &["C2"]),
            person("B2", 2, &[]),
            person("C1", 3, &[]),
            person("C2", 3, &["A1", "Ghost"]),
            person("D1", 4, &[]),
            person("D2", 4, &[]),
            person("E1", 5, &[]),
        ],
    });
    let family = [1, 1, 2, 2, 3, 3, 4, 4, 5];
    for _ in 0..10 {
        let schedule = engine.generate().unwrap();
        assert_eq!(schedule.len(), 2);
        for cycle in &schedule {
            assert!(is_permutation(cycle, 9));
            for (a, b) in edges(cycle) {
                assert_ne!(family[a], family[b]);
                assert!(!engine.is_excluded(a, b));
                assert_ne!((a, b), (0, 2));
                assert_ne!((a, b), (2, 5));
                assert_ne!((a, b), (5, 0));
            }
        }
        assert!(engine.check_constraints(&schedule));
        assert!(engine.assert_constraints(&schedule));
    }
}

#[test]
fn the_only_possible_round_is_found() {
    // 0 may only give to 1, 1 only to 2, 2 only to 3, 3 only to 0.
    let engine = SantaEngine::new(&Config {
        n_gifts: 1,
        participants: vec![
            person("North", 0, &["South", "West"]),
            person("East", 1, &["West", "North"]),
            person("South", 2, &["North", "East"]),
            person("West", 3, &["East", "South"]),
        ],
    });
    for _ in 0..20 {
        let schedule = engine.generate().unwrap();
        assert_eq!(schedule.len(), 1);
        let mut found = edges(&schedule[0]);
        found.sort();
        assert_eq!(found, vec![(0, 1), (1, 2), (2, 3), (3, 0)]);
    }
}

#[test]
fn generate_does_not_always_give_the_same_schedule() {
    let engine = strangers(8, 1);
    let first = engine.generate().unwrap();
    let mut differs = false;
    for _ in 0..50 {
        if engine.generate().unwrap() != first {
            differs = true;
        }
    }
    assert!(differs);
}

#[test]
fn find_path_starts_where_the_seed_starts() {
    let engine = strangers(5, 1);
    let ids = vec![3, 1, 4, 0, 2];
    for _ in 0..20 {
        let cycle = engine.find_path_iterative(&ids, &EdgeSet::new()).unwrap();
        assert_eq!(cycle[0], 3);
        assert!(is_permutation(&cycle, 5));
    }
}

#[test]
fn find_path_goes_through_the_seed_only() {
    let engine = strangers(6, 1);
    let ids = vec![4, 1, 5];
    for _ in 0..20 {
        let cycle = engine.find_path_iterative(&ids, &EdgeSet::new()).unwrap();
        assert_eq!(cycle.len(), 3);
        assert_eq!(cycle[0], 4);
        let mut sorted = cycle.clone();
        sorted.sort();
        assert_eq!(sorted, vec![1, 4, 5]);
    }
}

#[test]
fn find_path_avoids_the_extra_edges() {
    let engine = strangers(4, 1);
    let mut extra = EdgeSet::new();
    for edge in [(0, 1), (1, 0), (1, 2), (2, 1), (2, 3), (3, 2), (3, 0), (0, 3)] {
        extra.insert(edge);
    }
    // What is left: 0 <-> 2 and 1 <-> 3, which hold no cycle through all four.
    assert_eq!(engine.find_path_iterative(&vec![0, 1, 2, 3], &extra), None);
    assert_eq!(engine.find_path_iterative(&vec![2, 3, 1, 0], &extra), None);
}

#[test]
fn find_path_takes_the_one_way_left() {
    let engine = strangers(4, 1);
    let mut extra = EdgeSet::new();
    for edge in [(0, 2), (0, 3), (1, 3), (1, 0), (2, 0), (2, 1), (3, 1), (3, 2)] {
        extra.insert(edge);
    }
    for _ in 0..20 {
        assert_eq!(engine.find_path_iterative(&vec![2, 0, 1, 3], &extra), Some(vec![2, 3, 0, 1]));
    }
}

#[test]
fn find_path_minds_the_closing_edge() {
    let engine = strangers(3, 1);
    let mut extra = EdgeSet::new();
    // 0 -> 1 -> 2 is free, but 2 may not give to 0; the other way round 0 -> 2 is taken.
    extra.insert((2, 0));
    extra.insert((0, 2));
    assert_eq!(engine.find_path_iterative(&vec![0, 1, 2], &extra), None);
    let mut extra = EdgeSet::new();
    extra.insert((0, 2));
    for _ in 0..20 {
        assert_eq!(engine.find_path_iterative(&vec![0, 1, 2], &extra), Some(vec![0, 1, 2]));
    }
}

#[test]
fn find_path_over_one_participant_finds_nothing() {
    let engine = strangers(3, 1);
    assert_eq!(engine.find_path_iterative(&vec![1], &EdgeSet::new()), None);
}

#[test]
fn find_path_over_two_finds_the_exchange() {
    let engine = strangers(3, 1);
    assert_eq!(engine.find_path_iterative(&vec![2, 0], &EdgeSet::new()), Some(vec![2, 0]));
    let mut extra = EdgeSet::new();
    extra.insert((0, 2));
    assert_eq!(engine.find_path_iterative(&vec![2, 0], &extra), None);
}

#[test]
fn constraints_accept_a_valid_schedule() {
    let engine = strangers(5, 2);
    assert!(engine.check_constraints(&vec![vec![0, 1, 2, 3, 4], vec![0, 2, 4, 1, 3]]));
    assert!(engine.check_constraints(&vec![vec![3, 1, 4, 2, 0]]));
    assert!(engine.check_constraints(&Vec::new()));
}

#[test]
fn constraints_refuse_a_round_of_the_wrong_length() {
    let engine = strangers(5, 1);
    assert!(!engine.check_constraints(&vec![vec![0, 1, 2, 3]]));
    assert!(!engine.check_constraints(&vec![vec![0, 1, 2, 3, 4, 0]]));
    assert!(!engine.check_constraints(&vec![Vec::new()]));
}

#[test]
fn constraints_refuse_a_participant_twice() {
    let engine = strangers(5, 1);
    assert!(!engine.check_constraints(&vec![vec![0, 1, 2, 3, 3]]));
}

#[test]
fn constraints_refuse_a_stranger_to_the_draw() {
    let engine = strangers(5, 1);
    assert!(!engine.check_constraints(&vec![vec![0, 1, 2, 3, 5]]));
    assert!(!strangers(3, 1).check_constraints(&vec![vec![0, 1, 7]]));
}

#[test]
fn constraints_refuse_a_round_that_reverses_another() {
    let engine = strangers(3, 2);
    assert!(!engine.check_constraints(&vec![vec![0, 1, 2], vec![0, 2, 1]]));
}

#[test]
fn what_generate_returns_is_confirmed() {
    for n in 3..9 {
        let engine = strangers(n, 1);
        let schedule = engine.generate().unwrap();
        assert!(engine.check_constraints(&schedule));
        assert!(engine.assert_constraints(&schedule));
    }
}

#[test]
fn constraints_refuse_an_excluded_edge() {
    let engine = SantaEngine::new(&Config {
        n_gifts: 1,
        participants: vec![
            person("Ann", 0, &["Bob"]),
            person("Bob", 1, &[]),
            person("Cid", 2, &[]),
            person("Dee", 0, &[]),
        ],
    });
    assert!(!engine.check_constraints(&vec![vec![0, 1, 2, 3]]));
    assert!(!engine.check_constraints(&vec![vec![0, 2, 1, 3]]));
    assert!(engine.check_constraints(&vec![vec![0, 2, 3, 1]]));
}

#[test]
fn constraints_refuse_an_edge_used_twice() {
    let engine = strangers(5, 2);
    assert!(!engine.check_constraints(&vec![vec![0, 1, 2, 3, 4], vec![0, 1, 3, 2, 4]]));
    assert!(!engine.check_constraints(&vec![vec![0, 1, 2, 3, 4], vec![1, 2, 3, 4, 0]]));
}

#[test]
fn constraints_refuse_a_mutual_exchange() {
    let engine = strangers(5, 2);
    assert!(!engine.check_constraints(&vec![vec![0, 1, 2, 3, 4], vec![0, 2, 1, 4, 3]]));
    assert!(!engine.check_constraints(&vec![vec![0, 1, 2, 3, 4], vec![4, 3, 2, 1, 0]]));
}

#[test]
fn check_schedule_goes_by_the_set_it_is_given() {
    let mut base = EdgeSet::new();
    assert!(check_schedule(&vec![vec![0, 1, 2]], 3, &base));
    base.insert((1, 2));
    assert!(!check_schedule(&vec![vec![0, 1, 2]], 3, &base));
    assert!(check_schedule(&vec![vec![0, 2, 1]], 3, &base));
    assert!(!check_schedule(&vec![vec![0, 1]], 2, &EdgeSet::new()));
    assert!(check_schedule(&vec![Vec::new(), Vec::new()], 0, &EdgeSet::new()));
}

#[test]
fn visits_each_once_wants_every_index_once() {
    assert!(visits_each_once(&vec![2, 0, 1], 3));
    assert!(visits_each_once(&Vec::new(), 0));
    assert!(!visits_each_once(&vec![2, 0, 1], 4));
    assert!(!visits_each_once(&vec![2, 0, 2], 3));
    assert!(!visits_each_once(&vec![1, 2, 3], 3));
    assert!(!visits_each_once(&vec![0, 1], 3));
}

#[test]
fn without_attempts_no_round_is_found() {
    assert_eq!(strangers(4, 1).generate_with_budget(0), None);
    assert_eq!(strangers(5, 2).generate_with_budget(0), None);
}

#[test]
fn without_attempts_no_round_wanted_still_succeeds() {
    assert_eq!(strangers(4, 0).generate_with_budget(0), Some(Vec::new()));
}

#[test]
fn one_attempt_is_enough_where_the_search_cannot_get_stuck() {
    for _ in 0..50 {
        let engine = strangers(5, 2);
        let schedule = engine.generate_with_budget(1).unwrap();
        assert_eq!(schedule.len(), 2);
        assert!(engine.check_constraints(&schedule));
        assert!(engine.assert_constraints(&schedule));
        let engine = strangers(4, 1);
        let schedule = engine.generate_with_budget(1).unwrap();
        assert_eq!(schedule.len(), 1);
        assert!(engine.check_constraints(&schedule));
        assert!(engine.assert_constraints(&schedule));
    }
}

#[test]
fn a_small_budget_fails_fast_where_there_is_no_schedule() {
    assert_eq!(strangers(4, 2).generate_with_budget(3), None);
    assert_eq!(strangers(6, 3).generate_with_budget(2), None);
}
