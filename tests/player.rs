use std::collections::{HashMap, HashSet};

use bomb_buster::elements::{get_value, init_all_cables, init_cables_in_game, CableIdGenerator};
use bomb_buster::error::GameError;
use bomb_buster::player::{
    change_cable_status, get_cables, get_status, get_teammate_hands, init_cable_distribution,
    init_hands, is_visible, sort_cable_distribution, CableStatus, Hand,
};

#[test]
fn test_cable_distribution() {
    let all_cables = init_all_cables(&mut CableIdGenerator::new(), 10, 3, 2);
    let in_game_cables = init_cables_in_game(&all_cables, 2, 1);
    let hands: Vec<Vec<u32>> = init_cable_distribution(&in_game_cables, 3);
    assert!(!hands.is_empty(), "Hands should not be empty");
    let distribution = hands.iter().map(|hand| hand.len()).collect::<HashSet<_>>();
    assert!(distribution.iter().max().unwrap() - distribution.iter().min().unwrap() <= 1, "Hands should be evenly distributed");
}

#[test]
fn test_sort_cable_distribution() {
    let all_cables = init_all_cables(&mut CableIdGenerator::new(), 10, 3, 2);
    let in_game_cables = init_cables_in_game(&all_cables, 2, 1);
    let mut cable_distributions: Vec<Vec<u32>> = init_cable_distribution(&in_game_cables, 3);
    assert!(!cable_distributions.is_empty(), "Hands should not be empty");

    sort_cable_distribution(&mut cable_distributions, &all_cables);
    for cable_distribution in &cable_distributions {
        let values: Vec<u32> = cable_distribution.iter().map(|id| get_value(*id, &all_cables)).collect();
        assert!(values.is_sorted(), "Hand should be sorted by values");
    }
}

#[test]
fn test_init_hands() {
    let all_cables = init_all_cables(&mut CableIdGenerator::new(), 10, 3, 2);
    let in_game_cables = init_cables_in_game(&all_cables, 2, 1);
    let cable_distributions: Vec<Vec<u32>> = init_cable_distribution(&in_game_cables, 3);
    assert!(!cable_distributions.is_empty(), "Hands should not be empty");

    let mut sorted_hands = cable_distributions.clone();
    sort_cable_distribution(&mut sorted_hands, &all_cables);
    let initialized_hands = init_hands(sorted_hands);

    assert_eq!(initialized_hands.len(), cable_distributions.len(), "Number of cable_distributions should match");
    for hand in initialized_hands {
        assert_eq!(hand.status.len(), hand.cables.len(), "Status length should match cables length");
        assert!(hand.status.iter().all(|s| matches!(s, CableStatus::Hidden)), "All cables should start as Hidden");
    }
}

#[test]
fn test_get_teammate_hands() {
    let all_cables = init_all_cables(&mut CableIdGenerator::new(), 10, 3, 2);
    let in_game_cables = init_cables_in_game(&all_cables, 2, 1);
    let cable_distributions: Vec<Vec<u32>> = init_cable_distribution(&in_game_cables, 3);
    assert!(!cable_distributions.is_empty(), "Hands should not be empty");

    let mut sorted_hands = cable_distributions.clone();
    sort_cable_distribution(&mut sorted_hands, &all_cables);
    let initialized_hands = init_hands(sorted_hands);

    assert_eq!(initialized_hands.len(), cable_distributions.len(), "Number of cable_distributions should match");
    let current_player = 1;

    get_teammate_hands(current_player, &initialized_hands);
}

#[test]
fn test_change_cable_status() {
    let mut hands = vec![
        Hand {
            cables: vec![1, 2, 3],
            status: vec![CableStatus::Clue, CableStatus::Hidden, CableStatus::Revealed],
        },
        Hand {
            cables: vec![4, 5, 6],
            status: vec![CableStatus::Hidden; 3],
        },
    ];
    change_cable_status(2, &mut hands, CableStatus::Revealed);
    assert_eq!(hands[0].status[1], CableStatus::Revealed, "Cable status should be changed to Revealed");
    change_cable_status(4, &mut hands, CableStatus::Clue);
    assert_eq!(hands[1].status[0], CableStatus::Clue, "Cable status should be changed to Clue");
}

fn id_set(ids: &[u32]) -> HashSet<u32> {
    ids.iter().copied().collect()
}

#[test]
fn deal_partitions_the_set_for_each_player_count() {
    for players in 2..=4u32 {
        let ids = id_set(&(1..=51).collect::<Vec<u32>>());
        let hands = init_cable_distribution(&ids, players);
        assert_eq!(hands.len(), players as usize);
        let mut seen = HashSet::new();
        for hand in &hands {
            for id in hand {
                assert!(ids.contains(id));
                assert!(seen.insert(*id), "id {} dealt twice", id);
            }
        }
        assert_eq!(seen, ids);
        let sizes: Vec<usize> = hands.iter().map(|h| h.len()).collect();
        let max = *sizes.iter().max().unwrap();
        let min = *sizes.iter().min().unwrap();
        assert!(max - min <= 1);
    }
}

#[test]
fn deal_gives_the_first_hands_the_extra_cables() {
    let ids = id_set(&[1, 2, 3, 4, 5, 6, 7]);
    let hands = init_cable_distribution(&ids, 3);
    let sizes: Vec<usize> = hands.iter().map(|h| h.len()).collect();
    assert_eq!(sizes, vec![3, 2, 2]);
}

#[test]
fn deal_of_an_empty_set_gives_empty_hands() {
    let hands = init_cable_distribution(&HashSet::new(), 2);
    assert_eq!(hands, vec![Vec::<u32>::new(), Vec::new()]);
}

#[test]
fn deal_order_is_random() {
    let ids = id_set(&(1..=30).collect::<Vec<u32>>());
    let first = init_cable_distribution(&ids, 1);
    let mut all_same = true;
    for _ in 0..5 {
        if init_cable_distribution(&ids, 1) != first {
            all_same = false;
        }
    }
    assert!(!all_same, "five deals of thirty cables came out in one order");
}

#[test]
fn sort_keeps_dealt_order_among_equal_values() {
    let all_cables = HashMap::from([(1, 30), (2, 10), (3, 20), (4, 10), (5, 10)]);
    let mut hands = vec![vec![1, 4, 3, 2, 5], vec![5, 2]];
    sort_cable_distribution(&mut hands, &all_cables);
    assert_eq!(hands, vec![vec![4, 2, 5, 3, 1], vec![5, 2]]);
}

#[test]
fn sort_puts_ids_missing_from_the_catalog_first() {
    let all_cables = HashMap::from([(1, 30), (2, 10)]);
    let mut hands = vec![vec![1, 9, 2]];
    sort_cable_distribution(&mut hands, &all_cables);
    assert_eq!(hands, vec![vec![9, 2, 1]]);
}

#[test]
fn new_hand_is_all_hidden() {
    let hand = Hand::new(vec![7, 8, 9]);
    assert_eq!(hand.cables, vec![7, 8, 9]);
    assert_eq!(hand.status, vec![CableStatus::Hidden; 3]);
    assert_eq!(get_cables(&hand), vec![7, 8, 9]);
    assert_eq!(get_status(&hand), vec![CableStatus::Hidden; 3]);
    let empty = Hand::new(Vec::new());
    assert!(empty.status.is_empty());
}

#[test]
fn init_hands_keeps_each_hand_in_order() {
    let hands = init_hands(vec![vec![3, 1], vec![], vec![2]]);
    assert_eq!(hands.len(), 3);
    assert_eq!(hands[0].cables, vec![3, 1]);
    assert!(hands[1].cables.is_empty());
    assert_eq!(hands[2].status, vec![CableStatus::Hidden]);
}

#[test]
fn set_status_changes_only_the_holder() {
    let mut hands = vec![Hand::new(vec![1, 2, 3]), Hand::new(vec![4, 5])];
    change_cable_status(5, &mut hands, CableStatus::Clue);
    assert_eq!(hands[0].status, vec![CableStatus::Hidden; 3]);
    assert_eq!(hands[1].status, vec![CableStatus::Hidden, CableStatus::Clue]);
}

#[test]
fn set_status_of_unknown_id_changes_nothing() {
    let mut hands = vec![Hand::new(vec![1, 2]), Hand::new(vec![3])];
    change_cable_status(99, &mut hands, CableStatus::Revealed);
    assert_eq!(hands[0].status, vec![CableStatus::Hidden; 2]);
    assert_eq!(hands[1].status, vec![CableStatus::Hidden]);
}

#[test]
fn teammates_exclude_the_player() {
    let mut hands = vec![Hand::new(vec![1]), Hand::new(vec![2, 3]), Hand::new(vec![4])];
    change_cable_status(3, &mut hands, CableStatus::Clue);
    let mates = get_teammate_hands(0, &hands);
    assert_eq!(mates.len(), 2);
    assert_eq!(mates[0].cables, vec![2, 3]);
    assert_eq!(mates[0].status, vec![CableStatus::Hidden, CableStatus::Clue]);
    assert_eq!(mates[1].cables, vec![4]);
    let all = get_teammate_hands(7, &hands);
    assert_eq!(all.len(), 3);
}

#[test]
fn position_lookups() {
    let hand = Hand::new(vec![5, 6]);
    assert_eq!(hand.cable_at(1), Ok(6));
    assert_eq!(hand.cable_at(2), Err(GameError::OutOfRange));
    assert_eq!(hand.status_of(0), Ok(CableStatus::Hidden));
    assert_eq!(hand.status_of(2), Err(GameError::OutOfRange));
}

#[test]
fn only_hidden_cables_are_kept_from_view() {
    assert!(!is_visible(CableStatus::Hidden));
    assert!(is_visible(CableStatus::Clue));
    assert!(is_visible(CableStatus::Revealed));
}
