use std::collections::HashMap;

use bomb_buster::elements::{
    get_color, get_value, get_yel_red_info, init_all_cables, init_cables_in_game,
    init_death_counter, CableIdGenerator,
};

#[test]
fn test_init_all_cables() {
    let blue_max_val = 12;
    let red_show = 2;
    let yellow_show = 3;

    let cables = init_all_cables(&mut CableIdGenerator::new(), blue_max_val, red_show, yellow_show);

    let num_blue_cables = cables.iter().filter(|(_, v)| *v % 10 == 0).count();
    let num_red_cables = cables.iter().filter(|(_, v)| *v % 10 == 5).count();
    let num_yellow_cables = cables.iter().filter(|(_, v)| *v % 10 == 1).count();

    assert_eq!(cables.len(), (4 * blue_max_val + red_show + yellow_show) as usize, "Expected {} cables, found {}", 4 * blue_max_val + red_show + yellow_show, cables.len());
    assert_eq!(num_blue_cables, 4 * blue_max_val as usize, "Expected {} blue cables, found {}", 4 * blue_max_val, num_blue_cables);
    assert_eq!(num_red_cables, red_show as usize, "Expected {} red cables, found {}", red_show, num_red_cables);
    assert_eq!(num_yellow_cables, yellow_show as usize, "Expected {} yellow cables, found {}", yellow_show, num_yellow_cables);
}

#[test]
fn test_init_cables_in_game() {
    let cables = init_all_cables(&mut CableIdGenerator::new(), 12, 2, 3);
    let (red_keep, yellow_keep) = (1, 2);
    let in_game_cables = init_cables_in_game(&cables, red_keep, yellow_keep);
    let expected_cables = 4 * 12 + red_keep + yellow_keep;
    assert_eq!(in_game_cables.len(), expected_cables as usize, "Expected {} cables in game, found {}", expected_cables, in_game_cables.len());

    let num_blue_cables = in_game_cables.iter().filter(|&&id| cables[&id] % 10 == 0).count();
    let num_red_cables = in_game_cables.iter().filter(|&&id| cables[&id] % 10 == 5).count();
    let num_yellow_cables = in_game_cables.iter().filter(|&&id| cables[&id] % 10 == 1).count();
    assert_eq!(num_blue_cables, 4 * 12, "Expected {} blue cables in game, found {}", 4 * 12, num_blue_cables);
    assert_eq!(num_red_cables, red_keep as usize, "Expected {} red cables in game, found {}", red_keep, num_red_cables);
    assert_eq!(num_yellow_cables, yellow_keep as usize, "Expected {} yellow cables in game, found {}", yellow_keep, num_yellow_cables);
}

#[test]
fn test_get_color() {
    let cables = init_all_cables(&mut CableIdGenerator::new(), 12, 2, 3);
    for (id, value) in &cables {
        let color = get_color(*id, &cables);
        match value % 10 {
            0 => assert_eq!(color, "blue"),
            5 => assert_eq!(color, "red"),
            1 => assert_eq!(color, "yellow"),
            _ => assert_eq!(color, "unknown"),
        }
    }
}

#[test]
fn test_get_value() {
    let cables = init_all_cables(&mut CableIdGenerator::new(), 12, 2, 3);
    for (id, value) in &cables {
        let cable_value = cables.get(id).expect("Cable ID not found");
        assert_eq!(*cable_value, *value, "Value mismatch for cable ID {}", id);
        assert_eq!(get_value(*id, &cables), *value, "Value mismatch for cable ID {}", id);
    }
}

#[test]
fn test_init_death_counter() {
    let number_players = 3;
    let death_counter = init_death_counter(number_players);
    assert_eq!(death_counter, 4, "Death counter should be {} for {} players", number_players + 1, number_players);
}

#[test]
fn test_get_yel_red_info() {
    let all_cables = HashMap::from([
        (1, 10), (2, 20), (3, 30), (4, 40), (5, 50), // Blue cables
        (6, 15), (7, 25), // Red cables
        (8, 11), (9, 21), (10, 51) // Yellow cables
    ]);
    let (red_cables, yellow_cables) = get_yel_red_info(&all_cables);
    assert_eq!(red_cables.len(), 2, "Expected 2 red cables, found {}", red_cables.len());
    assert_eq!(yellow_cables.len(), 3, "Expected 3 yellow cables, found {}", yellow_cables.len());
    assert!(red_cables.contains(&15) && red_cables.contains(&25), "Red cables should contain values of 15 and 25");
    assert!(yellow_cables.contains(&11) && yellow_cables.contains(&21) && yellow_cables.contains(&51), "Yellow cables should contain values of 11, 21, and 51");
}

#[test]
fn catalog_ids_start_at_one_and_values_follow_the_layout() {
    let cables = init_all_cables(&mut CableIdGenerator::new(), 2, 1, 2);
    let expected = HashMap::from([
        (1, 10), (2, 10), (3, 10), (4, 10),
        (5, 20), (6, 20), (7, 20), (8, 20),
        (9, 15),
        (10, 11), (11, 21),
    ]);
    assert_eq!(cables, expected);
}

#[test]
fn catalog_counts_for_smallest_configuration() {
    let cables = init_all_cables(&mut CableIdGenerator::new(), 8, 0, 0);
    assert_eq!(cables.len(), 32);
    assert!(cables.values().all(|v| v % 10 == 0));
    for v in 1..=8u32 {
        assert_eq!(cables.values().filter(|&&x| x == 10 * v).count(), 4);
    }
}

#[test]
fn ids_are_never_reused_by_one_generator() {
    let mut ids = CableIdGenerator::new();
    let first = init_all_cables(&mut ids, 8, 1, 0);
    let second = init_all_cables(&mut ids, 8, 0, 2);
    assert_eq!(first.len(), 33);
    assert_eq!(second.len(), 34);
    for id in second.keys() {
        assert!(!first.contains_key(id));
        assert!(*id > 33);
    }
}

#[test]
fn in_game_takes_every_blue_and_the_kept_counts() {
    let cables = init_all_cables(&mut CableIdGenerator::new(), 10, 3, 2);
    let in_game = init_cables_in_game(&cables, 2, 1);
    assert_eq!(in_game.len(), 4 * 10 + 2 + 1);
    for (id, v) in &cables {
        if v % 10 == 0 {
            assert!(in_game.contains(id));
        }
    }
    assert_eq!(in_game.iter().filter(|id| cables[*id] % 10 == 5).count(), 2);
    assert_eq!(in_game.iter().filter(|id| cables[*id] % 10 == 1).count(), 1);
}

#[test]
fn in_game_keep_above_show_takes_all_available() {
    let cables = init_all_cables(&mut CableIdGenerator::new(), 8, 2, 0);
    let in_game = init_cables_in_game(&cables, 5, 3);
    assert_eq!(in_game.len(), 32 + 2);
    assert_eq!(in_game.iter().filter(|id| cables[*id] % 10 == 5).count(), 2);
}

#[test]
fn in_game_keep_zero_takes_only_blue() {
    let cables = init_all_cables(&mut CableIdGenerator::new(), 9, 3, 3);
    let in_game = init_cables_in_game(&cables, 0, 0);
    assert_eq!(in_game.len(), 36);
    assert!(in_game.iter().all(|id| cables[id] % 10 == 0));
}

#[test]
fn colors_of_each_kind() {
    let cables = HashMap::from([(1, 40), (2, 45), (3, 41), (4, 47)]);
    assert_eq!(get_color(1, &cables), "blue");
    assert_eq!(get_color(2, &cables), "red");
    assert_eq!(get_color(3, &cables), "yellow");
    assert_eq!(get_color(4, &cables), "unknown");
    assert_eq!(get_value(2, &cables), 45);
}

#[test]
fn red_and_yellow_values_are_distinct_values() {
    let cables = HashMap::from([(1, 15), (2, 15), (3, 11), (4, 10)]);
    let (red, yellow) = get_yel_red_info(&cables);
    assert_eq!(red.len(), 1);
    assert!(red.contains(&15));
    assert_eq!(yellow.len(), 1);
    assert!(yellow.contains(&11));
}

#[test]
fn death_counter_for_two_and_four_players() {
    assert_eq!(init_death_counter(2), 3);
    assert_eq!(init_death_counter(4), 5);
}
