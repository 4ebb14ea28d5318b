use bomb_buster::error::GameError;
use bomb_buster::game::{
    preset_red_keep, preset_yellow_keep, red_keep_allows, setting_allows, yellow_keep_allows,
    GameMeta, Setting,
};

#[test]
fn standard_configuration() {
    let meta = GameMeta::init_game_meta();
    assert_eq!(meta.blue_max, 12);
    assert_eq!(meta.red_show, 2);
    assert_eq!(meta.red_keep, 1);
    assert_eq!(meta.yellow_show, 3);
    assert_eq!(meta.yellow_keep, 2);
    assert_eq!(meta.players, 3);
    assert_eq!(meta.validate(), Ok(()));
}

#[test]
fn new_keeps_every_field() {
    let meta = GameMeta::new(8, 3, 2, 2, 2, 4);
    assert_eq!((meta.blue_max, meta.red_show, meta.red_keep, meta.yellow_show, meta.yellow_keep, meta.players), (8, 3, 2, 2, 2, 4));
    assert_eq!(meta.validate(), Ok(()));
}

#[test]
fn invalid_configurations_are_rejected() {
    assert_eq!(GameMeta::new(12, 2, 3, 3, 2, 3).validate(), Err(GameError::InvalidConfiguration));
    assert_eq!(GameMeta::new(12, 2, 1, 3, 1, 3).validate(), Err(GameError::InvalidConfiguration));
    assert_eq!(GameMeta::new(12, 2, 1, 2, 3, 3).validate(), Err(GameError::InvalidConfiguration));
    assert_eq!(GameMeta::new(13, 2, 1, 3, 2, 3).validate(), Err(GameError::InvalidConfiguration));
    assert_eq!(GameMeta::new(12, 2, 1, 3, 2, 5).validate(), Err(GameError::InvalidConfiguration));
    assert_eq!(GameMeta::new(12, 2, 1, 1, 0, 3).validate(), Err(GameError::InvalidConfiguration));
}

#[test]
fn setting_ranges() {
    assert!(!setting_allows(Setting::Players, 1));
    assert!(setting_allows(Setting::Players, 2));
    assert!(setting_allows(Setting::Players, 4));
    assert!(!setting_allows(Setting::Players, 5));
    assert!(!setting_allows(Setting::BlueMax, 7));
    assert!(setting_allows(Setting::BlueMax, 8));
    assert!(setting_allows(Setting::BlueMax, 12));
    assert!(!setting_allows(Setting::BlueMax, 13));
    assert!(setting_allows(Setting::RedShow, 0));
    assert!(setting_allows(Setting::RedShow, 3));
    assert!(!setting_allows(Setting::RedShow, 4));
    assert!(setting_allows(Setting::YellowShow, 0));
    assert!(!setting_allows(Setting::YellowShow, 1));
    assert!(setting_allows(Setting::YellowShow, 2));
    assert!(setting_allows(Setting::YellowShow, 3));
}

#[test]
fn keep_counts() {
    assert_eq!(preset_red_keep(0), Some(0));
    assert_eq!(preset_red_keep(1), Some(1));
    assert_eq!(preset_red_keep(2), None);
    assert!(red_keep_allows(3, 3));
    assert!(!red_keep_allows(2, 3));
    assert_eq!(preset_yellow_keep(0), Some(0));
    assert_eq!(preset_yellow_keep(2), Some(2));
    assert_eq!(preset_yellow_keep(3), None);
    assert!(yellow_keep_allows(2));
    assert!(yellow_keep_allows(3));
    assert!(!yellow_keep_allows(1));
}
