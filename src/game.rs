use vstd::prelude::*;

use crate::error::GameError;

verus! {

/// A setting that is asked for before the cables are created.
#[derive(Clone, Copy, Debug, PartialEq, Eq, Structural)]
pub enum Setting {
    /// Number of players: 2 to 4.
    Players,
    /// Highest blue value: 8 to 12.
    BlueMax,
    /// Red cables shown: 0 to 3.
    RedShow,
    /// Yellow cables shown: 0, 2 or 3.
    YellowShow,
}

pub open spec fn setting_ok(setting: Setting, n: int) -> bool {
    match setting {
        Setting::Players => 2 <= n <= 4,
        Setting::BlueMax => 8 <= n <= 12,
        Setting::RedShow => 0 <= n <= 3,
        Setting::YellowShow => n == 0 || n == 2 || n == 3,
    }
}

/// Whether the rules allow `n` for `setting`.
pub fn setting_allows(setting: Setting, n: u32) -> (r: bool)
    ensures
        r == setting_ok(setting, n as int),
{
    match setting {
        Setting::Players => 2 <= n && n <= 4,
        Setting::BlueMax => 8 <= n && n <= 12,
        Setting::RedShow => n <= 3,
        Setting::YellowShow => n == 0 || n == 2 || n == 3,
    }
}

/// The red cables to keep when there is no choice: none of none, the one
/// of one. `None` when the player has to choose.
pub fn preset_red_keep(red_show: u32) -> (r: Option<u32>)
    ensures
        red_show <= 1 ==> r == Some(red_show),
        red_show > 1 ==> r is None,
{
    if red_show <= 1 {
        Some(red_show)
    } else {
        None
    }
}

/// Whether `n` red cables may be kept out of `red_show`.
pub fn red_keep_allows(red_show: u32, n: u32) -> (r: bool)
    ensures
        r == (n <= red_show),
{
    n <= red_show
}

/// The yellow cables to keep when there is no choice: none of none, both
/// of two. `None` when the player has to choose.
pub fn preset_yellow_keep(yellow_show: u32) -> (r: Option<u32>)
    ensures
        (yellow_show == 0 || yellow_show == 2) ==> r == Some(yellow_show),
        !(yellow_show == 0 || yellow_show == 2) ==> r is None,
{
    if yellow_show == 0 || yellow_show == 2 {
        Some(yellow_show)
    } else {
        None
    }
}

/// Whether `n` yellow cables may be kept when the player chooses: 2 or 3.
pub fn yellow_keep_allows(n: u32) -> (r: bool)
    ensures
        r == (n == 2 || n == 3),
{
    n == 2 || n == 3
}

/// Configuration of one game: the cable pool and the number of players.
pub struct GameMeta {
    pub blue_max: u32,
    pub red_show: u32,
    pub red_keep: u32,
    pub yellow_show: u32,
    pub yellow_keep: u32,
    pub players: u32,
}

impl GameMeta {
    pub fn new(
        blue_max: u32,
        red_show: u32,
        red_keep: u32,
        yellow_show: u32,
        yellow_keep: u32,
        players: u32,
    ) -> (r: Self)
        ensures
            r.blue_max == blue_max,
            r.red_show == red_show,
            r.red_keep == red_keep,
            r.yellow_show == yellow_show,
            r.yellow_keep == yellow_keep,
            r.players == players,
    {
        GameMeta { blue_max, red_show, red_keep, yellow_show, yellow_keep, players }
    }

    /// The configuration is one the rules allow: every setting in its
    /// range, and each keep count one of 0, 2 or 3 for yellow and no more
    /// than the cables shown of its colour.
    pub open spec fn valid(&self) -> bool {
        &&& setting_ok(Setting::Players, self.players as int)
        &&& setting_ok(Setting::BlueMax, self.blue_max as int)
        &&& setting_ok(Setting::RedShow, self.red_show as int)
        &&& setting_ok(Setting::YellowShow, self.yellow_show as int)
        &&& self.red_keep <= self.red_show
        &&& self.yellow_keep <= self.yellow_show
        &&& (self.yellow_keep == 0 || self.yellow_keep == 2 || self.yellow_keep == 3)
    }

    /// `Ok` for a configuration the rules allow, `InvalidConfiguration`
    /// otherwise.
    pub fn validate(&self) -> (r: Result<(), GameError>)
        ensures
            r is Ok <==> self.valid(),
            r is Err ==> r == Err::<(), GameError>(GameError::InvalidConfiguration),
    {
        if setting_allows(Setting::Players, self.players) && setting_allows(
            Setting::BlueMax,
            self.blue_max,
        ) && setting_allows(Setting::RedShow, self.red_show) && setting_allows(
            Setting::YellowShow,
            self.yellow_show,
        ) && self.red_keep <= self.red_show && self.yellow_keep <= self.yellow_show && (
        self.yellow_keep == 0 || self.yellow_keep == 2 || self.yellow_keep == 3) {
            Ok(())
        } else {
            Err(GameError::InvalidConfiguration)
        }
    }

    /// The standard configuration: blue values up to 12, two red cables shown
    /// and one kept, three yellow cables shown and two kept, three players.
    pub fn init_game_meta() -> (r: Self)
        ensures
            r.blue_max == 12,
            r.red_show == 2,
            r.red_keep == 1,
            r.yellow_show == 3,
            r.yellow_keep == 2,
            r.players == 3,
    {
        let blue_max: u32 = 12;
        let red_show: u32 = 2;
        let red_keep: u32 = 1;
        let yellow_show: u32 = 3;
        let yellow_keep: u32 = 2;
        let players: u32 = 3;
        GameMeta::new(blue_max, red_show, red_keep, yellow_show, yellow_keep, players)
    }
}

} // verus!
