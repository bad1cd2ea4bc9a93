//! The kinds of mobs, which side each takes, and the default wave.
use vstd::prelude::*;

verus! {

/// The kinds of mob.
#[derive(Clone, Copy, Debug, PartialEq, Eq, Structural)]
pub enum MobType {
    /// A slime that casts spells.
    SlimeMage,
    /// A skeleton with a sword.
    Skeleton,
    /// A named boss that fights with sword and magic.
    MiniBoss,
    /// Runs away when provoked.
    Cow,
    /// Bites back when provoked.
    Wolf,
}

impl MobType {
    /// Whether mobs of this kind attack on sight (they are spawned as
    /// enemies); the others are spawned as neutral.
    pub fn is_hostile(&self) -> (b: bool)
        ensures
            b <==> (*self == MobType::SlimeMage || *self == MobType::Skeleton || *self
                == MobType::MiniBoss),
    {
        match self {
            MobType::SlimeMage | MobType::Skeleton | MobType::MiniBoss => true,
            MobType::Cow | MobType::Wolf => false,
        }
    }
}

/// The mobs that a wave spawns, by their ids in the mob list.
pub struct WaveConfig {
    pub mobs_to_spawn: Vec<String>,
}

impl Default for WaveConfig {
    /// The first wave: a slime mage, a skeleton and Gothmog.
    fn default() -> (c: Self)
        ensures
            c.mobs_to_spawn@.len() == 3,
            c.mobs_to_spawn@[0]@ == "SlimeMage"@,
            c.mobs_to_spawn@[1]@ == "Skeleton"@,
            c.mobs_to_spawn@[2]@ == "Gothmog"@,
    {
        let mut mobs_to_spawn: Vec<String> = Vec::new();
        mobs_to_spawn.push(String::from_str("SlimeMage"));
        mobs_to_spawn.push(String::from_str("Skeleton"));
        mobs_to_spawn.push(String::from_str("Gothmog"));
        WaveConfig { mobs_to_spawn }
    }
}

} // verus!
