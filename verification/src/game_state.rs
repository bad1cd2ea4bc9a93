//! The phases of the game and the player's vault.
use vstd::prelude::*;

verus! {

/// The phase the game is in.
#[derive(Clone, Copy, Debug, PartialEq, Eq, Hash, Structural)]
pub enum GameState {
    SelectHeroes,
    InWave,
    /// After every enemy of the waves has been defeated.
    Aftermath,
    GameOver,
}

impl Default for GameState {
    /// A game starts at hero selection.
    fn default() -> (s: Self)
        ensures
            s == GameState::SelectHeroes,
    {
        GameState::SelectHeroes
    }
}

/// The player's vault of crystals, the game's currency.
#[derive(Clone, Copy, Debug, PartialEq, Eq, Structural)]
pub struct Economy {
    pub crystals: u32,
}

impl Default for Economy {
    /// The vault starts empty.
    fn default() -> (e: Self)
        ensures
            e.crystals == 0,
    {
        Economy { crystals: 0 }
    }
}

} // verus!
