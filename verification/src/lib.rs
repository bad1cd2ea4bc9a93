//! Game logic of Pinguiny: a hexagonal navigation grid with bidirectional
//! path search, and the rules that the game's systems apply each frame.
pub mod hex;

pub mod grid_system;
pub mod search_maps;
pub mod frontier;
pub mod grid_navigation;
pub mod time_wizard;
pub mod game_state;
pub mod mob;
pub mod hero;
pub mod game_input;
