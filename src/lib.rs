//! A tick-based simulation engine of a multiplayer territory-capture game:
//! the protocol's values (`proto`), a container keyed by player number
//! (`player_vec`), cell ownership and enclosed-area capture (`game_field`),
//! the match and its tick (`game`), and a spectator's picture of the field
//! (`state`). Beside it stand small companion libraries: a repeated trust game
//! (`trust`), a persistent stack (`pstack`), a percolation grid (`perc`) and a
//! map kept as a sorted vector (`flatmap`).
pub mod proto;
pub mod player_vec;
pub mod game_field;
pub mod game;
pub mod trust;
pub mod pstack;
pub mod perc;
pub mod state;
pub mod flatmap;
