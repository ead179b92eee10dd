//! A falling-block puzzle game: the playfield geometry, the pieces, the
//! game state that the gravity and input loops share, and the key bindings.

pub mod controls;
pub mod game;
pub mod grid;
pub mod piece;

pub use controls::{ConfigError, Controls, Key};
pub use game::{Command, Game, GravityOutcome};
pub use grid::{CollisionResult, RenderableObject};
pub use piece::Block;
