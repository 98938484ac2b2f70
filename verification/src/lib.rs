//! Server core for a shared, real-time minesweeper board.
//!
//! `game` holds the minefield model: grid generation, neighbor
//! computation, first-move protection, and the flood-fill reveal.
//! `messages` holds the wire vocabulary: parsing client commands and
//! encoding server events. `multiplayer` holds the room layer: one
//! minefield per room, membership, broadcast planning, and routing.

pub mod game;
pub mod messages;
pub mod multiplayer;
