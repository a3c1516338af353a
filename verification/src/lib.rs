//! Procedural dungeon layouts on a fixed tile grid.
//!
//! A map is built in stages: the grid is divided into a lattice of sectors,
//! every sector receives a room, neighbouring rooms are linked at random,
//! the links are completed until every real room can be reached from the
//! spawn room, and the result is carved into the grid as rooms, merged rooms
//! and corridors.

pub mod carve;
pub mod carver;
pub mod cluster;
pub mod dice;
pub mod grid;
pub mod lattice;
pub mod links;
pub mod maker;
pub mod paths;
pub mod repair;
pub mod rooms;
pub mod sectors;
pub mod tunnel;
pub mod walk;
