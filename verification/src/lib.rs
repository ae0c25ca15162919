//! The simulation behind a game of cards on a table.
//!
//! Cards lie on the table, alone or in stacks. The player picks them up, lays them onto
//! each other and puts villagers into the slots of woods. Stacks of two villagers breed,
//! woods with a villager yield logs, and the tile of the enemies sends goblins, which hunt
//! the villagers and fight them.
//!
//! Lengths are counted in thousandths of a world unit and times in milliseconds, so that
//! the simulation runs on whole numbers alone.
//!
//! - [`table`] holds everything together and runs the phases of a tick in their order.
//! - [`cards`], [`timer`] and [`board`] hold the cards, the progress bars and the tiles,
//!   each under a lasting identity.
//! - [`chain`] is the theory of stacks; [`stack`] walks and builds them, [`breeding`]
//!   classifies them and runs their recipes, and [`registry`] keeps their classification.
//! - [`select`] is the player's hand, [`tile`] the slot of a tile and the grid.
//! - [`combat`] moves the enemies and deals the blows.
//! - [`card`], [`counts`] and [`geometry`] hold the plain parts: kinds and numbers of
//!   cards, counts of kinds, positions and distances.

pub mod board;
pub mod breeding;
pub mod card;
pub mod cards;
pub mod chain;
pub mod combat;
pub mod counts;
pub mod geometry;
pub mod registry;
pub mod select;
pub mod stack;
pub mod table;
pub mod tile;
pub mod timer;
