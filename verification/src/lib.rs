//! Turn-based simulation core for a grid dungeon crawler: procedural map
//! generation, field-of-view computation, monster decision making, combat
//! resolution, inventory transfer and item targeting.
//!
//! A turn is one pass of [`turn::run_systems`] over a [`world::World`]:
//! visibility, monster AI, the spatial index rebuild, the two combat
//! stages, the inventory queues and the item targeting engine, followed by
//! the deferred-deletion commit.  The shell around the core supplies input
//! by filling the intent queues and renders from the map's bitsets.

pub mod ai;
pub mod combat;
pub mod fov;
pub mod inventory;
pub mod items;
pub mod map;
pub mod rect;
pub mod rng;
pub mod spatial;
pub mod visibility;
pub mod turn;
pub mod world;
