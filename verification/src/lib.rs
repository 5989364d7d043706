//! Engine for a color-sorting puzzle: capacity-bounded tubes hold stacked
//! runs of color, and the only move is to pour the top run of one tube into
//! another whose top color matches (or which is empty) and which has room.
//!
//! The crate provides the tube data model with its fill/drain/transfer
//! operations, exact rational completion scoring, a deterministic seeded
//! level generator that conserves the color units it distributes, the
//! selection state machine that turns pairs of "activate tube" events into
//! validated transfers, and the grid-layout factor derived from the tube
//! count. Rendering and input plumbing live outside the engine; they feed
//! in discrete activation events and read the tube state back.

pub mod fraction;
pub mod level;
pub mod menu;
pub mod rng;
pub mod tube;
