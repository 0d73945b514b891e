//! Spatial interest management: which clients see which entities.
//!
//! The world is cut into partitions. Entities occupy partitions, clients
//! observe the partitions of a square window around the entity they control,
//! and the engine turns movement into the spawn, despawn and region messages
//! that keep each client's view consistent.
pub mod dispatch;
pub mod engine;
pub mod laws;
pub mod observers;
pub mod occupancy;
pub mod order;
pub mod partition_index;
pub mod sequence;
pub mod sorted_diff;
pub mod window;
