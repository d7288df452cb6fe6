pub mod container;
pub mod delta;
pub mod display;
pub mod events;
pub mod geometry;
mod ids;
pub mod monitor;
pub mod pending_sync;
pub mod seq_util;
pub mod vec_deque_ext;
