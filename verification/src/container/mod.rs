pub mod error;
pub mod focus;
pub mod laws;
pub mod model;
pub mod monitors;
pub mod move_focus;
pub mod tree;
