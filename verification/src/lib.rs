pub mod components;
pub mod laws;
pub mod store;
pub mod systems;
pub mod tracker;
