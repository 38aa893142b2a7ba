pub mod components;
pub mod config;
pub mod consistency;
pub mod metrics;
pub mod orders_law;
pub mod random;
pub mod setup;
pub mod simulation;
pub mod systems;
pub mod world;
