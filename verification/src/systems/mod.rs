pub mod charging;
pub mod movement;
pub mod order_generator;
pub mod pathfinding;
pub mod scheduler;
