pub mod order;
pub mod robot;
pub mod station;
