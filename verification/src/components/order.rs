use vstd::prelude::*;

use crate::components::robot::RobotId;
use crate::world::grid::Position;

verus! {

/// Type-safe order identifier.
#[derive(Debug, Clone, Copy, PartialEq, Eq, Hash, Structural)]
pub struct OrderId(pub u32);

/// Where an order is in its life cycle.
#[derive(Debug, Clone, Copy, PartialEq, Eq, Structural)]
pub enum OrderStatus {
    /// Waiting to be assigned to a robot
    Pending,
    /// A robot is carrying it out
    InProgress,
    /// Delivered to the dispatch zone
    Completed,
}

/// A customer order: one item to fetch from a shelf and deliver to dispatch.
#[derive(Debug, Clone, Copy, PartialEq, Eq, Structural)]
pub struct Order {
    pub id: OrderId,
    pub pickup_location: Position,
    pub status: OrderStatus,
    pub assigned_to: Option<RobotId>,
    pub created_at_tick: u64,
    pub completed_at_tick: Option<u64>,
}

impl Order {
    pub fn new(id: OrderId, pickup_location: Position, created_at_tick: u64) -> (o: Self)
        ensures
            o == (Order {
                id,
                pickup_location,
                status: OrderStatus::Pending,
                assigned_to: None,
                created_at_tick,
                completed_at_tick: None,
            }),
    {
        Order {
            id,
            pickup_location,
            status: OrderStatus::Pending,
            assigned_to: None,
            created_at_tick,
            completed_at_tick: None,
        }
    }

    /// Ticks from creation to delivery, once the order is delivered.
    pub fn fulfillment_time(&self) -> (t: Option<u64>)
        requires
            self.completed_at_tick matches Some(c) ==> c >= self.created_at_tick,
        ensures
            t == (match self.completed_at_tick {
                Some(c) => Some((c - self.created_at_tick) as u64),
                None => None,
            }),
    {
        match self.completed_at_tick {
            Some(c) => Some(c - self.created_at_tick),
            None => None,
        }
    }
}

} // verus!
