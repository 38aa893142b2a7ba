use vstd::prelude::*;

use crate::components::order::OrderId;
use crate::components::station::StationId;
use crate::world::grid::Position;

verus! {

/// Type-safe robot identifier.
#[derive(Debug, Clone, Copy, PartialEq, Eq, Hash, Structural)]
pub struct RobotId(pub u32);

impl RobotId {
    /// The robot's slot in the world's robot list.
    pub open spec fn index(self) -> int {
        self.0 as int
    }
}

/// The states a robot can be in.
#[derive(Debug, Clone, Copy, PartialEq, Eq, Structural)]
pub enum RobotState {
    /// Waiting for the scheduler to assign a task
    Idle,
    /// Navigating to the shelf to pick up an order item
    RoutingToPickup { order_id: OrderId },
    /// Item collected; navigating to the dispatch zone to deliver it
    RoutingToDropoff { order_id: OrderId },
    /// Battery is below threshold; routing to charging station
    RoutingToCharge { station_id: StationId },
    /// At a charging station but waiting in the queue for a charging slot
    WaitingToCharge { station_id: StationId },
    /// At a charging station and actively being charged
    Charging { station_id: StationId },
}

/// A robot that is navigating somewhere (to a shelf, the dispatch zone or a charger).
pub open spec fn state_is_routing(s: RobotState) -> bool {
    s is RoutingToPickup || s is RoutingToDropoff || s is RoutingToCharge
}

/// A robot that is heading to, waiting at, or using a charger.
pub open spec fn state_in_charge_cycle(s: RobotState) -> bool {
    s is RoutingToCharge || s is WaitingToCharge || s is Charging
}

/// The discrete part of a robot's data. The battery level is a real number and
/// is kept beside the robot by the simulation driver.
#[derive(Debug, Clone)]
pub struct Robot {
    pub id: RobotId,
    pub position: Position,
    pub state: RobotState,
    /// Where the robot is ultimately trying to reach.
    /// The pathfinding system reads this every tick to compute planned_path.
    pub destination: Option<Position>,
    /// Step-by-step route to destination, computed by A* each tick.
    /// planned_path[0] is the very next tile to step onto.
    /// When this is empty the robot has arrived at destination.
    pub planned_path: Vec<Position>,
    /// True while the robot is carrying an order item (picked up, not yet delivered).
    pub is_carrying_payload: bool,
}

/// The mathematical content of a robot: its data with the route as a sequence.
pub struct RobotView {
    pub id: RobotId,
    pub position: Position,
    pub state: RobotState,
    pub destination: Option<Position>,
    pub planned_path: Seq<Position>,
    pub is_carrying_payload: bool,
}

impl View for Robot {
    type V = RobotView;

    open spec fn view(&self) -> RobotView {
        RobotView {
            id: self.id,
            position: self.position,
            state: self.state,
            destination: self.destination,
            planned_path: self.planned_path@,
            is_carrying_payload: self.is_carrying_payload,
        }
    }
}

/// The views of a sequence of robots.
pub open spec fn robots_view(robots: Seq<Robot>) -> Seq<RobotView> {
    robots.map_values(|r: Robot| r@)
}

impl Robot {
    pub fn new(id: RobotId, position: Position) -> (r: Self)
        ensures
            r.id == id,
            r.position == position,
            r.state == RobotState::Idle,
            r.destination is None,
            r.planned_path@.len() == 0,
            !r.is_carrying_payload,
    {
        Robot {
            id,
            position,
            state: RobotState::Idle,
            destination: None,
            planned_path: Vec::new(),
            is_carrying_payload: false,
        }
    }

    /// True if the robot can accept a new task from the scheduler.
    pub fn is_idle(&self) -> (b: bool)
        ensures
            b == (self.state == RobotState::Idle),
    {
        self.state == RobotState::Idle
    }

    /// True if the robot is actively navigating somewhere.
    pub fn is_routing(&self) -> (b: bool)
        ensures
            b == state_is_routing(self.state),
    {
        match self.state {
            RobotState::RoutingToPickup { .. }
            | RobotState::RoutingToDropoff { .. }
            | RobotState::RoutingToCharge { .. } => true,
            _ => false,
        }
    }
}

} // verus!
