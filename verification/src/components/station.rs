use std::collections::VecDeque;
use vstd::prelude::*;

use crate::components::robot::RobotId;
use crate::world::grid::Position;

verus! {

broadcast use vstd::std_specs::vecdeque::axiom_spec_len;

/// Type-safe charging station identifier.
#[derive(Debug, Clone, Copy, PartialEq, Eq, Hash, Structural)]
pub struct StationId(pub u32);

/// A charging station in the warehouse.
/// One robot can charge at a time; all others wait in a FIFO queue.
#[derive(Debug, Clone)]
pub struct ChargingStation {
    pub id: StationId,
    pub position: Position,
    /// The robot currently occupying the charging slot (None = station is free)
    pub charging_robot: Option<RobotId>,
    /// Robots that have arrived and are waiting for a free slot, in arrival order
    pub queue: VecDeque<RobotId>,
}

/// The mathematical content of a station: its data with the queue as a sequence.
pub struct StationView {
    pub id: StationId,
    pub position: Position,
    pub charging_robot: Option<RobotId>,
    pub queue: Seq<RobotId>,
}

impl View for ChargingStation {
    type V = StationView;

    open spec fn view(&self) -> StationView {
        StationView {
            id: self.id,
            position: self.position,
            charging_robot: self.charging_robot,
            queue: self.queue@,
        }
    }
}

/// The views of a sequence of stations.
pub open spec fn stations_view(stations: Seq<ChargingStation>) -> Seq<StationView> {
    stations.map_values(|s: ChargingStation| s@)
}

/// Number of robots waiting at or charging in a station.
pub open spec fn station_load(s: ChargingStation) -> nat {
    s.queue@.len() + if s.charging_robot is Some { 1nat } else { 0nat }
}

impl ChargingStation {
    pub fn new(id: StationId, position: Position) -> (s: Self)
        ensures
            s.id == id,
            s.position == position,
            s.charging_robot is None,
            s.queue@.len() == 0,
    {
        ChargingStation { id, position, charging_robot: None, queue: VecDeque::new() }
    }

    /// True if no robot is currently using the charging slot.
    pub fn is_free(&self) -> (b: bool)
        ensures
            b == (self.charging_robot is None),
    {
        self.charging_robot.is_none()
    }

    /// Total number of robots waiting or charging here (for metrics and scheduler).
    pub fn total_load(&self) -> (n: usize)
        requires
            self.queue@.len() < usize::MAX,
        ensures
            n == station_load(*self),
    {
        self.queue.len() + if self.charging_robot.is_some() {
            1
        } else {
            0
        }
    }

    /// Adds a robot to the back of the waiting queue.
    pub fn enqueue(&mut self, robot_id: RobotId)
        ensures
            final(self).id == old(self).id,
            final(self).position == old(self).position,
            final(self).charging_robot == old(self).charging_robot,
            final(self).queue@ == old(self).queue@.push(robot_id),
            station_load(*final(self)) == station_load(*old(self)) + 1,
    {
        self.queue.push_back(robot_id);
    }

    /// If the station is free, pulls the next robot from the queue into the
    /// charging slot. Returns that robot's ID if one was started.
    pub fn try_advance_queue(&mut self) -> (started: Option<RobotId>)
        ensures
            final(self).id == old(self).id,
            final(self).position == old(self).position,
            old(self).charging_robot is None && old(self).queue@.len() > 0 ==> {
                &&& started == Some(old(self).queue@[0])
                &&& final(self).charging_robot == started
                &&& final(self).queue@ == old(self).queue@.drop_first()
            },
            !(old(self).charging_robot is None && old(self).queue@.len() > 0) ==> {
                &&& started is None
                &&& final(self).charging_robot == old(self).charging_robot
                &&& final(self).queue@ == old(self).queue@
            },
            station_load(*final(self)) == station_load(*old(self)),
    {
        if self.charging_robot.is_none() {
            if let Some(next) = self.queue.pop_front() {
                self.charging_robot = Some(next);
                return Some(next);
            }
        }
        None
    }

    /// Called when the robot currently charging has finished. Clears the slot.
    pub fn finish_charging(&mut self)
        ensures
            final(self).id == old(self).id,
            final(self).position == old(self).position,
            final(self).charging_robot is None,
            final(self).queue == old(self).queue,
    {
        self.charging_robot = None;
    }
}

} // verus!
