pub mod grid;

use vstd::prelude::*;

use crate::components::order::{Order, OrderId, OrderStatus};
use crate::components::robot::{robots_view, Robot, RobotId, RobotState};
use crate::components::station::{stations_view, ChargingStation};
use grid::{Grid, Position, TileKind};

verus! {

/// Index of the first order with the given id, or -1 when there is none.
pub open spec fn first_index(s: Seq<Order>, id: OrderId) -> int
    decreases s.len(),
{
    if s.len() == 0 {
        -1
    } else if s[0].id == id {
        0
    } else {
        let k = first_index(s.drop_first(), id);
        if k < 0 {
            -1
        } else {
            k + 1
        }
    }
}

/// `first_index` is the least index holding the id, or -1 when no index does.
pub proof fn lemma_first_index(s: Seq<Order>, id: OrderId)
    ensures
        -1 <= first_index(s, id) < s.len(),
        first_index(s, id) >= 0 ==> s[first_index(s, id)].id == id,
        forall|j: int| 0 <= j < first_index(s, id) ==> s[j].id != id,
        first_index(s, id) < 0 ==> forall|j: int| 0 <= j < s.len() ==> s[j].id != id,
    decreases s.len(),
{
    if s.len() > 0 && s[0].id != id {
        let t = s.drop_first();
        lemma_first_index(t, id);
        assert forall|j: int| 1 <= j < s.len() implies s[j] == t[j - 1] by {}
    }
}

/// The ids of a list of orders, in order.
pub open spec fn order_ids(s: Seq<Order>) -> Seq<OrderId> {
    s.map_values(|o: Order| o.id)
}

/// Moving an order from one list to the end of another, keeping its id,
/// keeps the ids held by the two lists together.
pub proof fn lemma_move_order(a: Seq<Order>, b: Seq<Order>, k: int, moved: Order)
    requires
        0 <= k < a.len(),
        moved.id == a[k].id,
    ensures
        order_ids(a.remove(k)).to_multiset().add(order_ids(b.push(moved)).to_multiset())
            == order_ids(a).to_multiset().add(order_ids(b).to_multiset()),
{
    broadcast use vstd::seq_lib::group_to_multiset_ensures;
    broadcast use vstd::multiset::group_multiset_axioms;

    assert(order_ids(a.remove(k)) =~= order_ids(a).remove(k));
    assert(order_ids(b.push(moved)) =~= order_ids(b).push(a[k].id));
    assert(order_ids(a)[k] == a[k].id);
    let ma = order_ids(a).to_multiset();
    let mb = order_ids(b).to_multiset();
    assert(ma.count(a[k].id) > 0) by {
        assert(order_ids(a).contains(a[k].id));
    }
    assert(ma.remove(a[k].id).add(mb.insert(a[k].id)) =~= ma.add(mb));
}

/// Finds the first order carrying `id`.
pub fn find_order(orders: &Vec<Order>, id: OrderId) -> (r: Option<usize>)
    ensures
        match r {
            Some(k) => k < orders@.len() && k == first_index(orders@, id),
            None => first_index(orders@, id) < 0,
        },
{
    proof {
        lemma_first_index(orders@, id);
    }
    let mut i: usize = 0;
    while i < orders.len()
        invariant
            i <= orders@.len(),
            forall|j: int| 0 <= j < i ==> orders@[j].id != id,
            -1 <= first_index(orders@, id) < orders@.len(),
            first_index(orders@, id) >= 0 ==> orders@[first_index(orders@, id)].id == id,
            forall|j: int| 0 <= j < first_index(orders@, id) ==> orders@[j].id != id,
            first_index(orders@, id) < 0 ==> forall|j: int|
                0 <= j < orders@.len() ==> orders@[j].id != id,
        decreases orders@.len() - i,
    {
        if orders[i].id == id {
            return Some(i);
        }
        i = i + 1;
    }
    None
}

/// A pending order: waiting, owned by no robot, created in the past.
pub open spec fn pending_ok(o: Order, tick: u64) -> bool {
    &&& o.status == OrderStatus::Pending
    &&& o.assigned_to is None
    &&& o.created_at_tick <= tick
}

/// An active order: in progress and owned by a robot whose task is this order.
pub open spec fn active_ok(o: Order, robots: Seq<Robot>, tick: u64) -> bool {
    &&& o.status == OrderStatus::InProgress
    &&& o.created_at_tick <= tick
    &&& o.assigned_to is Some
    &&& 0 <= o.assigned_to->0.index() < robots.len()
    &&& order_of(robots[o.assigned_to->0.index()].state) == Some(o.id)
}

/// A completed order: delivered between its creation and now.
pub open spec fn completed_ok(o: Order, tick: u64) -> bool {
    &&& o.status == OrderStatus::Completed
    &&& o.completed_at_tick is Some
    &&& o.created_at_tick <= o.completed_at_tick->0 <= tick
}

/// A robot carries an item exactly when it heads to the dispatch zone, and
/// the order its task names is an active order assigned to it.
pub open spec fn robot_task_ok(r: Robot, active: Seq<Order>) -> bool {
    &&& (r.is_carrying_payload <==> r.state is RoutingToDropoff)
    &&& (order_of(r.state) is Some ==> exists|k: int|
        0 <= k < active.len() && (#[trigger] active[k]).id == order_of(r.state)->0
            && active[k].assigned_to == Some(r.id))
}

/// The World is the single source of truth for all simulation state.
/// Every system function takes `&mut World` and reads or writes to this struct.
///
/// Robots and stations are kept in vectors indexed by their ids:
/// `robots[i].id == RobotId(i)` and `stations[i].id == StationId(i)`.
#[derive(Debug)]
pub struct World {
    pub grid: Grid,
    pub robots: Vec<Robot>,
    pub stations: Vec<ChargingStation>,
    /// Orders waiting to be assigned to a robot
    pub pending_orders: Vec<Order>,
    /// Orders a robot is currently carrying out
    pub active_orders: Vec<Order>,
    /// Orders that have been fully delivered
    pub completed_orders: Vec<Order>,
    /// The single drop-off tile where robots deliver completed orders
    pub dispatch_position: Position,
    /// Auto-incrementing counter for unique OrderIds
    pub next_order_id: u32,
    pub tick: u64,
}

/// A station id that names one of `n` stations.
pub open spec fn station_ref_ok(s: RobotState, n: int) -> bool {
    match s {
        RobotState::RoutingToCharge { station_id } => station_id.0 < n,
        RobotState::WaitingToCharge { station_id } => station_id.0 < n,
        RobotState::Charging { station_id } => station_id.0 < n,
        _ => true,
    }
}

/// The order that an order-carrying robot state refers to.
pub open spec fn order_of(s: RobotState) -> Option<OrderId> {
    match s {
        RobotState::RoutingToPickup { order_id } => Some(order_id),
        RobotState::RoutingToDropoff { order_id } => Some(order_id),
        _ => None,
    }
}

impl World {
    /// Shape of a robot: its id matches its slot, it stands on the grid, its
    /// route stays on the grid and any station it refers to exists.
    pub open spec fn robot_ok(&self, i: int) -> bool {
        let r = self.robots@[i];
        &&& r.id.0 == i
        &&& self.grid.in_bounds(r.position)
        &&& forall|k: int|
            0 <= k < r.planned_path@.len() ==> self.grid.in_bounds(#[trigger] r.planned_path@[k])
        &&& (r.destination matches Some(d) ==> self.grid.in_bounds(d))
        &&& station_ref_ok(r.state, self.stations@.len() as int)
    }

    /// Shape of a station: its id matches its slot, it stands on the grid and
    /// every robot it refers to exists.
    pub open spec fn station_ok(&self, i: int) -> bool {
        let s = self.stations@[i];
        &&& s.id.0 == i
        &&& self.grid.in_bounds(s.position)
        &&& (s.charging_robot matches Some(r) ==> r.0 < self.robots@.len())
        &&& forall|k: int| 0 <= k < s.queue@.len() ==> (#[trigger] s.queue@[k]).0 < self.robots@.len()
    }

    /// Structural well-formedness of the world.
    pub open spec fn wf(&self) -> bool {
        &&& self.grid.wf()
        &&& self.grid.in_bounds(self.dispatch_position)
        &&& forall|i: int| 0 <= i < self.robots@.len() ==> #[trigger] self.robot_ok(i)
        &&& forall|i: int| 0 <= i < self.stations@.len() ==> #[trigger] self.station_ok(i)
        &&& forall|i: int|
            0 <= i < self.pending_orders@.len() ==> self.grid.in_bounds(
                (#[trigger] self.pending_orders@[i]).pickup_location,
            )
        &&& forall|i: int|
            0 <= i < self.active_orders@.len() ==> self.grid.in_bounds(
                (#[trigger] self.active_orders@[i]).pickup_location,
            )
    }

    /// The ids of all orders the world holds: pending, active and completed.
    pub open spec fn order_id_multiset(&self) -> vstd::multiset::Multiset<OrderId> {
        order_ids(self.pending_orders@).to_multiset().add(
            order_ids(self.active_orders@).to_multiset(),
        ).add(order_ids(self.completed_orders@).to_multiset())
    }

    /// Orders agree with robot tasks and with time: no order id occurs
    /// twice, every id was handed out, each list holds orders in its own
    /// status, each active order belongs to the robot whose task it is, and
    /// each order-carrying robot owns its active order.
    pub open spec fn orders_consistent(&self) -> bool {
        let ms = self.order_id_multiset();
        &&& forall|x: OrderId| #[trigger] ms.count(x) <= 1
        &&& forall|x: OrderId| #[trigger] ms.count(x) > 0 ==> x.0 < self.next_order_id
        &&& forall|k: int|
            0 <= k < self.pending_orders@.len() ==> pending_ok(
                #[trigger] self.pending_orders@[k],
                self.tick,
            )
        &&& forall|k: int|
            0 <= k < self.active_orders@.len() ==> active_ok(
                #[trigger] self.active_orders@[k],
                self.robots@,
                self.tick,
            )
        &&& forall|k: int|
            0 <= k < self.completed_orders@.len() ==> completed_ok(
                #[trigger] self.completed_orders@[k],
                self.tick,
            )
        &&& forall|r: int|
            0 <= r < self.robots@.len() ==> robot_task_ok(#[trigger] self.robots@[r], self.active_orders@)
    }

    /// Station bookkeeping agrees with robot states: a robot is in a
    /// station's queue (once) exactly when it waits there, and holds a
    /// station's charging slot exactly when it charges there.
    pub open spec fn fleet_consistent(&self) -> bool {
        crate::consistency::fleet_ok(robots_view(self.robots@), stations_view(self.stations@))
    }

    pub fn new(
        grid: Grid,
        robots: Vec<Robot>,
        stations: Vec<ChargingStation>,
        dispatch_position: Position,
    ) -> (w: Self)
        ensures
            w.grid == grid,
            w.robots == robots,
            w.stations == stations,
            w.pending_orders@.len() == 0,
            w.active_orders@.len() == 0,
            w.completed_orders@.len() == 0,
            w.dispatch_position == dispatch_position,
            w.next_order_id == 0,
            w.tick == 0,
    {
        World {
            grid,
            robots,
            stations,
            pending_orders: Vec::new(),
            active_orders: Vec::new(),
            completed_orders: Vec::new(),
            dispatch_position,
            next_order_id: 0,
            tick: 0,
        }
    }

    /// Creates a new order and places it in the pending queue.
    pub fn inject_order(&mut self, pickup_location: Position)
        requires
            old(self).next_order_id < u32::MAX,
        ensures
            final(self).order_id_multiset() == old(self).order_id_multiset().insert(
                OrderId(old(self).next_order_id),
            ),
            final(self).next_order_id == old(self).next_order_id + 1,
            final(self).pending_orders@ == old(self).pending_orders@.push(
                Order {
                    id: OrderId(old(self).next_order_id),
                    pickup_location,
                    status: OrderStatus::Pending,
                    assigned_to: None,
                    created_at_tick: old(self).tick,
                    completed_at_tick: None,
                },
            ),
            final(self).grid == old(self).grid,
            final(self).robots == old(self).robots,
            final(self).stations == old(self).stations,
            final(self).active_orders == old(self).active_orders,
            final(self).completed_orders == old(self).completed_orders,
            final(self).dispatch_position == old(self).dispatch_position,
            final(self).tick == old(self).tick,
            old(self).orders_consistent() ==> final(self).orders_consistent(),
    {
        let id = OrderId(self.next_order_id);
        self.next_order_id = self.next_order_id + 1;
        let order = Order::new(id, pickup_location, self.tick);
        let ghost p0 = self.pending_orders@;
        self.pending_orders.push(order);
        proof {
            broadcast use vstd::seq_lib::group_to_multiset_ensures;
            broadcast use vstd::multiset::group_multiset_axioms;

            assert(order_ids(self.pending_orders@) =~= order_ids(p0).push(id));
            assert(self.order_id_multiset() =~= old(self).order_id_multiset().insert(id));
            if old(self).orders_consistent() {
                crate::orders_law::lemma_orders_inject(*old(self), *self, order);
            }
        }
    }

    /// Moves an order from pending to active and records which robot owns it.
    /// Does nothing when no pending order carries the id.
    pub fn assign_order(&mut self, order_id: OrderId, robot_id: RobotId)
        ensures
            final(self).order_id_multiset() == old(self).order_id_multiset(),
            ({
                let k = first_index(old(self).pending_orders@, order_id);
                if k >= 0 {
                    &&& final(self).pending_orders@ == old(self).pending_orders@.remove(k)
                    &&& final(self).active_orders@ == old(self).active_orders@.push(
                        Order {
                            status: OrderStatus::InProgress,
                            assigned_to: Some(robot_id),
                            ..old(self).pending_orders@[k]
                        },
                    )
                } else {
                    &&& final(self).pending_orders == old(self).pending_orders
                    &&& final(self).active_orders == old(self).active_orders
                }
            }),
            final(self).grid == old(self).grid,
            final(self).robots == old(self).robots,
            final(self).stations == old(self).stations,
            final(self).completed_orders == old(self).completed_orders,
            final(self).dispatch_position == old(self).dispatch_position,
            final(self).next_order_id == old(self).next_order_id,
            final(self).tick == old(self).tick,
    {
        if let Some(pos) = find_order(&self.pending_orders, order_id) {
            let ghost p0 = self.pending_orders@;
            let mut order = self.pending_orders.remove(pos);
            order.status = OrderStatus::InProgress;
            order.assigned_to = Some(robot_id);
            self.active_orders.push(order);
            proof {
                lemma_move_order(p0, old(self).active_orders@, pos as int, order);
            }
        }
    }

    /// Moves an order from active to completed and stamps the completion tick.
    /// Does nothing when no active order carries the id.
    pub fn complete_order(&mut self, order_id: OrderId)
        ensures
            final(self).order_id_multiset() == old(self).order_id_multiset(),
            ({
                let k = first_index(old(self).active_orders@, order_id);
                if k >= 0 {
                    &&& final(self).active_orders@ == old(self).active_orders@.remove(k)
                    &&& final(self).completed_orders@ == old(self).completed_orders@.push(
                        Order {
                            status: OrderStatus::Completed,
                            completed_at_tick: Some(old(self).tick),
                            ..old(self).active_orders@[k]
                        },
                    )
                } else {
                    &&& final(self).active_orders == old(self).active_orders
                    &&& final(self).completed_orders == old(self).completed_orders
                }
            }),
            final(self).grid == old(self).grid,
            final(self).robots == old(self).robots,
            final(self).stations == old(self).stations,
            final(self).pending_orders == old(self).pending_orders,
            final(self).dispatch_position == old(self).dispatch_position,
            final(self).next_order_id == old(self).next_order_id,
            final(self).tick == old(self).tick,
    {
        if let Some(pos) = find_order(&self.active_orders, order_id) {
            let ghost a0 = self.active_orders@;
            let mut order = self.active_orders.remove(pos);
            order.status = OrderStatus::Completed;
            order.completed_at_tick = Some(self.tick);
            self.completed_orders.push(order);
            proof {
                broadcast use vstd::multiset::group_multiset_axioms;

                lemma_move_order(a0, old(self).completed_orders@, pos as int, order);
                let a1 = order_ids(self.active_orders@).to_multiset();
                let c1 = order_ids(self.completed_orders@).to_multiset();
                let a0m = order_ids(a0).to_multiset();
                let c0 = order_ids(old(self).completed_orders@).to_multiset();
                assert forall|x: OrderId| #[trigger] self.order_id_multiset().count(x) == old(self).order_id_multiset().count(x) by {
                    assert(a1.add(c1).count(x) == a0m.add(c0).count(x));
                }
                assert(self.order_id_multiset() =~= old(self).order_id_multiset());
            }
        }
    }

    /// All shelf tile positions — used by the order generator to pick a destination.
    pub fn shelf_positions(&self) -> (r: Vec<Position>)
        requires
            self.grid.wf(),
        ensures
            r@ == grid::all_positions(self.grid.width, self.grid.height).filter(
                |p: Position| self.grid.tile(p) == TileKind::ShelfLocation,
            ),
    {
        self.grid.positions_of_kind(TileKind::ShelfLocation)
    }

    /// Gives robot `i` a new task: state, destination and payload flag.
    pub(crate) fn set_task(
        &mut self,
        i: usize,
        state: RobotState,
        destination: Option<Position>,
        carrying: bool,
    )
        requires
            old(self).wf(),
            i < old(self).robots@.len(),
            station_ref_ok(state, old(self).stations@.len() as int),
            destination matches Some(d) ==> old(self).grid.in_bounds(d),
        ensures
            final(self).wf(),
            final(self).robots@ == old(self).robots@.update(
                i as int,
                Robot {
                    state,
                    destination,
                    is_carrying_payload: carrying,
                    ..old(self).robots@[i as int]
                },
            ),
            final(self).grid == old(self).grid,
            final(self).stations == old(self).stations,
            final(self).pending_orders == old(self).pending_orders,
            final(self).active_orders == old(self).active_orders,
            final(self).completed_orders == old(self).completed_orders,
            final(self).dispatch_position == old(self).dispatch_position,
            final(self).next_order_id == old(self).next_order_id,
            final(self).tick == old(self).tick,
    {
        let ghost before = self.robots@;
        self.robots[i].state = state;
        self.robots[i].destination = destination;
        self.robots[i].is_carrying_payload = carrying;
        proof {
            assert(self.robots@ =~= before.update(
                i as int,
                Robot {
                    state,
                    destination,
                    is_carrying_payload: carrying,
                    ..before[i as int]
                },
            ));
            assert forall|j: int| 0 <= j < self.robots@.len() implies #[trigger] self.robot_ok(j) by {
                assert(old(self).robot_ok(j));
                if j != i {
                    assert(self.robots@[j] == before[j]);
                }
            }
            assert forall|j: int| 0 <= j < self.stations@.len() implies #[trigger] self.station_ok(j) by {
                assert(old(self).station_ok(j));
            }
        }
    }

    /// Gives robot `k` a new route that stays on the grid.
    pub(crate) fn set_route(&mut self, k: usize, path: Vec<Position>)
        requires
            old(self).wf(),
            k < old(self).robots@.len(),
            forall|m: int| 0 <= m < path@.len() ==> old(self).grid.in_bounds(#[trigger] path@[m]),
        ensures
            final(self).wf(),
            final(self).robots@.len() == old(self).robots@.len(),
            final(self).robots@[k as int].planned_path@ == path@,
            final(self).robots@[k as int].id == old(self).robots@[k as int].id,
            final(self).robots@[k as int].position == old(self).robots@[k as int].position,
            final(self).robots@[k as int].state == old(self).robots@[k as int].state,
            final(self).robots@[k as int].destination == old(self).robots@[k as int].destination,
            final(self).robots@[k as int].is_carrying_payload == old(self).robots@[k as int].is_carrying_payload,
            forall|j: int| 0 <= j < old(self).robots@.len() && j != k ==> #[trigger] final(self).robots@[j] == old(self).robots@[j],
            final(self).grid == old(self).grid,
            final(self).stations == old(self).stations,
            final(self).pending_orders == old(self).pending_orders,
            final(self).active_orders == old(self).active_orders,
            final(self).completed_orders == old(self).completed_orders,
            final(self).dispatch_position == old(self).dispatch_position,
            final(self).next_order_id == old(self).next_order_id,
            final(self).tick == old(self).tick,
    {
        let ghost before = self.robots@;
        self.robots[k].planned_path = path;
        proof {
            assert forall|j: int| 0 <= j < self.robots@.len() implies #[trigger] self.robot_ok(j) by {
                assert(old(self).robot_ok(j));
                if j != k {
                    assert(self.robots@[j] == before[j]);
                }
            }
            assert forall|j: int| 0 <= j < self.stations@.len() implies #[trigger] self.station_ok(j) by {
                assert(old(self).station_ok(j));
            }
        }
    }

    /// Adds robot `robot_id` to the back of station `s`'s queue.
    pub(crate) fn enqueue_at(&mut self, s: usize, robot_id: RobotId)
        requires
            old(self).wf(),
            s < old(self).stations@.len(),
            robot_id.0 < old(self).robots@.len(),
        ensures
            final(self).wf(),
            final(self).stations@.len() == old(self).stations@.len(),
            final(self).stations@[s as int].queue@ == old(self).stations@[s as int].queue@.push(robot_id),
            final(self).stations@[s as int].id == old(self).stations@[s as int].id,
            final(self).stations@[s as int].position == old(self).stations@[s as int].position,
            final(self).stations@[s as int].charging_robot == old(self).stations@[s as int].charging_robot,
            forall|j: int| 0 <= j < old(self).stations@.len() && j != s ==> #[trigger] final(self).stations@[j] == old(self).stations@[j],
            final(self).grid == old(self).grid,
            final(self).robots == old(self).robots,
            final(self).pending_orders == old(self).pending_orders,
            final(self).active_orders == old(self).active_orders,
            final(self).completed_orders == old(self).completed_orders,
            final(self).dispatch_position == old(self).dispatch_position,
            final(self).next_order_id == old(self).next_order_id,
            final(self).tick == old(self).tick,
    {
        let ghost before = self.stations@;
        self.stations[s].enqueue(robot_id);
        proof {
            assert forall|j: int| 0 <= j < self.robots@.len() implies #[trigger] self.robot_ok(j) by {
                assert(old(self).robot_ok(j));
            }
            assert forall|j: int| 0 <= j < self.stations@.len() implies #[trigger] self.station_ok(j) by {
                assert(old(self).station_ok(j));
                if j != s {
                    assert(self.stations@[j] == before[j]);
                } else {
                    let st = self.stations@[j];
                    assert forall|k: int| 0 <= k < st.queue@.len() implies (#[trigger] st.queue@[k]).0 < self.robots@.len() by {
                        if k < before[j].queue@.len() {
                            assert(st.queue@[k] == before[j].queue@[k]);
                        }
                    }
                }
            }
        }
    }

    /// Clears the charging slot of station `s`.
    pub(crate) fn finish_charging_at(&mut self, s: usize)
        requires
            old(self).wf(),
            s < old(self).stations@.len(),
        ensures
            final(self).wf(),
            final(self).stations@ == old(self).stations@.update(
                s as int,
                ChargingStation { charging_robot: None, ..old(self).stations@[s as int] },
            ),
            final(self).grid == old(self).grid,
            final(self).robots == old(self).robots,
            final(self).pending_orders == old(self).pending_orders,
            final(self).active_orders == old(self).active_orders,
            final(self).completed_orders == old(self).completed_orders,
            final(self).dispatch_position == old(self).dispatch_position,
            final(self).next_order_id == old(self).next_order_id,
            final(self).tick == old(self).tick,
    {
        let ghost before = self.stations@;
        self.stations[s].finish_charging();
        proof {
            assert(self.stations@ =~= before.update(
                s as int,
                ChargingStation { charging_robot: None, ..before[s as int] },
            ));
            assert forall|j: int| 0 <= j < self.robots@.len() implies #[trigger] self.robot_ok(j) by {
                assert(old(self).robot_ok(j));
            }
            assert forall|j: int| 0 <= j < self.stations@.len() implies #[trigger] self.station_ok(j) by {
                assert(old(self).station_ok(j));
            }
        }
    }

    /// Pulls the next robot of station `s`'s queue into its free charging slot.
    pub(crate) fn try_advance_at(&mut self, s: usize) -> (started: Option<RobotId>)
        requires
            old(self).wf(),
            s < old(self).stations@.len(),
        ensures
            final(self).wf(),
            final(self).stations@.len() == old(self).stations@.len(),
            forall|j: int| 0 <= j < old(self).stations@.len() && j != s ==> #[trigger] final(self).stations@[j] == old(self).stations@[j],
            ({
                let st0 = old(self).stations@[s as int];
                let st1 = final(self).stations@[s as int];
                &&& st1.id == st0.id
                &&& st1.position == st0.position
                &&& if st0.charging_robot is None && st0.queue@.len() > 0 {
                    &&& started == Some(st0.queue@[0])
                    &&& st1.charging_robot == started
                    &&& st1.queue@ == st0.queue@.drop_first()
                } else {
                    &&& started is None
                    &&& st1.charging_robot == st0.charging_robot
                    &&& st1.queue@ == st0.queue@
                }
            }),
            started matches Some(r) ==> r.0 < old(self).robots@.len(),
            final(self).grid == old(self).grid,
            final(self).robots == old(self).robots,
            final(self).pending_orders == old(self).pending_orders,
            final(self).active_orders == old(self).active_orders,
            final(self).completed_orders == old(self).completed_orders,
            final(self).dispatch_position == old(self).dispatch_position,
            final(self).next_order_id == old(self).next_order_id,
            final(self).tick == old(self).tick,
    {
        let ghost before = self.stations@;
        proof {
            assert(old(self).station_ok(s as int));
        }
        let started = self.stations[s].try_advance_queue();
        proof {
            assert forall|j: int| 0 <= j < self.robots@.len() implies #[trigger] self.robot_ok(j) by {
                assert(old(self).robot_ok(j));
            }
            assert forall|j: int| 0 <= j < self.stations@.len() implies #[trigger] self.station_ok(j) by {
                assert(old(self).station_ok(j));
                if j != s {
                    assert(self.stations@[j] == before[j]);
                } else {
                    let st = self.stations@[j];
                    assert forall|k: int| 0 <= k < st.queue@.len() implies (#[trigger] st.queue@[k]).0 < self.robots@.len() by {
                        if before[j].charging_robot is None && before[j].queue@.len() > 0 {
                            assert(st.queue@[k] == before[j].queue@[k + 1]);
                        }
                    }
                }
            }
        }
        started
    }

    pub fn advance_tick(&mut self)
        requires
            old(self).tick < u64::MAX,
        ensures
            final(self).tick == old(self).tick + 1,
            final(self).grid == old(self).grid,
            final(self).robots == old(self).robots,
            final(self).stations == old(self).stations,
            final(self).pending_orders == old(self).pending_orders,
            final(self).active_orders == old(self).active_orders,
            final(self).completed_orders == old(self).completed_orders,
            final(self).dispatch_position == old(self).dispatch_position,
            final(self).next_order_id == old(self).next_order_id,
            old(self).orders_consistent() ==> final(self).orders_consistent(),
    {
        self.tick = self.tick + 1;
        proof {
            if old(self).orders_consistent() {
                crate::orders_law::lemma_orders_tick(*old(self), *self);
            }
        }
    }
}

} // verus!
