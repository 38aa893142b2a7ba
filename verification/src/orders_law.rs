use vstd::multiset::Multiset;
use vstd::prelude::*;

use crate::components::order::{Order, OrderId, OrderStatus};
use crate::components::robot::{Robot, RobotState};
use crate::simulation::complete_in;
use crate::systems::scheduler::{move_to_active, return_to_pending};
use crate::world::{
    active_ok, completed_ok, first_index, lemma_first_index, order_ids, order_of, pending_ok,
    robot_task_ok, World,
};

verus! {

broadcast use vstd::seq_lib::group_to_multiset_ensures;

/// A list whose ids are each counted at most once holds no id twice.
proof fn lemma_list_ids_distinct(s: Seq<Order>)
    requires
        forall|x: OrderId| #[trigger] order_ids(s).to_multiset().count(x) <= 1,
    ensures
        forall|k1: int, k2: int|
            0 <= k1 < s.len() && 0 <= k2 < s.len() && k1 != k2 ==> #[trigger] s[k1].id
                != #[trigger] s[k2].id,
{
    let ids = order_ids(s);
    assert forall|x: OrderId| ids.to_multiset().contains(x) implies ids.to_multiset().count(x) == 1 by {
        assert(ids.to_multiset().count(x) <= 1);
    }
    ids.lemma_multiset_has_no_duplicates_conv();
    assert forall|k1: int, k2: int|
        0 <= k1 < s.len() && 0 <= k2 < s.len() && k1 != k2 implies #[trigger] s[k1].id
            != #[trigger] s[k2].id by {
        assert(ids[k1] == s[k1].id);
        assert(ids[k2] == s[k2].id);
    }
}

/// Consequences of no id being counted twice across the three order lists.
pub proof fn lemma_ids_distinct(w: World)
    requires
        forall|x: OrderId| #[trigger] w.order_id_multiset().count(x) <= 1,
    ensures
        forall|k1: int, k2: int|
            0 <= k1 < w.active_orders@.len() && 0 <= k2 < w.active_orders@.len() && k1 != k2
                ==> #[trigger] w.active_orders@[k1].id != #[trigger] w.active_orders@[k2].id,
        forall|k1: int, k2: int|
            0 <= k1 < w.pending_orders@.len() && 0 <= k2 < w.pending_orders@.len() && k1 != k2
                ==> #[trigger] w.pending_orders@[k1].id != #[trigger] w.pending_orders@[k2].id,
        forall|kp: int, ka: int|
            0 <= kp < w.pending_orders@.len() && 0 <= ka < w.active_orders@.len()
                ==> #[trigger] w.pending_orders@[kp].id != #[trigger] w.active_orders@[ka].id,
{
    broadcast use vstd::multiset::group_multiset_axioms;

    let mp = order_ids(w.pending_orders@).to_multiset();
    let ma = order_ids(w.active_orders@).to_multiset();
    let mc = order_ids(w.completed_orders@).to_multiset();
    assert forall|x: OrderId| #[trigger] ma.count(x) <= 1 by {
        assert(w.order_id_multiset().count(x) == mp.count(x) + ma.count(x) + mc.count(x));
    }
    assert forall|x: OrderId| #[trigger] mp.count(x) <= 1 by {
        assert(w.order_id_multiset().count(x) == mp.count(x) + ma.count(x) + mc.count(x));
    }
    lemma_list_ids_distinct(w.active_orders@);
    lemma_list_ids_distinct(w.pending_orders@);
    assert forall|kp: int, ka: int|
        0 <= kp < w.pending_orders@.len() && 0 <= ka < w.active_orders@.len()
            implies #[trigger] w.pending_orders@[kp].id != #[trigger] w.active_orders@[ka].id by {
        let x = w.pending_orders@[kp].id;
        if x == w.active_orders@[ka].id {
            assert(order_ids(w.pending_orders@)[kp] == x);
            assert(order_ids(w.active_orders@)[ka] == x);
            assert(mp.count(x) > 0);
            assert(ma.count(x) > 0);
            assert(w.order_id_multiset().count(x) == mp.count(x) + ma.count(x) + mc.count(x));
        }
    }
}

/// In a list without repeated ids, the first index of an id held at `k` is `k`.
pub proof fn lemma_first_index_unique(s: Seq<Order>, k: int)
    requires
        0 <= k < s.len(),
        forall|k1: int, k2: int|
            0 <= k1 < s.len() && 0 <= k2 < s.len() && k1 != k2 ==> #[trigger] s[k1].id
                != #[trigger] s[k2].id,
    ensures
        first_index(s, s[k].id) == k,
{
    lemma_first_index(s, s[k].id);
    let f = first_index(s, s[k].id);
    if f < 0 {
        assert(s[k].id != s[k].id);
    } else if f != k {
        assert(s[f].id == s[k].id);
    }
}

/// Changing robots in ways that keep each robot's id and the order its task
/// names, while each robot still carries an item exactly when it heads to the
/// dispatch zone, keeps the order bookkeeping consistent.
pub proof fn lemma_orders_frame(w0: World, w1: World)
    requires
        w0.orders_consistent(),
        w1.pending_orders == w0.pending_orders,
        w1.active_orders == w0.active_orders,
        w1.completed_orders == w0.completed_orders,
        w1.next_order_id == w0.next_order_id,
        w1.tick == w0.tick,
        w1.robots@.len() == w0.robots@.len(),
        forall|r: int|
            0 <= r < w0.robots@.len() ==> {
                &&& (#[trigger] w1.robots@[r]).id == w0.robots@[r].id
                &&& order_of(w1.robots@[r].state) == order_of(w0.robots@[r].state)
                &&& (w1.robots@[r].is_carrying_payload <==> w1.robots@[r].state is RoutingToDropoff)
            },
    ensures
        w1.orders_consistent(),
{
    assert(w1.order_id_multiset() == w0.order_id_multiset());
    assert forall|k: int| 0 <= k < w1.active_orders@.len() implies active_ok(
        #[trigger] w1.active_orders@[k],
        w1.robots@,
        w1.tick,
    ) by {
        assert(active_ok(w0.active_orders@[k], w0.robots@, w0.tick));
        let r = w0.active_orders@[k].assigned_to->0.index();
        assert(w1.robots@[r].id == w0.robots@[r].id);
    }
    assert forall|r: int| 0 <= r < w1.robots@.len() implies robot_task_ok(
        #[trigger] w1.robots@[r],
        w1.active_orders@,
    ) by {
        assert(robot_task_ok(w0.robots@[r], w0.active_orders@));
        assert(w1.robots@[r].id == w0.robots@[r].id);
    }
}

/// The order bookkeeping reads only the robots, the three order lists, the
/// id counter and the clock.
pub proof fn lemma_orders_unchanged(w0: World, w1: World)
    requires
        w0.orders_consistent(),
        w1.robots == w0.robots,
        w1.pending_orders == w0.pending_orders,
        w1.active_orders == w0.active_orders,
        w1.completed_orders == w0.completed_orders,
        w1.next_order_id == w0.next_order_id,
        w1.tick == w0.tick,
    ensures
        w1.orders_consistent(),
{
    assert(w1.order_id_multiset() == w0.order_id_multiset());
}

/// Moving robots or changing their routes, while every robot keeps its id,
/// task and carried item, keeps the order bookkeeping consistent.
pub proof fn lemma_orders_same_tasks(w0: World, w1: World)
    requires
        w0.orders_consistent(),
        w1.pending_orders == w0.pending_orders,
        w1.active_orders == w0.active_orders,
        w1.completed_orders == w0.completed_orders,
        w1.next_order_id == w0.next_order_id,
        w1.tick == w0.tick,
        w1.robots@.len() == w0.robots@.len(),
        forall|r: int|
            0 <= r < w0.robots@.len() ==> {
                &&& (#[trigger] w1.robots@[r]).id == w0.robots@[r].id
                &&& w1.robots@[r].state == w0.robots@[r].state
                &&& w1.robots@[r].is_carrying_payload == w0.robots@[r].is_carrying_payload
            },
    ensures
        w1.orders_consistent(),
{
    assert forall|r: int| 0 <= r < w0.robots@.len() implies {
        &&& (#[trigger] w1.robots@[r]).id == w0.robots@[r].id
        &&& order_of(w1.robots@[r].state) == order_of(w0.robots@[r].state)
        &&& (w1.robots@[r].is_carrying_payload <==> w1.robots@[r].state is RoutingToDropoff)
    } by {
        assert(robot_task_ok(w0.robots@[r], w0.active_orders@));
    }
    lemma_orders_frame(w0, w1);
}

/// Changing one robot's task without changing the order it names, while it
/// still carries an item exactly when it heads to the dispatch zone, keeps
/// the order bookkeeping consistent.
pub proof fn lemma_orders_retask(w0: World, w1: World, i: int)
    requires
        w0.orders_consistent(),
        0 <= i < w0.robots@.len(),
        w1.pending_orders == w0.pending_orders,
        w1.active_orders == w0.active_orders,
        w1.completed_orders == w0.completed_orders,
        w1.next_order_id == w0.next_order_id,
        w1.tick == w0.tick,
        w1.robots@.len() == w0.robots@.len(),
        forall|j: int| 0 <= j < w0.robots@.len() && j != i ==> #[trigger] w1.robots@[j] == w0.robots@[j],
        w1.robots@[i].id == w0.robots@[i].id,
        order_of(w1.robots@[i].state) == order_of(w0.robots@[i].state),
        (w1.robots@[i].is_carrying_payload <==> w1.robots@[i].state is RoutingToDropoff),
    ensures
        w1.orders_consistent(),
{
    assert forall|r: int| 0 <= r < w0.robots@.len() implies {
        &&& (#[trigger] w1.robots@[r]).id == w0.robots@[r].id
        &&& order_of(w1.robots@[r].state) == order_of(w0.robots@[r].state)
        &&& (w1.robots@[r].is_carrying_payload <==> w1.robots@[r].state is RoutingToDropoff)
    } by {
        if r != i {
            assert(robot_task_ok(w0.robots@[r], w0.active_orders@));
        }
    }
    lemma_orders_frame(w0, w1);
}

/// Advancing the clock keeps the order bookkeeping consistent.
pub proof fn lemma_orders_tick(w0: World, w1: World)
    requires
        w0.orders_consistent(),
        w1.pending_orders == w0.pending_orders,
        w1.active_orders == w0.active_orders,
        w1.completed_orders == w0.completed_orders,
        w1.next_order_id == w0.next_order_id,
        w1.robots == w0.robots,
        w1.tick == w0.tick + 1,
    ensures
        w1.orders_consistent(),
{
    assert(w1.order_id_multiset() == w0.order_id_multiset());
    assert forall|k: int| 0 <= k < w1.pending_orders@.len() implies pending_ok(
        #[trigger] w1.pending_orders@[k],
        w1.tick,
    ) by {
        assert(pending_ok(w0.pending_orders@[k], w0.tick));
    }
    assert forall|k: int| 0 <= k < w1.active_orders@.len() implies active_ok(
        #[trigger] w1.active_orders@[k],
        w1.robots@,
        w1.tick,
    ) by {
        assert(active_ok(w0.active_orders@[k], w0.robots@, w0.tick));
    }
    assert forall|k: int| 0 <= k < w1.completed_orders@.len() implies completed_ok(
        #[trigger] w1.completed_orders@[k],
        w1.tick,
    ) by {
        assert(completed_ok(w0.completed_orders@[k], w0.tick));
    }
    assert forall|r: int| 0 <= r < w1.robots@.len() implies robot_task_ok(
        #[trigger] w1.robots@[r],
        w1.active_orders@,
    ) by {
        assert(robot_task_ok(w0.robots@[r], w0.active_orders@));
    }
}

/// Injecting an order with the next fresh id keeps the order bookkeeping consistent.
pub proof fn lemma_orders_inject(w0: World, w1: World, o: Order)
    requires
        w0.orders_consistent(),
        o.id == OrderId(w0.next_order_id),
        pending_ok(o, w0.tick),
        w0.next_order_id < u32::MAX,
        w1.next_order_id == w0.next_order_id + 1,
        w1.pending_orders@ == w0.pending_orders@.push(o),
        w1.order_id_multiset() == w0.order_id_multiset().insert(o.id),
        w1.active_orders == w0.active_orders,
        w1.completed_orders == w0.completed_orders,
        w1.robots == w0.robots,
        w1.tick == w0.tick,
    ensures
        w1.orders_consistent(),
{
    broadcast use vstd::multiset::group_multiset_axioms;

    let m0 = w0.order_id_multiset();
    assert(m0.count(o.id) == 0) by {
        if m0.count(o.id) > 0 {
            assert(o.id.0 < w0.next_order_id);
        }
    }
    assert forall|x: OrderId| #[trigger] w1.order_id_multiset().count(x) <= 1 by {
        assert(m0.count(x) <= 1);
    }
    assert forall|x: OrderId| #[trigger] w1.order_id_multiset().count(x) > 0 implies x.0
        < w1.next_order_id by {
        if x != o.id {
            assert(m0.count(x) > 0);
        }
    }
    assert forall|k: int| 0 <= k < w1.pending_orders@.len() implies pending_ok(
        #[trigger] w1.pending_orders@[k],
        w1.tick,
    ) by {
        if k < w0.pending_orders@.len() {
            assert(pending_ok(w0.pending_orders@[k], w0.tick));
        }
    }
    assert forall|k: int| 0 <= k < w1.active_orders@.len() implies active_ok(
        #[trigger] w1.active_orders@[k],
        w1.robots@,
        w1.tick,
    ) by {
        assert(active_ok(w0.active_orders@[k], w0.robots@, w0.tick));
    }
    assert forall|k: int| 0 <= k < w1.completed_orders@.len() implies completed_ok(
        #[trigger] w1.completed_orders@[k],
        w1.tick,
    ) by {
        assert(completed_ok(w0.completed_orders@[k], w0.tick));
    }
    assert forall|r: int| 0 <= r < w1.robots@.len() implies robot_task_ok(
        #[trigger] w1.robots@[r],
        w1.active_orders@,
    ) by {
        assert(robot_task_ok(w0.robots@[r], w0.active_orders@));
    }
}


/// An idle robot taking the pending order at `b`, which moves to the active
/// queue as its own, keeps the order bookkeeping consistent.
pub proof fn lemma_orders_take(w0: World, w1: World, i: int, b: int, r1: Robot)
    requires
        w0.wf(),
        w0.orders_consistent(),
        0 <= i < w0.robots@.len(),
        0 <= b < w0.pending_orders@.len(),
        w0.robots@[i].state == RobotState::Idle,
        r1.id == w0.robots@[i].id,
        r1.state == (RobotState::RoutingToPickup { order_id: w0.pending_orders@[b].id }),
        !r1.is_carrying_payload,
        w1.robots@ == w0.robots@.update(i, r1),
        (w1.pending_orders@, w1.active_orders@) == move_to_active(
            w0.pending_orders@,
            w0.active_orders@,
            w0.pending_orders@[b].id,
            w0.robots@[i].id,
        ),
        w1.completed_orders == w0.completed_orders,
        w1.order_id_multiset() == w0.order_id_multiset(),
        w1.next_order_id == w0.next_order_id,
        w1.tick == w0.tick,
    ensures
        w1.orders_consistent(),
{
    let p0 = w0.pending_orders@;
    let a0 = w0.active_orders@;
    let x = p0[b].id;
    lemma_ids_distinct(w0);
    lemma_first_index_unique(p0, b);
    assert(w0.robot_ok(i));
    let o = Order { status: OrderStatus::InProgress, assigned_to: Some(w0.robots@[i].id), ..p0[b] };
    assert(w1.pending_orders@ == p0.remove(b));
    assert(w1.active_orders@ == a0.push(o));
    assert(pending_ok(p0[b], w0.tick));
    assert forall|k: int| 0 <= k < w1.pending_orders@.len() implies pending_ok(
        #[trigger] w1.pending_orders@[k],
        w1.tick,
    ) by {
        if k < b {
            assert(pending_ok(p0[k], w0.tick));
        } else {
            assert(pending_ok(p0[k + 1], w0.tick));
        }
    }
    assert forall|k: int| 0 <= k < w1.active_orders@.len() implies active_ok(
        #[trigger] w1.active_orders@[k],
        w1.robots@,
        w1.tick,
    ) by {
        if k < a0.len() {
            assert(active_ok(a0[k], w0.robots@, w0.tick));
            let r = a0[k].assigned_to->0.index();
            if r == i {
                assert(order_of(w0.robots@[i].state) is None);
            }
        }
    }
    assert forall|k: int| 0 <= k < w1.completed_orders@.len() implies completed_ok(
        #[trigger] w1.completed_orders@[k],
        w1.tick,
    ) by {
        assert(completed_ok(w0.completed_orders@[k], w0.tick));
    }
    assert forall|r: int| 0 <= r < w1.robots@.len() implies robot_task_ok(
        #[trigger] w1.robots@[r],
        w1.active_orders@,
    ) by {
        if r == i {
            assert(w1.active_orders@[a0.len() as int] == o);
        } else {
            assert(robot_task_ok(w0.robots@[r], a0));
            if order_of(w0.robots@[r].state) is Some {
                let k = choose|k: int|
                    0 <= k < a0.len() && (#[trigger] a0[k]).id == order_of(w0.robots@[r].state)->0
                        && a0[k].assigned_to == Some(w0.robots@[r].id);
                assert(w1.active_orders@[k] == a0[k]);
            }
        }
    }
}

/// A robot giving up the order its task names, which leaves the active queue
/// for the pending queue (when `to_pending`) or for the completed list
/// (stamped with the current tick), keeps the order bookkeeping consistent,
/// provided the robot's new task names no order.
pub proof fn lemma_orders_release(w0: World, w1: World, i: int, r1: Robot, to_pending: bool)
    requires
        w0.wf(),
        w0.orders_consistent(),
        0 <= i < w0.robots@.len(),
        order_of(w0.robots@[i].state) is Some,
        r1.id == w0.robots@[i].id,
        order_of(r1.state) is None,
        (r1.is_carrying_payload <==> r1.state is RoutingToDropoff),
        w1.robots@ == w0.robots@.update(i, r1),
        to_pending ==> {
            &&& (w1.pending_orders@, w1.active_orders@) == return_to_pending(
                w0.pending_orders@,
                w0.active_orders@,
                order_of(w0.robots@[i].state)->0,
            )
            &&& w1.completed_orders == w0.completed_orders
        },
        !to_pending ==> {
            &&& (w1.active_orders@, w1.completed_orders@) == complete_in(
                w0.active_orders@,
                w0.completed_orders@,
                order_of(w0.robots@[i].state)->0,
                w0.tick,
            )
            &&& w1.pending_orders == w0.pending_orders
        },
        w1.order_id_multiset() == w0.order_id_multiset(),
        w1.next_order_id == w0.next_order_id,
        w1.tick == w0.tick,
    ensures
        w1.orders_consistent(),
{
    let a0 = w0.active_orders@;
    let r0 = w0.robots@[i];
    let x = order_of(r0.state)->0;
    lemma_ids_distinct(w0);
    assert(w0.robot_ok(i));
    assert(robot_task_ok(r0, a0));
    let k = choose|k: int|
        0 <= k < a0.len() && (#[trigger] a0[k]).id == x && a0[k].assigned_to == Some(r0.id);
    lemma_first_index_unique(a0, k);
    assert(first_index(a0, x) == k);
    assert(w1.active_orders@ == a0.remove(k));
    assert(active_ok(a0[k], w0.robots@, w0.tick));
    // Each remaining active order sits at its old index or one below.
    assert forall|j: int| 0 <= j < w1.active_orders@.len() implies #[trigger] w1.active_orders@[j]
        == a0[if j < k { j } else { j + 1 }] by {}
    assert forall|m: int| 0 <= m < w1.pending_orders@.len() implies pending_ok(
        #[trigger] w1.pending_orders@[m],
        w1.tick,
    ) by {
        if m < w0.pending_orders@.len() {
            assert(pending_ok(w0.pending_orders@[m], w0.tick));
        }
    }
    assert forall|m: int| 0 <= m < w1.completed_orders@.len() implies completed_ok(
        #[trigger] w1.completed_orders@[m],
        w1.tick,
    ) by {
        if m < w0.completed_orders@.len() {
            assert(completed_ok(w0.completed_orders@[m], w0.tick));
        }
    }
    assert forall|j: int| 0 <= j < w1.active_orders@.len() implies active_ok(
        #[trigger] w1.active_orders@[j],
        w1.robots@,
        w1.tick,
    ) by {
        let m = if j < k { j } else { j + 1 };
        assert(w1.active_orders@[j] == a0[m]);
        assert(active_ok(a0[m], w0.robots@, w0.tick));
        let r = a0[m].assigned_to->0.index();
        if r == i {
            assert(a0[m].id == x);
            assert(a0[m].id != a0[k].id);
        }
    }
    assert forall|r: int| 0 <= r < w1.robots@.len() implies robot_task_ok(
        #[trigger] w1.robots@[r],
        w1.active_orders@,
    ) by {
        if r != i {
            assert(robot_task_ok(w0.robots@[r], a0));
            assert(w0.robot_ok(r));
            if order_of(w0.robots@[r].state) is Some {
                let kr = choose|kr: int|
                    0 <= kr < a0.len() && (#[trigger] a0[kr]).id == order_of(w0.robots@[r].state)->0
                        && a0[kr].assigned_to == Some(w0.robots@[r].id);
                assert(kr != k);
                let j = if kr < k { kr } else { kr - 1 };
                assert(w1.active_orders@[j] == a0[kr]);
            }
        }
    }
}

} // verus!
