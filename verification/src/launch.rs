//! What a launch does: the flights that are back land, and the pending
//! orders are packed into the carriers that may launch.

use crate::destinations::all_known;
use crate::entities::{Destination, Order};
use crate::flight::{
    leg, lemma_total_is_outbound_and_home, outbound_distance, total_route_distance, FlightView,
};
use crate::packing::{
    by_priority, empty_bins, has_emergency, lemma_by_priority, lemma_orders_in_empty,
    lemma_pack_conserves, lemma_pack_shape, lemma_pack_within_limits, orders_in, pack, shed_orders,
    within_limits, Packing,
};
use vstd::multiset::Multiset;
use vstd::prelude::*;

verus! {

/// A fleet: the destinations that it serves and the limits of its carriers.
pub struct Fleet {
    /// The destinations, by name
    pub dests: Map<Seq<char>, Destination>,
    /// The number of carriers
    pub num_carriers: nat,
    /// The number of orders that one carrier can hold
    pub max_orders: nat,
    /// The speed of the carriers in metres per second
    pub speed_mps: u64,
    /// The distance in metres within which the carriers deliver
    pub range: nat,
}

/// Number of carriers that are kept back for emergencies while none is
/// pending.
pub const NUM_RESERVE_CARRIERS: usize = 2;

/// The number of carriers that may launch: those that are not in the air,
/// less the reserve while no emergency is pending.
pub open spec fn carriers_for_launch(num_carriers: nat, in_flight: nat, emergency: bool) -> nat {
    let free = if num_carriers >= in_flight {
        num_carriers - in_flight
    } else {
        0
    };
    if emergency {
        free as nat
    } else if free >= NUM_RESERVE_CARRIERS {
        (free - NUM_RESERVE_CARRIERS) as nat
    } else {
        0
    }
}

/// The flights that are still in the air at the time `now`.
pub open spec fn is_airborne(fleet: Fleet, now: u64) -> spec_fn(FlightView) -> bool {
    |flight: FlightView| !flight.landed_by(fleet.dests, fleet.speed_mps, now)
}

/// The flights that are back at the depot at the time `now`.
pub open spec fn is_down(fleet: Fleet, now: u64) -> spec_fn(FlightView) -> bool {
    |flight: FlightView| flight.landed_by(fleet.dests, fleet.speed_mps, now)
}

/// The bins that hold an order.
pub open spec fn has_load() -> spec_fn(Seq<Order>) -> bool {
    |load: Seq<Order>| load.len() > 0
}

/// The flight that carries `load` from the time `now`.
pub open spec fn flight_at(now: u64) -> spec_fn(Seq<Order>) -> FlightView {
    |load: Seq<Order>| FlightView { launch_time: now, orders: load }
}

/// The flights that bins become at the time `now`: one for each bin that
/// holds an order.
pub open spec fn flights_of(bins: Seq<Seq<Order>>, now: u64) -> Seq<FlightView> {
    bins.filter(has_load()).map_values(flight_at(now))
}

/// The result of packing the pending orders into `free` empty bins.
pub open spec fn packing_of(fleet: Fleet, pending: Seq<Order>, free: nat) -> Packing {
    pack(fleet.dests, fleet.max_orders, fleet.range, by_priority(pending), empty_bins(free))
}

/// The state of a scheduler after a launch, and what the launch produced.
pub struct Launch {
    /// The flights in the air: those that were not back yet, then the new ones
    pub active: Seq<FlightView>,
    /// The orders that are still pending
    pub pending: Seq<Order>,
    /// The flights that landed
    pub landed: Seq<FlightView>,
    /// The new flights
    pub launched: Seq<FlightView>,
    /// The order that no carrier could take, if packing ended on one
    pub shed: Option<Order>,
}

/// What a launch at the time `now` does to the flights `active` and the
/// orders `pending` of a fleet.
///
/// The flights that are back by `now` land. The carriers that may launch get
/// one bin each, the pending orders are packed into the bins by priority,
/// and every bin that holds an order becomes a flight.
pub open spec fn launch(
    fleet: Fleet,
    active: Seq<FlightView>,
    pending: Seq<Order>,
    now: u64,
) -> Launch {
    let kept = active.filter(is_airborne(fleet, now));
    let free = carriers_for_launch(fleet.num_carriers, kept.len(), has_emergency(pending));
    let packing = packing_of(fleet, pending, free);
    let launched = flights_of(packing.bins, now);
    Launch {
        active: kept + launched,
        pending: packing.queue,
        landed: active.filter(is_down(fleet, now)),
        launched,
        shed: packing.shed,
    }
}

/// The orders of a sequence of flights, as a multiset.
pub open spec fn orders_aboard(flights: Seq<FlightView>) -> Multiset<Order>
    decreases flights.len(),
{
    if flights.len() == 0 {
        Multiset::empty()
    } else {
        orders_aboard(flights.drop_last()).add(flights.last().orders.to_multiset())
    }
}

/// Every flight names known destinations only.
pub open spec fn flights_known(
    dests: Map<Seq<char>, Destination>,
    flights: Seq<FlightView>,
) -> bool {
    forall|i: int| 0 <= i < flights.len() ==> all_known(dests, (#[trigger] flights[i]).orders)
}

/// The flights of a list of bins carry the orders of the bins.
pub proof fn lemma_aboard_flights_of(bins: Seq<Seq<Order>>, now: u64)
    ensures
        orders_aboard(flights_of(bins, now)) == orders_in(bins),
        flights_of(bins, now).len() <= bins.len(),
    decreases bins.len(),
{
    if bins.len() == 0 {
        bins.lemma_filter_len(has_load());
        assert(flights_of(bins, now) == Seq::<FlightView>::empty());
    } else {
        let rest = bins.drop_last();
        let load = bins.last();
        lemma_aboard_flights_of(rest, now);
        lemma_flights_of_push(rest, load, now);
        assert(bins == rest.push(load));
        if load.len() > 0 {
            assert(flights_of(bins, now).drop_last() == flights_of(rest, now));
        } else {
            assert(load.to_multiset() =~= Multiset::<Order>::empty()) by {
                broadcast use vstd::seq_lib::to_multiset_len;

                assert(load.to_multiset().len() == 0);
            }
            assert(orders_in(bins) =~= orders_in(rest));
        }
    }
}

/// A further bin adds one flight if it holds an order, and none if not.
pub proof fn lemma_flights_of_push(bins: Seq<Seq<Order>>, load: Seq<Order>, now: u64)
    ensures
        flights_of(bins.push(load), now) == if load.len() > 0 {
            flights_of(bins, now).push(FlightView { launch_time: now, orders: load })
        } else {
            flights_of(bins, now)
        },
{
    bins.lemma_filter_push(load, has_load());
    if load.len() > 0 {
        assert(has_load()(load));
        bins.filter(has_load()).lemma_push_map_commute(flight_at(now), load);
    } else {
        assert(!has_load()(load));
    }
}

/// Every flight of a list of bins is launched at the given time and carries
/// the orders of a bin that holds an order.
pub proof fn lemma_flights_of_members(bins: Seq<Seq<Order>>, now: u64, i: int)
    requires
        0 <= i < flights_of(bins, now).len(),
    ensures
        flights_of(bins, now)[i].launch_time == now,
        flights_of(bins, now)[i].orders.len() > 0,
        exists|k: int| 0 <= k < bins.len() && #[trigger] bins[k] == flights_of(bins, now)[i].orders,
{
    let loaded = bins.filter(has_load());
    bins.lemma_filter_pred(has_load(), i);
    assert(loaded.contains(loaded[i]));
    bins.lemma_filter_contains_rev(has_load(), loaded[i]);
    let k = choose|k: int| 0 <= k < bins.len() && bins[k] == loaded[i];
    assert(bins[k] == flights_of(bins, now)[i].orders);
}

/// No more flights are in the air after a launch than the fleet has
/// carriers.
pub proof fn lemma_launch_capacity(
    fleet: Fleet,
    active: Seq<FlightView>,
    pending: Seq<Order>,
    now: u64,
)
    requires
        active.len() <= fleet.num_carriers,
    ensures
        launch(fleet, active, pending, now).active.len() <= fleet.num_carriers,
{
    let kept = active.filter(is_airborne(fleet, now));
    active.lemma_filter_len(is_airborne(fleet, now));
    let free = carriers_for_launch(fleet.num_carriers, kept.len(), has_emergency(pending));
    lemma_pack_shape(
        fleet.dests,
        fleet.max_orders,
        fleet.range,
        by_priority(pending),
        empty_bins(free),
    );
    let packing = packing_of(fleet, pending, free);
    lemma_aboard_flights_of(packing.bins, now);
}

/// While no emergency is pending, a launch leaves the reserve at the depot:
/// it launches no more flights than there are carriers beyond the reserve
/// that are not in the air once the flights that are back have landed.
pub proof fn lemma_launch_keeps_reserve(
    fleet: Fleet,
    active: Seq<FlightView>,
    pending: Seq<Order>,
    now: u64,
)
    requires
        !has_emergency(pending),
    ensures
        ({
            let outcome = launch(fleet, active, pending, now);
            let in_flight = active.filter(is_airborne(fleet, now)).len();
            &&& outcome.launched.len() <= carriers_for_launch(fleet.num_carriers, in_flight, false)
            &&& fleet.num_carriers >= in_flight + NUM_RESERVE_CARRIERS ==> outcome.launched.len()
                <= fleet.num_carriers - in_flight - NUM_RESERVE_CARRIERS
            &&& fleet.num_carriers < in_flight + NUM_RESERVE_CARRIERS
                ==> outcome.launched.len() == 0
        }),
{
    let kept = active.filter(is_airborne(fleet, now));
    let free = carriers_for_launch(fleet.num_carriers, kept.len(), false);
    lemma_pack_shape(
        fleet.dests,
        fleet.max_orders,
        fleet.range,
        by_priority(pending),
        empty_bins(free),
    );
    let packing = packing_of(fleet, pending, free);
    lemma_aboard_flights_of(packing.bins, now);
}

/// Every flight that a launch produces carries at least one order and no
/// more than a carrier can hold; the way from the depot through its stops
/// is within range, and so its whole route is within range but for the leg
/// from the last stop home.
pub proof fn lemma_launch_within_limits(
    fleet: Fleet,
    active: Seq<FlightView>,
    pending: Seq<Order>,
    now: u64,
    i: int,
)
    requires
        0 <= i < launch(fleet, active, pending, now).launched.len(),
    ensures
        ({
            let flight = launch(fleet, active, pending, now).launched[i];
            &&& flight.launch_time == now
            &&& 1 <= flight.orders.len() <= fleet.max_orders
            &&& outbound_distance(fleet.dests, flight.orders) <= fleet.range
            &&& total_route_distance(fleet.dests, flight.orders) <= fleet.range + leg(
                fleet.dests,
                flight.orders,
                flight.orders.len() as int,
            )
        }),
{
    let kept = active.filter(is_airborne(fleet, now));
    let free = carriers_for_launch(fleet.num_carriers, kept.len(), has_emergency(pending));
    let bins = empty_bins(free);
    assert forall|k: int| 0 <= k < bins.len() implies within_limits(
        fleet.dests,
        fleet.max_orders,
        fleet.range,
        #[trigger] bins[k],
    ) by {}
    lemma_pack_within_limits(
        fleet.dests,
        fleet.max_orders,
        fleet.range,
        by_priority(pending),
        bins,
    );
    let packing = packing_of(fleet, pending, free);
    lemma_flights_of_members(packing.bins, now, i);
    lemma_total_is_outbound_and_home(
        fleet.dests,
        launch(fleet, active, pending, now).launched[i].orders,
    );
}

/// Every flight carries at least one order and no more than a carrier can
/// hold, and the way from the depot through its stops is within range.
pub open spec fn flights_within_limits(fleet: Fleet, flights: Seq<FlightView>) -> bool {
    forall|i: int|
        0 <= i < flights.len() ==> {
            &&& 1 <= (#[trigger] flights[i]).orders.len() <= fleet.max_orders
            &&& outbound_distance(fleet.dests, flights[i].orders) <= fleet.range
        }
}

/// The flights in the air stay within the limits of the carriers: if they
/// are within them before a launch, they are within them after it.
pub proof fn lemma_launch_keeps_limits(
    fleet: Fleet,
    active: Seq<FlightView>,
    pending: Seq<Order>,
    now: u64,
)
    requires
        flights_within_limits(fleet, active),
    ensures
        flights_within_limits(fleet, launch(fleet, active, pending, now).active),
{
    let outcome = launch(fleet, active, pending, now);
    let keep = is_airborne(fleet, now);
    let kept = active.filter(keep);
    assert forall|i: int| 0 <= i < outcome.active.len() implies {
        &&& 1 <= (#[trigger] outcome.active[i]).orders.len() <= fleet.max_orders
        &&& outbound_distance(fleet.dests, outcome.active[i].orders) <= fleet.range
    } by {
        if i < kept.len() {
            assert(outcome.active[i] == kept[i]);
            assert(kept.contains(kept[i]));
            active.lemma_filter_contains_rev(keep, kept[i]);
            let k = choose|k: int| 0 <= k < active.len() && active[k] == kept[i];
            assert(1 <= active[k].orders.len() <= fleet.max_orders);
        } else {
            assert(outcome.active[i] == outcome.launched[i - kept.len()]);
            lemma_launch_within_limits(fleet, active, pending, now, i - kept.len());
        }
    }
}

/// A launch loses and duplicates no order: every pending order is
/// afterwards still pending, aboard one new flight, or the one order that
/// was shed, as often as it was pending before.
pub proof fn lemma_launch_conserves(
    fleet: Fleet,
    active: Seq<FlightView>,
    pending: Seq<Order>,
    now: u64,
)
    ensures
        ({
            let outcome = launch(fleet, active, pending, now);
            pending.to_multiset() == outcome.pending.to_multiset().add(
                orders_aboard(outcome.launched),
            ).add(shed_orders(outcome.shed))
        }),
{
    let kept = active.filter(is_airborne(fleet, now));
    let free = carriers_for_launch(fleet.num_carriers, kept.len(), has_emergency(pending));
    let packing = packing_of(fleet, pending, free);
    lemma_by_priority(pending);
    lemma_orders_in_empty(free);
    lemma_pack_conserves(
        fleet.dests,
        fleet.max_orders,
        fleet.range,
        by_priority(pending),
        empty_bins(free),
    );
    lemma_aboard_flights_of(packing.bins, now);
    assert(pending.to_multiset() =~= by_priority(pending).to_multiset().add(
        orders_in(empty_bins(free)),
    ));
}

/// A launch lands a flight exactly when the flight is back: the flights
/// that stay in the air are those whose end time is later than the time of
/// the launch, in their sequence, and the new flights follow them.
pub proof fn lemma_landing_exact(
    fleet: Fleet,
    active: Seq<FlightView>,
    pending: Seq<Order>,
    now: u64,
)
    ensures
        ({
            let outcome = launch(fleet, active, pending, now);
            let kept = outcome.active.take(outcome.active.len() - outcome.launched.len());
            &&& outcome.active == kept + outcome.launched
            &&& kept == active.filter(is_airborne(fleet, now))
            &&& forall|flight: FlightView| #[trigger]
                kept.contains(flight) <==> active.contains(flight) && flight.end_time(
                    fleet.dests,
                    fleet.speed_mps,
                ) > now
        }),
{
    let keep = is_airborne(fleet, now);
    let outcome = launch(fleet, active, pending, now);
    let kept = active.filter(keep);
    assert(outcome.active.take(outcome.active.len() - outcome.launched.len()) == kept);
    assert forall|flight: FlightView| #[trigger]
        kept.contains(flight) <==> active.contains(flight) && flight.end_time(
            fleet.dests,
            fleet.speed_mps,
        ) > now by {
        if kept.contains(flight) {
            active.lemma_filter_contains_rev(keep, flight);
            let k = choose|k: int| 0 <= k < kept.len() && kept[k] == flight;
            active.lemma_filter_pred(keep, k);
        }
        if active.contains(flight) && flight.end_time(fleet.dests, fleet.speed_mps) > now {
            let k = choose|k: int| 0 <= k < active.len() && active[k] == flight;
            assert(keep(active[k]));
            active.lemma_filter_contains(keep, k);
        }
    }
}

/// Emergencies go first: while an emergency is left pending after a launch,
/// the launch has placed no order that is not an emergency, and has shed
/// none.
pub proof fn lemma_launch_emergencies_first(
    fleet: Fleet,
    active: Seq<FlightView>,
    pending: Seq<Order>,
    now: u64,
)
    requires
        has_emergency(launch(fleet, active, pending, now).pending),
    ensures
        ({
            let outcome = launch(fleet, active, pending, now);
            &&& forall|order: Order| #[trigger]
                orders_aboard(outcome.launched).count(order) > 0 ==> order.urgent()
            &&& outcome.shed matches Some(order) ==> order.urgent()
        }),
{
    let outcome = launch(fleet, active, pending, now);
    let kept = active.filter(is_airborne(fleet, now));
    let free = carriers_for_launch(fleet.num_carriers, kept.len(), has_emergency(pending));
    let queue = by_priority(pending);
    let packing = packing_of(fleet, pending, free);
    let left = packing.queue;
    let examined = queue.skip(left.len() as int);
    lemma_by_priority(pending);
    lemma_pack_shape(fleet.dests, fleet.max_orders, fleet.range, queue, empty_bins(free));
    lemma_pack_conserves(fleet.dests, fleet.max_orders, fleet.range, queue, empty_bins(free));
    lemma_orders_in_empty(free);
    lemma_aboard_flights_of(packing.bins, now);
    // an emergency that is left stands before every order that was examined
    let i = choose|i: int| 0 <= i < left.len() && (#[trigger] left[i]).urgent();
    assert(left[i] == queue[i]);
    assert forall|j: int| 0 <= j < examined.len() implies (#[trigger] examined[j]).urgent() by {
        assert(examined[j] == queue[left.len() + j]);
    }
    // the orders that were examined are those in the bins and the one shed
    assert(queue == left + examined);
    vstd::seq_lib::lemma_multiset_commutative(left, examined);
    let all = queue.to_multiset();
    let placed = orders_in(packing.bins).add(shed_orders(packing.shed));
    assert(all == left.to_multiset().add(examined.to_multiset()));
    assert(all =~= all.add(orders_in(empty_bins(free))));
    assert(all == left.to_multiset().add(orders_in(packing.bins)).add(shed_orders(packing.shed)));
    assert forall|order: Order| examined.to_multiset().count(order) == placed.count(order) by {
        assert(all.count(order) == left.to_multiset().count(order) + examined.to_multiset().count(
            order,
        ));
        assert(all.count(order) == left.to_multiset().count(order) + placed.count(order));
    }
    assert forall|order: Order| #[trigger]
        orders_aboard(outcome.launched).count(order) > 0 implies order.urgent() by {
        assert(orders_in(packing.bins).count(order) > 0);
        assert(placed.count(order) > 0);
        assert(examined.to_multiset().count(order) == placed.count(order));
        vstd::seq_lib::to_multiset_contains(examined, order);
        let j = choose|j: int| 0 <= j < examined.len() && examined[j] == order;
        assert(examined[j].urgent());
    }
    if packing.shed is Some {
        assert(examined[0] == queue[left.len() as int]);
    }
}

/// The orders aboard two sequences of flights are those aboard the one and
/// those aboard the other.
pub proof fn lemma_aboard_add(a: Seq<FlightView>, b: Seq<FlightView>)
    ensures
        orders_aboard(a + b) == orders_aboard(a).add(orders_aboard(b)),
    decreases b.len(),
{
    if b.len() == 0 {
        assert(a + b == a);
        assert(orders_aboard(a + b) =~= orders_aboard(a).add(orders_aboard(b)));
    } else {
        lemma_aboard_add(a, b.drop_last());
        assert((a + b).drop_last() == a + b.drop_last());
        assert((a + b).last() == b.last());
        assert(orders_aboard(a + b) =~= orders_aboard(a).add(orders_aboard(b)));
    }
}

/// Every flight has landed or is in the air: the orders aboard all flights
/// are those aboard the flights that landed and those aboard the flights in
/// the air.
pub proof fn lemma_aboard_landing(fleet: Fleet, now: u64, flights: Seq<FlightView>)
    ensures
        orders_aboard(flights) == orders_aboard(
            flights.filter(is_down(fleet, now)),
        ).add(orders_aboard(flights.filter(is_airborne(fleet, now)))),
    decreases flights.len(),
{
    let down = is_down(fleet, now);
    let up = is_airborne(fleet, now);
    if flights.len() == 0 {
        flights.lemma_filter_len(down);
        flights.lemma_filter_len(up);
        assert(flights.filter(down) == Seq::<FlightView>::empty());
        assert(flights.filter(up) == Seq::<FlightView>::empty());
        assert(orders_aboard(flights) =~= orders_aboard(flights.filter(down)).add(
            orders_aboard(flights.filter(up)),
        ));
    } else {
        let rest = flights.drop_last();
        let last = flights.last();
        lemma_aboard_landing(fleet, now, rest);
        assert(flights == rest.push(last));
        rest.lemma_filter_push(last, down);
        rest.lemma_filter_push(last, up);
        if last.landed_by(fleet.dests, fleet.speed_mps, now) {
            assert(down(last) && !up(last));
            assert(flights.filter(down).drop_last() == rest.filter(down));
        } else {
            assert(up(last) && !down(last));
            assert(flights.filter(up).drop_last() == rest.filter(up));
        }
        assert(orders_aboard(flights) =~= orders_aboard(flights.filter(down)).add(
            orders_aboard(flights.filter(up)),
        ));
    }
}

/// A launch accounts for every order: the orders that were pending or
/// aboard a flight are afterwards pending, aboard a flight in the air,
/// aboard a flight that landed, or the one order that was shed, each as
/// often as before.
pub proof fn lemma_launch_accounts(
    fleet: Fleet,
    active: Seq<FlightView>,
    pending: Seq<Order>,
    now: u64,
)
    ensures
        ({
            let outcome = launch(fleet, active, pending, now);
            pending.to_multiset().add(orders_aboard(active)) == outcome.pending.to_multiset().add(
                orders_aboard(outcome.active),
            ).add(orders_aboard(outcome.landed)).add(shed_orders(outcome.shed))
        }),
{
    let outcome = launch(fleet, active, pending, now);
    let kept = active.filter(is_airborne(fleet, now));
    lemma_launch_conserves(fleet, active, pending, now);
    lemma_aboard_landing(fleet, now, active);
    lemma_aboard_add(kept, outcome.launched);
    assert(pending.to_multiset().add(orders_aboard(active)) =~= outcome.pending.to_multiset().add(
        orders_aboard(outcome.active),
    ).add(orders_aboard(outcome.landed)).add(shed_orders(outcome.shed)));
}

/// The flights that a filter keeps name known destinations if all did.
pub proof fn lemma_filter_keeps_known(
    dests: Map<Seq<char>, Destination>,
    flights: Seq<FlightView>,
    keep: spec_fn(FlightView) -> bool,
)
    requires
        flights_known(dests, flights),
    ensures
        flights_known(dests, flights.filter(keep)),
{
    let kept = flights.filter(keep);
    assert forall|i: int| 0 <= i < kept.len() implies all_known(
        dests,
        (#[trigger] kept[i]).orders,
    ) by {
        assert(kept.contains(kept[i]));
        flights.lemma_filter_contains_rev(keep, kept[i]);
        let j = choose|j: int| 0 <= j < flights.len() && flights[j] == kept[i];
        assert(all_known(dests, flights[j].orders));
    }
}

} // verus!
