//! Flights: round trips of one carrier from the depot through the
//! destinations of its orders and back.

use crate::destinations::{all_known, DestinationSet};
use crate::entities::{Destination, Order};
use crate::geometry::{distance_between, separation};
use vstd::prelude::*;

verus! {

/// The offsets (north, east) of the `j`-th point of the closed route that
/// serves `orders` in their sequence: the depot, then the destination of
/// each order, then the depot again.
pub open spec fn waypoint(dests: Map<Seq<char>, Destination>, orders: Seq<Order>, j: int) -> (
    int,
    int,
) {
    if 1 <= j <= orders.len() {
        let stop = dests[orders[j - 1].destination@];
        (stop.north_m as int, stop.east_m as int)
    } else {
        (0, 0)
    }
}

/// The length in metres of the `j`-th leg of the closed route, which leads
/// from point `j` to point `j + 1`, rounded down to whole metres.
pub open spec fn leg(dests: Map<Seq<char>, Destination>, orders: Seq<Order>, j: int) -> nat {
    let from = waypoint(dests, orders, j);
    let to = waypoint(dests, orders, j + 1);
    separation(to.0, to.1, from.0, from.1)
}

/// The length in metres of the first `k` legs of the closed route.
pub open spec fn route_prefix(dests: Map<Seq<char>, Destination>, orders: Seq<Order>, k: nat) -> nat
    decreases k,
{
    if k == 0 {
        0
    } else {
        route_prefix(dests, orders, (k - 1) as nat) + leg(dests, orders, k - 1)
    }
}

/// The distance from the depot through every stop, without the way back.
pub open spec fn outbound_distance(dests: Map<Seq<char>, Destination>, orders: Seq<Order>) -> nat {
    route_prefix(dests, orders, orders.len())
}

/// The distance of the closed route: depot, every stop in sequence, depot.
/// It is the sum of the legs, each rounded down to whole metres.
pub open spec fn total_route_distance(
    dests: Map<Seq<char>, Destination>,
    orders: Seq<Order>,
) -> nat {
    route_prefix(dests, orders, orders.len() + 1)
}

/// The length of the first legs of a route never decreases with their number.
pub proof fn lemma_route_prefix_monotonic(
    dests: Map<Seq<char>, Destination>,
    orders: Seq<Order>,
    j: nat,
    k: nat,
)
    requires
        j <= k,
    ensures
        route_prefix(dests, orders, j) <= route_prefix(dests, orders, k),
    decreases k,
{
    if j < k {
        lemma_route_prefix_monotonic(dests, orders, j, (k - 1) as nat);
    }
}

/// A further stop leaves the legs between the earlier stops as they were.
pub proof fn lemma_route_prefix_push(
    dests: Map<Seq<char>, Destination>,
    orders: Seq<Order>,
    order: Order,
    k: nat,
)
    requires
        k <= orders.len(),
    ensures
        route_prefix(dests, orders.push(order), k) == route_prefix(dests, orders, k),
    decreases k,
{
    if k > 0 {
        lemma_route_prefix_push(dests, orders, order, (k - 1) as nat);
        let longer = orders.push(order);
        assert(waypoint(dests, longer, k - 1) == waypoint(dests, orders, k - 1));
        assert(waypoint(dests, longer, k as int) == waypoint(dests, orders, k as int));
    }
}

/// A further stop lengthens the way out by the leg from the last stop,
/// or from the depot, to it.
pub proof fn lemma_outbound_push(
    dests: Map<Seq<char>, Destination>,
    orders: Seq<Order>,
    order: Order,
)
    ensures
        outbound_distance(dests, orders.push(order)) == outbound_distance(dests, orders) + ({
            let from = waypoint(dests, orders, orders.len() as int);
            let stop = dests[order.destination@];
            separation(stop.north_m as int, stop.east_m as int, from.0, from.1)
        }),
{
    let longer = orders.push(order);
    lemma_route_prefix_push(dests, orders, order, orders.len());
    assert(waypoint(dests, longer, orders.len() as int) == waypoint(
        dests,
        orders,
        orders.len() as int,
    ));
}

/// The closed route is the way out and the leg from the last stop home.
pub proof fn lemma_total_is_outbound_and_home(
    dests: Map<Seq<char>, Destination>,
    orders: Seq<Order>,
)
    ensures
        total_route_distance(dests, orders) == outbound_distance(dests, orders) + leg(
            dests,
            orders,
            orders.len() as int,
        ),
{
}

/// One leg more than `legs` legs, each of which fits 64 bits, together fit
/// 128 bits, if `legs` fits 64 bits.
proof fn lemma_legs_fit(legs: nat)
    requires
        legs <= 0xffff_ffff_ffff_ffff,
    ensures
        (legs + 1) * 0xffff_ffff_ffff_ffff == legs * 0xffff_ffff_ffff_ffff + 0xffff_ffff_ffff_ffff,
        (legs + 1) * 0xffff_ffff_ffff_ffff <= u128::MAX,
{
    assert((legs + 1) * 0xffff_ffff_ffff_ffff == legs * 0xffff_ffff_ffff_ffff
        + 0xffff_ffff_ffff_ffff) by (nonlinear_arith);
    assert((legs + 1) * 0xffff_ffff_ffff_ffff <= u128::MAX) by (nonlinear_arith)
        requires
            legs + 1 <= 0x1_0000_0000_0000_0000,
    ;
}

/// A round trip of one carrier.
#[derive(Debug, PartialEq, Eq)]
pub struct Flight {
    /// Time in seconds since midnight at which the flight was launched
    pub launch_time: u64,
    /// Orders carried by the flight, in the sequence of their delivery
    pub orders: Vec<Order>,
}

/// What a flight is: its launch time and the orders it delivers in sequence.
pub struct FlightView {
    pub launch_time: u64,
    pub orders: Seq<Order>,
}

impl View for Flight {
    type V = FlightView;

    open spec fn view(&self) -> FlightView {
        FlightView { launch_time: self.launch_time, orders: self.orders@ }
    }
}

impl FlightView {
    /// The time at which the flight is back at the depot, for a carrier that
    /// flies `speed_mps` metres in a second: the launch time and the whole
    /// seconds that the route, a sum of legs of whole metres, takes.
    pub open spec fn end_time(self, dests: Map<Seq<char>, Destination>, speed_mps: u64) -> int {
        self.launch_time + total_route_distance(dests, self.orders) / (speed_mps as nat)
    }

    /// Whether the flight is back at the depot at the time `now`.
    pub open spec fn landed_by(
        self,
        dests: Map<Seq<char>, Destination>,
        speed_mps: u64,
        now: u64,
    ) -> bool {
        self.end_time(dests, speed_mps) <= now
    }
}

/// The views of a sequence of flights.
pub open spec fn flight_views(flights: Seq<Flight>) -> Seq<FlightView> {
    flights.map_values(|flight: Flight| flight@)
}

/// Where a carrier is on its route.
#[derive(Clone, Copy, Debug, PartialEq, Eq)]
pub struct RoutePosition {
    /// Offsets of the point at which the current leg starts
    pub from_north_m: i64,
    pub from_east_m: i64,
    /// Offsets of the point at which the current leg ends
    pub to_north_m: i64,
    pub to_east_m: i64,
    /// Metres flown on the current leg
    pub leg_travelled_m: u64,
    /// Length of the current leg in metres
    pub leg_length_m: u64,
    /// Number of stops that are still to be served
    pub stops_remaining: usize,
}

impl RoutePosition {
    /// The position of a carrier that is at the depot and has no stop left.
    pub open spec fn at_depot() -> RoutePosition {
        RoutePosition {
            from_north_m: 0,
            from_east_m: 0,
            to_north_m: 0,
            to_east_m: 0,
            leg_travelled_m: 0,
            leg_length_m: 0,
            stops_remaining: 0,
        }
    }

    /// The position is `travelled` metres along the closed route of `orders`.
    ///
    /// The carrier is on the first leg that the distance does not outrun; a
    /// distance that outruns the whole route puts it at the depot.
    pub open spec fn locates(
        self,
        dests: Map<Seq<char>, Destination>,
        orders: Seq<Order>,
        travelled: nat,
    ) -> bool {
        if travelled > total_route_distance(dests, orders) {
            self == RoutePosition::at_depot()
        } else {
            let k = orders.len() - self.stops_remaining;
            &&& 0 <= k <= orders.len()
            &&& travelled <= route_prefix(dests, orders, (k + 1) as nat)
            &&& k > 0 ==> travelled > route_prefix(dests, orders, k as nat)
            &&& self.leg_travelled_m == travelled - route_prefix(dests, orders, k as nat)
            &&& self.leg_length_m == leg(dests, orders, k)
            &&& (self.from_north_m as int, self.from_east_m as int) == waypoint(dests, orders, k)
            &&& (self.to_north_m as int, self.to_east_m as int) == waypoint(dests, orders, k + 1)
        }
    }
}

/// At most one position is a given distance along a route.
pub proof fn lemma_position_unique(
    dests: Map<Seq<char>, Destination>,
    orders: Seq<Order>,
    travelled: nat,
    a: RoutePosition,
    b: RoutePosition,
)
    requires
        a.locates(dests, orders, travelled),
        b.locates(dests, orders, travelled),
    ensures
        a == b,
{
    if travelled <= total_route_distance(dests, orders) {
        let ka = orders.len() - a.stops_remaining;
        let kb = orders.len() - b.stops_remaining;
        if ka < kb {
            lemma_route_prefix_monotonic(dests, orders, (ka + 1) as nat, kb as nat);
        } else if kb < ka {
            lemma_route_prefix_monotonic(dests, orders, (kb + 1) as nat, ka as nat);
        }
    }
}

impl Default for Flight {
    fn default() -> (flight: Self)
        ensures
            flight.launch_time == 0,
            flight.orders@ == Seq::<Order>::empty(),
    {
        Flight { launch_time: 0, orders: Vec::new() }
    }
}

impl Clone for Flight {
    fn clone(&self) -> (copy: Self)
        ensures
            copy@ == self@,
    {
        let mut orders: Vec<Order> = Vec::new();
        let mut i: usize = 0;
        while i < self.orders.len()
            invariant
                i <= self.orders.len(),
                orders@ == self.orders@.subrange(0, i as int),
            decreases self.orders.len() - i,
        {
            orders.push(self.orders[i].clone());
            assert(orders@ == self.orders@.subrange(0, i + 1));
            i += 1;
        }
        assert(self.orders@.subrange(0, i as int) == self.orders@);
        Flight { launch_time: self.launch_time, orders }
    }
}

impl Flight {
    /// The distance in metres of the closed route of the flight: the sum of
    /// its legs, each of them rounded down to whole metres before they are
    /// summed.
    pub fn total_distance(&self, destinations: &DestinationSet) -> (metres: u128)
        requires
            all_known(destinations@, self.orders@),
        ensures
            metres == total_route_distance(destinations@, self.orders@),
    {
        let ghost dests = destinations@;
        let ghost orders = self.orders@;
        let mut metres: u128 = 0;
        let mut north: i64 = 0;
        let mut east: i64 = 0;
        let mut i: usize = 0;
        while i < self.orders.len()
            invariant
                i <= self.orders.len(),
                dests == destinations@,
                orders == self.orders@,
                all_known(dests, orders),
                metres == route_prefix(dests, orders, i as nat),
                metres <= i * 0xffff_ffff_ffff_ffff,
                (north as int, east as int) == waypoint(dests, orders, i as int),
            decreases self.orders.len() - i,
        {
            let stop = destinations.get(&self.orders[i].destination);
            assert(dests.contains_key(orders[i as int].destination@));
            let stop = stop.unwrap();
            let step = distance_between(stop.north_m, stop.east_m, north, east);
            proof {
                lemma_legs_fit(i as nat);
            }
            metres = metres + step as u128;
            north = stop.north_m;
            east = stop.east_m;
            i += 1;
        }
        let home = distance_between(0, 0, north, east);
        proof {
            lemma_legs_fit(i as nat);
        }
        metres + home as u128
    }

    /// Whether the flight is back at the depot at `current_time`, for a
    /// carrier that flies `speed_mps` metres in a second: whether its end
    /// time, which is reckoned from legs of whole metres, has come.
    pub fn has_landed(
        &self,
        destinations: &DestinationSet,
        speed_mps: u64,
        current_time: u64,
    ) -> (landed: bool)
        requires
            all_known(destinations@, self.orders@),
            speed_mps > 0,
        ensures
            landed == self@.landed_by(destinations@, speed_mps, current_time),
    {
        let metres = self.total_distance(destinations);
        let seconds: u128 = metres / speed_mps as u128;
        seconds <= current_time as u128 && self.launch_time as u128 <= current_time as u128
            - seconds
    }

    /// Returns the time at which the flight arrives back at the depot: the
    /// launch time and the whole seconds that the route takes. The route is
    /// the sum of its legs, each rounded down to whole metres before they are
    /// summed, so the time can be earlier than that of the unrounded route.
    pub fn end_time(&self, destinations: &DestinationSet, speed_mps: u64) -> (time: u64)
        requires
            all_known(destinations@, self.orders@),
            speed_mps > 0,
            self@.end_time(destinations@, speed_mps) <= u64::MAX,
        ensures
            time == self@.end_time(destinations@, speed_mps),
    {
        let metres = self.total_distance(destinations);
        let seconds: u128 = metres / speed_mps as u128;
        (self.launch_time as u128 + seconds) as u64
    }

    /// Returns where the carrier is at `current_time`: the leg of its route
    /// that it is on, how far along that leg, and how many stops are left.
    pub fn current_position(
        &self,
        destinations: &DestinationSet,
        current_time: u64,
        speed_mps: u64,
    ) -> (position: RoutePosition)
        requires
            all_known(destinations@, self.orders@),
            self.launch_time <= current_time,
        ensures
            position.locates(
                destinations@,
                self.orders@,
                ((current_time - self.launch_time) * speed_mps) as nat,
            ),
    {
        let ghost dests = destinations@;
        let ghost orders = self.orders@;
        let seconds: u64 = current_time - self.launch_time;
        assert(seconds * speed_mps <= u128::MAX) by (nonlinear_arith)
            requires
                seconds <= u64::MAX,
                speed_mps <= u64::MAX,
        ;
        let travelled: u128 = seconds as u128 * speed_mps as u128;
        let mut left: u128 = travelled;
        let mut north: i64 = 0;
        let mut east: i64 = 0;
        let count: usize = self.orders.len();
        let mut i: usize = 0;
        while i < count
            invariant
                count == self.orders.len(),
                i <= count,
                dests == destinations@,
                orders == self.orders@,
                all_known(dests, orders),
                travelled == (current_time - self.launch_time) * speed_mps,
                left == travelled - route_prefix(dests, orders, i as nat),
                i > 0 ==> travelled > route_prefix(dests, orders, i as nat),
                (north as int, east as int) == waypoint(dests, orders, i as int),
            decreases count - i,
        {
            let stop = destinations.get(&self.orders[i].destination);
            assert(dests.contains_key(orders[i as int].destination@));
            let stop = stop.unwrap();
            let step = distance_between(stop.north_m, stop.east_m, north, east);
            assert(step == leg(dests, orders, i as int));
            assert(route_prefix(dests, orders, (i + 1) as nat) == route_prefix(
                dests,
                orders,
                i as nat,
            ) + step);
            if left <= step as u128 {
                proof {
                    lemma_route_prefix_monotonic(dests, orders, (i + 1) as nat, (count + 1) as nat);
                }
                return RoutePosition {
                    from_north_m: north,
                    from_east_m: east,
                    to_north_m: stop.north_m,
                    to_east_m: stop.east_m,
                    leg_travelled_m: left as u64,
                    leg_length_m: step,
                    stops_remaining: count - i,
                };
            }
            left = left - step as u128;
            north = stop.north_m;
            east = stop.east_m;
            i += 1;
        }
        let home = distance_between(0, 0, north, east);
        if left <= home as u128 {
            RoutePosition {
                from_north_m: north,
                from_east_m: east,
                to_north_m: 0,
                to_east_m: 0,
                leg_travelled_m: left as u64,
                leg_length_m: home,
                stops_remaining: 0,
            }
        } else {
            RoutePosition {
                from_north_m: 0,
                from_east_m: 0,
                to_north_m: 0,
                to_east_m: 0,
                leg_travelled_m: 0,
                leg_length_m: 0,
                stops_remaining: 0,
            }
        }
    }
}

/// A copy of each flight of a list.
pub fn clone_flights(flights: &[Flight]) -> (copies: Vec<Flight>)
    ensures
        flight_views(copies@) == flight_views(flights@),
{
    let mut copies: Vec<Flight> = Vec::new();
    let mut i: usize = 0;
    while i < flights.len()
        invariant
            i <= flights.len(),
            flight_views(copies@) == flight_views(flights@.take(i as int)),
        decreases flights.len() - i,
    {
        let copy = flights[i].clone();
        assert(flights@.take(i + 1) == flights@.take(i as int).push(flights@[i as int]));
        assert(flight_views(copies@.push(copy)) =~= flight_views(copies@).push(copy@));
        assert(flight_views(flights@.take(i + 1)) =~= flight_views(flights@.take(i as int)).push(
            flights@[i as int]@,
        ));
        copies.push(copy);
        i += 1;
    }
    assert(flights@.take(i as int) == flights@);
    copies
}

} // verus!
