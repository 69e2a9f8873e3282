//! Schedulers: they hold the pending orders and the flights in the air, and
//! on demand land the flights that are back and launch new ones.

use crate::destinations::{all_known, DestinationSet};
use crate::entities::{Destination, Order};
use crate::error::ConfigError;
use crate::flight::{flight_views, Flight, FlightView};
use crate::launch::{
    carriers_for_launch, flights_known, flights_of, is_airborne, launch, lemma_aboard_flights_of,
    lemma_filter_keeps_known, lemma_flights_of_members, lemma_flights_of_push,
    lemma_launch_conserves, orders_aboard, Fleet, Launch, NUM_RESERVE_CARRIERS,
};
use crate::packing::{
    arrange_by_priority, bins_wf, by_priority, empty_bins, has_emergency, lemma_by_priority,
    lemma_pack_shape, loads, make_bins, pack, pack_orders,
};
use itertools::{Either, Itertools};
use vstd::prelude::*;

verus! {

/// The number of carriers of the default fleet.
pub const DEFAULT_NUM_CARRIERS: usize = 10;

/// The number of orders that a carrier of the default fleet can hold.
pub const DEFAULT_MAX_ORDERS_PER_CARRIER: usize = 3;

/// The speed of the carriers of the default fleet in metres per second.
pub const DEFAULT_CARRIER_SPEED_MPS: u64 = 30;

/// The distance in metres within which the carriers of the default fleet
/// deliver.
pub const DEFAULT_CARRIER_RANGE_M: u64 = 160_000;

/// A flight scheduler for processing incoming orders
pub trait Scheduler {
    /// The invariant of the scheduler.
    spec fn valid(&self) -> bool;

    /// The orders that are queued and not yet assigned to a flight.
    spec fn pending_orders(&self) -> Seq<Order>;

    /// Whether the scheduler serves the destination of the order.
    spec fn serves(&self, order: Order) -> bool;

    /// Returns the orders that are queued for processing by this scheduler
    /// and not yet assigned to a flight.
    fn unfulfilled_orders(&self) -> (orders: &[Order])
        ensures
            orders@ == self.pending_orders(),
    ;

    /// Schedule an order to be delivered by a carrier controlled by this scheduler
    fn queue_order(&mut self, order: Order)
        requires
            old(self).valid(),
        ensures
            final(self).valid(),
            final(self).pending_orders().to_multiset() == old(
                self,
            ).pending_orders().to_multiset().insert(order),
            forall|o: Order| final(self).serves(o) == old(self).serves(o),
    ;

    /// Lands the flights that are back at the given time and returns the
    /// flights that are launched at that time. Fails, and changes nothing,
    /// if a pending order names a destination that is not served.
    fn launch_flights(&mut self, current_time: u64) -> (launched: Result<Vec<Flight>, ConfigError>)
        requires
            old(self).valid(),
        ensures
            final(self).valid(),
            forall|o: Order| final(self).serves(o) == old(self).serves(o),
            launched is Ok <==> forall|i: int|
                0 <= i < old(self).pending_orders().len() ==> old(self).serves(
                    #[trigger] old(self).pending_orders()[i],
                ),
            launched matches Err(e) ==> e == ConfigError::UnknownDestination
                && final(self).pending_orders() == old(self).pending_orders(),
            launched matches Ok(flights) ==> {
                &&& forall|i: int|
                    0 <= i < flights.len() ==> (#[trigger] flights[i]).launch_time == current_time
                        && flights[i].orders.len() > 0
                &&& final(self).pending_orders().to_multiset().add(
                    orders_aboard(flight_views(flights@)),
                ).subset_of(old(self).pending_orders().to_multiset())
            },
    ;
}

/// `itertools::Either`: a value that is on the left or on the right.
#[verifier::external_type_specification]
pub struct ExEither<L, R>(Either<L, R>);

/// The flights that are still in the air at the time `now`.
pub open spec fn flies_on(
    dests: Map<Seq<char>, Destination>,
    speed_mps: u64,
    now: u64,
) -> spec_fn(Flight) -> bool {
    |flight: Flight| !flight@.landed_by(dests, speed_mps, now)
}

/// The flights that are back at the depot at the time `now`.
pub open spec fn is_back(
    dests: Map<Seq<char>, Destination>,
    speed_mps: u64,
    now: u64,
) -> spec_fn(Flight) -> bool {
    |flight: Flight| flight@.landed_by(dests, speed_mps, now)
}

/// Puts a flight on the left if it is back at the depot at the time `now`,
/// and on the right if it is still in the air.
fn landed_or_airborne(
    flight: Flight,
    destinations: &DestinationSet,
    speed_mps: u64,
    now: u64,
) -> (side: Either<Flight, Flight>)
    requires
        all_known(destinations@, flight.orders@),
        speed_mps > 0,
    ensures
        side == if flight@.landed_by(destinations@, speed_mps, now) {
            Either::<Flight, Flight>::Left(flight)
        } else {
            Either::<Flight, Flight>::Right(flight)
        },
{
    if flight.has_landed(destinations, speed_mps, now) {
        Either::Left(flight)
    } else {
        Either::Right(flight)
    }
}

/// Parts the flights into those that are back at the time `now` and those
/// that are still in the air, with `Itertools::partition_map`.
///
/// `partition_map` hands each item in turn to the closure and appends what
/// the closure returns to the first collection if it is a `Left` and to the
/// second if it is a `Right`. So each part holds its flights in the sequence
/// in which they stood in `flights`.
#[verifier::external_body]
fn part_landed(
    flights: Vec<Flight>,
    destinations: &DestinationSet,
    speed_mps: u64,
    now: u64,
) -> (parts: (Vec<Flight>, Vec<Flight>))
    requires
        flights_known(destinations@, flight_views(flights@)),
        speed_mps > 0,
    ensures
        parts.0@ == flights@.filter(is_back(destinations@, speed_mps, now)),
        parts.1@ == flights@.filter(flies_on(destinations@, speed_mps, now)),
{
    flights.into_iter().partition_map(
        |flight| landed_or_airborne(flight, destinations, speed_mps, now),
    )
}

/// A scheduler that packs the pending orders, emergencies first, into the
/// carriers that are free to launch.
///
/// Of two pending orders of one priority, the one that was queued later is
/// packed first. An emergency goes to the bin with the shortest way out, any
/// other order to the bin with the most orders, among the bins that can
/// still take it; of two such bins that are equally good, the first takes
/// it. The first order that no bin can take ends the packing: that order is
/// shed, and the orders that are not yet packed stay pending.
pub struct NaiveScheduler {
    /// Destinations served by this scheduler
    destinations: DestinationSet,
    /// Number of carriers controlled by this scheduler
    num_carriers: usize,
    /// Number of orders that one carrier can hold
    max_orders_per_carrier: usize,
    /// Speed of the carriers in metres per second
    carrier_speed_mps: u64,
    /// Distance in metres within which the carriers deliver
    carrier_range_m: u64,
    /// Orders that are not yet assigned to a flight
    unfulfilled_orders: Vec<Order>,
    /// Flights that are in the air
    active_flights: Vec<Flight>,
}

impl NaiveScheduler {
    /// The fleet that the scheduler runs.
    pub closed spec fn fleet(&self) -> Fleet {
        Fleet {
            dests: self.destinations@,
            num_carriers: self.num_carriers as nat,
            max_orders: self.max_orders_per_carrier as nat,
            speed_mps: self.carrier_speed_mps,
            range: self.carrier_range_m as nat,
        }
    }

    /// The orders that are not yet assigned to a flight.
    pub closed spec fn pending(&self) -> Seq<Order> {
        self.unfulfilled_orders@
    }

    /// The flights that are in the air.
    pub closed spec fn active(&self) -> Seq<FlightView> {
        flight_views(self.active_flights@)
    }

    /// The invariant of the scheduler: the speed of the carriers is not
    /// zero, no more flights are in the air than the fleet has carriers, and
    /// every flight in the air serves known destinations.
    pub open spec fn wf(&self) -> bool {
        &&& self.fleet().speed_mps > 0
        &&& self.active().len() <= self.fleet().num_carriers
        &&& flights_known(self.fleet().dests, self.active())
    }

    /// What a launch at the time `now` does to this scheduler.
    pub open spec fn launch_at(&self, now: u64) -> Launch {
        launch(self.fleet(), self.active(), self.pending(), now)
    }

    /// A scheduler for a fleet of `num_carriers` carriers, with no order
    /// pending and no flight in the air.
    pub fn new(
        destinations: DestinationSet,
        num_carriers: usize,
        max_orders_per_carrier: usize,
        carrier_speed_mps: u64,
        carrier_range_m: u64,
    ) -> (scheduler: Self)
        requires
            carrier_speed_mps > 0,
        ensures
            scheduler.wf(),
            scheduler.fleet() == (Fleet {
                dests: destinations@,
                num_carriers: num_carriers as nat,
                max_orders: max_orders_per_carrier as nat,
                speed_mps: carrier_speed_mps,
                range: carrier_range_m as nat,
            }),
            scheduler.pending() == Seq::<Order>::empty(),
            scheduler.active() == Seq::<FlightView>::empty(),
    {
        let scheduler = NaiveScheduler {
            destinations,
            num_carriers,
            max_orders_per_carrier,
            carrier_speed_mps,
            carrier_range_m,
            unfulfilled_orders: Vec::new(),
            active_flights: Vec::new(),
        };
        assert(scheduler.active() =~= Seq::<FlightView>::empty());
        scheduler
    }

    /// A scheduler for the default fleet: `DEFAULT_NUM_CARRIERS` carriers
    /// that hold `DEFAULT_MAX_ORDERS_PER_CARRIER` orders each, fly
    /// `DEFAULT_CARRIER_SPEED_MPS` metres in a second and deliver within
    /// `DEFAULT_CARRIER_RANGE_M` metres.
    pub fn with_defaults(destinations: DestinationSet) -> (scheduler: Self)
        ensures
            scheduler.wf(),
            scheduler.fleet() == (Fleet {
                dests: destinations@,
                num_carriers: DEFAULT_NUM_CARRIERS as nat,
                max_orders: DEFAULT_MAX_ORDERS_PER_CARRIER as nat,
                speed_mps: DEFAULT_CARRIER_SPEED_MPS,
                range: DEFAULT_CARRIER_RANGE_M as nat,
            }),
            scheduler.pending() == Seq::<Order>::empty(),
            scheduler.active() == Seq::<FlightView>::empty(),
    {
        NaiveScheduler::new(
            destinations,
            DEFAULT_NUM_CARRIERS,
            DEFAULT_MAX_ORDERS_PER_CARRIER,
            DEFAULT_CARRIER_SPEED_MPS,
            DEFAULT_CARRIER_RANGE_M,
        )
    }

    /// The flights that are in the air.
    pub fn active_flights(&self) -> (flights: &[Flight])
        ensures
            flight_views(flights@) == self.active(),
    {
        self.active_flights.as_slice()
    }

    /// The destinations that the scheduler serves.
    pub fn served(&self) -> (destinations: &DestinationSet)
        ensures
            destinations@ == self.fleet().dests,
    {
        &self.destinations
    }

    /// Returns the number of carriers that are not in the air
    pub fn available_carriers(&self) -> (free: usize)
        requires
            self.wf(),
        ensures
            free == self.fleet().num_carriers - self.active().len(),
    {
        self.num_carriers - self.active_flights.len()
    }

    /// Whether an emergency is pending.
    pub fn emergency_pending(&self) -> (pending: bool)
        ensures
            pending == has_emergency(self.pending()),
    {
        let mut i: usize = 0;
        while i < self.unfulfilled_orders.len()
            invariant
                i <= self.unfulfilled_orders.len(),
                forall|k: int| 0 <= k < i ==> !(#[trigger] self.unfulfilled_orders[k]).urgent(),
            decreases self.unfulfilled_orders.len() - i,
        {
            if self.unfulfilled_orders[i].is_emergency() {
                return true;
            }
            i += 1;
        }
        false
    }

    /// Lands the flights that are back at the depot at `current_time`.
    pub fn process_landings(&mut self, current_time: u64)
        requires
            old(self).wf(),
        ensures
            final(self).wf(),
            final(self).fleet() == old(self).fleet(),
            final(self).pending() == old(self).pending(),
            final(self).active() == old(self).active().filter(
                is_airborne(old(self).fleet(), current_time),
            ),
    {
        let ghost dests = self.destinations@;
        let ghost speed = self.carrier_speed_mps;
        let mut flights: Vec<Flight> = Vec::new();
        core::mem::swap(&mut self.active_flights, &mut flights);
        let ghost before = flights@;
        let (_landed, kept) = part_landed(
            flights,
            &self.destinations,
            self.carrier_speed_mps,
            current_time,
        );
        proof {
            let keep = flies_on(dests, speed, current_time);
            let keep_view = is_airborne(self.fleet(), current_time);
            vstd::seq_lib::lemma_filter_view_commute(before, keep, keep_view);
            assert(flight_views(kept@) == flight_views(before).filter(keep_view));
            flight_views(before).lemma_filter_len(keep_view);
            lemma_filter_keeps_known(dests, flight_views(before), keep_view);
        }
        self.active_flights = kept;
    }
}

impl Scheduler for NaiveScheduler {
    open spec fn valid(&self) -> bool {
        self.wf()
    }

    open spec fn pending_orders(&self) -> Seq<Order> {
        self.pending()
    }

    open spec fn serves(&self, order: Order) -> bool {
        self.fleet().dests.contains_key(order.destination@)
    }

    fn unfulfilled_orders(&self) -> (orders: &[Order]) {
        self.unfulfilled_orders.as_slice()
    }

    /// Appends the order to the pending queue.
    fn queue_order(&mut self, order: Order)
        ensures
            final(self).fleet() == old(self).fleet(),
            final(self).pending() == old(self).pending().push(order),
            final(self).active() == old(self).active(),
    {
        broadcast use vstd::seq_lib::to_multiset_build;

        self.unfulfilled_orders.push(order);
    }

    /// Lands the flights that are back at `current_time`, packs the pending
    /// orders into the carriers that may launch, and returns the new
    /// flights, which are in the air from then on.
    fn launch_flights(&mut self, current_time: u64) -> (launched: Result<Vec<Flight>, ConfigError>)
        ensures
            final(self).fleet() == old(self).fleet(),
            launched is Ok <==> all_known(old(self).fleet().dests, old(self).pending()),
            launched is Err ==> final(self).pending() == old(self).pending(),
            launched is Err ==> final(self).active() == old(self).active(),
            launched matches Ok(flights) ==> {
                let outcome = old(self).launch_at(current_time);
                &&& final(self).active() == outcome.active
                &&& final(self).pending() == outcome.pending
                &&& flight_views(flights@) == outcome.launched
            },
    {
        let ghost dests = self.destinations@;
        let ghost pending = self.unfulfilled_orders@;
        let ghost range = self.carrier_range_m as nat;
        let ghost max_orders = self.max_orders_per_carrier as nat;
        if !self.destinations.knows_all(self.unfulfilled_orders.as_slice()) {
            proof {
                let i = choose|i: int|
                    0 <= i < pending.len() && !dests.contains_key(
                        #[trigger] pending[i].destination@,
                    );
                assert(!self.serves(self.pending_orders()[i]));
            }
            return Err(ConfigError::UnknownDestination);
        }
        self.process_landings(current_time);
        let ghost kept = self.active();
        let mut available: usize = self.available_carriers();
        if !self.emergency_pending() {
            available = if available >= NUM_RESERVE_CARRIERS {
                available - NUM_RESERVE_CARRIERS
            } else {
                0
            };
        }
        assert(available == carriers_for_launch(
            self.num_carriers as nat,
            kept.len(),
            has_emergency(pending),
        ));
        let mut bins = make_bins(available);
        let mut taken: Vec<Order> = Vec::new();
        core::mem::swap(&mut self.unfulfilled_orders, &mut taken);
        let mut queue = arrange_by_priority(taken);
        proof {
            lemma_by_priority(pending);
            assert forall|i: int| 0 <= i < queue@.len() implies dests.contains_key(
                #[trigger] queue@[i].destination@,
            ) by {
                assert(queue@.to_multiset().count(queue@[i]) > 0) by {
                    vstd::seq_lib::to_multiset_contains(queue@, queue@[i]);
                }
                vstd::seq_lib::to_multiset_contains(pending, queue@[i]);
                let k = choose|k: int| 0 <= k < pending.len() && pending[k] == queue@[i];
                assert(dests.contains_key(pending[k].destination@));
            }
            assert forall|i: int| 0 <= i < bins@.len() implies (#[trigger] bins@[i]).wf(
                dests,
                range,
            ) by {
                assert(bins@[i].load() == loads(bins@)[i]);
            }
        }
        let ghost packing = pack(dests, max_orders, range, queue@, loads(bins@));
        let _shed = pack_orders(
            &mut queue,
            &mut bins,
            &self.destinations,
            self.max_orders_per_carrier,
            self.carrier_range_m,
        );
        self.unfulfilled_orders = queue;
        proof {
            lemma_pack_shape(dests, max_orders, range, by_priority(pending), empty_bins(
                available as nat,
            ));
            lemma_aboard_flights_of(packing.bins, current_time);
        }
        let ghost packed = bins@;
        let ghost all = loads(packed);
        let mut launched: Vec<Flight> = Vec::new();
        for bin in it: bins
            invariant
                it.seq() == packed,
                all == loads(packed),
                bins_wf(packed, dests, range),
                dests == self.destinations@,
                self.fleet() == old(self).fleet(),
                self.unfulfilled_orders@ == packing.queue,
                self.carrier_speed_mps > 0,
                flights_known(dests, flight_views(self.active_flights@)),
                flight_views(launched@) == flights_of(all.take(it.index() as int), current_time),
                flight_views(self.active_flights@) == kept + flights_of(
                    all.take(it.index() as int),
                    current_time,
                ),
        {
            let ghost k = it.index() as int;
            proof {
                assert(all.take(k + 1) == all.take(k).push(all[k]));
                lemma_flights_of_push(all.take(k), all[k], current_time);
                assert(packed[k].wf(dests, range));
                assert(all[k] == packed[k].load());
            }
            let orders = bin.into_orders();
            if orders.len() > 0 {
                let flight = Flight { launch_time: current_time, orders };
                let copy = flight.clone();
                proof {
                    assert(flight_views(launched@.push(copy)) =~= flight_views(launched@).push(
                        copy@,
                    ));
                    assert(flight_views(self.active_flights@.push(flight)) =~= flight_views(
                        self.active_flights@,
                    ).push(flight@));
                    assert((kept + flights_of(all.take(k), current_time)).push(flight@) =~= kept
                        + flights_of(all.take(k), current_time).push(flight@));
                }
                launched.push(copy);
                self.active_flights.push(flight);
            }
        }
        proof {
            assert(all.take(all.len() as int) == all);
            lemma_launch_conserves(old(self).fleet(), old(self).active(), pending, current_time);
            let outcome = old(self).launch_at(current_time);
            assert(outcome.pending.to_multiset().add(orders_aboard(outcome.launched)).subset_of(
                pending.to_multiset(),
            ));
            assert forall|i: int| 0 <= i < launched.len() implies (
            #[trigger] launched[i]).launch_time == current_time && launched[i].orders.len()
                > 0 by {
                lemma_flights_of_members(packing.bins, current_time, i);
                assert(flight_views(launched@)[i] == launched[i]@);
            }
        }
        Ok(launched)
    }
}

} // verus!
