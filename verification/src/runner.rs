//! The simulation of one day: a clock that advances second by second, feeds
//! the orders of the day to a scheduler at the times at which they are
//! placed, has the scheduler launch flights every minute, and takes
//! snapshots of the fleet at a rate that observers can follow.
//!
//! A `Simulation` does not wait between two ticks: whoever drives it paces
//! it, by `Simulation::pause_nanos` of real time after each `step`.

use crate::entities::{Destination, Order};
use crate::error::ConfigError;
use crate::destinations::all_known;
use crate::flight::{clone_flights, flight_views, Flight, FlightView};
use crate::launch::{
    flights_known, flights_within_limits, launch, lemma_launch_accounts, lemma_launch_capacity,
    lemma_launch_conserves, lemma_launch_keeps_limits, orders_aboard, Fleet,
};
use crate::packing::shed_orders;
use crate::scheduler::{NaiveScheduler, Scheduler};
use crate::speed::{Speed, NANOS_PER_SECOND};
use core::future::Future;
use vstd::multiset::Multiset;
use vstd::prelude::*;

verus! {

/// A `Runner` dispatches carriers to fulfill orders using a provided
/// `Scheduler`. It returns a `Response` future, which may be polled to drive
/// its operation until completion of all deliveries.
pub trait Runner<S: Scheduler> {
    type Response: Future<Output = Result<Self::Success, Self::Error>>;

    type Success;

    type Error;

    /// Initialize the `Runner` to fulfill orders using the provided `Scheduler`.
    fn run(&self, scheduler: S) -> Self::Response;
}

/// The last second of the simulated day.
pub const SECONDS_PER_DAY: u64 = 86400;

/// The number of seconds from one launch to the next.
pub const LAUNCH_PERIOD: u64 = 60;

/// A snapshot of the fleet.
#[derive(Debug)]
pub struct StatusUpdate {
    /// Simulated time of the snapshot in seconds since midnight
    pub time: u64,
    /// The flights in the air at that time
    pub flights: Vec<Flight>,
    /// The speed of the simulation
    pub speed: Speed,
}

/// What a snapshot says.
pub struct StatusUpdateView {
    pub time: u64,
    pub flights: Seq<FlightView>,
    pub speed: Speed,
}

impl View for StatusUpdate {
    type V = StatusUpdateView;

    open spec fn view(&self) -> StatusUpdateView {
        StatusUpdateView {
            time: self.time,
            flights: flight_views(self.flights@),
            speed: self.speed,
        }
    }
}

impl Clone for StatusUpdate {
    fn clone(&self) -> (copy: Self)
        ensures
            copy@ == self@,
    {
        StatusUpdate {
            time: self.time,
            flights: clone_flights(self.flights.as_slice()),
            speed: self.speed,
        }
    }
}

/// A sorted sequence with `order` added behind the orders that were placed
/// no later than it.
pub open spec fn insert_by_time(sorted: Seq<Order>, order: Order) -> Seq<Order>
    decreases sorted.len(),
{
    if sorted.len() == 0 || sorted.last().time <= order.time {
        sorted.push(order)
    } else {
        insert_by_time(sorted.drop_last(), order).push(sorted.last())
    }
}

/// The orders in ascending sequence of the times at which they were placed;
/// orders of the same time keep their sequence.
pub open spec fn by_time(orders: Seq<Order>) -> Seq<Order>
    decreases orders.len(),
{
    if orders.len() == 0 {
        orders
    } else {
        insert_by_time(by_time(orders.drop_last()), orders.last())
    }
}

/// No order of the sequence was placed before an earlier one.
pub open spec fn ascending(orders: Seq<Order>) -> bool {
    forall|i: int, j: int| 0 <= i <= j < orders.len() ==> orders[i].time <= orders[j].time
}

/// Adding an order to a sorted sequence keeps it sorted and adds nothing
/// but the order.
pub proof fn lemma_insert_by_time(sorted: Seq<Order>, order: Order)
    requires
        ascending(sorted),
    ensures
        ascending(insert_by_time(sorted, order)),
        insert_by_time(sorted, order).to_multiset() == sorted.to_multiset().insert(order),
        insert_by_time(sorted, order).len() == sorted.len() + 1,
    decreases sorted.len(),
{
    broadcast use vstd::seq_lib::to_multiset_build;

    let longer = insert_by_time(sorted, order);
    if sorted.len() == 0 || sorted.last().time <= order.time {
    } else {
        let rest = sorted.drop_last();
        lemma_insert_by_time(rest, order);
        let inner = insert_by_time(rest, order);
        assert(sorted == rest.push(sorted.last()));
        assert(longer.to_multiset() =~= sorted.to_multiset().insert(order));
        assert forall|i: int, j: int| 0 <= i <= j < longer.len() implies longer[i].time
            <= longer[j].time by {
            if j == longer.len() - 1 && i < j {
                assert(inner.to_multiset().count(inner[i]) > 0) by {
                    vstd::seq_lib::to_multiset_contains(inner, inner[i]);
                }
                if inner[i] != order {
                    vstd::seq_lib::to_multiset_contains(rest, inner[i]);
                    let k = choose|k: int| 0 <= k < rest.len() && rest[k] == inner[i];
                    assert(sorted[k].time <= sorted[sorted.len() - 1].time);
                }
            }
        }
    }
}

/// Sorting by time yields the same orders in ascending sequence.
pub proof fn lemma_by_time(orders: Seq<Order>)
    ensures
        ascending(by_time(orders)),
        by_time(orders).to_multiset() == orders.to_multiset(),
        by_time(orders).len() == orders.len(),
    decreases orders.len(),
{
    broadcast use vstd::seq_lib::to_multiset_build;

    if orders.len() > 0 {
        lemma_by_time(orders.drop_last());
        lemma_insert_by_time(by_time(orders.drop_last()), orders.last());
        assert(orders == orders.drop_last().push(orders.last()));
    }
}

/// Sorting by time keeps the orders within the destinations that are known.
pub proof fn lemma_by_time_known(dests: Map<Seq<char>, Destination>, orders: Seq<Order>)
    ensures
        all_known(dests, by_time(orders)) == all_known(dests, orders),
{
    lemma_by_time(orders);
    let sorted = by_time(orders);
    if all_known(dests, orders) {
        assert forall|i: int| 0 <= i < sorted.len() implies dests.contains_key(
            #[trigger] sorted[i].destination@,
        ) by {
            assert(sorted.to_multiset().count(sorted[i]) > 0) by {
                vstd::seq_lib::to_multiset_contains(sorted, sorted[i]);
            }
            vstd::seq_lib::to_multiset_contains(orders, sorted[i]);
            let k = choose|k: int| 0 <= k < orders.len() && orders[k] == sorted[i];
            assert(dests.contains_key(orders[k].destination@));
        }
    }
    if all_known(dests, sorted) {
        assert forall|i: int| 0 <= i < orders.len() implies dests.contains_key(
            #[trigger] orders[i].destination@,
        ) by {
            assert(orders.to_multiset().count(orders[i]) > 0) by {
                vstd::seq_lib::to_multiset_contains(orders, orders[i]);
            }
            vstd::seq_lib::to_multiset_contains(sorted, orders[i]);
            let k = choose|k: int| 0 <= k < sorted.len() && sorted[k] == orders[i];
            assert(dests.contains_key(sorted[k].destination@));
        }
    }
}

/// Sorts the orders by the times at which they were placed; orders of the
/// same time keep their sequence.
pub fn sort_by_time(orders: Vec<Order>) -> (sorted: Vec<Order>)
    ensures
        sorted@ == by_time(orders@),
{
    let ghost all = orders@;
    let mut sorted: Vec<Order> = Vec::new();
    for order in it: orders
        invariant
            it.seq() == all,
            sorted@ == by_time(all.take(it.index() as int)),
    {
        let ghost k = it.index() as int;
        let ghost before = sorted@;
        assert(all.take(k + 1).drop_last() == all.take(k));
        let mut at: usize = sorted.len();
        proof {
            assert(before.take(at as int) == before);
            assert(insert_by_time(before, order) + before.skip(at as int) =~= insert_by_time(
                before,
                order,
            ));
        }
        while at > 0 && sorted[at - 1].time > order.time
            invariant
                at <= sorted.len(),
                sorted@ == before,
                insert_by_time(before, order) == insert_by_time(before.take(at as int), order)
                    + before.skip(at as int),
            decreases at,
        {
            proof {
                let head = before.take(at as int);
                assert(head.drop_last() == before.take(at - 1));
                assert(insert_by_time(head, order) == insert_by_time(
                    before.take(at - 1),
                    order,
                ).push(before[at - 1]));
                assert(insert_by_time(before.take(at - 1), order).push(before[at - 1])
                    + before.skip(at as int) =~= insert_by_time(before.take(at - 1), order)
                    + before.skip(at - 1));
            }
            at -= 1;
        }
        proof {
            let head = before.take(at as int);
            assert(insert_by_time(head, order) == head.push(order));
            assert(before.insert(at as int, order) =~= head.push(order) + before.skip(at as int));
        }
        sorted.insert(at, order);
    }
    assert(all.take(all.len() as int) == all);
    sorted
}

/// How far a simulation has come.
pub struct Progress {
    /// The time of the next tick
    pub clock: nat,
    /// The number of orders of the day that were handed to the scheduler
    pub fed: nat,
    /// The orders that are pending
    pub pending: Seq<Order>,
    /// The flights in the air
    pub active: Seq<FlightView>,
}

/// Whether the next order of the day is placed at the time of the next tick.
pub open spec fn order_due(orders: Seq<Order>, progress: Progress) -> bool {
    progress.fed < orders.len() && orders[progress.fed as int].time == progress.clock
}

/// Whether flights are launched at the time `time`.
pub open spec fn launches_at(time: nat) -> bool {
    time % (LAUNCH_PERIOD as nat) == 0
}

/// The simulation after its next tick.
///
/// If the next order of the day is placed at the time of the tick, it is
/// queued; then, if the tick is a launch tick, flights are launched. A tick
/// queues one order at most: of two orders that are placed in the same
/// second the later is never due, nor is any order behind it. Flights land
/// at launch ticks only.
pub open spec fn tick(fleet: Fleet, orders: Seq<Order>, progress: Progress) -> Progress {
    let due = order_due(orders, progress);
    let queued = if due {
        progress.pending.push(orders[progress.fed as int])
    } else {
        progress.pending
    };
    let fed = if due {
        progress.fed + 1
    } else {
        progress.fed
    };
    if launches_at(progress.clock) {
        let outcome = launch(fleet, progress.active, queued, progress.clock as u64);
        Progress {
            clock: progress.clock + 1,
            fed,
            pending: outcome.pending,
            active: outcome.active,
        }
    } else {
        Progress { clock: progress.clock + 1, fed, pending: queued, active: progress.active }
    }
}

/// The simulation at the end of the day: after every tick up to the last
/// second of the day.
pub open spec fn run_to_end(fleet: Fleet, orders: Seq<Order>, progress: Progress) -> Progress
    decreases SECONDS_PER_DAY + 1 - progress.clock,
{
    if progress.clock > SECONDS_PER_DAY {
        progress
    } else {
        run_to_end(fleet, orders, tick(fleet, orders, progress))
    }
}

/// An order of known destination that joins orders of known destinations
/// leaves them so.
pub proof fn lemma_push_known(
    dests: Map<Seq<char>, Destination>,
    pending: Seq<Order>,
    orders: Seq<Order>,
    next: int,
)
    requires
        all_known(dests, pending),
        all_known(dests, orders),
        0 <= next < orders.len(),
    ensures
        all_known(dests, pending.push(orders[next])),
{
    let queued = pending.push(orders[next]);
    assert(dests.contains_key(orders[next].destination@));
    assert forall|i: int| 0 <= i < queued.len() implies dests.contains_key(
        #[trigger] queued[i].destination@,
    ) by {
        if i < pending.len() {
            assert(queued[i] == pending[i]);
            assert(dests.contains_key(pending[i].destination@));
        } else {
            assert(queued[i] == orders[next]);
        }
    }
}

/// A tick keeps the pending orders within the known destinations.
pub proof fn lemma_tick_known(fleet: Fleet, orders: Seq<Order>, progress: Progress)
    requires
        all_known(fleet.dests, orders),
        all_known(fleet.dests, progress.pending),
        progress.fed <= orders.len(),
    ensures
        all_known(fleet.dests, tick(fleet, orders, progress).pending),
        tick(fleet, orders, progress).fed <= orders.len(),
{
    let due = order_due(orders, progress);
    let queued = if due {
        progress.pending.push(orders[progress.fed as int])
    } else {
        progress.pending
    };
    if due {
        lemma_push_known(fleet.dests, progress.pending, orders, progress.fed as int);
    }
    if launches_at(progress.clock) {
        let outcome = launch(fleet, progress.active, queued, progress.clock as u64);
        lemma_launch_conserves(fleet, progress.active, queued, progress.clock as u64);
        assert forall|i: int| 0 <= i < outcome.pending.len() implies fleet.dests.contains_key(
            #[trigger] outcome.pending[i].destination@,
        ) by {
            let o = outcome.pending[i];
            assert(outcome.pending.to_multiset().count(o) > 0) by {
                vstd::seq_lib::to_multiset_contains(outcome.pending, o);
            }
            assert(queued.to_multiset().count(o) > 0);
            vstd::seq_lib::to_multiset_contains(queued, o);
            let k = choose|k: int| 0 <= k < queued.len() && queued[k] == o;
            assert(fleet.dests.contains_key(queued[k].destination@));
        }
    }
}

/// What has become of the orders that are neither pending nor in the air.
pub struct Ledger {
    /// The orders of the flights that landed
    pub delivered: Multiset<Order>,
    /// The orders that were shed
    pub shed: Multiset<Order>,
}

/// The ledger after the next tick.
pub open spec fn tick_ledger(
    fleet: Fleet,
    orders: Seq<Order>,
    progress: Progress,
    ledger: Ledger,
) -> Ledger {
    if launches_at(progress.clock) {
        let queued = if order_due(orders, progress) {
            progress.pending.push(orders[progress.fed as int])
        } else {
            progress.pending
        };
        let outcome = launch(fleet, progress.active, queued, progress.clock as u64);
        Ledger {
            delivered: ledger.delivered.add(orders_aboard(outcome.landed)),
            shed: ledger.shed.add(shed_orders(outcome.shed)),
        }
    } else {
        ledger
    }
}

/// The ledger at the end of the day.
pub open spec fn run_ledger(
    fleet: Fleet,
    orders: Seq<Order>,
    progress: Progress,
    ledger: Ledger,
) -> Ledger
    decreases SECONDS_PER_DAY + 1 - progress.clock,
{
    if progress.clock > SECONDS_PER_DAY {
        ledger
    } else {
        run_ledger(
            fleet,
            orders,
            tick(fleet, orders, progress),
            tick_ledger(fleet, orders, progress, ledger),
        )
    }
}

/// All orders that a simulation knows of: those that are still to come,
/// those that are pending, those aboard the flights in the air, those that
/// were delivered and those that were shed.
pub open spec fn all_orders(orders: Seq<Order>, progress: Progress, ledger: Ledger) -> Multiset<
    Order,
> {
    orders.skip(progress.fed as int).to_multiset().add(progress.pending.to_multiset()).add(
        orders_aboard(progress.active),
    ).add(ledger.delivered).add(ledger.shed)
}

/// A tick loses and duplicates no order: whatever was to come, pending,
/// in the air, delivered or shed before the tick is so afterwards, as
/// often as before.
pub proof fn lemma_tick_conserves(
    fleet: Fleet,
    orders: Seq<Order>,
    progress: Progress,
    ledger: Ledger,
)
    requires
        progress.fed <= orders.len(),
    ensures
        all_orders(
            orders,
            tick(fleet, orders, progress),
            tick_ledger(fleet, orders, progress, ledger),
        ) == all_orders(orders, progress, ledger),
        tick(fleet, orders, progress).fed <= orders.len(),
{
    broadcast use vstd::seq_lib::to_multiset_build;

    let due = order_due(orders, progress);
    let queued = if due {
        progress.pending.push(orders[progress.fed as int])
    } else {
        progress.pending
    };
    let after = tick(fleet, orders, progress);
    let ledger_after = tick_ledger(fleet, orders, progress, ledger);
    let to_come = orders.skip(progress.fed as int);
    if due {
        let next = orders[progress.fed as int];
        let later = orders.skip(progress.fed as int + 1);
        assert(to_come == seq![next] + later);
        vstd::seq_lib::lemma_multiset_commutative(seq![next], later);
        assert(seq![next] == Seq::<Order>::empty().push(next));
        assert(Seq::<Order>::empty().to_multiset() =~= Multiset::<Order>::empty()) by {
            broadcast use vstd::seq_lib::to_multiset_len;

            assert(Seq::<Order>::empty().to_multiset().len() == 0);
        }
        assert(to_come.to_multiset() =~= later.to_multiset().insert(next));
    }
    assert(to_come.to_multiset().add(progress.pending.to_multiset()) =~= orders.skip(
        after.fed as int,
    ).to_multiset().add(queued.to_multiset()));
    let rest = orders.skip(after.fed as int).to_multiset();
    if launches_at(progress.clock) {
        let outcome = launch(fleet, progress.active, queued, progress.clock as u64);
        lemma_launch_accounts(fleet, progress.active, queued, progress.clock as u64);
        let was = queued.to_multiset().add(orders_aboard(progress.active));
        let is = outcome.pending.to_multiset().add(orders_aboard(outcome.active)).add(
            orders_aboard(outcome.landed),
        ).add(shed_orders(outcome.shed));
        assert(was == is);
        assert(all_orders(orders, progress, ledger) =~= rest.add(was).add(ledger.delivered).add(
            ledger.shed,
        ));
        assert(all_orders(orders, after, ledger_after) =~= rest.add(is).add(ledger.delivered).add(
            ledger.shed,
        ));
    } else {
        assert(all_orders(orders, after, ledger_after) =~= all_orders(orders, progress, ledger));
    }
}

/// A day loses and duplicates no order: every order that was to come,
/// pending or in the air at any time of the day is at its end still to
/// come, pending, in the air, delivered or shed, as often as before.
pub proof fn lemma_run_conserves(
    fleet: Fleet,
    orders: Seq<Order>,
    progress: Progress,
    ledger: Ledger,
)
    requires
        progress.fed <= orders.len(),
    ensures
        all_orders(
            orders,
            run_to_end(fleet, orders, progress),
            run_ledger(fleet, orders, progress, ledger),
        ) == all_orders(orders, progress, ledger),
    decreases SECONDS_PER_DAY + 1 - progress.clock,
{
    if progress.clock <= SECONDS_PER_DAY {
        lemma_tick_conserves(fleet, orders, progress, ledger);
        lemma_run_conserves(
            fleet,
            orders,
            tick(fleet, orders, progress),
            tick_ledger(fleet, orders, progress, ledger),
        );
    }
}

/// No more flights are in the air after a tick than the fleet has carriers.
pub proof fn lemma_tick_capacity(fleet: Fleet, orders: Seq<Order>, progress: Progress)
    requires
        progress.active.len() <= fleet.num_carriers,
    ensures
        tick(fleet, orders, progress).active.len() <= fleet.num_carriers,
{
    if launches_at(progress.clock) {
        let queued = if order_due(orders, progress) {
            progress.pending.push(orders[progress.fed as int])
        } else {
            progress.pending
        };
        lemma_launch_capacity(fleet, progress.active, queued, progress.clock as u64);
    }
}

/// At no time of the day are more flights in the air than the fleet has
/// carriers.
pub proof fn lemma_run_capacity(fleet: Fleet, orders: Seq<Order>, progress: Progress)
    requires
        progress.active.len() <= fleet.num_carriers,
    ensures
        run_to_end(fleet, orders, progress).active.len() <= fleet.num_carriers,
    decreases SECONDS_PER_DAY + 1 - progress.clock,
{
    if progress.clock <= SECONDS_PER_DAY {
        lemma_tick_capacity(fleet, orders, progress);
        lemma_run_capacity(fleet, orders, tick(fleet, orders, progress));
    }
}

/// At no time of the day does a flight in the air carry more orders than a
/// carrier can hold, or fly out beyond the range of the carriers.
pub proof fn lemma_run_within_limits(fleet: Fleet, orders: Seq<Order>, progress: Progress)
    requires
        flights_within_limits(fleet, progress.active),
    ensures
        flights_within_limits(fleet, run_to_end(fleet, orders, progress).active),
    decreases SECONDS_PER_DAY + 1 - progress.clock,
{
    if progress.clock <= SECONDS_PER_DAY {
        if launches_at(progress.clock) {
            let queued = if order_due(orders, progress) {
                progress.pending.push(orders[progress.fed as int])
            } else {
                progress.pending
            };
            lemma_launch_keeps_limits(fleet, progress.active, queued, progress.clock as u64);
        }
        lemma_run_within_limits(fleet, orders, tick(fleet, orders, progress));
    }
}

/// The simulation of one day of a fleet.
pub struct Simulation {
    speed: Speed,
    orders: Vec<Order>,
    fed: usize,
    clock: u64,
    scheduler: NaiveScheduler,
}

impl Simulation {
    /// The speed of the simulation.
    pub closed spec fn speed(&self) -> Speed {
        self.speed
    }

    /// The orders of the day, in the sequence in which they are placed.
    pub closed spec fn orders(&self) -> Seq<Order> {
        self.orders@
    }

    /// The fleet that is simulated.
    pub closed spec fn fleet(&self) -> Fleet {
        self.scheduler.fleet()
    }

    /// How far the simulation has come.
    pub closed spec fn progress(&self) -> Progress {
        Progress {
            clock: self.clock as nat,
            fed: self.fed as nat,
            pending: self.scheduler.pending(),
            active: self.scheduler.active(),
        }
    }

    /// The invariant of a simulation: its scheduler is well formed, and all
    /// orders, those of the day and those that are pending, name known
    /// destinations.
    pub open spec fn wf(&self) -> bool {
        &&& self.fleet().speed_mps > 0
        &&& self.progress().active.len() <= self.fleet().num_carriers
        &&& flights_known(self.fleet().dests, self.progress().active)
        &&& self.progress().fed <= self.orders().len()
        &&& self.progress().clock <= u64::MAX
        &&& ascending(self.orders())
        &&& all_known(self.fleet().dests, self.orders())
        &&& all_known(self.fleet().dests, self.progress().pending)
    }

    /// Whether the day is over: the clock is past its last second.
    pub open spec fn done(&self) -> bool {
        self.progress().clock > SECONDS_PER_DAY
    }

    /// Sets up the simulation of a day on which `orders` are placed, for a
    /// fleet that `scheduler` runs. The clock starts at the time of the
    /// earliest order.
    ///
    /// Fails if there is no order, or if an order of the day or one that the
    /// scheduler holds names a destination that the fleet does not serve.
    pub fn new(speed: Speed, orders: Vec<Order>, scheduler: NaiveScheduler) -> (made: Result<
        Simulation,
        ConfigError,
    >)
        requires
            scheduler.wf(),
        ensures
            match made {
                Ok(simulation) => {
                    &&& orders.len() > 0
                    &&& all_known(scheduler.fleet().dests, orders@)
                    &&& all_known(scheduler.fleet().dests, scheduler.pending())
                    &&& simulation.wf()
                    &&& simulation.speed() == speed
                    &&& simulation.orders() == by_time(orders@)
                    &&& simulation.fleet() == scheduler.fleet()
                    &&& simulation.progress() == Progress {
                        clock: by_time(orders@)[0].time as nat,
                        fed: 0,
                        pending: scheduler.pending(),
                        active: scheduler.active(),
                    }
                },
                Err(ConfigError::NoOrders) => orders.len() == 0,
                Err(ConfigError::UnknownDestination) => {
                    &&& orders.len() > 0
                    &&& !(all_known(scheduler.fleet().dests, orders@) && all_known(
                        scheduler.fleet().dests,
                        scheduler.pending(),
                    ))
                },
            },
    {
        if orders.len() == 0 {
            return Err(ConfigError::NoOrders);
        }
        if !scheduler.served().knows_all(orders.as_slice()) {
            return Err(ConfigError::UnknownDestination);
        }
        if !scheduler.served().knows_all(scheduler.unfulfilled_orders()) {
            return Err(ConfigError::UnknownDestination);
        }
        proof {
            lemma_by_time(orders@);
            lemma_by_time_known(scheduler.fleet().dests, orders@);
        }
        let sorted = sort_by_time(orders);
        let clock = sorted[0].time;
        Ok(Simulation { speed, orders: sorted, fed: 0, clock, scheduler })
    }

    /// Whether the day is over.
    pub fn is_finished(&self) -> (finished: bool)
        ensures
            finished == self.done(),
    {
        self.clock > SECONDS_PER_DAY
    }

    /// The simulated time of the next tick in seconds since midnight.
    pub fn time(&self) -> (seconds: u64)
        ensures
            seconds == self.progress().clock,
    {
        self.clock
    }

    /// The number of orders that are pending.
    pub fn unfulfilled(&self) -> (count: usize)
        ensures
            count == self.progress().pending.len(),
    {
        self.scheduler.unfulfilled_orders().len()
    }

    /// The scheduler of the simulation.
    pub fn scheduler(&self) -> (scheduler: &NaiveScheduler)
        ensures
            scheduler.pending() == self.progress().pending,
            scheduler.active() == self.progress().active,
            scheduler.fleet() == self.fleet(),
    {
        &self.scheduler
    }

    /// The real time in nanoseconds to wait after a tick, so that simulated
    /// seconds pass at the speed of the simulation.
    pub fn pause_nanos(&self) -> (nanos: u64)
        ensures
            nanos == self.speed().adjusted(NANOS_PER_SECOND as nat),
    {
        self.speed.adjust_second()
    }

    /// Handles the next tick, and returns a snapshot of the fleet if one is
    /// due at the time of the tick.
    pub fn step(&mut self) -> (snapshot: Option<StatusUpdate>)
        requires
            old(self).wf(),
            !old(self).done(),
        ensures
            final(self).wf(),
            final(self).speed() == old(self).speed(),
            final(self).orders() == old(self).orders(),
            final(self).fleet() == old(self).fleet(),
            final(self).progress() == tick(
                old(self).fleet(),
                old(self).orders(),
                old(self).progress(),
            ),
            snapshot is Some <==> old(self).speed().snapshot_due(old(self).progress().clock),
            snapshot matches Some(update) ==> update@ == (StatusUpdateView {
                time: old(self).progress().clock as u64,
                flights: final(self).progress().active,
                speed: old(self).speed(),
            }),
    {
        let ghost fleet = self.fleet();
        let ghost before = self.progress();
        proof {
            lemma_tick_known(fleet, self.orders@, before);
        }
        let time = self.clock;
        let due = self.fed < self.orders.len() && self.orders[self.fed].time == time;
        if due {
            let order = self.orders[self.fed].clone();
            self.scheduler.queue_order(order);
            self.fed = self.fed + 1;
        }
        let ghost queued = self.scheduler.pending();
        if time % LAUNCH_PERIOD == 0 {
            proof {
                if due {
                    lemma_push_known(fleet.dests, before.pending, self.orders@, before.fed as int);
                }
                assert(all_known(fleet.dests, queued));
            }
            let _launched = self.scheduler.launch_flights(time);
        }
        let interval = self.speed.snapshot_interval();
        let snapshot = if time % interval == 0 {
            Some(
                StatusUpdate {
                    time,
                    flights: clone_flights(self.scheduler.active_flights()),
                    speed: self.speed,
                },
            )
        } else {
            None
        };
        self.clock = time + 1;
        snapshot
    }

    /// Runs the rest of the day without a pause, and returns the number of
    /// orders that are pending at its end.
    pub fn run_to_completion(&mut self) -> (unfulfilled: usize)
        requires
            old(self).wf(),
        ensures
            final(self).wf(),
            final(self).done(),
            final(self).progress() == run_to_end(
                old(self).fleet(),
                old(self).orders(),
                old(self).progress(),
            ),
            unfulfilled == final(self).progress().pending.len(),
    {
        let ghost fleet = self.fleet();
        let ghost orders = self.orders();
        let ghost goal = run_to_end(fleet, orders, self.progress());
        while !self.is_finished()
            invariant
                self.wf(),
                self.fleet() == fleet,
                self.orders() == orders,
                goal == run_to_end(fleet, orders, self.progress()),
            decreases SECONDS_PER_DAY + 1 - self.progress().clock,
        {
            let _snapshot = self.step();
        }
        self.unfulfilled()
    }
}

/// Simulates the day on which `orders` are placed, without a pause, and
/// returns the number of orders that no flight has taken by its end.
pub fn run_day(speed: Speed, orders: Vec<Order>, scheduler: NaiveScheduler) -> (unfulfilled: Result<
    usize,
    ConfigError,
>)
    requires
        scheduler.wf(),
    ensures
        match unfulfilled {
            Ok(count) => {
                &&& orders.len() > 0
                &&& all_known(scheduler.fleet().dests, orders@)
                &&& all_known(scheduler.fleet().dests, scheduler.pending())
                &&& count == run_to_end(
                    scheduler.fleet(),
                    by_time(orders@),
                    Progress {
                        clock: by_time(orders@)[0].time as nat,
                        fed: 0,
                        pending: scheduler.pending(),
                        active: scheduler.active(),
                    },
                ).pending.len()
            },
            Err(ConfigError::NoOrders) => orders.len() == 0,
            Err(ConfigError::UnknownDestination) => {
                &&& orders.len() > 0
                &&& !(all_known(scheduler.fleet().dests, orders@) && all_known(
                    scheduler.fleet().dests,
                    scheduler.pending(),
                ))
            },
        },
{
    match Simulation::new(speed, orders, scheduler) {
        Ok(mut simulation) => Ok(simulation.run_to_completion()),
        Err(e) => Err(e),
    }
}

} // verus!
