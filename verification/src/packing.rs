//! First-fit packing of pending orders into the carriers that are free to
//! launch.
//!
//! A bin stands for one prospective flight. Orders are examined from the end
//! of a queue; each goes to the bin that its priority prefers among those
//! that can still take it, and the first order that no bin can take ends the
//! pass.

use crate::destinations::{all_known, DestinationSet};
use crate::entities::{Destination, Order};
use crate::flight::{lemma_outbound_push, outbound_distance};
use crate::geometry::distance_between;
use vstd::multiset::Multiset;
use vstd::prelude::*;

verus! {

/// Whether a bin that holds `load` can take `order` as its next stop: it has
/// room for one more order, and the way out through the new stop stays
/// within range.
pub open spec fn fits(
    dests: Map<Seq<char>, Destination>,
    max_orders: nat,
    range: nat,
    load: Seq<Order>,
    order: Order,
) -> bool {
    load.len() < max_orders && outbound_distance(dests, load.push(order)) <= range
}

/// Whether `order` would rather go to a bin that holds `a` than to one that
/// holds `b`: an emergency to the bin with the shorter way out, any other
/// order to the bin with more orders.
pub open spec fn prefers(
    dests: Map<Seq<char>, Destination>,
    order: Order,
    a: Seq<Order>,
    b: Seq<Order>,
) -> bool {
    if order.urgent() {
        outbound_distance(dests, a) < outbound_distance(dests, b)
    } else {
        a.len() > b.len()
    }
}

/// Whether bin `i` is the one that takes `order`: it fits, no bin that fits
/// is preferred to it, and it is preferred to every earlier bin that fits.
pub open spec fn is_choice(
    dests: Map<Seq<char>, Destination>,
    max_orders: nat,
    range: nat,
    bins: Seq<Seq<Order>>,
    order: Order,
    i: int,
) -> bool {
    &&& 0 <= i < bins.len()
    &&& fits(dests, max_orders, range, bins[i], order)
    &&& forall|j: int|
        0 <= j < bins.len() && #[trigger] fits(dests, max_orders, range, bins[j], order) ==> {
            &&& !prefers(dests, order, bins[j], bins[i])
            &&& j < i ==> prefers(dests, order, bins[i], bins[j])
        }
}

/// Whether no bin can take `order`.
pub open spec fn none_fits(
    dests: Map<Seq<char>, Destination>,
    max_orders: nat,
    range: nat,
    bins: Seq<Seq<Order>>,
    order: Order,
) -> bool {
    forall|j: int|
        0 <= j < bins.len() ==> !#[trigger] fits(dests, max_orders, range, bins[j], order)
}

/// The bin that takes `order`, if any bin can.
pub open spec fn chosen_bin(
    dests: Map<Seq<char>, Destination>,
    max_orders: nat,
    range: nat,
    bins: Seq<Seq<Order>>,
    order: Order,
) -> Option<int> {
    if exists|i: int| is_choice(dests, max_orders, range, bins, order, i) {
        Some(choose|i: int| is_choice(dests, max_orders, range, bins, order, i))
    } else {
        None
    }
}

/// How a packing pass ends.
pub struct Packing {
    /// The orders of each bin, in the sequence of their delivery
    pub bins: Seq<Seq<Order>>,
    /// The orders that were not examined
    pub queue: Seq<Order>,
    /// The order that no bin could take, if the pass ended on one
    pub shed: Option<Order>,
}

/// The bins with `order` added to bin `i`.
pub open spec fn place(bins: Seq<Seq<Order>>, i: int, order: Order) -> Seq<Seq<Order>> {
    bins.update(i, bins[i].push(order))
}

/// The result of packing the orders of `queue`, examined from its end, into
/// `bins`. The pass ends when the queue is empty or on the first order that
/// no bin can take; that order leaves the queue and is not kept.
pub open spec fn pack(
    dests: Map<Seq<char>, Destination>,
    max_orders: nat,
    range: nat,
    queue: Seq<Order>,
    bins: Seq<Seq<Order>>,
) -> Packing
    decreases queue.len(),
{
    if queue.len() == 0 {
        Packing { bins, queue, shed: None }
    } else {
        let order = queue.last();
        match chosen_bin(dests, max_orders, range, bins, order) {
            Some(i) => pack(dests, max_orders, range, queue.drop_last(), place(bins, i, order)),
            None => Packing { bins, queue: queue.drop_last(), shed: Some(order) },
        }
    }
}

/// The queue with its emergencies moved behind all other orders, each group
/// in the sequence in which its orders were queued. Packing examines a queue
/// from its end: emergencies first, and of two orders of one priority the
/// one that was queued later.
pub open spec fn by_priority(queue: Seq<Order>) -> Seq<Order> {
    queue.filter(is_calm()) + queue.filter(is_urgent())
}

/// The orders that are emergencies.
pub open spec fn is_urgent() -> spec_fn(Order) -> bool {
    |order: Order| order.urgent()
}

/// The orders that are not emergencies.
pub open spec fn is_calm() -> spec_fn(Order) -> bool {
    |order: Order| !order.urgent()
}

/// `count` bins without orders.
pub open spec fn empty_bins(count: nat) -> Seq<Seq<Order>> {
    Seq::new(count, |i: int| Seq::<Order>::empty())
}

/// At most one bin is the choice for an order.
pub proof fn lemma_choice_unique(
    dests: Map<Seq<char>, Destination>,
    max_orders: nat,
    range: nat,
    bins: Seq<Seq<Order>>,
    order: Order,
    i: int,
    j: int,
)
    requires
        is_choice(dests, max_orders, range, bins, order, i),
        is_choice(dests, max_orders, range, bins, order, j),
    ensures
        i == j,
{
}

/// The bin that is the choice for an order is the chosen bin.
pub proof fn lemma_chosen_is_choice(
    dests: Map<Seq<char>, Destination>,
    max_orders: nat,
    range: nat,
    bins: Seq<Seq<Order>>,
    order: Order,
    i: int,
)
    requires
        is_choice(dests, max_orders, range, bins, order, i),
    ensures
        chosen_bin(dests, max_orders, range, bins, order) == Some(i),
{
    let c = choose|k: int| is_choice(dests, max_orders, range, bins, order, k);
    lemma_choice_unique(dests, max_orders, range, bins, order, i, c);
}

/// Where no bin fits, none is chosen.
pub proof fn lemma_chosen_none(
    dests: Map<Seq<char>, Destination>,
    max_orders: nat,
    range: nat,
    bins: Seq<Seq<Order>>,
    order: Order,
)
    requires
        none_fits(dests, max_orders, range, bins, order),
    ensures
        chosen_bin(dests, max_orders, range, bins, order) is None,
{
}

/// One prospective flight: its orders in the sequence of their delivery and
/// the distance from the depot through their destinations.
pub struct Bin {
    distance_allocated: u64,
    orders: Vec<Order>,
}

impl Bin {
    /// The orders of the bin.
    pub closed spec fn load(self) -> Seq<Order> {
        self.orders@
    }

    /// The distance that the bin has recorded for its orders.
    pub closed spec fn allocated(self) -> nat {
        self.distance_allocated as nat
    }

    /// The bin names known destinations only and records the distance of the
    /// way out through them, which is within range.
    pub open spec fn wf(self, dests: Map<Seq<char>, Destination>, range: nat) -> bool {
        &&& all_known(dests, self.load())
        &&& self.allocated() == outbound_distance(dests, self.load())
        &&& self.allocated() <= range
    }

    /// A bin without orders.
    pub fn new() -> (bin: Bin)
        ensures
            bin.load() == Seq::<Order>::empty(),
            bin.allocated() == 0,
    {
        Bin { distance_allocated: 0, orders: Vec::new() }
    }

    /// Takes the orders out of the bin.
    pub fn into_orders(self) -> (orders: Vec<Order>)
        ensures
            orders@ == self.load(),
    {
        self.orders
    }
}

/// The orders of each bin.
pub open spec fn loads(bins: Seq<Bin>) -> Seq<Seq<Order>> {
    bins.map_values(|bin: Bin| bin.load())
}

/// Every bin is well formed.
pub open spec fn bins_wf(bins: Seq<Bin>, dests: Map<Seq<char>, Destination>, range: nat) -> bool {
    forall|i: int| 0 <= i < bins.len() ==> (#[trigger] bins[i]).wf(dests, range)
}

/// `count` bins without orders.
pub fn make_bins(count: usize) -> (bins: Vec<Bin>)
    ensures
        loads(bins@) == empty_bins(count as nat),
        forall|i: int| 0 <= i < bins.len() ==> (#[trigger] bins[i]).allocated() == 0,
{
    let mut bins: Vec<Bin> = Vec::new();
    let mut i: usize = 0;
    while i < count
        invariant
            i <= count,
            bins.len() == i,
            forall|k: int| 0 <= k < i ==> (#[trigger] bins[k]).load() == Seq::<Order>::empty(),
            forall|k: int| 0 <= k < i ==> (#[trigger] bins[k]).allocated() == 0,
        decreases count - i,
    {
        bins.push(Bin::new());
        i += 1;
    }
    assert(loads(bins@) =~= empty_bins(count as nat));
    bins
}

/// The leg that `order` would add to a bin, if the bin can take the order.
fn leg_if_fits(
    bin: &Bin,
    stop: &Destination,
    destinations: &DestinationSet,
    max_orders: usize,
    range: u64,
    order: &Order,
) -> (added: Option<u64>)
    requires
        bin.wf(destinations@, range as nat),
        destinations@.contains_key(order.destination@),
        destinations@[order.destination@] == *stop,
    ensures
        added is Some <==> fits(destinations@, max_orders as nat, range as nat, bin.load(), *order),
        added matches Some(metres) ==> bin.allocated() + metres == outbound_distance(
            destinations@,
            bin.load().push(*order),
        ),
{
    proof {
        lemma_outbound_push(destinations@, bin.load(), *order);
    }
    let count = bin.orders.len();
    let metres = if count == 0 {
        distance_between(stop.north_m, stop.east_m, 0, 0)
    } else {
        let last = destinations.get(&bin.orders[count - 1].destination);
        assert(destinations@.contains_key(bin.load()[count - 1].destination@));
        let last = last.unwrap();
        distance_between(stop.north_m, stop.east_m, last.north_m, last.east_m)
    };
    if count < max_orders && metres <= range - bin.distance_allocated {
        Some(metres)
    } else {
        None
    }
}

/// The bin that takes `order`, with the leg that the order adds to it.
fn select_bin(
    bins: &Vec<Bin>,
    stop: &Destination,
    destinations: &DestinationSet,
    max_orders: usize,
    range: u64,
    order: &Order,
) -> (found: Option<(usize, u64)>)
    requires
        bins_wf(bins@, destinations@, range as nat),
        destinations@.contains_key(order.destination@),
        destinations@[order.destination@] == *stop,
    ensures
        match found {
            Some((i, metres)) => {
                &&& is_choice(
                    destinations@,
                    max_orders as nat,
                    range as nat,
                    loads(bins@),
                    *order,
                    i as int,
                )
                &&& bins[i as int].allocated() + metres == outbound_distance(
                    destinations@,
                    bins[i as int].load().push(*order),
                )
            },
            None => none_fits(
                destinations@,
                max_orders as nat,
                range as nat,
                loads(bins@),
                *order,
            ),
        },
{
    let ghost dests = destinations@;
    let ghost all = loads(bins@);
    let urgent = order.is_emergency();
    let mut best: Option<(usize, u64)> = None;
    let mut i: usize = 0;
    while i < bins.len()
        invariant
            i <= bins.len(),
            dests == destinations@,
            all == loads(bins@),
            urgent == order.urgent(),
            bins_wf(bins@, dests, range as nat),
            dests.contains_key(order.destination@),
            dests[order.destination@] == *stop,
            match best {
                Some((b, metres)) => {
                    &&& b < i
                    &&& fits(dests, max_orders as nat, range as nat, all[b as int], *order)
                    &&& bins[b as int].allocated() + metres == outbound_distance(
                        dests,
                        bins[b as int].load().push(*order),
                    )
                    &&& forall|j: int|
                        0 <= j < i && #[trigger] fits(
                            dests,
                            max_orders as nat,
                            range as nat,
                            all[j],
                            *order,
                        ) ==> {
                            &&& !prefers(dests, *order, all[j], all[b as int])
                            &&& j < b ==> prefers(dests, *order, all[b as int], all[j])
                        }
                },
                None => forall|j: int|
                    0 <= j < i ==> !#[trigger] fits(
                        dests,
                        max_orders as nat,
                        range as nat,
                        all[j],
                        *order,
                    ),
            },
        decreases bins.len() - i,
    {
        assert(bins[i as int].wf(dests, range as nat));
        assert(all[i as int] == bins[i as int].load());
        match leg_if_fits(&bins[i], stop, destinations, max_orders, range, order) {
            Some(metres) => {
                match best {
                    Some((b, _)) => {
                        assert(bins[b as int].wf(dests, range as nat));
                        assert(all[b as int] == bins[b as int].load());
                        let better = if urgent {
                            bins[i].distance_allocated < bins[b].distance_allocated
                        } else {
                            bins[i].orders.len() > bins[b].orders.len()
                        };
                        assert(better == prefers(dests, *order, all[i as int], all[b as int]));
                        if better {
                            best = Some((i, metres));
                        }
                    },
                    None => {
                        best = Some((i, metres));
                    },
                }
            },
            None => {},
        }
        i += 1;
    }
    best
}

/// Packs the orders of `queue`, examined from its end, into `bins`, and
/// returns the order that no bin could take, if the pass ended on one.
pub fn pack_orders(
    queue: &mut Vec<Order>,
    bins: &mut Vec<Bin>,
    destinations: &DestinationSet,
    max_orders: usize,
    range: u64,
) -> (shed: Option<Order>)
    requires
        all_known(destinations@, old(queue)@),
        bins_wf(old(bins)@, destinations@, range as nat),
    ensures
        ({
            let packing = pack(
                destinations@,
                max_orders as nat,
                range as nat,
                old(queue)@,
                loads(old(bins)@),
            );
            &&& final(queue)@ == packing.queue
            &&& loads(final(bins)@) == packing.bins
            &&& shed == packing.shed
        }),
        bins_wf(final(bins)@, destinations@, range as nat),
{
    let ghost dests = destinations@;
    let ghost goal = pack(dests, max_orders as nat, range as nat, queue@, loads(bins@));
    let mut shed: Option<Order> = None;
    loop
        invariant_except_break
            shed is None,
            goal == pack(dests, max_orders as nat, range as nat, queue@, loads(bins@)),
        invariant
            dests == destinations@,
            all_known(dests, queue@),
            bins_wf(bins@, dests, range as nat),
        ensures
            queue@ == goal.queue,
            loads(bins@) == goal.bins,
            shed == goal.shed,
        decreases queue.len(),
    {
        if queue.len() == 0 {
            break ;
        }
        let ghost before = queue@;
        let ghost all = loads(bins@);
        let order = queue.pop().unwrap();
        assert(queue@ == before.drop_last());
        assert(order == before.last());
        assert(dests.contains_key(before[before.len() - 1].destination@));
        assert forall|k: int| 0 <= k < queue@.len() implies dests.contains_key(
            #[trigger] queue@[k].destination@,
        ) by {
            assert(queue@[k] == before[k]);
        }
        let stop = destinations.get(&order.destination).unwrap();
        match select_bin(bins, stop, destinations, max_orders, range, &order) {
            Some((i, metres)) => {
                proof {
                    lemma_chosen_is_choice(
                        dests,
                        max_orders as nat,
                        range as nat,
                        all,
                        order,
                        i as int,
                    );
                    assert(bins[i as int].wf(dests, range as nat));
                    assert(all[i as int] == bins[i as int].load());
                }
                let ghost old_bins = bins@;
                let mut bin = bins.remove(i);
                bin.orders.push(order);
                bin.distance_allocated = bin.distance_allocated + metres;
                bins.insert(i, bin);
                proof {
                    assert(bins@.len() == old_bins.len());
                    assert forall|k: int| 0 <= k < bins@.len() implies (#[trigger] bins@[k]).wf(
                        dests,
                        range as nat,
                    ) by {
                        if k != i {
                            assert(bins@[k] == old_bins[k]);
                        } else {
                            let load = bins@[k].load();
                            assert forall|m: int| 0 <= m < load.len() implies dests.contains_key(
                                #[trigger] load[m].destination@,
                            ) by {
                                if m < old_bins[k].load().len() {
                                    assert(load[m] == old_bins[k].load()[m]);
                                }
                            }
                        }
                    }
                    assert(loads(bins@) =~= place(all, i as int, order));
                }
            },
            None => {
                proof {
                    lemma_chosen_none(dests, max_orders as nat, range as nat, all, order);
                }
                shed = Some(order);
                break ;
            },
        }
    }
    shed
}

/// Moves the emergencies of a queue behind its other orders, and keeps the
/// sequence within each group.
pub fn arrange_by_priority(queue: Vec<Order>) -> (arranged: Vec<Order>)
    ensures
        arranged@ == by_priority(queue@),
{
    let mut calm: Vec<Order> = Vec::new();
    let mut urgent: Vec<Order> = Vec::new();
    let ghost all = queue@;
    for order in it: queue
        invariant
            it.seq() == all,
            calm@ == all.take(it.index() as int).filter(is_calm()),
            urgent@ == all.take(it.index() as int).filter(is_urgent()),
    {
        proof {
            let k = it.index() as int;
            assert(all.take(k + 1) == all.take(k).push(all[k]));
            all.take(k).lemma_filter_push(all[k], is_calm());
            all.take(k).lemma_filter_push(all[k], is_urgent());
        }
        if order.is_emergency() {
            urgent.push(order);
        } else {
            calm.push(order);
        }
    }
    assert(all.take(all.len() as int) == all);
    calm.append(&mut urgent);
    calm
}

/// The orders of all bins, as a multiset.
pub open spec fn orders_in(bins: Seq<Seq<Order>>) -> Multiset<Order>
    decreases bins.len(),
{
    if bins.len() == 0 {
        Multiset::empty()
    } else {
        orders_in(bins.drop_last()).add(bins.last().to_multiset())
    }
}

/// The order that a pass shed, as a multiset of at most one order.
pub open spec fn shed_orders(shed: Option<Order>) -> Multiset<Order> {
    match shed {
        Some(order) => Multiset::singleton(order),
        None => Multiset::empty(),
    }
}

/// Whether a load respects the limits of a carrier: it has at most
/// `max_orders` orders, and the way out through their destinations is
/// within range.
pub open spec fn within_limits(
    dests: Map<Seq<char>, Destination>,
    max_orders: nat,
    range: nat,
    load: Seq<Order>,
) -> bool {
    load.len() <= max_orders && outbound_distance(dests, load) <= range
}

/// The chosen bin is the choice for the order.
pub proof fn lemma_chosen_bin(
    dests: Map<Seq<char>, Destination>,
    max_orders: nat,
    range: nat,
    bins: Seq<Seq<Order>>,
    order: Order,
)
    ensures
        match chosen_bin(dests, max_orders, range, bins, order) {
            Some(i) => is_choice(dests, max_orders, range, bins, order, i),
            None => none_fits(dests, max_orders, range, bins, order),
        },
{
    if chosen_bin(dests, max_orders, range, bins, order) is None {
        if !none_fits(dests, max_orders, range, bins, order) {
            let j = choose|j: int|
                0 <= j < bins.len() && #[trigger] fits(dests, max_orders, range, bins[j], order);
            lemma_best_exists(dests, max_orders, range, bins, order, bins.len() as int, j);
            assert(bins.take(bins.len() as int) == bins);
        }
    }
}

/// Among the first `upto` bins, of which bin `j` fits, one is the choice.
proof fn lemma_best_exists(
    dests: Map<Seq<char>, Destination>,
    max_orders: nat,
    range: nat,
    bins: Seq<Seq<Order>>,
    order: Order,
    upto: int,
    j: int,
)
    requires
        0 <= j < upto <= bins.len(),
        fits(dests, max_orders, range, bins[j], order),
    ensures
        exists|i: int| is_choice(dests, max_orders, range, bins.take(upto), order, i),
    decreases upto,
{
    let head = bins.take(upto);
    let last = upto - 1;
    if exists|k: int| 0 <= k < last && #[trigger] fits(dests, max_orders, range, bins[k], order) {
        let k = choose|k: int|
            0 <= k < last && #[trigger] fits(dests, max_orders, range, bins[k], order);
        lemma_best_exists(dests, max_orders, range, bins, order, last, k);
        let shorter = bins.take(last);
        let b = choose|i: int| is_choice(dests, max_orders, range, shorter, order, i);
        assert(shorter[b] == head[b]);
        assert forall|m: int| 0 <= m < last implies shorter[m] == head[m] by {}
        if fits(dests, max_orders, range, bins[last], order) && prefers(
            dests,
            order,
            bins[last],
            bins[b],
        ) {
            assert forall|m: int|
                0 <= m < head.len() && #[trigger] fits(
                    dests,
                    max_orders,
                    range,
                    head[m],
                    order,
                ) implies !prefers(dests, order, head[m], head[last]) && (m < last ==> prefers(
                dests,
                order,
                head[last],
                head[m],
            )) by {
                if m < last {
                    assert(fits(dests, max_orders, range, shorter[m], order));
                }
            }
            assert(is_choice(dests, max_orders, range, head, order, last));
        } else {
            assert forall|m: int|
                0 <= m < head.len() && #[trigger] fits(
                    dests,
                    max_orders,
                    range,
                    head[m],
                    order,
                ) implies !prefers(dests, order, head[m], head[b]) && (m < b ==> prefers(
                dests,
                order,
                head[b],
                head[m],
            )) by {
                if m < last {
                    assert(fits(dests, max_orders, range, shorter[m], order));
                }
            }
            assert(is_choice(dests, max_orders, range, head, order, b));
        }
    } else {
        assert(j == last);
        assert(is_choice(dests, max_orders, range, head, order, last));
    }
}

/// An order that is placed in a bin joins the orders of the bins.
pub proof fn lemma_orders_in_place(bins: Seq<Seq<Order>>, i: int, order: Order)
    requires
        0 <= i < bins.len(),
    ensures
        orders_in(place(bins, i, order)) == orders_in(bins).insert(order),
    decreases bins.len(),
{
    broadcast use vstd::seq_lib::to_multiset_build;

    let placed = place(bins, i, order);
    if i == bins.len() - 1 {
        assert(placed.drop_last() == bins.drop_last());
        assert(placed.last() == bins.last().push(order));
    } else {
        lemma_orders_in_place(bins.drop_last(), i, order);
        assert(placed.drop_last() == place(bins.drop_last(), i, order));
        assert(placed.last() == bins.last());
    }
    assert(orders_in(placed) =~= orders_in(bins).insert(order));
}

/// Bins without orders hold no order.
pub proof fn lemma_orders_in_empty(count: nat)
    ensures
        orders_in(empty_bins(count)) == Multiset::<Order>::empty(),
    decreases count,
{
    if count > 0 {
        lemma_orders_in_empty((count - 1) as nat);
        assert(empty_bins(count).drop_last() == empty_bins((count - 1) as nat));
        assert(empty_bins(count).last().to_multiset() =~= Multiset::<Order>::empty()) by {
            broadcast use vstd::seq_lib::to_multiset_len;

            assert(empty_bins(count).last().to_multiset().len() == 0);
        }
        assert(orders_in(empty_bins(count)) =~= Multiset::<Order>::empty());
    }
}

/// Packing loses and duplicates nothing: every order of the queue and of
/// the bins is afterwards in the queue, in one bin, or the order that was
/// shed, as often as it was there before.
pub proof fn lemma_pack_conserves(
    dests: Map<Seq<char>, Destination>,
    max_orders: nat,
    range: nat,
    queue: Seq<Order>,
    bins: Seq<Seq<Order>>,
)
    ensures
        ({
            let packing = pack(dests, max_orders, range, queue, bins);
            queue.to_multiset().add(orders_in(bins)) == packing.queue.to_multiset().add(
                orders_in(packing.bins),
            ).add(shed_orders(packing.shed))
        }),
    decreases queue.len(),
{
    broadcast use vstd::seq_lib::to_multiset_build;

    let packing = pack(dests, max_orders, range, queue, bins);
    let before = queue.to_multiset().add(orders_in(bins));
    let after = packing.queue.to_multiset().add(orders_in(packing.bins)).add(
        shed_orders(packing.shed),
    );
    if queue.len() == 0 {
        assert(before =~= after);
    } else {
        let order = queue.last();
        let rest = queue.drop_last();
        assert(queue == rest.push(order));
        assert(queue.to_multiset() == rest.to_multiset().insert(order));
        lemma_chosen_bin(dests, max_orders, range, bins, order);
        match chosen_bin(dests, max_orders, range, bins, order) {
            Some(i) => {
                lemma_pack_conserves(dests, max_orders, range, rest, place(bins, i, order));
                lemma_orders_in_place(bins, i, order);
                assert(before =~= after);
            },
            None => {
                assert(before =~= after);
            },
        }
    }
}

/// Packing keeps the number of bins, examines the queue from its end, and
/// sheds an order only if no bin can take it.
pub proof fn lemma_pack_shape(
    dests: Map<Seq<char>, Destination>,
    max_orders: nat,
    range: nat,
    queue: Seq<Order>,
    bins: Seq<Seq<Order>>,
)
    ensures
        ({
            let packing = pack(dests, max_orders, range, queue, bins);
            &&& packing.bins.len() == bins.len()
            &&& packing.queue.len() <= queue.len()
            &&& packing.queue == queue.take(packing.queue.len() as int)
            &&& match packing.shed {
                Some(order) => {
                    &&& packing.queue.len() < queue.len()
                    &&& order == queue[packing.queue.len() as int]
                    &&& none_fits(dests, max_orders, range, packing.bins, order)
                },
                None => packing.queue.len() == 0,
            }
        }),
    decreases queue.len(),
{
    let packing = pack(dests, max_orders, range, queue, bins);
    if queue.len() == 0 {
        assert(packing.queue == queue.take(0));
    } else {
        let order = queue.last();
        let rest = queue.drop_last();
        lemma_chosen_bin(dests, max_orders, range, bins, order);
        match chosen_bin(dests, max_orders, range, bins, order) {
            Some(i) => {
                lemma_pack_shape(dests, max_orders, range, rest, place(bins, i, order));
                assert(rest.take(packing.queue.len() as int) == queue.take(
                    packing.queue.len() as int,
                ));
            },
            None => {
                assert(rest == queue.take(rest.len() as int));
            },
        }
    }
}

/// Packing respects the limits of the carriers: if every bin is within
/// them before, every bin is within them afterwards.
pub proof fn lemma_pack_within_limits(
    dests: Map<Seq<char>, Destination>,
    max_orders: nat,
    range: nat,
    queue: Seq<Order>,
    bins: Seq<Seq<Order>>,
)
    requires
        forall|i: int|
            0 <= i < bins.len() ==> within_limits(dests, max_orders, range, #[trigger] bins[i]),
    ensures
        ({
            let packing = pack(dests, max_orders, range, queue, bins);
            forall|i: int|
                0 <= i < packing.bins.len() ==> within_limits(
                    dests,
                    max_orders,
                    range,
                    #[trigger] packing.bins[i],
                )
        }),
    decreases queue.len(),
{
    if queue.len() > 0 {
        let order = queue.last();
        lemma_chosen_bin(dests, max_orders, range, bins, order);
        match chosen_bin(dests, max_orders, range, bins, order) {
            Some(i) => {
                let placed = place(bins, i, order);
                assert forall|k: int| 0 <= k < placed.len() implies within_limits(
                    dests,
                    max_orders,
                    range,
                    #[trigger] placed[k],
                ) by {
                    if k != i {
                        assert(placed[k] == bins[k]);
                    }
                }
                lemma_pack_within_limits(dests, max_orders, range, queue.drop_last(), placed);
            },
            None => {},
        }
    }
}

/// Arranging a queue by priority keeps its orders, and puts every emergency
/// behind every other order.
pub proof fn lemma_by_priority(queue: Seq<Order>)
    ensures
        by_priority(queue).to_multiset() == queue.to_multiset(),
        by_priority(queue).len() == queue.len(),
        forall|i: int, j: int|
            0 <= i < j < by_priority(queue).len() && (#[trigger] by_priority(queue)[i]).urgent()
                ==> (#[trigger] by_priority(queue)[j]).urgent(),
        has_emergency(by_priority(queue)) == has_emergency(queue),
    decreases queue.len(),
{
    broadcast use vstd::seq_lib::to_multiset_build;

    let calm = is_calm();
    let urgent = is_urgent();
    let arranged = by_priority(queue);
    lemma_split_by_priority(queue);
    vstd::seq_lib::lemma_multiset_commutative(queue.filter(calm), queue.filter(urgent));
    vstd::seq_lib::to_multiset_len(arranged);
    vstd::seq_lib::to_multiset_len(queue);
    assert forall|i: int, j: int|
        0 <= i < j < arranged.len() && (#[trigger] arranged[i]).urgent() implies (
    #[trigger] arranged[j]).urgent() by {
        if i < queue.filter(calm).len() {
            queue.lemma_filter_pred(calm, i);
        }
        queue.lemma_filter_pred(urgent, j - queue.filter(calm).len());
    }
    if has_emergency(queue) {
        let k = choose|k: int| 0 <= k < queue.len() && (#[trigger] queue[k]).urgent();
        assert(queue.to_multiset().count(queue[k]) > 0) by {
            vstd::seq_lib::to_multiset_contains(queue, queue[k]);
        }
        vstd::seq_lib::to_multiset_contains(arranged, queue[k]);
        assert(arranged.contains(queue[k]));
    }
    if has_emergency(arranged) {
        let k = choose|k: int| 0 <= k < arranged.len() && (#[trigger] arranged[k]).urgent();
        assert(arranged.to_multiset().count(arranged[k]) > 0) by {
            vstd::seq_lib::to_multiset_contains(arranged, arranged[k]);
        }
        vstd::seq_lib::to_multiset_contains(queue, arranged[k]);
        assert(queue.contains(arranged[k]));
    }
}

/// Whether a queue holds an emergency.
pub open spec fn has_emergency(queue: Seq<Order>) -> bool {
    exists|i: int| 0 <= i < queue.len() && (#[trigger] queue[i]).urgent()
}

/// The emergencies of a queue and its other orders are, together, its orders.
proof fn lemma_split_by_priority(queue: Seq<Order>)
    ensures
        queue.filter(is_calm()).to_multiset().add(queue.filter(is_urgent()).to_multiset())
            == queue.to_multiset(),
    decreases queue.len(),
{
    broadcast use vstd::seq_lib::to_multiset_build;

    let calm = is_calm();
    let urgent = is_urgent();
    if queue.len() == 0 {
        assert(queue.filter(calm) == Seq::<Order>::empty()) by {
            queue.lemma_filter_len(calm);
        }
        assert(queue.filter(urgent) == Seq::<Order>::empty()) by {
            queue.lemma_filter_len(urgent);
        }
        assert(queue == Seq::<Order>::empty());
        assert(Seq::<Order>::empty().to_multiset() =~= Multiset::<Order>::empty()) by {
            broadcast use vstd::seq_lib::to_multiset_len;

            assert(Seq::<Order>::empty().to_multiset().len() == 0);
        }
        assert(queue.filter(calm).to_multiset().add(queue.filter(urgent).to_multiset())
            =~= queue.to_multiset());
    } else {
        let rest = queue.drop_last();
        let order = queue.last();
        lemma_split_by_priority(rest);
        assert(queue == rest.push(order));
        rest.lemma_filter_push(order, calm);
        rest.lemma_filter_push(order, urgent);
        assert(queue.to_multiset() == rest.to_multiset().insert(order));
        if order.urgent() {
            assert(urgent(order) && !calm(order));
            assert(queue.filter(calm) == rest.filter(calm));
            assert(queue.filter(urgent).to_multiset() == rest.filter(urgent).to_multiset().insert(
                order,
            ));
        } else {
            assert(calm(order) && !urgent(order));
            assert(queue.filter(urgent) == rest.filter(urgent));
            assert(queue.filter(calm).to_multiset() == rest.filter(calm).to_multiset().insert(
                order,
            ));
        }
        assert(queue.filter(calm).to_multiset().add(queue.filter(urgent).to_multiset())
            =~= queue.to_multiset());
    }
}

} // verus!
