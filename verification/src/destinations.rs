//! The set of destinations that a fleet serves, keyed by name.

use crate::entities::{Destination, DestinationName, Order};
use vstd::prelude::*;

verus! {

/// The map from names to destinations that a list of destinations spells
/// out: a later entry replaces an earlier one of the same name.
pub open spec fn index_by_name(list: Seq<Destination>) -> Map<Seq<char>, Destination>
    decreases list.len(),
{
    if list.len() == 0 {
        Map::empty()
    } else {
        index_by_name(list.drop_last()).insert(list.last().name@, list.last())
    }
}

/// Every order names a destination of the set.
pub open spec fn all_known(dests: Map<Seq<char>, Destination>, orders: Seq<Order>) -> bool {
    forall|i: int| 0 <= i < orders.len() ==> dests.contains_key(#[trigger] orders[i].destination@)
}

/// The entry that carries a name, and after which no entry carries it, is the
/// one that the map holds for that name.
pub proof fn lemma_index_last_match(list: Seq<Destination>, i: int)
    requires
        0 <= i < list.len(),
        forall|j: int| i < j < list.len() ==> list[j].name@ != list[i].name@,
    ensures
        index_by_name(list).contains_key(list[i].name@),
        index_by_name(list)[list[i].name@] == list[i],
    decreases list.len(),
{
    if i < list.len() - 1 {
        lemma_index_last_match(list.drop_last(), i);
    }
}

/// A name that no entry carries is not a key of the map.
pub proof fn lemma_index_absent(list: Seq<Destination>, name: Seq<char>)
    requires
        forall|j: int| 0 <= j < list.len() ==> list[j].name@ != name,
    ensures
        !index_by_name(list).contains_key(name),
    decreases list.len(),
{
    if list.len() > 0 {
        lemma_index_absent(list.drop_last(), name);
    }
}

/// Every value of the map carries the name under which it is kept.
pub proof fn lemma_index_names(list: Seq<Destination>, name: Seq<char>)
    requires
        index_by_name(list).contains_key(name),
    ensures
        index_by_name(list)[name].name@ == name,
    decreases list.len(),
{
    if list.len() > 0 && list.last().name@ != name {
        lemma_index_names(list.drop_last(), name);
    }
}

/// Replacing the last entry that carries a name by another of that name
/// replaces the value that the map holds for it.
proof fn lemma_index_update(list: Seq<Destination>, i: int, entry: Destination)
    requires
        0 <= i < list.len(),
        entry.name@ == list[i].name@,
        forall|j: int| i < j < list.len() ==> list[j].name@ != list[i].name@,
    ensures
        index_by_name(list.update(i, entry)) == index_by_name(list).insert(entry.name@, entry),
    decreases list.len(),
{
    let changed = list.update(i, entry);
    if i == list.len() - 1 {
        assert(changed.drop_last() == list.drop_last());
        assert(index_by_name(changed) =~= index_by_name(list).insert(entry.name@, entry));
    } else {
        lemma_index_update(list.drop_last(), i, entry);
        assert(changed.drop_last() == list.drop_last().update(i, entry));
        assert(index_by_name(changed) =~= index_by_name(list).insert(entry.name@, entry));
    }
}

/// The destinations that a fleet serves, each kept under its name.
pub struct DestinationSet {
    entries: Vec<Destination>,
}

impl View for DestinationSet {
    type V = Map<Seq<char>, Destination>;

    closed spec fn view(&self) -> Map<Seq<char>, Destination> {
        index_by_name(self.entries@)
    }
}

impl Clone for DestinationSet {
    fn clone(&self) -> (copy: Self)
        ensures
            copy@ == self@,
    {
        let mut entries: Vec<Destination> = Vec::new();
        let mut i: usize = 0;
        while i < self.entries.len()
            invariant
                i <= self.entries.len(),
                entries@ == self.entries@.take(i as int),
            decreases self.entries.len() - i,
        {
            entries.push(self.entries[i].clone());
            assert(entries@ == self.entries@.take(i + 1));
            i += 1;
        }
        assert(self.entries@.take(i as int) == self.entries@);
        DestinationSet { entries }
    }
}

impl DestinationSet {
    /// Every destination of the set is kept under its own name.
    pub proof fn lemma_keyed_by_name(self, name: Seq<char>)
        requires
            self@.contains_key(name),
        ensures
            self@[name].name@ == name,
    {
        lemma_index_names(self.entries@, name);
    }

    /// A set without destinations.
    pub fn new() -> (set: Self)
        ensures
            set@ == Map::<Seq<char>, Destination>::empty(),
    {
        DestinationSet { entries: Vec::new() }
    }

    /// The place in the list of the last entry that carries `name`.
    fn position(&self, name: &DestinationName) -> (found: Option<usize>)
        ensures
            match found {
                Some(i) => {
                    &&& i < self.entries.len()
                    &&& self.entries[i as int].name@ == name@
                    &&& forall|j: int|
                        i < j < self.entries.len() ==> self.entries[j].name@ != name@
                },
                None => forall|j: int|
                    0 <= j < self.entries.len() ==> self.entries[j].name@ != name@,
            },
    {
        let mut i: usize = self.entries.len();
        while i > 0
            invariant
                i <= self.entries.len(),
                forall|j: int| i <= j < self.entries.len() ==> self.entries[j].name@ != name@,
            decreases i,
        {
            i -= 1;
            if self.entries[i].name.same_as(name) {
                return Some(i);
            }
        }
        None
    }

    /// Adds a destination, in place of the one of the same name if there is
    /// one.
    pub fn insert(&mut self, destination: Destination)
        ensures
            final(self)@ == old(self)@.insert(destination.name@, destination),
    {
        match self.position(&destination.name) {
            Some(i) => {
                proof {
                    lemma_index_update(self.entries@, i as int, destination);
                }
                self.entries[i] = destination;
            },
            None => {
                assert(self.entries@.push(destination).drop_last() == self.entries@);
                self.entries.push(destination);
            },
        }
    }

    /// The set that a list of destinations spells out: a later entry
    /// replaces an earlier one of the same name.
    pub fn from_list(list: Vec<Destination>) -> (set: Self)
        ensures
            set@ == index_by_name(list@),
    {
        let mut set = DestinationSet::new();
        let mut list = list;
        let ghost all = list@;
        let mut taken: Vec<Destination> = Vec::new();
        // reverse the list so that entries can be moved out in their order
        while list.len() > 0
            invariant
                taken@.len() + list@.len() == all.len(),
                list@ == all.subrange(0, list@.len() as int),
                forall|k: int| 0 <= k < taken@.len() ==> taken@[k] == all[all.len() - 1 - k],
            decreases list.len(),
        {
            let entry = list.pop().unwrap();
            taken.push(entry);
        }
        while taken.len() > 0
            invariant
                taken@.len() <= all.len(),
                forall|k: int| 0 <= k < taken@.len() ==> taken@[k] == all[all.len() - 1 - k],
                set@ == index_by_name(all.subrange(0, all.len() - taken@.len())),
            decreases taken.len(),
        {
            let ghost done = all.len() - taken@.len();
            let entry = taken.pop().unwrap();
            assert(all.subrange(0, done + 1).drop_last() == all.subrange(0, done as int));
            set.insert(entry);
        }
        assert(all.subrange(0, all.len() as int) == all);
        set
    }

    /// The destination of the given name, if the set has one.
    pub fn get(&self, name: &DestinationName) -> (found: Option<&Destination>)
        ensures
            match found {
                Some(destination) => self@.contains_key(name@) && self@[name@] == *destination,
                None => !self@.contains_key(name@),
            },
    {
        match self.position(name) {
            Some(i) => {
                proof {
                    lemma_index_last_match(self.entries@, i as int);
                }
                Some(&self.entries[i])
            },
            None => {
                proof {
                    lemma_index_absent(self.entries@, name@);
                }
                None
            },
        }
    }

    /// Whether the set has a destination of the given name.
    pub fn contains(&self, name: &DestinationName) -> (known: bool)
        ensures
            known == self@.contains_key(name@),
    {
        self.get(name).is_some()
    }
}

impl DestinationSet {
    /// Whether every one of the orders names a destination of the set.
    pub fn knows_all(&self, orders: &[Order]) -> (known: bool)
        ensures
            known == all_known(self@, orders@),
    {
        let mut i: usize = 0;
        while i < orders.len()
            invariant
                i <= orders.len(),
                all_known(self@, orders@.subrange(0, i as int)),
            decreases orders.len() - i,
        {
            if !self.contains(&orders[i].destination) {
                return false;
            }
            assert forall|j: int| 0 <= j < i + 1 implies self@.contains_key(
                #[trigger] orders@.subrange(0, i + 1)[j].destination@,
            ) by {
                if j < i {
                    assert(orders@.subrange(0, i as int)[j] == orders@[j]);
                }
            }
            i += 1;
        }
        assert(orders@.subrange(0, i as int) == orders@);
        true
    }
}

} // verus!
