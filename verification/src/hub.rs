//! The broadcast hub: it hands every snapshot to all subscribers that are
//! registered at that time, and forgets the subscribers that have gone away.
//!
//! One hub handles all events, in the sequence in which they arrive, so
//! nothing else changes its subscribers while it does.

use crate::runner::StatusUpdate;
use futures::channel::mpsc::UnboundedSender;
use std::collections::HashMap;
use vstd::prelude::*;

verus! {

broadcast use vstd::std_specs::hash::group_hash_axioms;

/// `futures::channel::mpsc::UnboundedSender`: the sending half of an
/// unbounded channel.
#[verifier::external_type_specification]
#[verifier::external_body]
#[verifier::reject_recursive_types(T)]
pub struct ExUnboundedSender<T>(UnboundedSender<T>);

/// What a hub handles.
pub enum Event {
    /// A snapshot to hand to every subscriber
    Update(StatusUpdate),
    /// A subscriber to register: its identifier and the channel on which it
    /// gets snapshots
    NewSubscription(u128, UnboundedSender<StatusUpdate>),
}

/// Offers a snapshot to a subscriber with `UnboundedSender::unbounded_send`,
/// and says whether the subscriber has gone away.
///
/// The call queues the snapshot without waiting and fails only if the
/// receiving half of the channel was dropped or closed. Whether it was is
/// not known before the call, so nothing is claimed of the result. The
/// call panics on a queue of more messages than fit in memory only.
#[verifier::external_body]
fn offer(channel: &UnboundedSender<StatusUpdate>, update: StatusUpdate) -> (gone: bool) {
    match channel.unbounded_send(update) {
        Ok(()) => false,
        Err(refused) => refused.is_disconnected(),
    }
}

/// The subscribers of the fleet's snapshots: the channel of each, by its
/// identifier.
pub struct Hub {
    subscribers: HashMap<u128, UnboundedSender<StatusUpdate>>,
}

impl View for Hub {
    type V = Map<u128, UnboundedSender<StatusUpdate>>;

    closed spec fn view(&self) -> Map<u128, UnboundedSender<StatusUpdate>> {
        self.subscribers@
    }
}

impl Hub {
    /// A hub without subscribers.
    pub fn new() -> (hub: Hub)
        ensures
            hub@ == Map::<u128, UnboundedSender<StatusUpdate>>::empty(),
    {
        Hub { subscribers: HashMap::new() }
    }

    /// The number of subscribers.
    pub fn len(&self) -> (count: usize)
        ensures
            count == self@.len(),
    {
        self.subscribers.len()
    }

    /// Whether a subscriber of the given identifier is registered.
    pub fn is_subscribed(&self, id: u128) -> (subscribed: bool)
        ensures
            subscribed == self@.contains_key(id),
    {
        self.subscribers.contains_key(&id)
    }

    /// Registers a subscriber. One that is registered under the same
    /// identifier is replaced; the others stay as they are.
    pub fn subscribe(&mut self, id: u128, channel: UnboundedSender<StatusUpdate>)
        ensures
            final(self)@ == old(self)@.insert(id, channel),
    {
        self.subscribers.insert(id, channel);
    }

    /// Forgets the subscribers of the given identifiers; the others stay as
    /// they are.
    pub fn forget(&mut self, gone: &Vec<u128>)
        ensures
            final(self)@ == old(self)@.remove_keys(gone@.to_set()),
    {
        let ghost before = self@;
        let mut i: usize = 0;
        proof {
            assert(gone@.take(0).to_set() =~= Set::<u128>::empty());
            assert(before.remove_keys(Set::<u128>::empty()) =~= before);
        }
        while i < gone.len()
            invariant
                i <= gone.len(),
                self@ == before.remove_keys(gone@.take(i as int).to_set()),
            decreases gone.len() - i,
        {
            let id = gone[i];
            self.subscribers.remove(&id);
            proof {
                assert(gone@.take(i + 1) == gone@.take(i as int).push(id));
                gone@.take(i as int).lemma_push_to_set_commute(id);
                assert(self@ =~= before.remove_keys(gone@.take(i + 1).to_set()));
            }
            i += 1;
        }
        assert(gone@.take(gone.len() as int) == gone@);
    }

    /// Forgets the subscribers whose answers say that they have gone away,
    /// and returns their identifiers in the sequence of the answers. An
    /// answer is the identifier of a subscriber and whether it had gone away
    /// when a snapshot was offered to it.
    pub fn prune(&mut self, answers: &Vec<(u128, bool)>) -> (left: Vec<u128>)
        ensures
            left@ == gone_among(answers@),
            final(self)@ == old(self)@.remove_keys(left@.to_set()),
    {
        let mut left: Vec<u128> = Vec::new();
        let mut i: usize = 0;
        while i < answers.len()
            invariant
                i <= answers.len(),
                left@ == gone_among(answers@.take(i as int)),
            decreases answers.len() - i,
        {
            assert(answers@.take(i + 1).drop_last() == answers@.take(i as int));
            if answers[i].1 {
                left.push(answers[i].0);
            }
            i += 1;
        }
        assert(answers@.take(answers.len() as int) == answers@);
        self.forget(&left);
        left
    }

    /// Hands a snapshot to every subscriber without waiting, each once, then
    /// forgets those that had gone away. Returns their identifiers, in the
    /// sequence in which the subscribers were walked.
    pub fn broadcast(&mut self, update: &StatusUpdate) -> (left: Vec<u128>)
        ensures
            exists|answers: Seq<(u128, bool)>|
                #[trigger] asks_each_once(answers, old(self)@) && left@ == gone_among(answers),
            final(self)@ == old(self)@.remove_keys(left@.to_set()),
            forall|id: u128| #[trigger] left@.contains(id) ==> old(self)@.contains_key(id),
            left@.no_duplicates(),
            final(self)@.len() + left@.len() == old(self)@.len(),
    {
        let mut answers: Vec<(u128, bool)> = Vec::new();
        for pair in it: self.subscribers.iter()
            invariant
                it.seq().no_duplicates(),
                forall|i: int|
                    0 <= i < it.seq().len() ==> #[trigger] self@.contains_key(*it.seq()[i].0)
                        && self@[*it.seq()[i].0] == *it.seq()[i].1,
                answers@.len() == it.index(),
                forall|i: int|
                    0 <= i < answers@.len() ==> (#[trigger] answers@[i]).0 == *it.seq()[i].0,
                ids_asked(answers@).no_duplicates(),
                forall|i: int|
                    0 <= i < answers@.len() ==> self@.contains_key((#[trigger] answers@[i]).0),
                forall|id: u128|
                    #[trigger] self@.contains_key(id) ==> ids_asked(answers@).contains(id)
                        || exists|i: int|
                        it.index() <= i < it.seq().len() && *it.seq()[i].0 == id,
        {
            let (id, channel) = pair;
            let gone = offer(channel, update.clone());
            proof {
                let k = it.index() as int;
                let asked = answers@.push((*id, gone));
                assert(*it.seq()[k].0 == *id);
                assert(self@.contains_key(*it.seq()[k].0));
                assert(ids_asked(asked) == ids_asked(answers@).push(*id));
                // a subscriber is walked once: nobody before was asked under its identifier
                assert forall|i: int| 0 <= i < k implies ids_asked(answers@)[i] != *id by {
                    assert(ids_asked(answers@)[i] == answers@[i].0);
                    assert(self@.contains_key(*it.seq()[i].0));
                    if *it.seq()[i].0 == *id {
                        assert(*it.seq()[i].1 == *it.seq()[k].1);
                        assert(it.seq()[i] == it.seq()[k]);
                    }
                }
                assert forall|x: u128| #[trigger] self@.contains_key(x) implies ids_asked(
                    asked,
                ).contains(x) || exists|i: int|
                    k + 1 <= i < it.seq().len() && *it.seq()[i].0 == x by {
                    if ids_asked(answers@).contains(x) {
                        let i = choose|i: int|
                            0 <= i < ids_asked(answers@).len() && ids_asked(answers@)[i] == x;
                        assert(ids_asked(asked)[i] == x);
                    } else {
                        let i = choose|i: int| k <= i < it.seq().len() && *it.seq()[i].0 == x;
                        if i == k {
                            assert(ids_asked(asked)[k] == x);
                        }
                    }
                }
            }
            answers.push((*id, gone));
        }
        proof {
            let ids = ids_asked(answers@);
            assert(ids.to_set() =~= self@.dom()) by {
                assert forall|id: u128| ids.to_set().contains(id) <==> self@.dom().contains(
                    id,
                ) by {
                    if ids.contains(id) {
                        let i = choose|i: int| 0 <= i < ids.len() && ids[i] == id;
                        assert(ids[i] == answers@[i].0);
                    }
                }
            }
            assert(asks_each_once(answers@, self@));
            lemma_gone_among(answers@);
            gone_among(answers@).unique_seq_to_set();
            assert forall|id: u128| #[trigger]
                gone_among(answers@).to_set().contains(id) implies self@.contains_key(id) by {
                assert(ids.to_set().contains(id));
            }
            self@.lemma_remove_keys_len(gone_among(answers@).to_set());
        }
        self.prune(&answers)
    }

    /// Handles an event: hands a snapshot to every subscriber, or registers
    /// a subscriber. Returns the identifiers of the subscribers that were
    /// forgotten because they had gone away.
    pub fn handle(&mut self, event: Event) -> (left: Vec<u128>)
        ensures
            match event {
                Event::Update(_) => {
                    &&& exists|answers: Seq<(u128, bool)>|
                        #[trigger] asks_each_once(answers, old(self)@) && left@ == gone_among(
                            answers,
                        )
                    &&& final(self)@ == old(self)@.remove_keys(left@.to_set())
                    &&& forall|id: u128|
                        #[trigger] left@.contains(id) ==> old(self)@.contains_key(id)
                    &&& left@.no_duplicates()
                    &&& final(self)@.len() + left@.len() == old(self)@.len()
                },
                Event::NewSubscription(id, channel) => {
                    &&& left@ == Seq::<u128>::empty()
                    &&& final(self)@ == old(self)@.insert(id, channel)
                },
            },
    {
        match event {
            Event::Update(update) => self.broadcast(&update),
            Event::NewSubscription(id, channel) => {
                self.subscribe(id, channel);
                Vec::new()
            },
        }
    }
}

/// The identifiers of the answers, in their sequence.
pub open spec fn ids_asked(answers: Seq<(u128, bool)>) -> Seq<u128> {
    answers.map_values(|answer: (u128, bool)| answer.0)
}

/// The identifiers of the answers that say that the subscriber has gone
/// away, in the sequence of the answers.
pub open spec fn gone_among(answers: Seq<(u128, bool)>) -> Seq<u128>
    decreases answers.len(),
{
    if answers.len() == 0 {
        Seq::empty()
    } else if answers.last().1 {
        gone_among(answers.drop_last()).push(answers.last().0)
    } else {
        gone_among(answers.drop_last())
    }
}

/// Whether the answers are those of one pass over the subscribers: one
/// answer for every subscriber, and none for anybody else.
pub open spec fn asks_each_once(
    answers: Seq<(u128, bool)>,
    subscribers: Map<u128, UnboundedSender<StatusUpdate>>,
) -> bool {
    ids_asked(answers).no_duplicates() && ids_asked(answers).to_set() == subscribers.dom()
}

/// Those that have gone away are among those that were asked, and where
/// nobody was asked twice, nobody is among them twice.
pub proof fn lemma_gone_among(answers: Seq<(u128, bool)>)
    ensures
        forall|id: u128|
            #[trigger] gone_among(answers).contains(id) ==> ids_asked(answers).contains(id),
        ids_asked(answers).no_duplicates() ==> gone_among(answers).no_duplicates(),
        gone_among(answers).len() <= answers.len(),
    decreases answers.len(),
{
    if answers.len() > 0 {
        let rest = answers.drop_last();
        let last = answers.last();
        lemma_gone_among(rest);
        assert(ids_asked(rest) == ids_asked(answers).drop_last());
        assert(ids_asked(answers)[answers.len() - 1] == last.0);
        assert forall|id: u128| #[trigger] gone_among(answers).contains(id) implies ids_asked(
            answers,
        ).contains(id) by {
            if gone_among(rest).contains(id) {
                let i = choose|i: int| 0 <= i < ids_asked(rest).len() && ids_asked(rest)[i] == id;
                assert(ids_asked(answers)[i] == id);
            }
        }
        if ids_asked(answers).no_duplicates() && last.1 {
            if gone_among(rest).contains(last.0) {
                let i = choose|i: int|
                    0 <= i < ids_asked(rest).len() && ids_asked(rest)[i] == last.0;
                assert(ids_asked(answers)[i] == last.0);
            }
        }
    }
}

} // verus!
