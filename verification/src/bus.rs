//! A publish/subscribe event bus over named channels.
//!
//! The bus owns one unbounded channel per name; the channel endpoints
//! come from the `async_channel` crate and are opaque values here — what
//! is verified is the registry discipline: names are unique, creation and
//! removal report the exact error the name's state dictates, and
//! publishers and subscribers resolve names against the registry before
//! touching an endpoint. Messages pair a topic string with a payload.

use std::sync::Arc;
use vstd::prelude::*;

verus! {

/// Failures of the bus's channel registry: creating a name that exists,
/// or addressing one that does not.
#[derive(Debug, PartialEq)]
pub enum EventBusError {
    ChannelCreationFailed,
    ChannelRemovalFailed,
}

/// Failures a subscriber may report to its users, carrying the channel
/// name concerned.
#[derive(Debug, PartialEq)]
pub enum SubscriberError {
    SubscriptionFailed(String),
    UnsubscriptionFailed(String),
}

#[verifier::external_type_specification]
#[verifier::external_body]
#[verifier::reject_recursive_types(T)]
pub struct ExSender<T>(async_channel::Sender<T>);

#[verifier::external_type_specification]
#[verifier::external_body]
#[verifier::reject_recursive_types(T)]
pub struct ExReceiver<T>(async_channel::Receiver<T>);

/// Relies on async_channel::unbounded: a connected sender/receiver pair
/// for a new unbounded channel.
#[verifier::external_body]
fn new_channel<M>() -> (async_channel::Sender<M>, async_channel::Receiver<M>) {
    async_channel::unbounded()
}

/// Relies on async_channel::Sender::clone: another sending endpoint of
/// the same channel.
#[verifier::external_body]
fn clone_sender<M>(sender: &async_channel::Sender<M>) -> async_channel::Sender<M> {
    sender.clone()
}

/// Relies on async_channel::Receiver::clone: another receiving endpoint
/// of the same channel.
#[verifier::external_body]
fn clone_receiver<M>(receiver: &async_channel::Receiver<M>) -> async_channel::Receiver<M> {
    receiver.clone()
}

/// Relies on async_channel::Sender::try_send: queues the message without
/// blocking; on an unbounded channel this fails only when the channel is
/// closed.
#[verifier::external_body]
fn try_send<M>(sender: &async_channel::Sender<M>, msg: M) -> bool {
    sender.try_send(msg).is_ok()
}

/// Relies on async_channel::Receiver::try_recv: pops the next queued
/// message without blocking, if one is waiting.
#[verifier::external_body]
fn try_recv<M>(receiver: &async_channel::Receiver<M>) -> Option<M> {
    receiver.try_recv().ok()
}

/// A registry of named channels carrying `(topic, payload)` messages.
#[verifier::reject_recursive_types(T)]
pub struct EventBus<T> {
    channels: Vec<(String, async_channel::Sender<(String, T)>, async_channel::Receiver<(String, T)>)>,
}

impl<T> EventBus<T> {
    /// The registered channel names, in creation order.
    pub closed spec fn channel_names(&self) -> Seq<Seq<char>> {
        Seq::new(self.channels@.len() as nat, |i: int| self.channels@[i].0@)
    }

    /// A channel of this name exists.
    pub open spec fn has_channel(&self, name: Seq<char>) -> bool {
        exists|i: int|
            0 <= i < self.channel_names().len() && #[trigger] self.channel_names()[i] == name
    }

    /// The bus's internal invariant: channel names are unique.
    pub closed spec fn wf(&self) -> bool {
        forall|i: int, j: int|
            0 <= i < j < self.channel_names().len() ==> self.channel_names()[i] != self.channel_names()[j]
    }

    pub fn new() -> (r: Self)
        ensures
            r.wf(),
            r.channel_names() == Seq::<Seq<char>>::empty(),
    {
        let r = EventBus { channels: Vec::new() };
        proof {
            assert(r.channel_names() =~= Seq::<Seq<char>>::empty());
        }
        r
    }

    /// The position of the channel named `target`, if one exists.
    fn position_of(&self, target: &String) -> (r: Option<usize>)
        ensures
            match r {
                Some(i) => i < self.channel_names().len() && self.channel_names()[i as int]
                    == target@,
                None => !self.has_channel(target@),
            },
    {
        let mut i: usize = 0;
        while i < self.channels.len()
            invariant
                i <= self.channels@.len(),
                forall|j: int|
                    0 <= j < i ==> #[trigger] self.channel_names()[j] != target@,
            decreases self.channels@.len() - i,
        {
            if self.channels[i].0 == *target {
                return Some(i);
            }
            i = i + 1;
        }
        None
    }

    /// Creates a channel under `channel_name`; fails exactly when the
    /// name is already taken.
    pub fn add_channel(&mut self, channel_name: &str) -> (r: Result<(), EventBusError>)
        requires
            old(self).wf(),
        ensures
            final(self).wf(),
            old(self).has_channel(channel_name@) ==> r == Err::<(), EventBusError>(
                EventBusError::ChannelCreationFailed,
            ) && final(self).channel_names() == old(self).channel_names(),
            !old(self).has_channel(channel_name@) ==> r == Ok::<(), EventBusError>(()) && final(self).channel_names() == old(self).channel_names().push(channel_name@),
    {
        let name: String = channel_name.to_owned();
        match self.position_of(&name) {
            Some(_) => Err(EventBusError::ChannelCreationFailed),
            None => {
                let (sender, receiver) = new_channel();
                self.channels.push((name, sender, receiver));
                proof {
                    assert(self.channel_names() =~= old(self).channel_names().push(
                        channel_name@,
                    ));
                    assert forall|i: int, j: int|
                        0 <= i < j < self.channel_names().len() implies self.channel_names()[i]
                        != self.channel_names()[j] by {
                        if j < old(self).channel_names().len() {
                        } else {
                            assert(self.channel_names()[i] == old(self).channel_names()[i]);
                            assert(!old(self).has_channel(channel_name@));
                        }
                    }
                }
                Ok(())
            },
        }
    }

    /// Deletes the channel named `channel_name`; fails exactly when no
    /// such channel exists. Other channels are untouched.
    pub fn remove_channel(&mut self, channel_name: &str) -> (r: Result<(), EventBusError>)
        requires
            old(self).wf(),
        ensures
            final(self).wf(),
            !old(self).has_channel(channel_name@) ==> r == Err::<(), EventBusError>(
                EventBusError::ChannelRemovalFailed,
            ) && final(self).channel_names() == old(self).channel_names(),
            old(self).has_channel(channel_name@) ==> r == Ok::<(), EventBusError>(())
                && !final(self).has_channel(channel_name@) && (forall|nm: Seq<char>|
                nm != channel_name@ ==> final(self).has_channel(nm) == old(self).has_channel(nm)),
    {
        let name: String = channel_name.to_owned();
        match self.position_of(&name) {
            Some(i) => {
                let ghost names0 = self.channel_names();
                self.channels.remove(i);
                proof {
                    assert(self.channel_names() =~= names0.remove(i as int));
                    assert forall|a: int, b: int|
                        0 <= a < b < self.channel_names().len() implies self.channel_names()[a]
                        != self.channel_names()[b] by {
                        if a < i {
                            assert(self.channel_names()[a] == names0[a]);
                        } else {
                            assert(self.channel_names()[a] == names0[a + 1]);
                        }
                        if b < i {
                            assert(self.channel_names()[b] == names0[b]);
                        } else {
                            assert(self.channel_names()[b] == names0[b + 1]);
                        }
                    }
                    assert forall|j: int|
                        0 <= j < self.channel_names().len() implies #[trigger] self.channel_names()[j]
                        != channel_name@ by {
                        if j < i {
                            assert(self.channel_names()[j] == names0[j]);
                        } else {
                            assert(self.channel_names()[j] == names0[j + 1]);
                        }
                    }
                    assert forall|nm: Seq<char>|
                        nm != channel_name@ implies final(self).has_channel(nm) == old(self).has_channel(nm) by {
                        if old(self).has_channel(nm) {
                            let j = choose|j: int|
                                0 <= j < names0.len() && #[trigger] names0[j] == nm;
                            if j < i {
                                assert(self.channel_names()[j] == nm);
                            } else {
                                assert(j != i);
                                assert(self.channel_names()[j - 1] == nm);
                            }
                        }
                        if self.has_channel(nm) {
                            let j = choose|j: int|
                                0 <= j < self.channel_names().len() && #[trigger] self.channel_names()[j]
                                    == nm;
                            if j < i {
                                assert(names0[j] == nm);
                            } else {
                                assert(names0[j + 1] == nm);
                            }
                        }
                    }
                }
                Ok(())
            },
            None => Err(EventBusError::ChannelRemovalFailed),
        }
    }

    /// Fresh endpoints of the channel named `channel_name`, if it exists.
    fn get_channel(&self, channel_name: &String) -> (r: Option<
        (async_channel::Sender<(String, T)>, async_channel::Receiver<(String, T)>),
    >)
        ensures
            r.is_some() == self.has_channel(channel_name@),
    {
        match self.position_of(channel_name) {
            Some(i) => {
                let entry = &self.channels[i];
                Some((clone_sender(&entry.1), clone_receiver(&entry.2)))
            },
            None => None,
        }
    }
}

impl<T> Default for EventBus<T> {
    fn default() -> (r: Self)
        ensures
            r.wf(),
            r.channel_names() == Seq::<Seq<char>>::empty(),
    {
        EventBus::new()
    }
}

/// Sends `(topic, payload)` messages into one named channel of a shared
/// bus.
#[verifier::reject_recursive_types(T)]
pub struct Publisher<T> {
    event_bus: Arc<EventBus<T>>,
    channel_name: String,
}

impl<T> Publisher<T> {
    /// The shared bus this publisher resolves its channel against.
    pub closed spec fn spec_bus(&self) -> EventBus<T> {
        *self.event_bus
    }

    /// The channel this publisher sends into.
    pub closed spec fn spec_channel_name(&self) -> Seq<char> {
        self.channel_name@
    }

    pub fn new(event_bus: Arc<EventBus<T>>, channel_name: String) -> (r: Self)
        ensures
            r.spec_bus() == *event_bus,
            r.spec_channel_name() == channel_name@,
    {
        Publisher { event_bus, channel_name }
    }

    /// Queues a message on the publisher's channel. Fails with
    /// [`EventBusError::ChannelRemovalFailed`] when the channel no longer
    /// exists or refuses the message; succeeds only if the channel
    /// exists.
    pub fn publish(&self, topic: String, payload: T) -> (r: Result<(), EventBusError>)
        ensures
            !self.spec_bus().has_channel(self.spec_channel_name()) ==> r == Err::<
                (),
                EventBusError,
            >(EventBusError::ChannelRemovalFailed),
            r is Ok ==> self.spec_bus().has_channel(self.spec_channel_name()),
            r is Err ==> r == Err::<(), EventBusError>(EventBusError::ChannelRemovalFailed),
    {
        match self.event_bus.get_channel(&self.channel_name) {
            Some((sender, _receiver)) => {
                if try_send(&sender, (topic, payload)) {
                    Ok(())
                } else {
                    Err(EventBusError::ChannelRemovalFailed)
                }
            },
            None => Err(EventBusError::ChannelRemovalFailed),
        }
    }
}

/// Receives messages from a set of named channels of a shared bus, polled
/// round-robin.
#[verifier::reject_recursive_types(T)]
pub struct Subscriber<T> {
    event_bus: Arc<EventBus<T>>,
    channel_names: Vec<String>,
    current_channel_index: usize,
}

impl<T> Subscriber<T> {
    /// The shared bus this subscriber resolves its channels against.
    pub closed spec fn spec_bus(&self) -> EventBus<T> {
        *self.event_bus
    }

    /// The names of the channels this subscriber listens on.
    pub closed spec fn spec_channel_names(&self) -> Seq<Seq<char>> {
        Seq::new(self.channel_names@.len() as nat, |i: int| self.channel_names@[i]@)
    }

    /// The position of the channel the next poll reads.
    pub closed spec fn spec_current_index(&self) -> int {
        self.current_channel_index as int
    }

    pub fn new(event_bus: Arc<EventBus<T>>, channel_names: Vec<String>) -> (r: Self)
        ensures
            r.spec_bus() == *event_bus,
            r.spec_channel_names() == Seq::new(
                channel_names@.len() as nat,
                |i: int| channel_names@[i]@,
            ),
            r.spec_current_index() == 0,
    {
        Subscriber { event_bus, channel_names, current_channel_index: 0 }
    }

    /// One receiving endpoint per subscribed channel, in subscription
    /// order; fails with [`EventBusError::ChannelRemovalFailed`] exactly
    /// when some subscribed channel does not exist.
    pub fn subscribe(&self) -> (r: Result<
        Vec<async_channel::Receiver<(String, T)>>,
        EventBusError,
    >)
        ensures
            r.is_ok() == (forall|k: int|
                0 <= k < self.spec_channel_names().len() ==> self.spec_bus().has_channel(
                    #[trigger] self.spec_channel_names()[k],
                )),
            r is Ok ==> r.unwrap()@.len() == self.spec_channel_names().len(),
            r is Err ==> r == Err::<Vec<async_channel::Receiver<(String, T)>>, EventBusError>(
                EventBusError::ChannelRemovalFailed,
            ),
    {
        let mut receivers: Vec<async_channel::Receiver<(String, T)>> = Vec::new();
        let mut k: usize = 0;
        while k < self.channel_names.len()
            invariant
                k <= self.channel_names@.len(),
                receivers@.len() == k,
                forall|j: int|
                    0 <= j < k ==> self.spec_bus().has_channel(
                        #[trigger] self.spec_channel_names()[j],
                    ),
            decreases self.channel_names@.len() - k,
        {
            match self.event_bus.get_channel(&self.channel_names[k]) {
                Some((_sender, receiver)) => {
                    receivers.push(receiver);
                },
                None => {
                    proof {
                        assert(!self.spec_bus().has_channel(
                            self.spec_channel_names()[k as int],
                        ));
                    }
                    return Err(EventBusError::ChannelRemovalFailed);
                },
            }
            k = k + 1;
        }
        Ok(receivers)
    }

    /// Polls the next channel in round-robin order for a waiting message.
    /// When the polled channel exists the cursor advances (wrapping past
    /// the last channel); an out-of-range cursor or a vanished channel
    /// yields nothing and leaves the subscriber unchanged.
    pub fn try_next_message(&mut self) -> (r: Option<(String, T)>)
        ensures
            final(self).spec_bus() == old(self).spec_bus(),
            final(self).spec_channel_names() == old(self).spec_channel_names(),
            old(self).spec_current_index() >= old(self).spec_channel_names().len() ==> r is None
                && final(self).spec_current_index() == old(self).spec_current_index(),
            old(self).spec_current_index() < old(self).spec_channel_names().len() && !old(self).spec_bus().has_channel(
                old(self).spec_channel_names()[old(self).spec_current_index()],
            ) ==> r is None && final(self).spec_current_index() == old(self).spec_current_index(),
            old(self).spec_current_index() < old(self).spec_channel_names().len() && old(self).spec_bus().has_channel(
                old(self).spec_channel_names()[old(self).spec_current_index()],
            ) ==> final(self).spec_current_index() == (old(self).spec_current_index() + 1) % (
            old(self).spec_channel_names().len() as int),
    {
        let index = self.current_channel_index;
        if index >= self.channel_names.len() {
            return None;
        }
        match self.event_bus.get_channel(&self.channel_names[index]) {
            Some((_sender, receiver)) => {
                self.current_channel_index = (index + 1) % self.channel_names.len();
                try_recv(&receiver)
            },
            None => None,
        }
    }
}

} // verus!
