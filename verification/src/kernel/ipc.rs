use vstd::prelude::*;
use std::collections::HashMap;
use std::collections::hash_map::Entry;

verus! {

broadcast use vstd::std_specs::hash::group_hash_axioms;

/// Message queues keyed by process id or by channel number.
pub enum InterProcessCommunication {
    A(InterProcessCommunicationA),
    B(InterProcessCommunicationB),
}

/// The current layout of the message queues.
pub struct InterProcessCommunicationA {
    messages: HashMap<u32, Vec<Message>>,
    channels: HashMap<u32, Vec<Message>>,
}

/// The queue `q[key]` with `m` appended, or a queue holding only `m` when `q` has
/// none under `key`.
pub open spec fn queue_after_send(q: Map<u32, Seq<Message>>, key: u32, m: Message) -> Seq<
    Message,
> {
    if q.contains_key(key) {
        q[key].push(m)
    } else {
        seq![m]
    }
}

/// Messages keep their order: a message sent to a queue becomes its last message,
/// after all the messages the queue held before.
pub proof fn lemma_send_appends(q: Map<u32, Seq<Message>>, key: u32, m: Message)
    ensures
        queue_after_send(q, key, m).last() == m,
        q.contains_key(key) ==> queue_after_send(q, key, m).drop_last() == q[key],
        !q.contains_key(key) ==> queue_after_send(q, key, m).len() == 1,
{
    if q.contains_key(key) {
        assert(q[key].push(m).drop_last() =~= q[key]);
    }
}

impl InterProcessCommunicationA {
    /// The message queues addressed to processes, by process id.
    pub closed spec fn messages(&self) -> Map<u32, Seq<Message>> {
        self.messages@.map_values(|q: Vec<Message>| q@)
    }

    /// The message queues of the channels, by channel number.
    pub closed spec fn channels(&self) -> Map<u32, Seq<Message>> {
        self.channels@.map_values(|q: Vec<Message>| q@)
    }

    pub fn new() -> (ipc: InterProcessCommunicationA)
        ensures
            ipc.messages() == Map::<u32, Seq<Message>>::empty(),
            ipc.channels() == Map::<u32, Seq<Message>>::empty(),
    {
        let ipc = InterProcessCommunicationA { messages: HashMap::new(), channels: HashMap::new() };
        assert(ipc.messages() =~= Map::<u32, Seq<Message>>::empty());
        assert(ipc.channels() =~= Map::<u32, Seq<Message>>::empty());
        ipc
    }

    /// Appends `message` to the queue of process `pid`, creating the queue if
    /// there is none.
    pub fn send_message_pid(&mut self, pid: u32, message: Message)
        ensures
            final(self).messages() == old(self).messages().insert(
                pid,
                queue_after_send(old(self).messages(), pid, message),
            ),
            final(self).channels() == old(self).channels(),
    {
        let ghost old_messages = self.messages();
        match self.messages.remove(&pid) {
            Some(mut a) => {
                a.push(message);
                self.messages.insert(pid, a);
            },
            None => {
                let mut message_queue = Vec::new();
                message_queue.push(message);
                self.messages.insert(pid, message_queue);
            },
        }
        assert(self.messages() =~= old_messages.insert(
            pid,
            queue_after_send(old_messages, pid, message),
        ));
    }

    /// Sends `message` on `channel`. When a process queue with the channel's
    /// number exists, the message is appended to that process queue; otherwise the
    /// channel's queue is replaced by a queue holding only `message`.
    pub fn send_message_channel(&mut self, channel: u32, message: Message)
        ensures
            old(self).messages().contains_key(channel) ==> {
                &&& final(self).messages() == old(self).messages().insert(
                    channel,
                    old(self).messages()[channel].push(message),
                )
                &&& final(self).channels() == old(self).channels()
            },
            !old(self).messages().contains_key(channel) ==> {
                &&& final(self).messages() == old(self).messages()
                &&& final(self).channels() == old(self).channels().insert(channel, seq![message])
            },
    {
        let ghost old_messages = self.messages();
        let ghost old_channels = self.channels();
        match self.messages.remove(&channel) {
            Some(mut a) => {
                a.push(message);
                self.messages.insert(channel, a);
                assert(self.messages() =~= old_messages.insert(
                    channel,
                    old_messages[channel].push(message),
                ));
            },
            None => {
                let mut channel_queue = Vec::new();
                channel_queue.push(message);
                self.channels.insert(channel, channel_queue);
                assert(self.messages() =~= old_messages);
                assert(self.channels() =~= old_channels.insert(channel, seq![message]));
            },
        }
    }

    /// The queue of process `pid`, for reading and changing in place.
    pub fn get_messages_pid(&mut self, pid: u32) -> (queue: Option<&mut Vec<Message>>)
        ensures
            match queue {
                Some(q) => {
                    &&& old(self).messages().contains_key(pid)
                    &&& q@ == old(self).messages()[pid]
                    &&& final(self).messages() == old(self).messages().insert(pid, final(q)@)
                    &&& final(self).channels() == old(self).channels()
                },
                None => {
                    &&& !old(self).messages().contains_key(pid)
                    &&& final(self).messages() == old(self).messages()
                    &&& final(self).channels() == old(self).channels()
                },
            },
    {
        match self.messages.entry(pid) {
            Entry::Occupied(e) => Some(e.into_mut()),
            Entry::Vacant(_) => None,
        }
    }

    /// Removes the queue of process `pid`.
    pub fn rm_pid(&mut self, pid: u32)
        ensures
            final(self).messages() == old(self).messages().remove(pid),
            final(self).channels() == old(self).channels(),
    {
        let ghost old_messages = self.messages();
        self.messages.remove(&pid);
        assert(self.messages() =~= old_messages.remove(pid));
    }

    /// The queue of `channel`, for reading and changing in place.
    pub fn get_messages_channel(&mut self, channel: u32) -> (queue: Option<&mut Vec<Message>>)
        ensures
            match queue {
                Some(q) => {
                    &&& old(self).channels().contains_key(channel)
                    &&& q@ == old(self).channels()[channel]
                    &&& final(self).channels() == old(self).channels().insert(channel, final(q)@)
                    &&& final(self).messages() == old(self).messages()
                },
                None => {
                    &&& !old(self).channels().contains_key(channel)
                    &&& final(self).channels() == old(self).channels()
                    &&& final(self).messages() == old(self).messages()
                },
            },
    {
        match self.channels.entry(channel) {
            Entry::Occupied(e) => Some(e.into_mut()),
            Entry::Vacant(_) => None,
        }
    }

    /// Removes the queue of `channel`.
    pub fn rm_channel(&mut self, channel: u32)
        ensures
            final(self).messages() == old(self).messages(),
            final(self).channels() == old(self).channels().remove(channel),
    {
        let ghost old_channels = self.channels();
        self.channels.remove(&channel);
        assert(self.channels() =~= old_channels.remove(channel));
    }
}

/// An earlier layout of the message queues, kept for migration.
pub struct InterProcessCommunicationB {}

impl InterProcessCommunicationB {
    pub fn new() -> (ipc: InterProcessCommunicationB) {
        InterProcessCommunicationB {  }
    }
}

pub fn new_ipc_as_enum() -> (ipc: InterProcessCommunication)
    ensures
        ipc matches InterProcessCommunication::A(a) && a.messages() == Map::<
            u32,
            Seq<Message>,
        >::empty() && a.channels() == Map::<u32, Seq<Message>>::empty(),
{
    InterProcessCommunication::A(InterProcessCommunicationA::new())
}

/// The current-layout queues inside `borrow`, which must be of the current layout.
pub fn get_ipc(borrow: &InterProcessCommunication) -> (ipc: &InterProcessCommunicationA)
    requires
        borrow is A,
    ensures
        *ipc == borrow->A_0,
{
    match borrow {
        InterProcessCommunication::A(a) => a,
        InterProcessCommunication::B(_) => vstd::pervasive::unreached(),
    }
}

/// The current-layout queues inside `borrow`, for mutation; `borrow` must be of
/// the current layout.
pub fn get_mut_ipc(borrow: &mut InterProcessCommunication) -> (ipc: &mut InterProcessCommunicationA)
    requires
        *old(borrow) is A,
    ensures
        *ipc == (*old(borrow))->A_0,
        *final(borrow) == InterProcessCommunication::A(*final(ipc)),
{
    match borrow {
        InterProcessCommunication::A(a) => a,
        InterProcessCommunication::B(_) => vstd::pervasive::unreached(),
    }
}

/// Message is what processes pass around.
pub enum Message {
    SpawnRequest(SpawnRequest),
    SpawnResponse(SpawnResponse),
    AssetDonation(AssetDonation),
}

pub struct SpawnRequest {
    origin: u32,
    parts: Vec<u8>,
    name: String,
    largest_available: bool,
    dir: u8,
}

/// Empty if the spawn failed.
pub struct SpawnResponse {
    pub name: String,
}

pub struct AssetDonation {
    pub name: String,
    pub asset_type: u8,
    pub location: u8,
}


} // verus!
