//! The queue between the tasks that walk and the consumer: bounded, in
//! order of arrival, and at its end once the last sender is gone and
//! nothing waits in it. The queue itself never blocks: it says when a
//! sender or the receiver has to wait, and the caller does the waiting.

use crate::entry::{entries, Entry, EntryView};
use std::collections::VecDeque;
use vstd::prelude::*;

verus! {

/// How many entries wait between the walk and the consumer before the
/// walk is held back.
pub const CAPACITY: usize = 20;

/// The state of the queue.
pub struct Channel {
    queue: VecDeque<Entry>,
    capacity: usize,
    senders: usize,
}

/// What a `Channel` stands for.
pub struct ChannelView {
    /// What waits to be received, oldest first.
    pub queue: Seq<EntryView>,
    /// How many entries may wait at once.
    pub capacity: usize,
    /// How many senders there are.
    pub senders: usize,
}

impl ChannelView {
    /// Whether the stream has ended: nothing waits, and no sender is left
    /// to add anything.
    pub open spec fn closed(self) -> bool {
        self.queue.len() == 0 && self.senders == 0
    }

    /// Whether no further entry fits.
    pub open spec fn full(self) -> bool {
        self.queue.len() >= self.capacity
    }

    /// Whether no more entries wait than may.
    pub open spec fn bounded(self) -> bool {
        self.queue.len() <= self.capacity
    }

    /// Whether an entry that is sent now is taken in: there is a sender,
    /// and room.
    pub open spec fn accepts(self) -> bool {
        self.senders > 0 && !self.full()
    }

    /// The queue with one sender more, copied from one that exists.
    /// Without any there is nothing to copy.
    pub open spec fn with_sender(self) -> ChannelView {
        if 0 < self.senders < usize::MAX {
            ChannelView { senders: (self.senders + 1) as usize, ..self }
        } else {
            self
        }
    }

    /// The queue with one sender less.
    pub open spec fn without_sender(self) -> ChannelView {
        if self.senders > 0 {
            ChannelView { senders: (self.senders - 1) as usize, ..self }
        } else {
            self
        }
    }

    /// The queue after `e` was sent: at its end if it was taken in.
    pub open spec fn after_send(self, e: EntryView) -> ChannelView {
        if self.accepts() {
            ChannelView { queue: self.queue.push(e), ..self }
        } else {
            self
        }
    }

    /// The queue after the receiver asked: without its oldest entry, if
    /// it had one.
    pub open spec fn after_recv(self) -> ChannelView {
        if self.queue.len() > 0 {
            ChannelView { queue: self.queue.drop_first(), ..self }
        } else {
            self
        }
    }
}

/// What became of an entry that was to be sent.
#[derive(Debug)]
pub enum Sent {
    /// It waits in the queue.
    Done,
    /// The queue is full: the sender waits and tries again with the entry.
    Full(Entry),
    /// There is no sender; the entry comes back.
    NoSender(Entry),
}

/// What the receiver gets.
#[derive(Debug)]
pub enum Received {
    /// The entry that waited longest.
    Item(Entry),
    /// Nothing waits, but a sender may still add something: the receiver
    /// waits and tries again.
    Empty,
    /// The stream has ended.
    Closed,
}

impl View for Channel {
    type V = ChannelView;

    closed spec fn view(&self) -> ChannelView {
        ChannelView {
            queue: entries(self.queue@),
            capacity: self.capacity,
            senders: self.senders,
        }
    }
}

impl Channel {
    /// An empty queue for `capacity` entries, with its first sender.
    pub fn new(capacity: usize) -> (c: Channel)
        ensures
            c@ == (ChannelView { queue: Seq::empty(), capacity, senders: 1 }),
            c@.bounded(),
    {
        let c = Channel { queue: VecDeque::new(), capacity, senders: 1 };
        assert(entries(c.queue@) == Seq::<EntryView>::empty());
        c
    }

    /// How many entries wait.
    pub fn len(&self) -> (n: usize)
        ensures
            n == self@.queue.len(),
    {
        self.queue.len()
    }

    /// How many entries may wait at once.
    pub fn capacity(&self) -> (n: usize)
        ensures
            n == self@.capacity,
    {
        self.capacity
    }

    /// How many senders there are.
    pub fn senders(&self) -> (n: usize)
        ensures
            n == self@.senders,
    {
        self.senders
    }

    /// Adds a sender beside one that exists. Without a sender there is
    /// nothing to copy, and the count stays at zero for good.
    pub fn add_sender(&mut self) -> (added: bool)
        ensures
            final(self)@ == old(self)@.with_sender(),
            added == (0 < old(self)@.senders < usize::MAX),
    {
        if 0 < self.senders && self.senders < usize::MAX {
            self.senders = self.senders + 1;
            true
        } else {
            false
        }
    }

    /// Takes a sender away, when its task is done or has failed.
    pub fn drop_sender(&mut self)
        ensures
            final(self)@ == old(self)@.without_sender(),
    {
        if self.senders > 0 {
            self.senders = self.senders - 1;
        }
    }

    /// Puts `entry` at the end of the queue if a sender exists and the
    /// queue has room; hands it back otherwise.
    pub fn send(&mut self, entry: Entry) -> (r: Sent)
        ensures
            final(self)@ == old(self)@.after_send(entry@),
            match r {
                Sent::Done => old(self)@.accepts(),
                Sent::Full(e) => old(self)@.senders > 0 && old(self)@.full() && e == entry,
                Sent::NoSender(e) => old(self)@.senders == 0 && e == entry,
            },
    {
        if self.senders == 0 {
            Sent::NoSender(entry)
        } else if self.queue.len() >= self.capacity {
            Sent::Full(entry)
        } else {
            let ghost held = self.queue@;
            self.queue.push_back(entry);
            assert(entries(self.queue@) == entries(held).push(entry@));
            Sent::Done
        }
    }

    /// Takes the entry that waited longest, or says why there is none.
    pub fn recv(&mut self) -> (r: Received)
        ensures
            final(self)@ == old(self)@.after_recv(),
            match r {
                Received::Item(e) => old(self)@.queue.len() > 0 && e@ == old(self)@.queue[0],
                Received::Empty => old(self)@.queue.len() == 0 && old(self)@.senders > 0,
                Received::Closed => old(self)@.closed(),
            },
    {
        let ghost held = self.queue@;
        match self.queue.pop_front() {
            Some(e) => {
                assert(entries(self.queue@) == entries(held).drop_first());
                Received::Item(e)
            },
            None => {
                if self.senders > 0 {
                    Received::Empty
                } else {
                    Received::Closed
                }
            },
        }
    }
}

/// The queue keeps its bound. Whatever is done to a queue in which no more
/// entries wait than may, no more wait in it afterwards.
pub proof fn law_queue_stays_bounded(c: ChannelView, e: EntryView)
    requires
        c.bounded(),
    ensures
        c.after_send(e).bounded(),
        c.after_recv().bounded(),
        c.with_sender().bounded(),
        c.without_sender().bounded(),
{
}

/// The senders are gone for good. Once none is left none can be added and
/// nothing is taken in, so a stream that has ended stays at its end.
pub proof fn law_end_is_final(c: ChannelView, e: EntryView)
    requires
        c.senders == 0,
    ensures
        c.with_sender() == c,
        c.without_sender() == c,
        c.after_send(e) == c,
        c.after_recv().senders == 0,
        c.closed() ==> c.after_recv() == c,
{
}

/// The stream ends when the last sender goes, if nothing waits, and after
/// what waits is received, if something does: each entry that waits is
/// received before the end is seen.
pub proof fn law_end_after_last_sender(c: ChannelView)
    requires
        c.senders == 1,
    ensures
        c.without_sender().senders == 0,
        c.without_sender().closed() <==> c.queue.len() == 0,
        c.without_sender().queue == c.queue,
{
}

} // verus!
