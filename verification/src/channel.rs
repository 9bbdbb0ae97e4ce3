//! A model of the storage channel and its shutdown protocol.
//!
//! Both producer stages and the orchestrator hold sender handles to
//! one queue of outcome records. The consumer must never take the
//! channel as closed while a sender handle is open — the orchestrator
//! releases its own handle only after both stages are done — and must
//! drain what was sent before it stops. The contract of `recv` pins
//! that protocol down: `Closed` comes only with an empty queue and no
//! open handle, so nothing sent is ever lost.

use vstd::prelude::*;

use crate::data::Outcome;

verus! {

/// One consumer's view of the outcome channel: what was sent and not
/// yet received, oldest first, and how many sender handles are open.
pub struct ViewChannel {
    pub queue: Vec<Outcome>,
    pub senders: usize,
}

/// What one receive attempt yields.
pub enum Recv {
    /// The oldest outstanding record.
    Item(Outcome),
    /// Nothing outstanding, but a sender handle is still open: more
    /// may come, and the consumer must not stop.
    WouldBlock,
    /// Nothing outstanding and every sender handle released: the
    /// consumer may stop.
    Closed,
}

impl ViewChannel {
    /// A fresh channel with `senders` open sender handles.
    pub fn new(senders: usize) -> (c: ViewChannel)
        ensures
            c.queue@.len() == 0,
            c.senders == senders,
    {
        ViewChannel { queue: Vec::new(), senders }
    }

    /// A producer sends one record; only an open handle can send.
    pub fn send(&mut self, v: Outcome)
        requires
            old(self).senders > 0,
        ensures
            final(self).queue@ == old(self).queue@.push(v),
            final(self).senders == old(self).senders,
    {
        self.queue.push(v);
    }

    /// A producer releases its handle, once.
    pub fn drop_sender(&mut self)
        requires
            old(self).senders > 0,
        ensures
            final(self).queue == old(self).queue,
            final(self).senders == old(self).senders - 1,
    {
        self.senders = self.senders - 1;
    }

    /// The consumer takes the next record. The channel reads as
    /// closed only when the queue is drained and no sender handle is
    /// open; while a handle is open an empty queue only blocks.
    pub fn recv(&mut self) -> (r: Recv)
        ensures
            final(self).senders == old(self).senders,
            old(self).queue@.len() > 0 ==> (r matches Recv::Item(v) && v == old(self).queue@[0]
                && final(self).queue@ == old(self).queue@.subrange(
                1,
                old(self).queue@.len() as int,
            )),
            old(self).queue@.len() == 0 ==> final(self).queue == old(self).queue,
            old(self).queue@.len() == 0 && old(self).senders > 0 ==> r is WouldBlock,
            old(self).queue@.len() == 0 && old(self).senders == 0 ==> r is Closed,
    {
        if self.queue.len() > 0 {
            let v = self.queue.remove(0);
            Recv::Item(v)
        } else if self.senders > 0 {
            Recv::WouldBlock
        } else {
            Recv::Closed
        }
    }
}

} // verus!
