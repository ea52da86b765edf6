//! The dispatch channel: an ordered, unbounded conduit from a producer to
//! its consumers.
//!
//! The channel records, in ghost state, everything ever sent and everything
//! delivered so far; its well-formedness ties the two to the pending items,
//! which is exactly the claim that delivery preserves submission order.

use vstd::prelude::*;

verus! {

/// Error returned by [`Channel::send`] once the producing end is closed.
#[derive(Clone, Copy, Debug, PartialEq, Eq, Structural)]
pub struct SendError;

/// Outcome of one attempt to take the next item from a channel.
#[derive(Clone, Copy, Debug)]
pub enum Recv<T> {
    /// The oldest pending item, removed from the channel.
    Item(T),
    /// Nothing pending and the producing end is still open: more items may
    /// yet arrive, so a consumer should try again later.
    Empty,
    /// Nothing pending and the producing end is closed: no item will ever
    /// arrive again.
    Closed,
}

/// The abstract state of a channel.
pub struct ChannelView<T> {
    /// Every item ever sent, oldest first.
    pub sent: Seq<T>,
    /// Every item delivered to a consumer so far, in delivery order.
    pub received: Seq<T>,
    /// Items sent but not yet delivered, oldest first.
    pub pending: Seq<T>,
    /// Whether the producing end has been closed.
    pub closed: bool,
}

/// An ordered, unbounded queue with a producing end that closes exactly once.
pub struct Channel<T> {
    items: Vec<T>,
    closed: bool,
    sent: Ghost<Seq<T>>,
    received: Ghost<Seq<T>>,
}

impl<T> View for Channel<T> {
    type V = ChannelView<T>;

    closed spec fn view(&self) -> ChannelView<T> {
        ChannelView {
            sent: self.sent@,
            received: self.received@,
            pending: self.items@,
            closed: self.closed,
        }
    }
}

impl<T> Channel<T> {
    /// What every channel satisfies from construction on: the history of
    /// sends is the history of deliveries followed by the pending items.
    pub open spec fn wf(&self) -> bool {
        self@.sent == self@.received + self@.pending
    }

    /// Makes an open, empty channel.
    pub fn new() -> (c: Channel<T>)
        ensures
            c.wf(),
            !c@.closed,
            c@.sent == Seq::<T>::empty(),
            c@.received == Seq::<T>::empty(),
            c@.pending == Seq::<T>::empty(),
    {
        let c = Channel {
            items: Vec::new(),
            closed: false,
            sent: Ghost(Seq::empty()),
            received: Ghost(Seq::empty()),
        };
        proof {
            assert(c@.sent =~= c@.received + c@.pending);
        }
        c
    }

    /// Appends an item, unless the producing end has been closed, in which
    /// case the channel is left untouched and the item is refused.
    pub fn send(&mut self, t: T) -> (r: Result<(), SendError>)
        requires
            old(self).wf(),
        ensures
            final(self).wf(),
            r is Ok <==> !old(self)@.closed,
            final(self)@.closed == old(self)@.closed,
            final(self)@.received == old(self)@.received,
            r is Ok ==> final(self)@.pending == old(self)@.pending.push(t)
                && final(self)@.sent == old(self)@.sent.push(t),
            r is Err ==> *final(self) == *old(self),
    {
        if self.closed {
            Err(SendError)
        } else {
            self.items.push(t);
            proof {
                self.sent@ = self.sent@.push(t);
                assert(self@.sent =~= self@.received + self@.pending);
            }
            Ok(())
        }
    }

    /// Takes the oldest pending item.  With nothing pending, says whether a
    /// consumer should wait for more ([`Recv::Empty`]) or give up because the
    /// producing end is closed ([`Recv::Closed`]).
    pub fn try_recv(&mut self) -> (r: Recv<T>)
        requires
            old(self).wf(),
        ensures
            final(self).wf(),
            final(self)@.closed == old(self)@.closed,
            final(self)@.sent == old(self)@.sent,
            r is Item <==> old(self)@.pending.len() > 0,
            match r {
                Recv::Item(t) => t == old(self)@.pending[0]
                    && final(self)@.pending == old(self)@.pending.drop_first()
                    && final(self)@.received == old(self)@.received.push(t),
                Recv::Empty => !old(self)@.closed && *final(self) == *old(self),
                Recv::Closed => old(self)@.closed && *final(self) == *old(self),
            },
    {
        if self.items.len() > 0 {
            let t = self.items.remove(0);
            proof {
                self.received@ = self.received@.push(t);
                assert(self@.pending =~= old(self)@.pending.drop_first());
                assert(self@.sent =~= self@.received + self@.pending);
            }
            Recv::Item(t)
        } else if self.closed {
            Recv::Closed
        } else {
            Recv::Empty
        }
    }

    /// Closes the producing end.  Pending items stay and can still be
    /// received; only new sends are refused from here on.  A channel closes
    /// at most once.
    pub fn close(&mut self)
        requires
            old(self).wf(),
            !old(self)@.closed,
        ensures
            final(self).wf(),
            final(self)@.closed,
            final(self)@.sent == old(self)@.sent,
            final(self)@.received == old(self)@.received,
            final(self)@.pending == old(self)@.pending,
    {
        self.closed = true;
    }

    /// How many items are pending.
    pub fn len(&self) -> (n: usize)
        ensures
            n == self@.pending.len(),
    {
        self.items.len()
    }

    /// Whether the producing end has been closed.
    pub fn is_closed(&self) -> (r: bool)
        ensures
            r == self@.closed,
    {
        self.closed
    }
}

/// Delivery preserves submission order: at any moment the items delivered so
/// far are exactly the oldest `received.len()` items ever sent, in sending
/// order, and the pending items are exactly the rest, still in sending order.
pub proof fn lemma_fifo_order<T>(c: &Channel<T>)
    requires
        c.wf(),
    ensures
        c@.received == c@.sent.take(c@.received.len() as int),
        c@.pending == c@.sent.skip(c@.received.len() as int),
{
    assert(c@.received =~= c@.sent.take(c@.received.len() as int));
    assert(c@.pending =~= c@.sent.skip(c@.received.len() as int));
}

} // verus!
