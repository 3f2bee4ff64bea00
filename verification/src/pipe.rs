//! The request/reply mailbox: a bounded, ordered queue feeding an actor's
//! sequential processing loop.
//!
//! Enqueuing never blocks: a full mailbox turns the send down at once, and
//! a closed mailbox turns every send down. The owner drains the queue
//! strictly in arrival order.

use vstd::prelude::*;

verus! {

/// Why a send was turned down: the mailbox held `capacity` messages
/// already, or it was closed.
#[derive(Debug, Clone, PartialEq, Eq, Structural)]
pub enum SendError {
    Full,
    Closed,
}

/// A bounded mailbox: the pending messages in arrival order, the fixed
/// capacity, and whether it has been closed.
#[derive(Debug)]
pub struct Mailbox<M> {
    pub queue: Vec<M>,
    pub capacity: usize,
    pub closed: bool,
}

/// Makes an empty, open mailbox holding at most `buffer` messages.
pub fn channel<M>(buffer: usize) -> (r: Mailbox<M>)
    ensures
        r.queue@ =~= Seq::<M>::empty(),
        r.capacity == buffer,
        !r.closed,
{
    Mailbox { queue: Vec::new(), capacity: buffer, closed: false }
}

impl<M> Mailbox<M> {
    /// How many messages are pending.
    pub fn len(&self) -> (r: usize)
        ensures
            r == self.queue@.len(),
    {
        self.queue.len()
    }

    /// Tries to enqueue without ever blocking: turned down with `Closed`
    /// on a closed mailbox and with `Full` on a full one, in both cases
    /// leaving the mailbox as it was; otherwise the message joins the back
    /// of the queue.
    pub fn try_send(&mut self, m: M) -> (r: Result<(), SendError>)
        ensures
            final(self).capacity == old(self).capacity,
            final(self).closed == old(self).closed,
            match r {
                Result::Ok(()) => !old(self).closed && old(self).queue@.len() < old(
                    self,
                ).capacity && final(self).queue@ == old(self).queue@.push(m),
                Result::Err(e) => final(self).queue@ == old(self).queue@ && (match e {
                    SendError::Closed => old(self).closed,
                    SendError::Full => !old(self).closed && old(self).queue@.len() >= old(
                        self,
                    ).capacity,
                }),
            },
    {
        if self.closed {
            Result::Err(SendError::Closed)
        } else if self.queue.len() >= self.capacity {
            Result::Err(SendError::Full)
        } else {
            self.queue.push(m);
            Result::Ok(())
        }
    }

    /// Takes the oldest pending message, if any.
    pub fn recv(&mut self) -> (r: Option<M>)
        ensures
            final(self).capacity == old(self).capacity,
            final(self).closed == old(self).closed,
            old(self).queue@.len() == 0 ==> r is None && final(self).queue@ == old(self).queue@,
            old(self).queue@.len() > 0 ==> match r {
                Some(m) => m == old(self).queue@[0] && final(self).queue@ == old(
                    self,
                ).queue@.drop_first(),
                None => false,
            },
    {
        if self.queue.len() == 0 {
            None
        } else {
            let m = self.queue.remove(0);
            proof {
                assert(self.queue@ =~= old(self).queue@.drop_first());
            }
            Some(m)
        }
    }

    /// Closes the mailbox: every later send is turned down. Terminal for
    /// the owner behind it.
    pub fn close(&mut self)
        ensures
            final(self).capacity == old(self).capacity,
            final(self).queue@ == old(self).queue@,
            final(self).closed,
    {
        self.closed = true;
    }
}

} // verus!
