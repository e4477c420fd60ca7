//! Tickets: the kernel's one-shot asynchronous primitive. A ticket is a
//! completion cell created in one of two states, pending or pre-resolved.
//! The producer holds the unique `TicketWaker`, the consumer the unique
//! `Ticket`; neither can be cloned. Completing consumes the waker, so a
//! ticket is completed at most once, and completion fires the one
//! registered thread waker, if any.

use crate::errors::Error;
use vstd::prelude::*;

verus! {

/// What a completed operation hands back.
pub enum TicketValue {
    /// Bytes read.
    Bytes(Vec<u8>),
    /// A count or position.
    Num(u64),
    /// A handle to an opened object.
    Obj(u64),
}

/// The state of one completion cell.
pub enum TicketCell {
    /// Awaiting completion, with at most one registered thread waker.
    Pending { waker: Option<u64> },
    /// Completed; the consumer has not read the value yet.
    Complete { result: Result<TicketValue, Error> },
    /// The consumer took the value, or dropped its half: the cell is dead.
    Spent,
}

/// The consumer's half: the unique receipt for one cell.
pub struct Ticket {
    id: usize,
}

/// The producer's half: the unique capability to complete one cell.
pub struct TicketWaker {
    id: usize,
}

impl Ticket {
    pub closed spec fn id_spec(&self) -> int {
        self.id as int
    }

    pub fn id(&self) -> (r: usize)
        ensures
            r == self.id_spec(),
    {
        self.id
    }
}

impl TicketWaker {
    pub closed spec fn id_spec(&self) -> int {
        self.id as int
    }

    pub fn id(&self) -> (r: usize)
        ensures
            r == self.id_spec(),
    {
        self.id
    }
}

/// All live completion cells. The kernel owns one pool; tickets and wakers
/// are indices into it.
pub struct TicketPool {
    cells: Vec<TicketCell>,
}

impl TicketPool {
    pub closed spec fn cells_spec(&self) -> Seq<TicketCell> {
        self.cells@
    }

    /// Whether cell `id` is still awaiting completion.
    pub open spec fn is_pending(&self, id: int) -> bool {
        0 <= id < self.cells_spec().len() && self.cells_spec()[id] is Pending
    }

    /// Whether cell `id` holds an unread result.
    pub open spec fn is_complete(&self, id: int) -> bool {
        0 <= id < self.cells_spec().len() && self.cells_spec()[id] is Complete
    }

    /// The registered thread waker of a pending cell.
    pub open spec fn waker_of(&self, id: int) -> Option<u64> {
        self.cells_spec()[id]->Pending_waker
    }

    /// The unread result of a complete cell.
    pub open spec fn result_of(&self, id: int) -> Result<TicketValue, Error> {
        self.cells_spec()[id]->Complete_result
    }

    pub fn new() -> (r: TicketPool)
        ensures
            r.cells_spec().len() == 0,
    {
        TicketPool { cells: Vec::new() }
    }

    /// A pending ticket: the consumer's receipt and the producer's unique
    /// completion capability, both naming a fresh cell.
    pub fn new_ticket(&mut self) -> (r: (Ticket, TicketWaker))
        ensures
            r.0.id_spec() == old(self).cells_spec().len(),
            r.1.id_spec() == r.0.id_spec(),
            final(self).cells_spec() == old(self).cells_spec().push(
                TicketCell::Pending { waker: None },
            ),
            final(self).is_pending(r.0.id_spec()),
            final(self).waker_of(r.0.id_spec()) is None,
    {
        let id = self.cells.len();
        self.cells.push(TicketCell::Pending { waker: None });
        (Ticket { id }, TicketWaker { id })
    }

    /// A pre-resolved ticket carrying `result`; there is no waker half.
    pub fn new_complete(&mut self, result: Result<TicketValue, Error>) -> (r: Ticket)
        ensures
            r.id_spec() == old(self).cells_spec().len(),
            final(self).cells_spec() == old(self).cells_spec().push(
                TicketCell::Complete { result },
            ),
            final(self).is_complete(r.id_spec()),
            final(self).result_of(r.id_spec()) == result,
    {
        let id = self.cells.len();
        self.cells.push(TicketCell::Complete { result });
        Ticket { id }
    }

    /// Register the current thread as the one to wake on completion, or
    /// take nothing if the cell is already complete. Returns the previous
    /// registration.
    pub fn register_waker(&mut self, t: &Ticket, thread: u64) -> (r: Option<u64>)
        requires
            old(self).is_pending(t.id_spec()),
        ensures
            r == old(self).waker_of(t.id_spec()),
            final(self).cells_spec() == old(self).cells_spec().update(
                t.id_spec(),
                TicketCell::Pending { waker: Some(thread) },
            ),
            final(self).is_pending(t.id_spec()),
            final(self).waker_of(t.id_spec()) == Some(thread),
    {
        let old_cell = self.cells.remove(t.id);
        let prev = match old_cell {
            TicketCell::Pending { waker } => waker,
            _ => None,
        };
        self.cells.insert(t.id, TicketCell::Pending { waker: Some(thread) });
        proof {
            assert(final(self).cells_spec() =~= old(self).cells_spec().update(
                t.id_spec(),
                TicketCell::Pending { waker: Some(thread) },
            ));
        }
        prev
    }

    /// Complete a pending cell. The waker half is consumed, so no cell is
    /// ever completed twice; the one registered thread waker, if any, is
    /// handed back to be woken — exactly once.
    pub fn complete(&mut self, w: TicketWaker, result: Result<TicketValue, Error>) -> (r: Option<
        u64,
    >)
        requires
            old(self).is_pending(w.id_spec()),
        ensures
            r == old(self).waker_of(w.id_spec()),
            final(self).cells_spec() == old(self).cells_spec().update(
                w.id_spec(),
                TicketCell::Complete { result },
            ),
            final(self).is_complete(w.id_spec()),
            final(self).result_of(w.id_spec()) == result,
            !final(self).is_pending(w.id_spec()),
    {
        let old_cell = self.cells.remove(w.id);
        let prev = match old_cell {
            TicketCell::Pending { waker } => waker,
            _ => None,
        };
        self.cells.insert(w.id, TicketCell::Complete { result });
        proof {
            assert(final(self).cells_spec() =~= old(self).cells_spec().update(
                w.id_spec(),
                TicketCell::Complete { result },
            ));
        }
        prev
    }

    /// Drop the producer's half without completing: the consumer observes
    /// `Cancelled`. The registered thread waker is handed back to be woken.
    pub fn drop_waker(&mut self, w: TicketWaker) -> (r: Option<u64>)
        requires
            old(self).is_pending(w.id_spec()),
        ensures
            r == old(self).waker_of(w.id_spec()),
            final(self).cells_spec() == old(self).cells_spec().update(
                w.id_spec(),
                TicketCell::Complete { result: Err(Error::Cancelled) },
            ),
            final(self).is_complete(w.id_spec()),
            final(self).result_of(w.id_spec()) == Err::<TicketValue, Error>(Error::Cancelled),
    {
        self.complete(w, Err(Error::Cancelled))
    }

    /// Read a completed ticket: the value is taken and the cell is dead.
    pub fn take(&mut self, t: Ticket) -> (r: Result<TicketValue, Error>)
        requires
            old(self).is_complete(t.id_spec()),
        ensures
            r == old(self).result_of(t.id_spec()),
            final(self).cells_spec() == old(self).cells_spec().update(
                t.id_spec(),
                TicketCell::Spent,
            ),
    {
        let cell = self.cells.remove(t.id);
        self.cells.insert(t.id, TicketCell::Spent);
        proof {
            assert(final(self).cells_spec() =~= old(self).cells_spec().update(
                t.id_spec(),
                TicketCell::Spent,
            ));
        }
        match cell {
            TicketCell::Complete { result } => result,
            _ => {
                proof {
                    assert(false);
                }
                Err(Error::Cancelled)
            },
        }
    }

    /// Drop the consumer's half: a later completion is a no-op on a dead
    /// cell, its result discarded.
    pub fn drop_ticket(&mut self, t: Ticket)
        requires
            t.id_spec() < old(self).cells_spec().len(),
            !(old(self).cells_spec()[t.id_spec()] is Pending),
        ensures
            final(self).cells_spec() == old(self).cells_spec().update(
                t.id_spec(),
                TicketCell::Spent,
            ),
    {
        self.cells.remove(t.id);
        self.cells.insert(t.id, TicketCell::Spent);
        proof {
            assert(final(self).cells_spec() =~= old(self).cells_spec().update(
                t.id_spec(),
                TicketCell::Spent,
            ));
        }
    }
}

/// Completion is one-shot: after a cell is completed it is never pending
/// again, so [`TicketPool::complete`] — whose precondition demands a
/// pending cell — can never run twice for the same cell; and the one
/// registered waker is fired exactly once, by that single completion.
pub proof fn lemma_complete_at_most_once(pre: TicketPool, post: TicketPool, id: int, result: Result<
    TicketValue,
    Error,
>)
    requires
        pre.is_pending(id),
        post.cells_spec() == pre.cells_spec().update(id, TicketCell::Complete { result }),
    ensures
        !post.is_pending(id),
        post.is_complete(id),
{
}

} // verus!
