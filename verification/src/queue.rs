use vstd::prelude::*;
use std::collections::VecDeque;
use crate::error::HsmcError;

verus! {

/// A bounded first-in first-out event queue. Capacity is the const generic `N`.
pub struct EventQueue<E, const N: usize> {
    inner: VecDeque<E>,
}

impl<E, const N: usize> View for EventQueue<E, N> {
    type V = Seq<E>;

    closed spec fn view(&self) -> Seq<E> {
        self.inner@
    }
}

/// Outcome of offering `ev` to a bounded queue holding `q` with capacity `cap`:
/// the event is appended when there is room, otherwise the queue is unchanged.
pub open spec fn spec_bounded_push<E>(q: Seq<E>, cap: nat, ev: E) -> (Seq<E>, Result<(), HsmcError>) {
    if q.len() < cap {
        (q.push(ev), Ok(()))
    } else {
        (q, Err(HsmcError::QueueFull))
    }
}

impl<E, const N: usize> EventQueue<E, N> {
    /// An empty queue.
    pub fn new() -> (r: Self)
        ensures
            r@ == Seq::<E>::empty(),
    {
        EventQueue { inner: VecDeque::new() }
    }

    /// Append `ev` at the back; refused with `QueueFull` when `N` events are
    /// already queued.
    pub fn push(&mut self, ev: E) -> (r: Result<(), HsmcError>)
        ensures
            (final(self)@, r) == spec_bounded_push(old(self)@, N as nat, ev),
    {
        if self.inner.len() < N {
            self.inner.push_back(ev);
            Ok(())
        } else {
            Err(HsmcError::QueueFull)
        }
    }

    /// Remove and return the oldest event.
    pub fn pop(&mut self) -> (r: Option<E>)
        ensures
            old(self)@.len() == 0 ==> r is None && final(self)@ == old(self)@,
            old(self)@.len() > 0 ==> r == Some(old(self)@[0]) && final(self)@ == old(self)@.drop_first(),
    {
        let r = self.inner.pop_front();
        proof {
            if old(self)@.len() > 0 {
                assert(self@ =~= old(self)@.drop_first());
            }
        }
        r
    }

    /// The oldest event, left in place.
    pub fn front(&self) -> (r: Option<&E>)
        ensures
            self@.len() == 0 ==> r is None,
            self@.len() > 0 ==> r == Some(&self@[0]),
    {
        if self.inner.len() == 0 {
            None
        } else {
            Some(&self.inner[0])
        }
    }

    /// True when no event is queued.
    pub fn is_empty(&self) -> (b: bool)
        ensures
            b == (self@.len() == 0),
    {
        self.inner.len() == 0
    }

    /// Number of queued events.
    pub fn len(&self) -> (n: usize)
        ensures
            n == self@.len(),
    {
        self.inner.len()
    }

    /// Drop every queued event, oldest first.
    pub fn clear(&mut self)
        ensures
            final(self)@ == Seq::<E>::empty(),
    {
        loop
            invariant_except_break
                true,
            ensures
                self@.len() == 0,
            decreases self@.len(),
        {
            match self.inner.pop_front() {
                Some(_) => {},
                None => break,
            }
        }
        assert(self@ =~= Seq::<E>::empty());
    }
}

impl<E, const N: usize> Default for EventQueue<E, N> {
    fn default() -> (r: Self)
        ensures
            r@ == Seq::<E>::empty(),
    {
        Self::new()
    }
}

/// Push interface over an event queue, so that code which emits events does
/// not have to name the queue's capacity.
pub trait QueuePush<E> {
    /// Offer one event to the queue.
    fn push(&mut self, ev: E) -> Result<(), HsmcError>;
}

impl<E, const N: usize> QueuePush<E> for EventQueue<E, N> {
    fn push(&mut self, ev: E) -> (r: Result<(), HsmcError>)
        ensures
            (final(self)@, r) == spec_bounded_push(old(self)@, N as nat, ev),
    {
        EventQueue::<E, N>::push(self, ev)
    }
}

/// Routes pushes into a queue while recording overflow: once a push is
/// refused, the `overflow` flag is set and every later push is refused
/// without reaching the queue.
pub struct EmitProxy<'a, E, const N: usize> {
    pub queue: &'a mut EventQueue<E, N>,
    pub overflow: &'a mut bool,
}

impl<'a, E, const N: usize> QueuePush<E> for EmitProxy<'a, E, N> {
    fn push(&mut self, ev: E) -> (r: Result<(), HsmcError>)
        ensures
            *old(self).overflow ==> {
                &&& r == Err::<(), HsmcError>(HsmcError::QueueFull)
                &&& final(self).queue@ == old(self).queue@
                &&& *final(self).overflow
            },
            !*old(self).overflow ==> {
                &&& (final(self).queue@, r) == spec_bounded_push(old(self).queue@, N as nat, ev)
                &&& *final(self).overflow == (r is Err)
            },
    {
        if *self.overflow {
            return Err(HsmcError::QueueFull);
        }
        match self.queue.push(ev) {
            Ok(()) => Ok(()),
            Err(_) => {
                *self.overflow = true;
                Err(HsmcError::QueueFull)
            },
        }
    }
}

} // verus!
