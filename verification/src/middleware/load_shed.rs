//! Sheds requests above a limit of requests in flight.

use vstd::prelude::*;

verus! {

/// The status of a request that is shed.
pub const SHED_STATUS: u16 = 503;

/// A service with a limit on how many of its requests are in flight.
pub struct LoadShedMiddleware<S> {
    inner: S,
    max_concurrency: usize,
    in_flight: usize,
}

impl<S> LoadShedMiddleware<S> {
    /// The service.
    pub closed spec fn service(&self) -> S {
        self.inner
    }

    /// The limit.
    pub closed spec fn limit(&self) -> usize {
        self.max_concurrency
    }

    /// How many requests are in flight.
    pub closed spec fn running(&self) -> usize {
        self.in_flight
    }

    /// A service with a limit, on top of requests that are already in flight.
    pub fn new(inner: S, max_concurrency: usize, in_flight: usize) -> (r: Self)
        ensures
            r.service() == inner,
            r.limit() == max_concurrency,
            r.running() == in_flight,
    {
        LoadShedMiddleware { inner, max_concurrency, in_flight }
    }

    /// The service, to be called.
    pub fn inner_mut(&mut self) -> (r: &mut S)
        ensures
            *r == old(self).service(),
            final(self).service() == *final(r),
            final(self).limit() == old(self).limit(),
            final(self).running() == old(self).running(),
    {
        &mut self.inner
    }

    /// Takes a request in, unless as many as the limit allows are in flight; then it is to be
    /// answered with the status of a request that is shed.
    pub fn enter(&mut self) -> (r: bool)
        ensures
            r == (old(self).running() < old(self).limit()),
            final(self).service() == old(self).service(),
            final(self).limit() == old(self).limit(),
            final(self).running() == (if r {
                old(self).running() + 1
            } else {
                old(self).running() as int
            }),
    {
        if self.in_flight >= self.max_concurrency {
            return false;
        }
        self.in_flight = self.in_flight + 1;
        true
    }

    /// Counts a request as done that was taken in before.
    pub fn complete(&mut self)
        requires
            old(self).running() > 0,
        ensures
            final(self).service() == old(self).service(),
            final(self).limit() == old(self).limit(),
            final(self).running() == old(self).running() - 1,
    {
        self.in_flight = self.in_flight - 1;
    }
}

/// What happens to a limited service: a request comes, or one that was taken in is done.
pub enum Event {
    Comes,
    Done,
}

/// How many requests are in flight after some events.
pub open spec fn running_after(limit: usize, running: int, events: Seq<Event>) -> int
    decreases events.len(),
{
    if events.len() == 0 {
        running
    } else {
        let n = running_after(limit, running, events.drop_last());
        match events.last() {
            Event::Comes => if n < limit {
                n + 1
            } else {
                n
            },
            Event::Done => if n > 0 {
                n - 1
            } else {
                n
            },
        }
    }
}

/// However requests come and go, no more are in flight than the limit allows.
pub proof fn law_limit_holds(limit: usize, events: Seq<Event>)
    ensures
        0 <= running_after(limit, 0, events) <= limit,
    decreases events.len(),
{
    if events.len() > 0 {
        law_limit_holds(limit, events.drop_last());
    }
}

} // verus!
