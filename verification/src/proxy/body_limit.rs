//! Streaming body helpers: size limit and idle timeout between frames.

use crate::span::Span;
use vstd::prelude::*;

verus! {

/// Why a body could not be read.
pub enum BodyLimitError {
    TooLarge,
    IdleTimeout,
    Other(String),
}

impl BodyLimitError {
    /// The error in words.
    pub open spec fn words(&self) -> Seq<char> {
        match *self {
            BodyLimitError::TooLarge => "body too large"@,
            BodyLimitError::IdleTimeout => "body idle timeout"@,
            BodyLimitError::Other(e) => e@,
        }
    }

    /// The error in words.
    pub fn message(&self) -> (r: String)
        ensures
            r@ == self.words(),
    {
        match self {
            BodyLimitError::TooLarge => "body too large".to_owned(),
            BodyLimitError::IdleTimeout => "body idle timeout".to_owned(),
            BodyLimitError::Other(e) => e.clone(),
        }
    }
}

/// A body with a limit on its size.
pub struct LimitedBody<B> {
    inner: B,
    max: usize,
    seen: usize,
}

impl<B> LimitedBody<B> {
    /// The body.
    pub closed spec fn body(&self) -> B {
        self.inner
    }

    /// The limit.
    pub closed spec fn limit(&self) -> usize {
        self.max
    }

    /// How many bytes have come.
    pub closed spec fn count(&self) -> usize {
        self.seen
    }

    pub fn new(inner: B, max: usize) -> (r: Self)
        ensures
            r.body() == inner,
            r.limit() == max,
            r.count() == 0,
    {
        LimitedBody { inner, max, seen: 0 }
    }

    /// The body, to be read from.
    pub fn inner_mut(&mut self) -> (r: &mut B)
        ensures
            *r == old(self).body(),
            final(self).body() == *final(r),
            final(self).limit() == old(self).limit(),
            final(self).count() == old(self).count(),
    {
        &mut self.inner
    }

    /// Counts a frame of data. It fails as soon as more bytes have come than the limit allows.
    pub fn on_data(&mut self, len: usize) -> (r: Result<(), BodyLimitError>)
        requires
            old(self).count() + len <= usize::MAX,
        ensures
            final(self).body() == old(self).body(),
            final(self).limit() == old(self).limit(),
            final(self).count() == old(self).count() + len,
            final(self).count() > old(self).limit() ==> r == Err::<(), BodyLimitError>(
                BodyLimitError::TooLarge,
            ),
            final(self).count() <= old(self).limit() ==> r is Ok,
    {
        self.seen = self.seen + len;
        if self.seen > self.max {
            return Err(BodyLimitError::TooLarge);
        }
        Ok(())
    }
}

/// The shortest idle timeout, in milliseconds.
pub const MIN_IDLE_MILLIS: u64 = 50;

/// Fails if no body frame arrives within `idle`.
pub struct IdleBody<B> {
    inner: B,
    idle: Span,
}

/// What polling a body gave.
pub enum Polled {
    Frame,
    Failed(BodyLimitError),
    End,
    Pending,
}

/// What a body with an idle timeout does.
pub enum IdleStep {
    /// Passes the frame on and starts the timer anew.
    PassAndReset,
    Fail(BodyLimitError),
    End,
    Wait,
}

impl<B> IdleBody<B> {
    /// The body.
    pub closed spec fn body(&self) -> B {
        self.inner
    }

    /// The longest pause between two frames.
    pub closed spec fn pause(&self) -> Span {
        self.idle
    }

    /// A body with an idle timeout of at least 50 ms.
    pub fn new(inner: B, idle: Span) -> (r: Self)
        ensures
            r.body() == inner,
            r.pause().nanos == (if idle.nanos <= 50000000 {
                50000000
            } else {
                idle.nanos
            }),
    {
        IdleBody { inner, idle: idle.longer(Span::from_millis(MIN_IDLE_MILLIS)) }
    }

    /// The longest pause between two frames.
    pub fn idle(&self) -> (r: Span)
        ensures
            r == self.pause(),
    {
        self.idle
    }

    /// The body, to be read from.
    pub fn inner_mut(&mut self) -> (r: &mut B)
        ensures
            *r == old(self).body(),
            final(self).body() == *final(r),
            final(self).pause() == old(self).pause(),
    {
        &mut self.inner
    }
}

/// What to do after polling the body, and the timer where the body had nothing.
pub fn idle_step(polled: Polled, timer_fired: bool) -> (r: IdleStep)
    ensures
        r == (match polled {
            Polled::Frame => IdleStep::PassAndReset,
            Polled::Failed(e) => IdleStep::Fail(e),
            Polled::End => IdleStep::End,
            Polled::Pending => if timer_fired {
                IdleStep::Fail(BodyLimitError::IdleTimeout)
            } else {
                IdleStep::Wait
            },
        }),
{
    match polled {
        Polled::Frame => IdleStep::PassAndReset,
        Polled::Failed(e) => IdleStep::Fail(e),
        Polled::End => IdleStep::End,
        Polled::Pending => if timer_fired {
            IdleStep::Fail(BodyLimitError::IdleTimeout)
        } else {
            IdleStep::Wait
        },
    }
}

/// Adapt any body into `BodyLimitError`.
pub struct MapErrBody<B> {
    inner: B,
}

impl<B> MapErrBody<B> {
    /// The body.
    pub closed spec fn body(&self) -> B {
        self.inner
    }

    pub fn new(inner: B) -> (r: Self)
        ensures
            r.body() == inner,
    {
        MapErrBody { inner }
    }

    /// The body, to be read from.
    pub fn inner_mut(&mut self) -> (r: &mut B)
        ensures
            *r == old(self).body(),
            final(self).body() == *final(r),
    {
        &mut self.inner
    }

    /// An error of the body, given in words.
    pub fn map_err(words: String) -> (r: BodyLimitError)
        ensures
            r == BodyLimitError::Other(words),
    {
        BodyLimitError::Other(words)
    }
}

/// Wrap an upstream response body with idle timeout (streaming path).
pub fn idle_wrap<B>(body: B, idle: Span) -> (r: IdleBody<MapErrBody<B>>)
    ensures
        r.body().body() == body,
        r.pause().nanos == (if idle.nanos <= 50000000 {
            50000000
        } else {
            idle.nanos
        }),
{
    IdleBody::new(MapErrBody::new(body), idle)
}

/// What comes out of a body while it is collected.
pub enum BodyEvent {
    Data(Vec<u8>),
    /// A frame without data.
    Trailers,
    /// The body failed, in the given words.
    Failed(String),
    /// Nothing came within the idle timeout.
    Idle,
}

/// The data of some events.
pub open spec fn data(events: Seq<BodyEvent>) -> Seq<u8>
    decreases events.len(),
{
    if events.len() == 0 {
        Seq::empty()
    } else {
        match events.last() {
            BodyEvent::Data(d) => data(events.drop_last()) + d@,
            _ => data(events.drop_last()),
        }
    }
}

/// What stops the collection at an event, given the data up to and with it.
pub open spec fn stops(event: BodyEvent, so_far: Seq<u8>, max: nat) -> Option<BodyLimitError> {
    match event {
        BodyEvent::Data(_) => if so_far.len() > max {
            Some(BodyLimitError::TooLarge)
        } else {
            None
        },
        BodyEvent::Trailers => None,
        BodyEvent::Failed(e) => Some(BodyLimitError::Other(e)),
        BodyEvent::Idle => Some(BodyLimitError::IdleTimeout),
    }
}

/// What stops the collection of a body: the first error among its events.
pub open spec fn collection_error(events: Seq<BodyEvent>, max: nat) -> Option<BodyLimitError>
    decreases events.len(),
{
    if events.len() == 0 {
        None
    } else if collection_error(events.drop_last(), max) is Some {
        collection_error(events.drop_last(), max)
    } else {
        stops(events.last(), data(events), max)
    }
}

/// A body that is being collected.
pub struct Collector {
    limited: LimitedBody<Vec<u8>>,
}

impl Collector {
    /// What has been collected.
    pub closed spec fn collected(&self) -> Seq<u8> {
        self.limited.body()@
    }

    /// The limit.
    pub closed spec fn limit(&self) -> usize {
        self.limited.limit()
    }

    /// The bytes that have come are counted.
    pub closed spec fn wf(&self) -> bool {
        self.limited.count() == self.limited.body()@.len()
    }

    pub fn new(max: usize) -> (r: Self)
        ensures
            r.wf(),
            r.collected().len() == 0,
            r.limit() == max,
    {
        Collector { limited: LimitedBody::new(Vec::new(), max) }
    }

    /// Takes an event in. An error ends the collection.
    pub fn on_event(&mut self, event: BodyEvent) -> (r: Result<(), BodyLimitError>)
        requires
            old(self).wf(),
            event matches BodyEvent::Data(d) ==> old(self).collected().len() + d@.len()
                <= usize::MAX,
        ensures
            final(self).wf(),
            final(self).limit() == old(self).limit(),
            final(self).collected() == old(self).collected() + data(seq![event]),
            match stops(event, final(self).collected(), old(self).limit() as nat) {
                Some(e) => r == Err::<(), BodyLimitError>(e),
                None => r is Ok,
            },
    {
        assert(seq![event].drop_last() =~= Seq::empty());
        assert(data(Seq::<BodyEvent>::empty()) =~= Seq::empty());
        match event {
            BodyEvent::Data(d) => {
                let r: Result<(), BodyLimitError> = self.limited.on_data(d.len());
                let mut d: Vec<u8> = d;
                assert(data(seq![event]) =~= d@);
                let body: &mut Vec<u8> = self.limited.inner_mut();
                body.append(&mut d);
                r
            },
            BodyEvent::Trailers => {
                assert(self.collected() =~= old(self).collected() + data(seq![event]));
                Ok(())
            },
            BodyEvent::Failed(words) => {
                assert(self.collected() =~= old(self).collected() + data(seq![event]));
                Err(MapErrBody::<()>::map_err(words))
            },
            BodyEvent::Idle => {
                assert(self.collected() =~= old(self).collected() + data(seq![event]));
                Err(BodyLimitError::IdleTimeout)
            },
        }
    }

    /// What was collected.
    pub fn finish(self) -> (r: Vec<u8>)
        ensures
            r@ == self.collected(),
    {
        self.limited.inner
    }
}

/// Size limit and idle timeout between frames, then collect: the data of a body whose events are
/// given, or the first error among them.
pub fn collect_limited(events: Vec<BodyEvent>, max: usize) -> (r: Result<Vec<u8>, BodyLimitError>)
    requires
        data(events@).len() <= usize::MAX,
    ensures
        match collection_error(events@, max as nat) {
            Some(e) => r == Err::<Vec<u8>, BodyLimitError>(e),
            None => r matches Ok(b) && b@ == data(events@),
        },
{
    let mut collector: Collector = Collector::new(max);
    let ghost all = events@;
    let mut rest: Vec<BodyEvent> = events;
    let ghost mut k: int = 0;
    assert(all.take(0) =~= Seq::empty());
    assert(all.skip(0) =~= all);
    assert(collector.collected() =~= data(all.take(0)));
    while rest.len() > 0
        invariant
            all == events@,
            0 <= k <= all.len(),
            rest@ == all.skip(k),
            data(all).len() <= usize::MAX,
            collector.wf(),
            collector.limit() == max,
            collector.collected() == data(all.take(k)),
            collection_error(all.take(k), max as nat) is None,
        decreases rest@.len(),
    {
        let event: BodyEvent = rest.remove(0);
        proof {
            let t = all.take(k + 1);
            assert(t.drop_last() =~= all.take(k));
            assert(t.last() == event);
            lemma_data_grows(all, k + 1);
            let one = seq![event];
            assert(one.drop_last() =~= Seq::empty());
            assert(data(one.drop_last()) =~= Seq::empty());
            assert(one.last() == event);
            assert(data(one) =~= (match event {
                BodyEvent::Data(d) => d@,
                _ => Seq::empty(),
            }));
            assert(data(t) =~= data(all.take(k)) + data(seq![event]));
            assert(rest@ =~= all.skip(k + 1));
        }
        match collector.on_event(event) {
            Ok(()) => {},
            Err(e) => {
                proof {
                    lemma_collection_error(all, max as nat, k + 1);
                }
                return Err(e);
            },
        }
        proof {
            k = k + 1;
        }
    }
    assert(all.take(k) =~= all);
    Ok(collector.finish())
}

/// The data only grows.
proof fn lemma_data_grows(events: Seq<BodyEvent>, k: int)
    requires
        0 <= k <= events.len(),
    ensures
        data(events.take(k)).len() <= data(events).len(),
    decreases events.len() - k,
{
    if k < events.len() {
        assert(events.take(k + 1).drop_last() =~= events.take(k));
        lemma_data_grows(events, k + 1);
    } else {
        assert(events.take(k) =~= events);
    }
}

/// An early error is the error.
proof fn lemma_collection_error(events: Seq<BodyEvent>, max: nat, k: int)
    requires
        0 <= k <= events.len(),
        collection_error(events.take(k), max) is Some,
    ensures
        collection_error(events, max) == collection_error(events.take(k), max),
    decreases events.len() - k,
{
    if k < events.len() {
        assert(events.take(k + 1).drop_last() =~= events.take(k));
        lemma_collection_error(events, max, k + 1);
    } else {
        assert(events.take(k) =~= events);
    }
}

/// The limit is exact: a body that neither fails nor pauses for too long is collected if and only
/// if it is no longer than the limit.
pub proof fn law_limit_is_exact(events: Seq<BodyEvent>, max: nat)
    requires
        forall|i: int|
            0 <= i < events.len() ==> (#[trigger] events[i]) is Data || events[i] is Trailers,
    ensures
        collection_error(events, max) is None <==> data(events).len() <= max,
        collection_error(events, max) is Some ==> collection_error(events, max) == Some(
            BodyLimitError::TooLarge,
        ),
    decreases events.len(),
{
    if events.len() > 0 {
        let p = events.drop_last();
        assert(forall|i: int| 0 <= i < p.len() ==> p[i] == #[trigger] events[i]);
        law_limit_is_exact(p, max);
        assert(events.last() is Data || events.last() is Trailers);
    }
}

/// The data of a body is that of its frames, one after the other; nothing else adds to it.
pub proof fn law_data(a: Seq<BodyEvent>, b: Seq<BodyEvent>, event: BodyEvent)
    ensures
        data(a + b) == data(a) + data(b),
        data(seq![event]) == (match event {
            BodyEvent::Data(d) => d@,
            _ => Seq::empty(),
        }),
        data(Seq::empty()).len() == 0,
    decreases b.len(),
{
    let one = seq![event];
    assert(one.drop_last() =~= Seq::<BodyEvent>::empty());
    assert(data(one.drop_last()) =~= Seq::empty());
    assert(data(one) =~= (match event {
        BodyEvent::Data(d) => d@,
        _ => Seq::empty(),
    }));
    if b.len() == 0 {
        assert(a + b =~= a);
        assert(data(a) + data(b) =~= data(a));
    } else {
        law_data(a, b.drop_last(), event);
        assert((a + b).drop_last() =~= a + b.drop_last());
        assert((a + b).last() == b.last());
        assert(data(a + b) =~= data(a) + data(b));
    }
}

/// What ends the collection of a body: the first thing that goes wrong. After frames that the limit
/// allows, a failure ends it in its own words, and a pause as one; a frame with which more has come
/// than the limit allows ends it as too large, whatever comes then.
pub proof fn law_first_error(events: Seq<BodyEvent>, max: nat, k: int)
    requires
        0 <= k < events.len(),
        forall|i: int|
            0 <= i < k ==> (#[trigger] events[i]) is Data || events[i] is Trailers,
        data(events.take(k)).len() <= max,
    ensures
        events[k] matches BodyEvent::Failed(words) ==> collection_error(events, max) == Some(
            BodyLimitError::Other(words),
        ),
        events[k] is Idle ==> collection_error(events, max) == Some(BodyLimitError::IdleTimeout),
        events[k] is Data && data(events.take(k + 1)).len() > max ==> collection_error(events, max)
            == Some(BodyLimitError::TooLarge),
{
    let t = events.take(k);
    let u = events.take(k + 1);
    assert forall|i: int| 0 <= i < t.len() implies (#[trigger] t[i]) is Data
        || t[i] is Trailers by {
        assert(t[i] == events[i]);
    }
    law_limit_is_exact(t, max);
    assert(u.drop_last() =~= t);
    assert(u.last() == events[k]);
    if collection_error(u, max) is Some {
        lemma_collection_error(events, max, k + 1);
    }
}

/// What the errors say.
pub proof fn law_error_words(e: String)
    ensures
        BodyLimitError::TooLarge.words() == "body too large"@,
        BodyLimitError::IdleTimeout.words() == "body idle timeout"@,
        BodyLimitError::Other(e).words() == e@,
{
}

/// A body that has something to give is not timed out: the timer counts only while nothing comes,
/// and every frame starts it anew.
pub proof fn law_idle_step(polled: Polled, timer_fired: bool, r: IdleStep)
    requires
        call_ensures(idle_step, (polled, timer_fired), r),
    ensures
        r is PassAndReset <==> polled is Frame,
        r is End <==> polled is End,
        r is Wait <==> polled is Pending && !timer_fired,
        polled is Pending && timer_fired ==> r == IdleStep::Fail(BodyLimitError::IdleTimeout),
        polled matches Polled::Failed(e) ==> r == IdleStep::Fail(e),
{
}

} // verus!
