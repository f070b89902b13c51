//! The way of a request through the proxy, from its admission to its answer.

use crate::lb;
use crate::lb::laws;
use crate::lb::LoadBalancer;
use crate::proxy::body_limit::BodyLimitError;
use crate::proxy::handler;
use crate::proxy::handler::{
    body_refusal, gateway_refusal, no_upstream_refusal, upgrade_body_refusal, Action, Answer,
    Exchange, Outcome, ProxyContext,
};
use vstd::prelude::*;

verus! {

/// What happened to a request.
pub enum FlowEvent {
    /// It was let in; it asks for an upgrade, or not.
    Admitted { upgrade: bool },
    BodyRead { is_empty: bool },
    BodyFailed(BodyLimitError),
    AttemptFailed,
    AttemptSucceeded,
}

/// What to do with a request.
pub enum FlowAction {
    ReadBody,
    /// Try the upstream at a position, with or without the headers of an upgrade.
    Try { upstream: usize, retry: bool, upgrade: bool },
    /// Pass the response of the upstream at a position on, that of an upgrade or not.
    Deliver { upstream: usize, upgrade: bool },
    /// Answer without an upstream; a retry was due, or not.
    Reply { answer: Answer, retry: bool },
    /// Nothing was due.
    Nothing,
}

/// How far a request has come.
pub enum Phase {
    /// It is about to be let in.
    Head,
    /// Its body is being read.
    Body,
    /// The body of a request for an upgrade is being read; the upstream is chosen.
    UpgradeBody { position: usize },
    /// An upstream is being tried.
    Trying { exchange: Exchange },
    /// An upgrade is being tried.
    UpgradeTrying { position: usize },
    /// It was answered.
    Done,
}

/// A request on its way.
pub struct Flow {
    phase: Phase,
}

/// Whether an answer is the given one.
pub open spec fn says(a: Answer, status: u16, message: Seq<char>, counted: bool) -> bool {
    a.status == status && a.message@ == message && a.counted == counted
}

/// Whether an action is an answer, which says what is given.
pub open spec fn replies(
    r: FlowAction,
    status: u16,
    message: Seq<char>,
    counted: bool,
    retry: bool,
) -> bool {
    r matches FlowAction::Reply { answer, retry: was } && says(answer, status, message, counted)
        && was == retry
}

/// Whether a balancer is left as it was.
pub open spec fn untouched(b0: LoadBalancer, b1: LoadBalancer) -> bool {
    b1.pool() == b0.pool() && b1.counter() == b0.counter()
}

/// The position of the upstream to which a request has a connection open.
pub open spec fn open_at(phase: Phase) -> Option<int> {
    match phase {
        Phase::Trying { exchange } => exchange.trying(),
        Phase::UpgradeTrying { position } => Some(position as int),
        _ => None,
    }
}

/// How often a request is tried at most.
pub open spec fn attempts_of(ctx: ProxyContext, method: Seq<char>, body_is_empty: bool) -> u32 {
    if !handler::retriable(ctx, method, body_is_empty) {
        1
    } else if ctx.retries == u32::MAX {
        u32::MAX
    } else {
        (ctx.retries + 1) as u32
    }
}

/// What an action of an exchange means for the request.
pub open spec fn follows(a: Action, exchange: Exchange, after: Phase, r: FlowAction) -> bool {
    match a {
        Action::Try { upstream, retry } => r == (FlowAction::Try {
            upstream,
            retry,
            upgrade: false,
        }) && after == (Phase::Trying { exchange }),
        Action::Fail { retry } => replies(r, 502, "Bad Gateway"@, true, retry) && after
            == Phase::Done,
        Action::Deliver { upstream } => r == (FlowAction::Deliver { upstream, upgrade: false })
            && after == Phase::Done,
    }
}

/// What an event does to a request and to the balancer, and what is to be done.
pub open spec fn stepped(
    before: Phase,
    after: Phase,
    b0: LoadBalancer,
    b1: LoadBalancer,
    ctx: ProxyContext,
    method: Seq<char>,
    sticky: Option<&str>,
    event: FlowEvent,
    r: FlowAction,
) -> bool {
    match (before, event) {
        (Phase::Head, FlowEvent::Admitted { upgrade }) => if !upgrade {
            after == Phase::Body && r == FlowAction::ReadBody && untouched(b0, b1)
        } else {
            &&& b1.pool() == b0.pool()
            &&& b1.counter() == lb::counter_after(
                b0.pool(),
                b0.chosen_by(),
                b0.counter(),
                Seq::empty(),
            )
            &&& match lb::choice(b0.pool(), b0.chosen_by(), b0.counter() as int, Seq::empty()) {
                None => after == Phase::Done && replies(
                    r,
                    503,
                    "No healthy upstreams"@,
                    false,
                    false,
                ),
                Some(i) => r == FlowAction::ReadBody && (after matches Phase::UpgradeBody {
                    position,
                } && position == i),
            }
        },
        (Phase::Body, FlowEvent::BodyRead { is_empty }) => exists|
            e0: Exchange,
            e1: Exchange,
            a: Action,
        |
            {
                &&& e0.attempts().addresses().len() == 0
                &&& e0.attempts().limit() == attempts_of(ctx, method, is_empty)
                &&& e0.trying() is None
                &&& #[trigger] handler::advanced(
                    e0,
                    e1,
                    b0.pool(),
                    b0,
                    b1,
                    sticky,
                    Outcome::Begin,
                    a,
                )
                &&& follows(a, e1, after, r)
            },
        (Phase::Body, FlowEvent::BodyFailed(e)) => after == Phase::Done && untouched(b0, b1)
            && match e {
            BodyLimitError::TooLarge => replies(r, 413, "Payload Too Large"@, true, false),
            BodyLimitError::IdleTimeout => replies(
                r,
                408,
                "Request Body Idle Timeout"@,
                true,
                false,
            ),
            BodyLimitError::Other(_) => replies(r, 400, "Bad Request"@, false, false),
        },
        (Phase::UpgradeBody { position }, FlowEvent::BodyRead { .. }) => {
            &&& after == (Phase::UpgradeTrying { position })
            &&& r == (FlowAction::Try { upstream: position, retry: false, upgrade: true })
            &&& b1.pool() == handler::opened_at(b0.pool(), position as int)
            &&& b1.counter() == b0.counter()
        },
        (Phase::UpgradeBody { .. }, FlowEvent::BodyFailed(e)) => after == Phase::Done && untouched(
            b0,
            b1,
        ) && match e {
            BodyLimitError::TooLarge => replies(r, 413, "Payload Too Large"@, false, false),
            _ => replies(r, 400, "Bad Request"@, false, false),
        },
        (Phase::Trying { exchange }, FlowEvent::AttemptFailed) => exists|e1: Exchange, a: Action|
            {
                &&& #[trigger] handler::advanced(
                    exchange,
                    e1,
                    handler::closed_at(b0.pool(), exchange.trying()),
                    b0,
                    b1,
                    sticky,
                    Outcome::Failed,
                    a,
                )
                &&& follows(a, e1, after, r)
            },
        (Phase::Trying { exchange }, FlowEvent::AttemptSucceeded) => exists|
            e1: Exchange,
            a: Action,
        |
            {
                &&& #[trigger] handler::advanced(
                    exchange,
                    e1,
                    handler::closed_at(b0.pool(), exchange.trying()),
                    b0,
                    b1,
                    sticky,
                    Outcome::Succeeded,
                    a,
                )
                &&& follows(a, e1, after, r)
            },
        (Phase::UpgradeTrying { position }, FlowEvent::AttemptFailed) => {
            &&& after == Phase::Done
            &&& replies(r, 502, "Bad Gateway"@, false, false)
            &&& b1.pool() == handler::closed_at(b0.pool(), Some(position as int))
            &&& b1.counter() == b0.counter()
        },
        (Phase::UpgradeTrying { position }, FlowEvent::AttemptSucceeded) => {
            &&& after == Phase::Done
            &&& r == (FlowAction::Deliver { upstream: position, upgrade: true })
            &&& b1.pool() == handler::closed_at(b0.pool(), Some(position as int))
            &&& b1.counter() == b0.counter()
        },
        _ => after == before && r == FlowAction::Nothing && untouched(b0, b1),
    }
}

impl Flow {
    /// How far the request has come.
    pub closed spec fn at(&self) -> Phase {
        self.phase
    }

    /// What is being tried is a position of the pool, and the attempts are in order.
    pub open spec fn wf(&self, b: LoadBalancer) -> bool {
        match self.at() {
            Phase::UpgradeBody { position } => position < b.pool().len(),
            Phase::UpgradeTrying { position } => position < b.pool().len(),
            Phase::Trying { exchange } => exchange.attempts().wf() && (
            exchange.trying() matches Some(i) && 0 <= i < b.pool().len()),
            _ => true,
        }
    }

    /// A request that is about to be let in.
    pub fn new() -> (r: Self)
        ensures
            r.at() == Phase::Head,
    {
        Flow { phase: Phase::Head }
    }

    /// Goes on with a request after an event.
    pub fn step(
        &mut self,
        b: &mut LoadBalancer,
        ctx: &ProxyContext,
        method: &str,
        sticky: Option<&str>,
        event: FlowEvent,
    ) -> (r: FlowAction)
        requires
            old(b).wf(),
            old(self).wf(*old(b)),
        ensures
            final(b).wf(),
            final(b).chosen_by() == old(b).chosen_by(),
            final(b).pool().len() == old(b).pool().len(),
            final(self).wf(*final(b)),
            stepped(
                old(self).at(),
                final(self).at(),
                *old(b),
                *final(b),
                *ctx,
                method@,
                sticky,
                event,
                r,
            ),
    {
        let mut phase: Phase = Phase::Done;
        std::mem::swap(&mut phase, &mut self.phase);
        match (phase, event) {
            (Phase::Head, FlowEvent::Admitted { upgrade }) => {
                if !upgrade {
                    self.phase = Phase::Body;
                    return FlowAction::ReadBody;
                }
                match b.select() {
                    None => FlowAction::Reply { answer: no_upstream_refusal(), retry: false },
                    Some(i) => {
                        self.phase = Phase::UpgradeBody { position: i };
                        FlowAction::ReadBody
                    },
                }
            },
            (Phase::Body, FlowEvent::BodyRead { is_empty }) => {
                let mut exchange: Exchange = Exchange::new(ctx, method, is_empty);
                let ghost e0 = exchange;
                let a: Action = exchange.advance(b, sticky, Outcome::Begin);
                assert(handler::advanced(
                    e0,
                    exchange,
                    old(b).pool(),
                    *old(b),
                    *b,
                    sticky,
                    Outcome::Begin,
                    a,
                ));
                self.follow(a, exchange)
            },
            (Phase::Body, FlowEvent::BodyFailed(e)) => FlowAction::Reply {
                answer: body_refusal(&e),
                retry: false,
            },
            (Phase::UpgradeBody { position }, FlowEvent::BodyRead { .. }) => {
                b.upstream_mut(position).inc_connections();
                self.phase = Phase::UpgradeTrying { position };
                assert(b.pool() =~= handler::opened_at(old(b).pool(), position as int));
                FlowAction::Try { upstream: position, retry: false, upgrade: true }
            },
            (Phase::UpgradeBody { .. }, FlowEvent::BodyFailed(e)) => FlowAction::Reply {
                answer: upgrade_body_refusal(&e),
                retry: false,
            },
            (Phase::Trying { exchange }, FlowEvent::AttemptFailed) => {
                let mut exchange: Exchange = exchange;
                let ghost e0 = exchange;
                let a: Action = exchange.advance(b, sticky, Outcome::Failed);
                assert(handler::advanced(
                    e0,
                    exchange,
                    handler::closed_at(old(b).pool(), e0.trying()),
                    *old(b),
                    *b,
                    sticky,
                    Outcome::Failed,
                    a,
                ));
                self.follow(a, exchange)
            },
            (Phase::Trying { exchange }, FlowEvent::AttemptSucceeded) => {
                let mut exchange: Exchange = exchange;
                let ghost e0 = exchange;
                let a: Action = exchange.advance(b, sticky, Outcome::Succeeded);
                assert(handler::advanced(
                    e0,
                    exchange,
                    handler::closed_at(old(b).pool(), e0.trying()),
                    *old(b),
                    *b,
                    sticky,
                    Outcome::Succeeded,
                    a,
                ));
                self.follow(a, exchange)
            },
            (Phase::UpgradeTrying { position }, FlowEvent::AttemptFailed) => {
                b.upstream_mut(position).dec_connections();
                assert(b.pool() =~= handler::closed_at(old(b).pool(), Some(position as int)));
                FlowAction::Reply { answer: gateway_refusal(true), retry: false }
            },
            (Phase::UpgradeTrying { position }, FlowEvent::AttemptSucceeded) => {
                b.upstream_mut(position).dec_connections();
                assert(b.pool() =~= handler::closed_at(old(b).pool(), Some(position as int)));
                FlowAction::Deliver { upstream: position, upgrade: true }
            },
            (other, _) => {
                self.phase = other;
                FlowAction::Nothing
            },
        }
    }

    fn follow(&mut self, a: Action, exchange: Exchange) -> (r: FlowAction)
        requires
            old(self).at() == Phase::Done,
        ensures
            follows(a, exchange, final(self).at(), r),
    {
        match a {
            Action::Try { upstream, retry } => {
                self.phase = Phase::Trying { exchange };
                FlowAction::Try { upstream, retry, upgrade: false }
            },
            Action::Fail { retry } => FlowAction::Reply { answer: gateway_refusal(false), retry },
            Action::Deliver { upstream } => FlowAction::Deliver { upstream, upgrade: false },
        }
    }
}

/// Connections are counted back: whatever happens to a request, the pool is as it would be without
/// it, but for the one connection that the request has open.
pub proof fn law_only_the_open_connection_counts(
    before: Phase,
    after: Phase,
    b0: LoadBalancer,
    b1: LoadBalancer,
    ctx: ProxyContext,
    method: Seq<char>,
    sticky: Option<&str>,
    event: FlowEvent,
    r: FlowAction,
)
    requires
        stepped(before, after, b0, b1, ctx, method, sticky, event, r),
        open_at(before) matches Some(i) ==> 0 <= i < b0.pool().len(),
        before matches Phase::UpgradeBody { position } ==> position < b0.pool().len(),
    ensures
        handler::closed_at(b1.pool(), open_at(after)) == handler::closed_at(
            b0.pool(),
            open_at(before),
        ),
{
    let p = handler::closed_at(b0.pool(), open_at(before));
    match (before, event) {
        (Phase::UpgradeBody { position }, FlowEvent::BodyRead { .. }) => {
            handler::law_connections_are_counted_back(b0.pool(), position as int);
        },
        _ => {
            match open_at(after) {
                Some(i) => {
                    if 0 <= i < p.len() && b1.pool() == handler::opened_at(p, i) {
                        handler::law_connections_are_counted_back(p, i);
                    }
                },
                None => {},
            }
        },
    }
}

/// Whether a request that is being tried is within its attempts: no more were made than its method,
/// its body and the settings allow, and no address was tried twice.
pub open spec fn within_attempts(
    phase: Phase,
    ctx: ProxyContext,
    method: Seq<char>,
    body_is_empty: bool,
) -> bool {
    phase matches Phase::Trying { exchange } ==> {
        &&& exchange.attempts().limit() == attempts_of(ctx, method, body_is_empty)
        &&& exchange.attempts().addresses().len() <= attempts_of(ctx, method, body_is_empty)
        &&& exchange.attempts().addresses().no_duplicates()
    }
}

/// Attempts are limited: whatever happens to a request, it is tried at most once and as often again
/// as retries are configured (just once where it may not be repeated), each time at another
/// address.
pub proof fn law_attempts_are_limited(
    before: Phase,
    after: Phase,
    b0: LoadBalancer,
    b1: LoadBalancer,
    ctx: ProxyContext,
    method: Seq<char>,
    sticky: Option<&str>,
    event: FlowEvent,
    r: FlowAction,
    body_is_empty: bool,
)
    requires
        stepped(before, after, b0, b1, ctx, method, sticky, event, r),
        within_attempts(before, ctx, method, body_is_empty),
        event matches FlowEvent::BodyRead { is_empty } ==> is_empty == body_is_empty,
    ensures
        within_attempts(after, ctx, method, body_is_empty),
{
    match (before, event) {
        (Phase::Body, FlowEvent::BodyRead { is_empty }) => {
            let (e0, e1, a) = choose|e0: Exchange, e1: Exchange, a: Action|
                {
                    &&& e0.attempts().addresses().len() == 0
                    &&& e0.attempts().limit() == attempts_of(ctx, method, is_empty)
                    &&& e0.trying() is None
                    &&& #[trigger] handler::advanced(
                        e0,
                        e1,
                        b0.pool(),
                        b0,
                        b1,
                        sticky,
                        Outcome::Begin,
                        a,
                    )
                    &&& follows(a, e1, after, r)
                };
            handler::lemma_advanced_in_order(e0, e1, b0.pool(), b0, b1, sticky, Outcome::Begin, a);
        },
        (Phase::Trying { exchange }, FlowEvent::AttemptFailed) => {
            let p = handler::closed_at(b0.pool(), exchange.trying());
            let (e1, a) = choose|e1: Exchange, a: Action|
                {
                    &&& #[trigger] handler::advanced(
                        exchange,
                        e1,
                        p,
                        b0,
                        b1,
                        sticky,
                        Outcome::Failed,
                        a,
                    )
                    &&& follows(a, e1, after, r)
                };
            handler::lemma_advanced_in_order(exchange, e1, p, b0, b1, sticky, Outcome::Failed, a);
        },
        (Phase::Trying { exchange }, FlowEvent::AttemptSucceeded) => {
            let p = handler::closed_at(b0.pool(), exchange.trying());
            let (e1, a) = choose|e1: Exchange, a: Action|
                {
                    &&& #[trigger] handler::advanced(
                        exchange,
                        e1,
                        p,
                        b0,
                        b1,
                        sticky,
                        Outcome::Succeeded,
                        a,
                    )
                    &&& follows(a, e1, after, r)
                };
            handler::lemma_advanced_in_order(
                exchange,
                e1,
                p,
                b0,
                b1,
                sticky,
                Outcome::Succeeded,
                a,
            );
        },
        _ => {},
    }
}

/// Only an attempt without a response is followed by another one: any response of the upstream that
/// is being tried, whatever its status, is delivered.
pub proof fn law_a_response_is_delivered(
    exchange: Exchange,
    after: Phase,
    b0: LoadBalancer,
    b1: LoadBalancer,
    ctx: ProxyContext,
    method: Seq<char>,
    sticky: Option<&str>,
    r: FlowAction,
)
    requires
        stepped(
            (Phase::Trying { exchange }),
            after,
            b0,
            b1,
            ctx,
            method,
            sticky,
            FlowEvent::AttemptSucceeded,
            r,
        ),
        exchange.trying() is Some,
    ensures
        after == Phase::Done,
        r matches FlowAction::Deliver { upstream, upgrade } && upstream == exchange.trying()->0
            && !upgrade,
        b1.pool() == handler::closed_at(b0.pool(), exchange.trying()),
        b1.counter() == b0.counter(),
{
}

/// How many of some actions are attempts.
pub open spec fn tries(actions: Seq<FlowAction>) -> nat
    decreases actions.len(),
{
    if actions.len() == 0 {
        0
    } else {
        tries(actions.drop_last()) + (if actions.last() is Try {
            1nat
        } else {
            0
        })
    }
}

/// Whether a request went through some phases by some events, with some actions. Other requests and
/// health checks may change the balancer between the events.
pub open spec fn went(
    phases: Seq<Phase>,
    before: Seq<LoadBalancer>,
    after: Seq<LoadBalancer>,
    ctx: ProxyContext,
    method: Seq<char>,
    sticky: Option<&str>,
    events: Seq<FlowEvent>,
    actions: Seq<FlowAction>,
) -> bool {
    &&& phases.len() == events.len() + 1
    &&& before.len() == events.len()
    &&& after.len() == events.len()
    &&& actions.len() == events.len()
    &&& phases[0] == Phase::Head
    &&& forall|i: int|
        0 <= i < events.len() ==> #[trigger] stepped(
            phases[i],
            phases[i + 1],
            before[i],
            after[i],
            ctx,
            method,
            sticky,
            events[i],
            actions[i],
        )
}

/// Whether a request made as many attempts as it can have made in a phase.
spec fn tried_in(phase: Phase, n: nat, most: u32) -> bool {
    match phase {
        Phase::Head | Phase::Body | Phase::UpgradeBody { .. } => n == 0,
        Phase::Trying { exchange } => n == exchange.attempts().addresses().len(),
        Phase::UpgradeTrying { .. } => n == 1,
        Phase::Done => n <= most,
    }
}

/// From its admission to its answer a request is tried at most once and as often again as retries
/// are configured, and just once where it may not be repeated, whatever happens to it.
pub proof fn law_tries_are_bounded(
    phases: Seq<Phase>,
    before: Seq<LoadBalancer>,
    after: Seq<LoadBalancer>,
    ctx: ProxyContext,
    method: Seq<char>,
    sticky: Option<&str>,
    events: Seq<FlowEvent>,
    actions: Seq<FlowAction>,
    body_is_empty: bool,
)
    requires
        went(phases, before, after, ctx, method, sticky, events, actions),
        forall|i: int|
            0 <= i < events.len() ==> ((#[trigger] events[i]) matches FlowEvent::BodyRead {
                is_empty,
            } ==> is_empty == body_is_empty),
    ensures
        tries(actions) <= attempts_of(ctx, method, body_is_empty),
        within_attempts(phases.last(), ctx, method, body_is_empty),
{
    lemma_tries(
        phases,
        before,
        after,
        ctx,
        method,
        sticky,
        events,
        actions,
        body_is_empty,
        events.len() as int,
    );
    assert(actions.take(events.len() as int) =~= actions);
}

proof fn lemma_tries(
    phases: Seq<Phase>,
    before: Seq<LoadBalancer>,
    after: Seq<LoadBalancer>,
    ctx: ProxyContext,
    method: Seq<char>,
    sticky: Option<&str>,
    events: Seq<FlowEvent>,
    actions: Seq<FlowAction>,
    body_is_empty: bool,
    n: int,
)
    requires
        went(phases, before, after, ctx, method, sticky, events, actions),
        forall|i: int|
            0 <= i < events.len() ==> ((#[trigger] events[i]) matches FlowEvent::BodyRead {
                is_empty,
            } ==> is_empty == body_is_empty),
        0 <= n <= events.len(),
    ensures
        within_attempts(phases[n], ctx, method, body_is_empty),
        tried_in(
            phases[n],
            tries(actions.take(n)),
            attempts_of(ctx, method, body_is_empty),
        ),
        tries(actions.take(n)) <= attempts_of(ctx, method, body_is_empty),
    decreases n,
{
    if n > 0 {
        let p = n - 1;
        lemma_tries(
            phases,
            before,
            after,
            ctx,
            method,
            sticky,
            events,
            actions,
            body_is_empty,
            p,
        );
        assert(stepped(
            phases[p],
            phases[p + 1],
            before[p],
            after[p],
            ctx,
            method,
            sticky,
            events[p],
            actions[p],
        ));
        law_attempts_are_limited(
            phases[p],
            phases[n],
            before[p],
            after[p],
            ctx,
            method,
            sticky,
            events[p],
            actions[p],
            body_is_empty,
        );
        assert(actions.take(n).drop_last() =~= actions.take(p));
        assert(actions.take(n).last() == actions[p]);
    }
}

/// A request leaves no connection behind: while nothing else changes the balancer, the pool is at
/// every point as it was before the request, but for the one connection that is open; and when the
/// request is answered, none is.
pub proof fn law_a_request_leaves_no_connection(
    phases: Seq<Phase>,
    before: Seq<LoadBalancer>,
    after: Seq<LoadBalancer>,
    ctx: ProxyContext,
    method: Seq<char>,
    sticky: Option<&str>,
    events: Seq<FlowEvent>,
    actions: Seq<FlowAction>,
    n: int,
)
    requires
        went(phases, before, after, ctx, method, sticky, events, actions),
        forall|i: int|
            0 <= i < events.len() - 1 ==> (#[trigger] after[i]).pool() == before[i + 1].pool(),
        0 < n <= events.len(),
    ensures
        handler::closed_at(after[n - 1].pool(), open_at(phases[n])) == before[0].pool(),
        phases[n] == Phase::Done ==> after[n - 1].pool() == before[0].pool(),
{
    lemma_pool_kept(phases, before, after, ctx, method, sticky, events, actions, n);
}

/// Whether what a phase speaks of is in a pool.
spec fn in_pool(phase: Phase, len: int) -> bool {
    &&& open_at(phase) matches Some(i) ==> 0 <= i < len
    &&& phase matches Phase::UpgradeBody { position } ==> position < len
}

proof fn lemma_pool_kept(
    phases: Seq<Phase>,
    before: Seq<LoadBalancer>,
    after: Seq<LoadBalancer>,
    ctx: ProxyContext,
    method: Seq<char>,
    sticky: Option<&str>,
    events: Seq<FlowEvent>,
    actions: Seq<FlowAction>,
    n: int,
)
    requires
        went(phases, before, after, ctx, method, sticky, events, actions),
        forall|i: int|
            0 <= i < events.len() - 1 ==> (#[trigger] after[i]).pool() == before[i + 1].pool(),
        0 < n <= events.len(),
    ensures
        after[n - 1].pool().len() == before[0].pool().len(),
        in_pool(phases[n], before[0].pool().len() as int),
        handler::closed_at(after[n - 1].pool(), open_at(phases[n])) == before[0].pool(),
    decreases n,
{
    let p = n - 1;
    if p > 0 {
        lemma_pool_kept(phases, before, after, ctx, method, sticky, events, actions, p);
        assert(after[p - 1].pool() == before[p - 1 + 1].pool());
    }
    assert(before[p].pool().len() == before[0].pool().len());
    assert(stepped(
        phases[p],
        phases[p + 1],
        before[p],
        after[p],
        ctx,
        method,
        sticky,
        events[p],
        actions[p],
    ));
    laws::law_choice_is_usable(
        before[p].pool(),
        before[p].chosen_by(),
        before[p].counter(),
        Seq::empty(),
    );
    law_only_the_open_connection_counts(
        phases[p],
        phases[n],
        before[p],
        after[p],
        ctx,
        method,
        sticky,
        events[p],
        actions[p],
    );
}

/// A request for an upgrade is tried once: after its attempt it is answered.
pub proof fn law_upgrade_is_tried_once(
    position: usize,
    after: Phase,
    b0: LoadBalancer,
    b1: LoadBalancer,
    ctx: ProxyContext,
    method: Seq<char>,
    sticky: Option<&str>,
    failed: bool,
    r: FlowAction,
)
    requires
        stepped(
            (Phase::UpgradeTrying { position }),
            after,
            b0,
            b1,
            ctx,
            method,
            sticky,
            if failed {
                FlowEvent::AttemptFailed
            } else {
                FlowEvent::AttemptSucceeded
            },
            r,
        ),
    ensures
        after == Phase::Done,
        failed ==> replies(r, 502, "Bad Gateway"@, false, false),
        !failed ==> r == (FlowAction::Deliver { upstream: position, upgrade: true }),
        b1.pool() == handler::closed_at(b0.pool(), Some(position as int)),
        b1.counter() == b0.counter(),
{
}

/// A request that was answered stays answered: no event leads to another attempt or answer.
pub proof fn law_one_answer(
    after: Phase,
    b0: LoadBalancer,
    b1: LoadBalancer,
    ctx: ProxyContext,
    method: Seq<char>,
    sticky: Option<&str>,
    event: FlowEvent,
    r: FlowAction,
)
    requires
        stepped(Phase::Done, after, b0, b1, ctx, method, sticky, event, r),
    ensures
        after == Phase::Done,
        r == FlowAction::Nothing,
        untouched(b0, b1),
{
}

/// An answer or a delivery ends the way of a request.
pub proof fn law_answers_are_final(
    before: Phase,
    after: Phase,
    b0: LoadBalancer,
    b1: LoadBalancer,
    ctx: ProxyContext,
    method: Seq<char>,
    sticky: Option<&str>,
    event: FlowEvent,
    r: FlowAction,
)
    requires
        stepped(before, after, b0, b1, ctx, method, sticky, event, r),
        r is Reply || r is Deliver,
    ensures
        after == Phase::Done,
{
}

/// How often a request is tried at most: once where it may not be repeated; otherwise once and as
/// often again as retries are configured, as far as that can be counted.
pub proof fn law_attempts_of(ctx: ProxyContext, method: Seq<char>, body_is_empty: bool)
    ensures
        !handler::retriable(ctx, method, body_is_empty) ==> attempts_of(ctx, method, body_is_empty)
            == 1,
        handler::retriable(ctx, method, body_is_empty) && ctx.retries < u32::MAX ==> attempts_of(
            ctx,
            method,
            body_is_empty,
        ) == ctx.retries + 1,
        handler::retriable(ctx, method, body_is_empty) && ctx.retries == u32::MAX ==> attempts_of(
            ctx,
            method,
            body_is_empty,
        ) == u32::MAX,
{
}

/// A request that is let in has its body read. One that asks for an upgrade first has a healthy
/// upstream chosen, and is answered with 503 exactly where there is none.
pub proof fn law_admitted_request(
    after: Phase,
    b0: LoadBalancer,
    b1: LoadBalancer,
    ctx: ProxyContext,
    method: Seq<char>,
    sticky: Option<&str>,
    upgrade: bool,
    r: FlowAction,
)
    requires
        stepped(
            Phase::Head,
            after,
            b0,
            b1,
            ctx,
            method,
            sticky,
            (FlowEvent::Admitted { upgrade }),
            r,
        ),
    ensures
        b1.pool() == b0.pool(),
        !upgrade ==> r == FlowAction::ReadBody && after == Phase::Body && b1.counter()
            == b0.counter(),
        upgrade && (exists|i: int| 0 <= i < b0.pool().len() && (#[trigger] b0.pool()[i]).healthy)
            ==> r == FlowAction::ReadBody && (after matches Phase::UpgradeBody { position }
            && position < b0.pool().len() && b0.pool()[position as int].healthy),
        upgrade ==> b1.counter() == lb::counter_after(
            b0.pool(),
            b0.chosen_by(),
            b0.counter(),
            Seq::empty(),
        ),
        upgrade && !(exists|i: int|
            0 <= i < b0.pool().len() && (#[trigger] b0.pool()[i]).healthy) ==> after == Phase::Done
            && (r matches FlowAction::Reply { answer, retry } && answer.status == 503
            && answer.message@ == "No healthy upstreams"@ && !answer.counted && !retry),
{
    laws::law_choice_is_usable(b0.pool(), b0.chosen_by(), b0.counter(), Seq::empty());
    if exists|i: int| 0 <= i < b0.pool().len() && (#[trigger] b0.pool()[i]).healthy {
        let i = choose|i: int| 0 <= i < b0.pool().len() && (#[trigger] b0.pool()[i]).healthy;
        assert(!Seq::<Seq<char>>::empty().contains(b0.pool()[i].address@));
    }
}

/// A body that cannot be read ends the request before an upstream is tried: with 413 where it is
/// too large, with 408 where it paused for too long, and with 400 otherwise. A request for an
/// upgrade is answered with 400 where its body paused.
pub proof fn law_unread_body(
    before: Phase,
    after: Phase,
    b0: LoadBalancer,
    b1: LoadBalancer,
    ctx: ProxyContext,
    method: Seq<char>,
    sticky: Option<&str>,
    e: BodyLimitError,
    r: FlowAction,
)
    requires
        stepped(
            before,
            after,
            b0,
            b1,
            ctx,
            method,
            sticky,
            FlowEvent::BodyFailed(e),
            r,
        ),
        before == Phase::Body || before is UpgradeBody,
    ensures
        after == Phase::Done,
        b1.pool() == b0.pool() && b1.counter() == b0.counter(),
        r matches FlowAction::Reply { answer, retry } && !retry && {
            &&& e is TooLarge ==> answer.status == 413 && answer.message@ == "Payload Too Large"@
            &&& e is IdleTimeout && before == Phase::Body ==> answer.status == 408
                && answer.message@ == "Request Body Idle Timeout"@
            &&& e is IdleTimeout && before != Phase::Body ==> answer.status == 400
            &&& e is Other ==> answer.status == 400
            &&& answer.status == 400 ==> answer.message@ == "Bad Request"@
            &&& answer.counted <==> before == Phase::Body && answer.status != 400
        },
{
}

/// With its body read, a request is tried at once: at a healthy upstream, which has a connection
/// counted, and not as a retry. Where no upstream is healthy it is answered with 502.
pub proof fn law_first_attempt(
    after: Phase,
    b0: LoadBalancer,
    b1: LoadBalancer,
    ctx: ProxyContext,
    method: Seq<char>,
    sticky: Option<&str>,
    is_empty: bool,
    r: FlowAction,
)
    requires
        stepped(
            Phase::Body,
            after,
            b0,
            b1,
            ctx,
            method,
            sticky,
            (FlowEvent::BodyRead { is_empty }),
            r,
        ),
    ensures
        (exists|i: int| 0 <= i < b0.pool().len() && (#[trigger] b0.pool()[i]).healthy) ==> {
            &&& r matches FlowAction::Try { upstream, retry, upgrade }
            &&& !retry && !upgrade
            &&& upstream < b0.pool().len()
            &&& b0.pool()[upstream as int].healthy
            &&& b1.pool() == handler::opened_at(b0.pool(), upstream as int)
            &&& open_at(after) == Some(upstream as int)
        },
        !(exists|i: int| 0 <= i < b0.pool().len() && (#[trigger] b0.pool()[i]).healthy) ==> {
            &&& after == Phase::Done
            &&& b1.pool() == b0.pool()
            &&& r matches FlowAction::Reply { answer, retry }
            &&& answer.status == 502 && answer.message@ == "Bad Gateway"@ && answer.counted
                && !retry
        },
        b1.counter() == handler::next_counter(Seq::empty(), b0.pool(), b0, sticky),
        r matches FlowAction::Try { upstream, .. } ==> handler::next_target(
            Seq::empty(),
            b0.pool(),
            b0,
            sticky,
        ) == Some(upstream as int),
{
    let (e0, e1, a) = choose|e0: Exchange, e1: Exchange, a: Action|
        {
            &&& e0.attempts().addresses().len() == 0
            &&& e0.attempts().limit() == attempts_of(ctx, method, is_empty)
            &&& e0.trying() is None
            &&& #[trigger] handler::advanced(
                e0,
                e1,
                b0.pool(),
                b0,
                b1,
                sticky,
                Outcome::Begin,
                a,
            )
            &&& follows(a, e1, after, r)
        };
    assert(e0.attempts().addresses() =~= Seq::empty());
    handler::law_next_target(e0.attempts().addresses(), b0.pool(), b0, sticky);
    assert(attempts_of(ctx, method, is_empty) > 0);
}

/// After a failed attempt a request goes on to an upstream that is healthy and was not tried, as
/// long as attempts are left and there is one; otherwise it is answered with 502.
pub proof fn law_failed_attempt(
    exchange: Exchange,
    after: Phase,
    b0: LoadBalancer,
    b1: LoadBalancer,
    ctx: ProxyContext,
    method: Seq<char>,
    sticky: Option<&str>,
    r: FlowAction,
)
    requires
        stepped(
            (Phase::Trying { exchange }),
            after,
            b0,
            b1,
            ctx,
            method,
            sticky,
            FlowEvent::AttemptFailed,
            r,
        ),
        exchange.attempts().wf(),
        exchange.attempts().addresses().len() > 0,
    ensures
        ({
            let pool = handler::closed_at(b0.pool(), exchange.trying());
            let tried = exchange.attempts().addresses();
            let left = tried.len() < exchange.attempts().limit() && exists|i: int|
                0 <= i < pool.len() && (#[trigger] pool[i]).healthy && !tried.contains(
                    pool[i].address@,
                );
            &&& left ==> {
                &&& r matches FlowAction::Try { upstream, retry, upgrade }
                &&& retry && !upgrade
                &&& upstream < pool.len()
                &&& pool[upstream as int].healthy && !tried.contains(
                    pool[upstream as int].address@,
                )
                &&& b1.pool() == handler::opened_at(pool, upstream as int)
                &&& open_at(after) == Some(upstream as int)
            }
            &&& !left ==> {
                &&& after == Phase::Done
                &&& b1.pool() == pool
                &&& r matches FlowAction::Reply { answer, retry }
                &&& answer.status == 502 && answer.message@ == "Bad Gateway"@ && answer.counted
                &&& retry == (tried.len() < exchange.attempts().limit())
            }
            &&& tried.len() < exchange.attempts().limit() ==> b1.counter() == lb::counter_after(
                pool,
                b0.chosen_by(),
                b0.counter(),
                tried,
            )
            &&& tried.len() == exchange.attempts().limit() ==> b1.counter() == b0.counter()
        }),
{
    let pool = handler::closed_at(b0.pool(), exchange.trying());
    let tried = exchange.attempts().addresses();
    let (e1, a) = choose|e1: Exchange, a: Action|
        {
            &&& #[trigger] handler::advanced(
                exchange,
                e1,
                pool,
                b0,
                b1,
                sticky,
                Outcome::Failed,
                a,
            )
            &&& follows(a, e1, after, r)
        };
    handler::law_next_target(tried, pool, b0, sticky);
}

/// With its body read, a request for an upgrade is tried at the upstream that was chosen for it,
/// which has a connection counted.
pub proof fn law_upgrade_attempt(
    position: usize,
    after: Phase,
    b0: LoadBalancer,
    b1: LoadBalancer,
    ctx: ProxyContext,
    method: Seq<char>,
    sticky: Option<&str>,
    is_empty: bool,
    r: FlowAction,
)
    requires
        stepped(
            (Phase::UpgradeBody { position }),
            after,
            b0,
            b1,
            ctx,
            method,
            sticky,
            (FlowEvent::BodyRead { is_empty }),
            r,
        ),
    ensures
        r == (FlowAction::Try { upstream: position, retry: false, upgrade: true }),
        open_at(after) == Some(position as int),
        b1.pool() == handler::opened_at(b0.pool(), position as int),
        b1.counter() == b0.counter(),
{
}

/// Only what a request waits for brings it on: its admission at the beginning, its body while that
/// is read, and the outcome of the attempt while one is made. Nothing else changes anything.
pub proof fn law_unexpected_events(
    before: Phase,
    after: Phase,
    b0: LoadBalancer,
    b1: LoadBalancer,
    ctx: ProxyContext,
    method: Seq<char>,
    sticky: Option<&str>,
    event: FlowEvent,
    r: FlowAction,
)
    requires
        stepped(before, after, b0, b1, ctx, method, sticky, event, r),
    ensures
        ({
            let head = before == Phase::Head && event is Admitted;
            let body = (before == Phase::Body || before is UpgradeBody) && (event is BodyRead
                || event is BodyFailed);
            let attempt = (before is Trying || before is UpgradeTrying) && (event is AttemptFailed
                || event is AttemptSucceeded);
            &&& !head && !body && !attempt ==> r == FlowAction::Nothing && after == before
                && b1.pool() == b0.pool() && b1.counter() == b0.counter()
            &&& head || body || attempt ==> r != FlowAction::Nothing
        }),
{
}

} // verus!
