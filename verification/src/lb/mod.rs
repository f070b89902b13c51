//! Load balancing over a pool of upstreams.

use crate::config::{Config, LoadBalancingAlgorithm, Upstream};
use crate::text;
use vstd::prelude::*;

pub mod laws;
pub mod least_conn;

verus! {

/// An upstream at run time, with its health and the number of its connections.
#[derive(Debug)]
pub struct UpstreamRuntime {
    pub address: String,
    pub weight: u32,
    pub healthy: bool,
    pub active_connections: usize,
}

impl UpstreamRuntime {
    /// An upstream starts out healthy and without connections.
    pub fn new(upstream: &Upstream) -> (r: Self)
        ensures
            r.address@ == upstream.address@,
            r.weight == upstream.weight,
            r.healthy,
            r.active_connections == 0,
    {
        UpstreamRuntime {
            address: upstream.address.clone(),
            weight: upstream.weight,
            healthy: true,
            active_connections: 0,
        }
    }

    pub fn is_healthy(&self) -> (r: bool)
        ensures
            r == self.healthy,
    {
        self.healthy
    }

    pub fn set_healthy(&mut self, healthy: bool)
        ensures
            *final(self) == (UpstreamRuntime { healthy, ..*old(self) }),
    {
        self.healthy = healthy;
    }

    /// Counts one connection more, modulo the range of the counter.
    pub fn inc_connections(&mut self)
        ensures
            *final(self) == (UpstreamRuntime {
                active_connections: wrapped(old(self).active_connections + 1),
                ..*old(self)
            }),
    {
        self.active_connections = self.active_connections.wrapping_add(1);
    }

    /// Counts one connection less, modulo the range of the counter.
    pub fn dec_connections(&mut self)
        ensures
            *final(self) == (UpstreamRuntime {
                active_connections: wrapped(old(self).active_connections - 1),
                ..*old(self)
            }),
    {
        self.active_connections = self.active_connections.wrapping_sub(1);
    }

    pub fn connections(&self) -> (r: usize)
        ensures
            r == self.active_connections,
    {
        self.active_connections
    }
}

/// A number between one range of `usize` below it and one above it, brought into the range.
pub open spec fn wrapped(n: int) -> usize {
    if n > usize::MAX {
        (n - usize::MAX - 1) as usize
    } else if n < 0 {
        (n + usize::MAX + 1) as usize
    } else {
        n as usize
    }
}

/// A number in the range of the counter stays as it is, one above it starts again at zero, and one
/// below it at the top.
pub proof fn law_wrapped(n: usize)
    ensures
        wrapped(n as int) == n,
        n < usize::MAX ==> wrapped(n + 1) == n + 1,
        wrapped(usize::MAX + 1) == 0,
        wrapped(usize::MAX + 2) == 1,
        n > 0 ==> wrapped(n - 1) == n - 1,
        wrapped(-1) == usize::MAX,
{
}

/// A connection that is opened and closed leaves an upstream as it was, and so does one that is
/// closed and opened again.
pub proof fn law_connection_counted_back(n: usize)
    ensures
        wrapped(wrapped(n + 1) - 1) == n,
        wrapped(wrapped(n - 1) + 1) == n,
{
}

/// The texts of a list.
pub open spec fn texts(list: Seq<&str>) -> Seq<Seq<char>> {
    Seq::new(list.len(), |i: int| list[i]@)
}

/// Whether an address is on a list of addresses to skip.
pub open spec fn excluded(exclude: Seq<Seq<char>>, address: Seq<char>) -> bool {
    exclude.contains(address)
}

/// Whether an upstream may be chosen: it is healthy, and its address is not to be skipped.
pub open spec fn usable(u: UpstreamRuntime, exclude: Seq<Seq<char>>) -> bool {
    u.healthy && !excluded(exclude, u.address@)
}

/// The positions of the upstreams that may be chosen, in the order of the pool.
pub open spec fn eligible(pool: Seq<UpstreamRuntime>, exclude: Seq<Seq<char>>) -> Seq<int>
    decreases pool.len(),
{
    if pool.len() == 0 {
        Seq::empty()
    } else {
        let before = eligible(pool.drop_last(), exclude);
        if usable(pool.last(), exclude) {
            before.push(pool.len() - 1)
        } else {
            before
        }
    }
}

/// The eligible positions are those of the upstreams that are healthy and whose address is not to
/// be skipped, in ascending order.
pub proof fn law_eligible(pool: Seq<UpstreamRuntime>, exclude: Seq<Seq<char>>)
    ensures
        forall|j: int|
            0 <= j < eligible(pool, exclude).len() ==> 0 <= #[trigger] eligible(pool, exclude)[j]
                < pool.len() && pool[eligible(pool, exclude)[j]].healthy && !exclude.contains(
                pool[eligible(pool, exclude)[j]].address@,
            ),
        forall|i: int|
            0 <= i < pool.len() && (#[trigger] pool[i]).healthy && !exclude.contains(
                pool[i].address@,
            ) ==> eligible(pool, exclude).contains(i),
        forall|j: int, k: int|
            0 <= j < k < eligible(pool, exclude).len() ==> #[trigger] eligible(pool, exclude)[j]
                < #[trigger] eligible(pool, exclude)[k],
        eligible(pool, exclude).len() <= pool.len(),
    decreases pool.len(),
{
    if pool.len() > 0 {
        let p = pool.drop_last();
        law_eligible(p, exclude);
        let e = eligible(pool, exclude);
        let before = eligible(p, exclude);
        assert forall|i: int|
            0 <= i < pool.len() && usable(#[trigger] pool[i], exclude) implies e.contains(i) by {
            if i < pool.len() - 1 {
                assert(usable(p[i], exclude));
                let j = choose|j: int| 0 <= j < before.len() && before[j] == i;
                assert(e[j] == i);
            } else {
                assert(e[e.len() - 1] == i);
            }
        }
        assert forall|j: int| 0 <= j < e.len() implies 0 <= #[trigger] e[j] < pool.len()
            && usable(pool[e[j]], exclude) by {
            if j < before.len() {
                assert(e[j] == before[j]);
                assert(p[e[j]] == pool[e[j]]);
            }
        }
        assert forall|j: int, k: int| 0 <= j < k < e.len() implies #[trigger] e[j]
            < #[trigger] e[k] by {
            assert(e[j] == before[j]);
            if k < before.len() {
                assert(e[k] == before[k]);
            }
        }
    }
}

/// How many turns of a round an upstream gets by its weight.
pub open spec fn share(weight: u32) -> nat {
    if weight == 0 {
        1
    } else {
        weight as nat
    }
}

/// One weighted round: each position as many times in a row as its share says.
pub open spec fn expanded(pool: Seq<UpstreamRuntime>, e: Seq<int>) -> Seq<int>
    decreases e.len(),
{
    if e.len() == 0 {
        Seq::empty()
    } else {
        expanded(pool, e.drop_last()) + Seq::new(share(pool[e.last()].weight), |k: int| e.last())
    }
}

/// The upstreams at the given positions.
pub open spec fn at(pool: Seq<UpstreamRuntime>, e: Seq<int>) -> Seq<UpstreamRuntime> {
    Seq::new(e.len(), |j: int| pool[e[j]])
}

/// The position that is chosen, from the pool, the algorithm, the counter and the addresses to
/// skip.
pub open spec fn choice(
    pool: Seq<UpstreamRuntime>,
    algorithm: LoadBalancingAlgorithm,
    counter: int,
    exclude: Seq<Seq<char>>,
) -> Option<int> {
    let e = eligible(pool, exclude);
    let n = e.len() as int;
    if n == 0 {
        None
    } else {
        match algorithm {
            LoadBalancingAlgorithm::RoundRobin => Some(e[counter % n]),
            LoadBalancingAlgorithm::WeightedRoundRobin => {
                let x = expanded(pool, e);
                Some(x[counter % (x.len() as int)])
            },
            LoadBalancingAlgorithm::LeastConnections => Some(e[least_conn::least(at(pool, e))]),
            LoadBalancingAlgorithm::PowerOfTwoChoices => {
                if n == 1 {
                    Some(e[0])
                } else {
                    let a = e[counter % n];
                    let b = e[(counter + 1) % n];
                    if pool[a].active_connections <= pool[b].active_connections {
                        Some(a)
                    } else {
                        Some(b)
                    }
                }
            },
        }
    }
}

/// The counter after a choice.
pub open spec fn counter_after(
    pool: Seq<UpstreamRuntime>,
    algorithm: LoadBalancingAlgorithm,
    counter: usize,
    exclude: Seq<Seq<char>>,
) -> usize {
    let n = eligible(pool, exclude).len();
    match algorithm {
        LoadBalancingAlgorithm::RoundRobin | LoadBalancingAlgorithm::WeightedRoundRobin => {
            if n == 0 {
                counter
            } else {
                wrapped(counter + 1)
            }
        },
        LoadBalancingAlgorithm::LeastConnections => counter,
        LoadBalancingAlgorithm::PowerOfTwoChoices => {
            if n <= 1 {
                counter
            } else {
                wrapped(counter + 2)
            }
        },
    }
}

/// The position of the first healthy upstream with an address.
pub open spec fn healthy_at(pool: Seq<UpstreamRuntime>, address: Seq<char>) -> Option<int>
    decreases pool.len(),
{
    if pool.len() == 0 {
        None
    } else if healthy_at(pool.drop_last(), address) is Some {
        healthy_at(pool.drop_last(), address)
    } else if pool.last().healthy && pool.last().address@ == address {
        Some(pool.len() - 1)
    } else {
        None
    }
}

/// Load balancer that selects an upstream according to the configured algorithm.
///
/// An upstream is named by its position in the pool.
pub struct LoadBalancer {
    upstreams: Vec<UpstreamRuntime>,
    algorithm: LoadBalancingAlgorithm,
    rr_counter: usize,
}

impl LoadBalancer {
    /// The upstreams.
    pub closed spec fn pool(&self) -> Seq<UpstreamRuntime> {
        self.upstreams@
    }

    /// The algorithm.
    pub closed spec fn chosen_by(&self) -> LoadBalancingAlgorithm {
        self.algorithm
    }

    /// The number of turns that were taken, modulo the range of the counter.
    pub closed spec fn counter(&self) -> usize {
        self.rr_counter
    }

    /// Choosing between two takes two turns at a time, so that the counter stays even.
    pub open spec fn wf(&self) -> bool {
        self.chosen_by() == LoadBalancingAlgorithm::PowerOfTwoChoices ==> self.counter() % 2 == 0
    }

    /// A balancer over new upstreams.
    pub fn from_upstreams(upstreams: &[Upstream], algorithm: LoadBalancingAlgorithm) -> (r: Self)
        ensures
            r.wf(),
            r.chosen_by() == algorithm,
            r.counter() == 0,
            starts(r.pool(), upstreams@),
            r.pool().len() == upstreams@.len(),
            forall|i: int|
                0 <= i < upstreams@.len() ==> (#[trigger] r.pool()[i]).address@
                    == upstreams@[i].address@ && r.pool()[i].weight == upstreams@[i].weight
                    && r.pool()[i].healthy && r.pool()[i].active_connections == 0,
    {
        let mut list: Vec<UpstreamRuntime> = Vec::new();
        let n: usize = upstreams.len();
        let mut i: usize = 0;
        while i < n
            invariant
                n == upstreams@.len(),
                i <= n,
                starts(list@, upstreams@.take(i as int)),
            decreases n - i,
        {
            list.push(UpstreamRuntime::new(&upstreams[i]));
            i = i + 1;
        }
        assert(upstreams@.take(n as int) =~= upstreams@);
        LoadBalancer { upstreams: list, algorithm, rr_counter: 0 }
    }

    /// A balancer over the default pool of a configuration.
    pub fn from_config(config: &Config) -> (r: Self)
        ensures
            r.wf(),
            r.chosen_by() == config.load_balancing,
            r.counter() == 0,
            starts(r.pool(), config.upstreams@),
            r.pool().len() == config.upstreams@.len(),
            forall|i: int|
                0 <= i < config.upstreams@.len() ==> (#[trigger] r.pool()[i]).address@
                    == config.upstreams@[i].address@ && r.pool()[i].weight
                    == config.upstreams@[i].weight && r.pool()[i].healthy
                    && r.pool()[i].active_connections == 0,
    {
        Self::from_upstreams(config.upstreams.as_slice(), config.load_balancing)
    }

    /// The upstreams.
    pub fn upstreams(&self) -> (r: &[UpstreamRuntime])
        ensures
            r@ == self.pool(),
    {
        self.upstreams.as_slice()
    }

    /// One upstream, to be changed.
    pub fn upstream_mut(&mut self, i: usize) -> (r: &mut UpstreamRuntime)
        requires
            i < old(self).pool().len(),
        ensures
            *r == old(self).pool()[i as int],
            final(self).pool() == old(self).pool().update(i as int, *final(r)),
            final(self).chosen_by() == old(self).chosen_by(),
            final(self).counter() == old(self).counter(),
    {
        &mut self.upstreams[i]
    }

    /// Prefer sticky upstream if cookie matches a healthy backend address.
    pub fn select_sticky(&mut self, sticky_value: Option<&str>) -> (r: Option<usize>)
        requires
            old(self).wf(),
        ensures
            final(self).wf(),
            final(self).pool() == old(self).pool(),
            final(self).chosen_by() == old(self).chosen_by(),
            chosen(r, sticky_choice(old(self), sticky_value)),
            final(self).counter() == sticky_counter(old(self), sticky_value),
    {
        match sticky_value {
            Some(val) => {
                let n: usize = self.upstreams.len();
                let mut i: usize = 0;
                assert(self.pool().take(0) =~= Seq::empty());
                while i < n
                    invariant
                        n == self.upstreams@.len(),
                        i <= n,
                        *self == *old(self),
                        self.wf(),
                        sticky_value == Some(val),
                        healthy_at(self.pool().take(i as int), val@) is None,
                    decreases n - i,
                {
                    let ghost p = self.pool();
                    assert(p.take(i as int + 1).drop_last() =~= p.take(i as int));
                    if self.upstreams[i].healthy && text::same_str(
                        self.upstreams[i].address.as_str(),
                        val,
                    ) {
                        proof {
                            lemma_healthy_at(p, val@, i as int + 1);
                        }
                        return Some(i);
                    }
                    i = i + 1;
                }
                assert(self.pool().take(n as int) =~= self.pool());
            },
            None => {},
        }
        self.select()
    }

    /// The eligible positions.
    fn candidates(&self, exclude: &[&str]) -> (r: Vec<usize>)
        ensures
            r@.len() == eligible(self.pool(), texts(exclude@)).len(),
            forall|j: int|
                0 <= j < r@.len() ==> #[trigger] r@[j] == eligible(self.pool(), texts(exclude@))[j],
    {
        let mut out: Vec<usize> = Vec::new();
        let n: usize = self.upstreams.len();
        let mut i: usize = 0;
        assert(self.pool().take(0) =~= Seq::empty());
        while i < n
            invariant
                n == self.upstreams@.len(),
                i <= n,
                out@.len() == eligible(self.pool().take(i as int), texts(exclude@)).len(),
                forall|j: int|
                    0 <= j < out@.len() ==> #[trigger] out@[j] == eligible(
                        self.pool().take(i as int),
                        texts(exclude@),
                    )[j],
            decreases n - i,
        {
            assert(self.pool().take(i as int + 1).drop_last() =~= self.pool().take(i as int));
            if self.upstreams[i].healthy && !listed(exclude, self.upstreams[i].address.as_str()) {
                out.push(i);
            }
            i = i + 1;
        }
        assert(self.pool().take(n as int) =~= self.pool());
        out
    }

    /// The position whose turn it is in a weighted round.
    fn weighted(&self, e: &Vec<usize>) -> (r: usize)
        requires
            e@.len() > 0,
            forall|j: int| 0 <= j < e@.len() ==> #[trigger] e@[j] < self.pool().len(),
        ensures
            expanded(self.pool(), ints(e@)).len() > 0,
            r == expanded(self.pool(), ints(e@))[self.counter() as int % (expanded(
                self.pool(),
                ints(e@),
            ).len() as int)],
    {
        let n: usize = e.len();
        let mut total: u128 = 0;
        let mut j: usize = 0;
        let ghost x = expanded(self.pool(), ints(e@));
        while j < n
            invariant
                n == e@.len(),
                j <= n,
                forall|k: int| 0 <= k < e@.len() ==> #[trigger] e@[k] < self.pool().len(),
                total == expanded(self.pool(), ints(e@).take(j as int)).len(),
                total <= j * 0xFFFF_FFFF,
            decreases n - j,
        {
            assert(ints(e@).take(j as int + 1).drop_last() =~= ints(e@).take(j as int));
            let w: u32 = self.upstreams[e[j]].weight;
            total = total + (if w == 0 {
                1
            } else {
                w
            }) as u128;
            j = j + 1;
        }
        assert(ints(e@).take(n as int) =~= ints(e@));
        assert(total == x.len());
        assert(total > 0) by {
            let last = ints(e@).drop_last();
            assert(x.len() == expanded(self.pool(), last).len() + share(
                self.pool()[ints(e@).last()].weight,
            ));
        }
        let idx: u128 = self.rr_counter as u128 % total;
        let mut seen: u128 = 0;
        let mut k: usize = 0;
        while k < n
            invariant
                n == e@.len(),
                k <= n,
                forall|i: int| 0 <= i < e@.len() ==> #[trigger] e@[i] < self.pool().len(),
                x == expanded(self.pool(), ints(e@)),
                seen == expanded(self.pool(), ints(e@).take(k as int)).len(),
                seen <= k * 0xFFFF_FFFF,
                seen <= idx < total == x.len(),
                idx == self.counter() as int % (x.len() as int),
            decreases n - k,
        {
            let ghost e1 = ints(e@).take(k as int + 1);
            assert(e1.drop_last() =~= ints(e@).take(k as int));
            let w: u32 = self.upstreams[e[k]].weight;
            let s: u128 = (if w == 0 {
                1
            } else {
                w
            }) as u128;
            if idx < seen + s {
                proof {
                    lemma_expanded_prefix(self.pool(), ints(e@), k as int + 1);
                    assert(expanded(self.pool(), e1)[idx as int] == e1.last());
                }
                return e[k];
            }
            seen = seen + s;
            k = k + 1;
        }
        assert(ints(e@).take(n as int) =~= ints(e@));
        e[0]
    }

    /// Select next healthy upstream, optionally skipping some addresses (retries).
    pub fn select_excluding(&mut self, exclude: &[&str]) -> (r: Option<usize>)
        requires
            old(self).wf(),
        ensures
            final(self).wf(),
            final(self).pool() == old(self).pool(),
            final(self).chosen_by() == old(self).chosen_by(),
            chosen(
                r,
                choice(
                    old(self).pool(),
                    old(self).chosen_by(),
                    old(self).counter() as int,
                    texts(exclude@),
                ),
            ),
            r is Some ==> r->0 < old(self).pool().len(),
            final(self).counter() == counter_after(
                old(self).pool(),
                old(self).chosen_by(),
                old(self).counter(),
                texts(exclude@),
            ),
    {
        let e: Vec<usize> = self.candidates(exclude);
        let n: usize = e.len();
        let ghost el = eligible(self.pool(), texts(exclude@));
        proof {
            law_eligible(self.pool(), texts(exclude@));
            assert(ints(e@) =~= el);
        }
        if n == 0 {
            return None;
        }
        match self.algorithm {
            LoadBalancingAlgorithm::RoundRobin => {
                let i: usize = self.rr_counter % n;
                self.rr_counter = self.rr_counter.wrapping_add(1);
                Some(e[i])
            },
            LoadBalancingAlgorithm::WeightedRoundRobin => {
                proof {
                    assert forall|j: int| 0 <= j < e@.len() implies #[trigger] e@[j]
                        < self.pool().len() by {
                        assert(e@[j] == el[j]);
                    }
                }
                let i: usize = self.weighted(&e);
                proof {
                    lemma_expanded_from(self.pool(), el);
                    let x = expanded(self.pool(), el);
                    assert(el.contains(x[self.counter() as int % (x.len() as int)]));
                }
                self.rr_counter = self.rr_counter.wrapping_add(1);
                Some(i)
            },
            LoadBalancingAlgorithm::LeastConnections => {
                let mut healthy: Vec<&UpstreamRuntime> = Vec::new();
                let mut j: usize = 0;
                while j < n
                    invariant
                        n == e@.len(),
                        j <= n,
                        el == eligible(self.pool(), texts(exclude@)),
                        ints(e@) == el,
                        forall|k: int|
                            0 <= k < el.len() ==> 0 <= #[trigger] el[k] < self.pool().len(),
                        healthy@.len() == j,
                        least_conn::referred(healthy@) == at(self.pool(), el.take(j as int)),
                    decreases n - j,
                {
                    assert(ints(e@)[j as int] == e@[j as int]);
                    assert(0 <= el[j as int] < self.pool().len());
                    let ghost before = healthy@;
                    healthy.push(&self.upstreams[e[j]]);
                    proof {
                        let after = least_conn::referred(healthy@);
                        assert forall|k: int| 0 <= k <= j implies #[trigger] after[k]
                            == self.pool()[el[k]] by {
                            if k < j {
                                assert(after[k] == least_conn::referred(before)[k]);
                                assert(after[k] == at(self.pool(), el.take(j as int))[k]);
                                assert(el.take(j as int)[k] == el[k]);
                            }
                        }
                        assert(after =~= at(self.pool(), el.take(j as int + 1)));
                    }
                    j = j + 1;
                }
                assert(el.take(n as int) =~= el);
                match least_conn::select(healthy.as_slice()) {
                    Some(b) => {
                        assert(ints(e@)[b as int] == e@[b as int]);
                        Some(e[b])
                    },
                    None => None,
                }
            },
            LoadBalancingAlgorithm::PowerOfTwoChoices => {
                assert(ints(e@)[0] == e@[0]);
                if n == 1 {
                    return Some(e[0]);
                }
                let base: usize = self.rr_counter;
                proof {
                    lemma_even(base);
                    let i = base as int % n as int;
                    let j = (base + 1) % n as int;
                    assert(ints(e@)[i] == e@[i] && ints(e@)[j] == e@[j]);
                }
                self.rr_counter = self.rr_counter.wrapping_add(2);
                let a: usize = e[base % n];
                let b: usize = e[(base + 1) % n];
                if self.upstreams[a].active_connections <= self.upstreams[b].active_connections {
                    Some(a)
                } else {
                    Some(b)
                }
            },
        }
    }

    /// Select the next healthy upstream.
    pub fn select(&mut self) -> (r: Option<usize>)
        requires
            old(self).wf(),
        ensures
            final(self).wf(),
            final(self).pool() == old(self).pool(),
            final(self).chosen_by() == old(self).chosen_by(),
            chosen(
                r,
                choice(
                    old(self).pool(),
                    old(self).chosen_by(),
                    old(self).counter() as int,
                    Seq::empty(),
                ),
            ),
            r is Some ==> r->0 < old(self).pool().len(),
            final(self).counter() == counter_after(
                old(self).pool(),
                old(self).chosen_by(),
                old(self).counter(),
                Seq::empty(),
            ),
    {
        let none: [&str; 0] = [];
        assert(texts(none@) =~= Seq::empty());
        self.select_excluding(&none)
    }
}

/// Whether a pool holds new upstreams made from a list.
pub open spec fn starts(pool: Seq<UpstreamRuntime>, upstreams: Seq<Upstream>) -> bool {
    pool.len() == upstreams.len() && forall|i: int|
        0 <= i < pool.len() ==> (#[trigger] pool[i]).address@ == upstreams[i].address@
            && pool[i].weight == upstreams[i].weight && pool[i].healthy
            && pool[i].active_connections == 0
}

/// Whether a result names a position.
pub open spec fn chosen(r: Option<usize>, c: Option<int>) -> bool {
    match c {
        Some(i) => r matches Some(j) && j == i,
        None => r is None,
    }
}

/// Positions as numbers.
pub open spec fn ints(e: Seq<usize>) -> Seq<int> {
    Seq::new(e.len(), |j: int| e[j] as int)
}

/// The position that a client is kept on, or else one chosen as for a new client.
pub open spec fn sticky_choice(lb: &LoadBalancer, sticky_value: Option<&str>) -> Option<int> {
    match sticky_value {
        Some(v) if healthy_at(lb.pool(), v@) is Some => healthy_at(lb.pool(), v@),
        _ => choice(lb.pool(), lb.chosen_by(), lb.counter() as int, Seq::empty()),
    }
}

/// A client that is kept on an upstream takes no turn.
pub open spec fn sticky_counter(lb: &LoadBalancer, sticky_value: Option<&str>) -> usize {
    match sticky_value {
        Some(v) if healthy_at(lb.pool(), v@) is Some => lb.counter(),
        _ => counter_after(lb.pool(), lb.chosen_by(), lb.counter(), Seq::empty()),
    }
}

/// Whether an address is on the list.
fn listed(exclude: &[&str], address: &str) -> (r: bool)
    ensures
        r == excluded(texts(exclude@), address@),
{
    let n: usize = exclude.len();
    let mut i: usize = 0;
    while i < n
        invariant
            n == exclude@.len(),
            i <= n,
            forall|k: int| 0 <= k < i ==> (#[trigger] texts(exclude@)[k]) != address@,
        decreases n - i,
    {
        if text::same_str(exclude[i], address) {
            assert(texts(exclude@)[i as int] == address@);
            return true;
        }
        i = i + 1;
    }
    false
}

proof fn lemma_even(n: usize)
    requires
        n % 2 == 0,
    ensures
        n < usize::MAX,
        wrapped(n + 2) % 2 == 0,
{
    assert(usize::MAX % 2 == 1) by {
        vstd::layout::unsigned_int_max_values();
    }
}

/// An early finding is the finding.
proof fn lemma_healthy_at(pool: Seq<UpstreamRuntime>, address: Seq<char>, k: int)
    requires
        0 <= k <= pool.len(),
        healthy_at(pool.take(k), address) is Some,
    ensures
        healthy_at(pool, address) == healthy_at(pool.take(k), address),
    decreases pool.len() - k,
{
    if k < pool.len() {
        assert(pool.take(k + 1).drop_last() =~= pool.take(k));
        lemma_healthy_at(pool, address, k + 1);
    } else {
        assert(pool.take(k) =~= pool);
    }
}

/// A round over the first positions is where the whole round starts.
proof fn lemma_expanded_prefix(pool: Seq<UpstreamRuntime>, e: Seq<int>, k: int)
    requires
        0 <= k <= e.len(),
    ensures
        expanded(pool, e.take(k)).is_prefix_of(expanded(pool, e)),
    decreases e.len() - k,
{
    if k < e.len() {
        assert(e.take(k + 1).drop_last() =~= e.take(k));
        lemma_expanded_prefix(pool, e, k + 1);
        let a = expanded(pool, e.take(k));
        let b = expanded(pool, e.take(k + 1));
        let c = expanded(pool, e);
        assert(b.take(a.len() as int) =~= a);
        assert(a =~= c.take(a.len() as int));
    } else {
        assert(e.take(k) =~= e);
    }
}

/// A round is made of the given positions.
pub proof fn lemma_expanded_from(pool: Seq<UpstreamRuntime>, e: Seq<int>)
    ensures
        forall|k: int|
            0 <= k < expanded(pool, e).len() ==> e.contains(#[trigger] expanded(pool, e)[k]),
    decreases e.len(),
{
    if e.len() > 0 {
        let p = e.drop_last();
        lemma_expanded_from(pool, p);
        let a = expanded(pool, p);
        assert forall|k: int| 0 <= k < expanded(pool, e).len() implies e.contains(
            #[trigger] expanded(pool, e)[k],
        ) by {
            if k < a.len() {
                assert(expanded(pool, e)[k] == a[k]);
                let j = choose|j: int| 0 <= j < p.len() && p[j] == a[k];
                assert(e[j] == a[k]);
            } else {
                assert(e[e.len() - 1] == expanded(pool, e)[k]);
            }
        }
    }
}

/// The texts of a list are those of each of its items, in their order.
pub proof fn law_texts(list: Seq<&str>, i: int)
    requires
        0 <= i < list.len(),
    ensures
        texts(list).len() == list.len(),
        texts(list)[i] == list[i]@,
{
}

/// A position is returned exactly where there is one, and it is that one.
pub proof fn law_chosen(r: Option<usize>, c: Option<int>)
    requires
        chosen(r, c),
    ensures
        r is Some <==> c is Some,
        r matches Some(i) ==> i == c->0,
{
}

} // verus!
