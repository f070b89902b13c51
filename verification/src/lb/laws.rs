//! What holds of selections in general.

use crate::config::LoadBalancingAlgorithm;
use crate::lb;
use crate::lb::{LoadBalancer, UpstreamRuntime};
use vstd::prelude::*;

verus! {

/// An upstream is chosen exactly where one is usable, and the chosen one is healthy and not to be
/// skipped.
pub proof fn law_choice_is_usable(
    pool: Seq<UpstreamRuntime>,
    algorithm: LoadBalancingAlgorithm,
    counter: usize,
    exclude: Seq<Seq<char>>,
)
    ensures
        lb::choice(pool, algorithm, counter as int, exclude) is Some <==> exists|i: int|
            0 <= i < pool.len() && (#[trigger] pool[i]).healthy && !exclude.contains(
                pool[i].address@,
            ),
        lb::choice(pool, algorithm, counter as int, exclude) matches Some(i) ==> 0 <= i
            < pool.len() && pool[i].healthy && !exclude.contains(pool[i].address@),
{
    let e = lb::eligible(pool, exclude);
    lb::law_eligible(pool, exclude);
    if e.len() > 0 {
        assert(0 <= e[0] < pool.len() && lb::usable(pool[e[0]], exclude));
        let n = e.len() as int;
        assert(0 <= counter as int % n < n);
        assert(0 <= (counter + 1) % n < n);
        lb::least_conn::law_least(lb::at(pool, e));
        lb::lemma_expanded_from(pool, e);
        lemma_round_not_empty(pool, e);
        let x = lb::expanded(pool, e);
        assert(0 <= counter as int % (x.len() as int) < x.len());
        assert(e.contains(x[counter as int % (x.len() as int)]));
    }
}

/// With the fewest-connections algorithm no usable upstream has fewer connections than the chosen
/// one, and none before it has as few. It takes no turn.
pub proof fn law_least_connections(
    pool: Seq<UpstreamRuntime>,
    counter: usize,
    exclude: Seq<Seq<char>>,
    other: int,
)
    requires
        0 <= other < pool.len(),
        pool[other].healthy,
        !exclude.contains(pool[other].address@),
    ensures
        lb::choice(
            pool,
            LoadBalancingAlgorithm::LeastConnections,
            counter as int,
            exclude,
        ) matches Some(i) && pool[i].active_connections <= pool[other].active_connections && (other
            < i ==> pool[i].active_connections < pool[other].active_connections),
        lb::counter_after(pool, LoadBalancingAlgorithm::LeastConnections, counter, exclude)
            == counter,
{
    let e = lb::eligible(pool, exclude);
    lb::law_eligible(pool, exclude);
    let k = choose|k: int| 0 <= k < e.len() && e[k] == other;
    let b = lb::least_conn::least(lb::at(pool, e));
    lb::least_conn::law_least(lb::at(pool, e));
    assert(lb::at(pool, e)[k] == pool[other]);
    assert(lb::at(pool, e)[b] == pool[e[b]]);
    if other < e[b] {
        assert(k < b) by {
            if b < k {
                assert(e[b] < e[k]);
            }
        }
    }
}

/// Choosing between two looks at two different upstreams where two are usable, and takes one that
/// has no more connections than the other.
pub proof fn law_two_choices(pool: Seq<UpstreamRuntime>, counter: usize, exclude: Seq<Seq<char>>)
    requires
        lb::eligible(pool, exclude).len() >= 2,
    ensures
        ({
            let e = lb::eligible(pool, exclude);
            let a = e[counter as int % (e.len() as int)];
            let b = e[(counter + 1) % (e.len() as int)];
            &&& a != b
            &&& lb::choice(
                pool,
                LoadBalancingAlgorithm::PowerOfTwoChoices,
                counter as int,
                exclude,
            ) matches Some(i)
            &&& i == a || i == b
            &&& pool[i].active_connections <= pool[a].active_connections
            &&& pool[i].active_connections <= pool[b].active_connections
        }),
{
    let e = lb::eligible(pool, exclude);
    let n = e.len() as int;
    lb::law_eligible(pool, exclude);
    lemma_rotation(counter as int, 1, n);
    let r = counter as int % n;
    let s = (counter + 1) % n;
    assert(0 <= r < n && 0 <= s < n && r != s);
    assert(e[r] != e[s]);
}

/// A client whose cookie names a healthy upstream stays there, and takes no turn.
pub proof fn law_sticky(b: LoadBalancer, value: &str, i: int)
    requires
        0 <= i < b.pool().len(),
        b.pool()[i].healthy,
        b.pool()[i].address@ == value@,
    ensures
        lb::sticky_choice(&b, Some(value)) matches Some(j) && 0 <= j <= i && b.pool()[j].healthy
            && b.pool()[j].address@ == value@,
        lb::sticky_counter(&b, Some(value)) == b.counter(),
{
    lemma_healthy_found(b.pool(), value@, i);
}

/// A healthy upstream with an address is found, or one before it.
pub proof fn lemma_healthy_found(pool: Seq<UpstreamRuntime>, address: Seq<char>, i: int)
    requires
        0 <= i < pool.len(),
        pool[i].healthy,
        pool[i].address@ == address,
    ensures
        lb::healthy_at(pool, address) matches Some(j) && 0 <= j <= i && pool[j].healthy
            && pool[j].address@ == address,
    decreases pool.len(),
{
    let p = pool.drop_last();
    if i < pool.len() - 1 {
        lemma_healthy_found(p, address, i);
    } else {
        lemma_healthy_at_sound(p, address);
    }
}

pub proof fn lemma_healthy_at_sound(pool: Seq<UpstreamRuntime>, address: Seq<char>)
    ensures
        lb::healthy_at(pool, address) matches Some(j) ==> 0 <= j < pool.len() && pool[j].healthy
            && pool[j].address@ == address,
    decreases pool.len(),
{
    if pool.len() > 0 {
        lemma_healthy_at_sound(pool.drop_last(), address);
    }
}

/// A client whose cookie names no healthy upstream is served as a new one.
pub proof fn law_sticky_falls_back(b: LoadBalancer, value: &str)
    requires
        forall|i: int|
            0 <= i < b.pool().len() && (#[trigger] b.pool()[i]).healthy ==> b.pool()[i].address@
                != value@,
    ensures
        lb::sticky_choice(&b, Some(value)) == lb::choice(
            b.pool(),
            b.chosen_by(),
            b.counter() as int,
            Seq::empty(),
        ),
        lb::sticky_counter(&b, Some(value)) == lb::counter_after(
            b.pool(),
            b.chosen_by(),
            b.counter(),
            Seq::empty(),
        ),
{
    lemma_healthy_at_sound(b.pool(), value@);
}

/// A client without a cookie is served as a new one.
pub proof fn law_without_cookie(b: LoadBalancer)
    ensures
        lb::sticky_choice(&b, None) == lb::choice(
            b.pool(),
            b.chosen_by(),
            b.counter() as int,
            Seq::empty(),
        ),
        lb::sticky_counter(&b, None) == lb::counter_after(
            b.pool(),
            b.chosen_by(),
            b.counter(),
            Seq::empty(),
        ),
{
}

/// The choices of some selections in a row, on a pool that stays as it is.
pub open spec fn picks(
    pool: Seq<UpstreamRuntime>,
    algorithm: LoadBalancingAlgorithm,
    counter: usize,
    exclude: Seq<Seq<char>>,
    n: nat,
) -> Seq<Option<int>>
    decreases n,
{
    if n == 0 {
        Seq::empty()
    } else {
        seq![lb::choice(pool, algorithm, counter as int, exclude)] + picks(
            pool,
            algorithm,
            lb::counter_after(pool, algorithm, counter, exclude),
            exclude,
            (n - 1) as nat,
        )
    }
}

/// How many of some choices fall on a position.
pub open spec fn times(s: Seq<Option<int>>, i: int) -> nat
    decreases s.len(),
{
    if s.len() == 0 {
        0
    } else {
        times(s.drop_last(), i) + (if s.last() == Some(i) {
            1nat
        } else {
            0
        })
    }
}

/// Round robin: in a turn of as many selections as there are usable upstreams, each of them is
/// chosen once, and no other upstream is. (The counter may not wrap within the turn.)
pub proof fn law_round_robin_turn(
    pool: Seq<UpstreamRuntime>,
    counter: usize,
    exclude: Seq<Seq<char>>,
    i: int,
)
    requires
        0 <= i < pool.len(),
        counter + lb::eligible(pool, exclude).len() <= usize::MAX,
    ensures
        times(
            picks(
                pool,
                LoadBalancingAlgorithm::RoundRobin,
                counter,
                exclude,
                lb::eligible(pool, exclude).len(),
            ),
            i,
        ) == (if pool[i].healthy && !exclude.contains(pool[i].address@) {
            1nat
        } else {
            0
        }),
{
    let e = lb::eligible(pool, exclude);
    let algorithm = LoadBalancingAlgorithm::RoundRobin;
    lb::law_eligible(pool, exclude);
    let s = picks(pool, algorithm, counter, exclude, e.len());
    if e.len() > 0 {
        let n = e.len() as int;
        lemma_picks(pool, algorithm, counter, exclude, e.len());
        let r = counter as int % n;
        assert(s =~= somes(e.skip(r) + e.take(r))) by {
            assert forall|t: int| 0 <= t < n implies #[trigger] s[t] == somes(
                e.skip(r) + e.take(r),
            )[t] by {
                lemma_rotation(counter as int, t, n);
            }
        }
        lemma_times_rotated(e, r, i);
        lemma_times_once(e, i);
    }
    if lb::usable(pool[i], exclude) {
        assert(e.contains(i));
    } else if e.contains(i) {
        let j = choose|j: int| 0 <= j < e.len() && e[j] == i;
        assert(lb::usable(pool[e[j]], exclude));
    }
}

/// How many selections a weighted turn has: the weights of the upstreams that are healthy and not
/// to be skipped, a weight of zero counting as one.
pub open spec fn weighted_turn(pool: Seq<UpstreamRuntime>, exclude: Seq<Seq<char>>) -> nat
    decreases pool.len(),
{
    if pool.len() == 0 {
        0
    } else {
        weighted_turn(pool.drop_last(), exclude) + (if pool.last().healthy && !exclude.contains(
            pool.last().address@,
        ) {
            if pool.last().weight == 0 {
                1nat
            } else {
                pool.last().weight as nat
            }
        } else {
            0
        })
    }
}

proof fn lemma_weighted_turn(pool: Seq<UpstreamRuntime>, exclude: Seq<Seq<char>>)
    ensures
        lb::expanded(pool, lb::eligible(pool, exclude)).len() == weighted_turn(pool, exclude),
    decreases pool.len(),
{
    if pool.len() > 0 {
        let p = pool.drop_last();
        lemma_weighted_turn(p, exclude);
        let before = lb::eligible(p, exclude);
        lb::law_eligible(p, exclude);
        lemma_expanded_same(pool, p, before);
        let e = lb::eligible(pool, exclude);
        if lb::usable(pool.last(), exclude) {
            assert(e.drop_last() =~= before);
        }
    }
}

/// A round depends on the upstreams at its positions alone.
proof fn lemma_expanded_same(a: Seq<UpstreamRuntime>, b: Seq<UpstreamRuntime>, e: Seq<int>)
    requires
        forall|j: int| 0 <= j < e.len() ==> a[#[trigger] e[j]] == b[e[j]],
    ensures
        lb::expanded(a, e) == lb::expanded(b, e),
    decreases e.len(),
{
    if e.len() > 0 {
        let p = e.drop_last();
        assert forall|j: int| 0 <= j < p.len() implies a[#[trigger] p[j]] == b[p[j]] by {
            assert(p[j] == e[j]);
        }
        lemma_expanded_same(a, b, p);
        assert(a[e[e.len() - 1]] == b[e[e.len() - 1]]);
    }
}

/// Weighted round robin: in a turn of as many selections as the weights of the usable upstreams sum
/// up to (a weight of zero counting as one), each of them is chosen as often as its weight says,
/// and no other upstream is. (The counter may not wrap within the turn.)
pub proof fn law_weighted_turn(
    pool: Seq<UpstreamRuntime>,
    counter: usize,
    exclude: Seq<Seq<char>>,
    i: int,
)
    requires
        0 <= i < pool.len(),
        counter + weighted_turn(pool, exclude) <= usize::MAX,
    ensures
        times(
            picks(
                pool,
                LoadBalancingAlgorithm::WeightedRoundRobin,
                counter,
                exclude,
                weighted_turn(pool, exclude),
            ),
            i,
        ) == (if pool[i].healthy && !exclude.contains(pool[i].address@) {
            if pool[i].weight == 0 {
                1nat
            } else {
                pool[i].weight as nat
            }
        } else {
            0
        }),
{
    let e = lb::eligible(pool, exclude);
    let algorithm = LoadBalancingAlgorithm::WeightedRoundRobin;
    lb::law_eligible(pool, exclude);
    lemma_weighted_turn(pool, exclude);
    let x = lb::expanded(pool, e);
    let s = picks(pool, algorithm, counter, exclude, x.len());
    if e.len() > 0 {
        lemma_round_not_empty(pool, e);
        let n = x.len() as int;
        lemma_picks(pool, algorithm, counter, exclude, x.len());
        let r = counter as int % n;
        assert(s =~= somes(x.skip(r) + x.take(r))) by {
            assert forall|t: int| 0 <= t < n implies #[trigger] s[t] == somes(
                x.skip(r) + x.take(r),
            )[t] by {
                lemma_rotation(counter as int, t, n);
            }
        }
        lemma_times_rotated(x, r, i);
        lemma_times_expanded(pool, e, i);
    }
    if lb::usable(pool[i], exclude) {
        assert(e.contains(i));
    } else if e.contains(i) {
        let j = choose|j: int| 0 <= j < e.len() && e[j] == i;
        assert(lb::usable(pool[e[j]], exclude));
    }
}

spec fn somes(s: Seq<int>) -> Seq<Option<int>> {
    Seq::new(s.len(), |t: int| Some(s[t]))
}

proof fn lemma_round_not_empty(pool: Seq<UpstreamRuntime>, e: Seq<int>)
    requires
        e.len() > 0,
    ensures
        lb::expanded(pool, e).len() > 0,
{
}

/// The choices of a turn, by the counter.
proof fn lemma_picks(
    pool: Seq<UpstreamRuntime>,
    algorithm: LoadBalancingAlgorithm,
    counter: usize,
    exclude: Seq<Seq<char>>,
    n: nat,
)
    requires
        algorithm == LoadBalancingAlgorithm::RoundRobin || algorithm
            == LoadBalancingAlgorithm::WeightedRoundRobin,
        lb::eligible(pool, exclude).len() > 0,
        counter + n <= usize::MAX,
    ensures
        picks(pool, algorithm, counter, exclude, n).len() == n,
        forall|t: int|
            0 <= t < n ==> #[trigger] picks(pool, algorithm, counter, exclude, n)[t]
                == lb::choice(pool, algorithm, counter + t, exclude),
    decreases n,
{
    if n > 0 {
        let next = lb::counter_after(pool, algorithm, counter, exclude);
        assert(next == counter + 1);
        lemma_picks(pool, algorithm, next, exclude, (n - 1) as nat);
        let rest = picks(pool, algorithm, next, exclude, (n - 1) as nat);
        let s = picks(pool, algorithm, counter, exclude, n);
        assert forall|t: int| 0 <= t < n implies #[trigger] s[t] == lb::choice(
            pool,
            algorithm,
            counter + t,
            exclude,
        ) by {
            if t > 0 {
                assert(s[t] == rest[t - 1]);
            }
        }
    }
}

/// Counting on from a remainder.
proof fn lemma_rotation(c: int, t: int, n: int)
    requires
        0 <= c,
        0 <= t < n,
    ensures
        (c + t) % n == (if c % n + t < n {
            c % n + t
        } else {
            c % n + t - n
        }),
{
    let r = c % n;
    let q = c / n;
    vstd::arithmetic::div_mod::lemma_fundamental_div_mod(c, n);
    if r + t < n {
        vstd::arithmetic::div_mod::lemma_fundamental_div_mod_converse(c + t, n, q, r + t);
    } else {
        assert(c + t == (q + 1) * n + (r + t - n)) by (nonlinear_arith)
            requires
                c == n * q + r,
        ;
        vstd::arithmetic::div_mod::lemma_fundamental_div_mod_converse(
            c + t,
            n,
            q + 1,
            r + t - n,
        );
    }
}

proof fn lemma_times_add(a: Seq<Option<int>>, b: Seq<Option<int>>, i: int)
    ensures
        times(a + b, i) == times(a, i) + times(b, i),
    decreases b.len(),
{
    if b.len() == 0 {
        assert(a + b =~= a);
    } else {
        lemma_times_add(a, b.drop_last(), i);
        assert((a + b).drop_last() =~= a + b.drop_last());
    }
}

proof fn lemma_times_rotated(x: Seq<int>, r: int, i: int)
    requires
        0 <= r <= x.len(),
    ensures
        times(somes(x.skip(r) + x.take(r)), i) == times(somes(x), i),
{
    let a = somes(x.take(r));
    let b = somes(x.skip(r));
    assert(somes(x.skip(r) + x.take(r)) =~= b + a);
    assert(somes(x) =~= a + b);
    lemma_times_add(a, b, i);
    lemma_times_add(b, a, i);
}

proof fn lemma_times_once(e: Seq<int>, i: int)
    requires
        forall|j: int, k: int| 0 <= j < k < e.len() ==> #[trigger] e[j] < #[trigger] e[k],
    ensures
        times(somes(e), i) == (if e.contains(i) {
            1nat
        } else {
            0
        }),
    decreases e.len(),
{
    if e.len() > 0 {
        let p = e.drop_last();
        lemma_times_once(p, i);
        assert(somes(e).drop_last() =~= somes(p));
        if e.contains(i) {
            let j = choose|j: int| 0 <= j < e.len() && e[j] == i;
            if j < p.len() {
                assert(p[j] == i);
                assert(e[j] < e[e.len() - 1]);
            }
        }
        if p.contains(i) {
            let j = choose|j: int| 0 <= j < p.len() && p[j] == i;
            assert(e[j] == i);
            assert(e[j] < e[e.len() - 1]);
        } else if e.last() == i {
            assert(e[e.len() - 1] == i);
        }
    }
}

proof fn lemma_times_repeated(v: int, n: nat, i: int)
    ensures
        times(somes(Seq::new(n, |k: int| v)), i) == (if v == i {
            n
        } else {
            0
        }),
    decreases n,
{
    if n > 0 {
        lemma_times_repeated(v, (n - 1) as nat, i);
        assert(somes(Seq::new(n, |k: int| v)).drop_last() =~= somes(
            Seq::new((n - 1) as nat, |k: int| v),
        ));
    }
}

proof fn lemma_times_expanded(pool: Seq<UpstreamRuntime>, e: Seq<int>, i: int)
    requires
        forall|j: int, k: int| 0 <= j < k < e.len() ==> #[trigger] e[j] < #[trigger] e[k],
    ensures
        times(somes(lb::expanded(pool, e)), i) == (if e.contains(i) {
            lb::share(pool[i].weight)
        } else {
            0
        }),
    decreases e.len(),
{
    if e.len() > 0 {
        let p = e.drop_last();
        let v = e.last();
        let n = lb::share(pool[v].weight);
        lemma_times_expanded(pool, p, i);
        lemma_times_repeated(v, n, i);
        let a = somes(lb::expanded(pool, p));
        let b = somes(Seq::new(n, |k: int| v));
        lemma_times_add(a, b, i);
        assert(somes(lb::expanded(pool, e)) =~= a + b);
        if e.contains(i) {
            let j = choose|j: int| 0 <= j < e.len() && e[j] == i;
            if j < p.len() {
                assert(p[j] == i);
                assert(e[j] < e[e.len() - 1]);
            }
        }
        if p.contains(i) {
            let j = choose|j: int| 0 <= j < p.len() && p[j] == i;
            assert(e[j] == i);
            assert(e[j] < e[e.len() - 1]);
        } else if v == i {
            assert(e[e.len() - 1] == i);
        }
    } else {
        assert(somes(lb::expanded(pool, e)) =~= Seq::empty());
    }
}

/// Round robin goes through the usable upstreams in the order of the pool: the selections in a row
/// take one after the other, and begin again after the last. (The counter may not wrap meanwhile.)
pub proof fn law_round_robin_order(
    pool: Seq<UpstreamRuntime>,
    counter: usize,
    exclude: Seq<Seq<char>>,
    n: nat,
    t: int,
)
    requires
        lb::eligible(pool, exclude).len() > 0,
        counter + n <= usize::MAX,
        0 <= t < n,
    ensures
        picks(pool, LoadBalancingAlgorithm::RoundRobin, counter, exclude, n)[t] == Some(
            lb::eligible(pool, exclude)[(counter + t) % (lb::eligible(pool, exclude).len() as int)],
        ),
{
    lemma_picks(pool, LoadBalancingAlgorithm::RoundRobin, counter, exclude, n);
}

/// A weighted turn goes through the usable upstreams in the order of the pool, each as often in a
/// row as its weight says: from the beginning of a turn on, no selection of the turn goes back.
/// (The counter may not wrap meanwhile.)
pub proof fn law_weighted_order(
    pool: Seq<UpstreamRuntime>,
    counter: usize,
    exclude: Seq<Seq<char>>,
    s: int,
    t: int,
)
    requires
        weighted_turn(pool, exclude) > 0,
        counter as int % weighted_turn(pool, exclude) as int == 0,
        counter + weighted_turn(pool, exclude) <= usize::MAX,
        0 <= s <= t < weighted_turn(pool, exclude),
    ensures
        ({
            let p = picks(
                pool,
                LoadBalancingAlgorithm::WeightedRoundRobin,
                counter,
                exclude,
                weighted_turn(pool, exclude),
            );
            p[s] is Some && p[t] is Some && p[s]->0 <= p[t]->0
        }),
{
    let algorithm = LoadBalancingAlgorithm::WeightedRoundRobin;
    let e = lb::eligible(pool, exclude);
    let x = lb::expanded(pool, e);
    let n = weighted_turn(pool, exclude);
    lemma_weighted_turn(pool, exclude);
    lb::law_eligible(pool, exclude);
    assert(e.len() > 0) by {
        if e.len() == 0 {
            assert(x.len() == 0);
        }
    }
    lemma_picks(pool, algorithm, counter, exclude, n);
    lemma_rotation(counter as int, s, n as int);
    lemma_rotation(counter as int, t, n as int);
    lemma_expanded_ascends(pool, e, s, t);
}

proof fn lemma_expanded_ascends(pool: Seq<UpstreamRuntime>, e: Seq<int>, s: int, t: int)
    requires
        forall|j: int, k: int| 0 <= j < k < e.len() ==> #[trigger] e[j] < #[trigger] e[k],
        0 <= s <= t < lb::expanded(pool, e).len(),
    ensures
        lb::expanded(pool, e)[s] <= lb::expanded(pool, e)[t],
    decreases e.len(),
{
    if e.len() > 0 {
        let p = e.drop_last();
        let a = lb::expanded(pool, p);
        let x = lb::expanded(pool, e);
        assert(forall|j: int, k: int| 0 <= j < k < p.len() ==> #[trigger] p[j] < #[trigger] p[k]);
        if t < a.len() {
            lemma_expanded_ascends(pool, p, s, t);
            assert(x[s] == a[s] && x[t] == a[t]);
        } else if s < a.len() {
            assert(x[s] == a[s] && x[t] == e.last());
            lb::lemma_expanded_from(pool, p);
            assert(p.contains(a[s]));
            let j = choose|j: int| 0 <= j < p.len() && p[j] == a[s];
            assert(e[j] < e[e.len() - 1]);
        } else {
            assert(x[s] == e.last() && x[t] == e.last());
        }
    }
}

/// The choices between two in a row, by the counter.
proof fn lemma_pairs_in_a_row(
    pool: Seq<UpstreamRuntime>,
    counter: usize,
    exclude: Seq<Seq<char>>,
    n: nat,
)
    requires
        lb::eligible(pool, exclude).len() >= 2,
        counter + 2 * n <= usize::MAX,
    ensures
        picks(pool, LoadBalancingAlgorithm::PowerOfTwoChoices, counter, exclude, n).len() == n,
        forall|t: int|
            0 <= t < n ==> #[trigger] picks(
                pool,
                LoadBalancingAlgorithm::PowerOfTwoChoices,
                counter,
                exclude,
                n,
            )[t] == lb::choice(
                pool,
                LoadBalancingAlgorithm::PowerOfTwoChoices,
                counter + 2 * t,
                exclude,
            ),
    decreases n,
{
    let algorithm = LoadBalancingAlgorithm::PowerOfTwoChoices;
    if n > 0 {
        let next = lb::counter_after(pool, algorithm, counter, exclude);
        assert(next == counter + 2);
        lemma_pairs_in_a_row(pool, next, exclude, (n - 1) as nat);
        let rest = picks(pool, algorithm, next, exclude, (n - 1) as nat);
        let s = picks(pool, algorithm, counter, exclude, n);
        assert forall|t: int| 0 <= t < n implies #[trigger] s[t] == lb::choice(
            pool,
            algorithm,
            counter + 2 * t,
            exclude,
        ) by {
            if t > 0 {
                assert(s[t] == rest[t - 1]);
            }
        }
    }
}

/// Choosing between two moves on by two each time: of selections in a row, each compares the two
/// usable upstreams that come next in the order of the pool, and takes the one with fewer
/// connections, the first where they have as many. (The counter may not wrap meanwhile.)
pub proof fn law_two_choices_move_on(
    pool: Seq<UpstreamRuntime>,
    counter: usize,
    exclude: Seq<Seq<char>>,
    n: nat,
    t: int,
)
    requires
        lb::eligible(pool, exclude).len() >= 2,
        counter + 2 * n <= usize::MAX,
        0 <= t < n,
    ensures
        ({
            let e = lb::eligible(pool, exclude);
            let a = e[(counter + 2 * t) % (e.len() as int)];
            let b = e[(counter + 2 * t + 1) % (e.len() as int)];
            &&& picks(
                pool,
                LoadBalancingAlgorithm::PowerOfTwoChoices,
                counter,
                exclude,
                n,
            )[t] == Some(
                if pool[b].active_connections < pool[a].active_connections {
                    b
                } else {
                    a
                },
            )
        }),
{
    lemma_pairs_in_a_row(pool, counter, exclude, n);
}

/// Choosing between two reaches everyone: of as many selections in a row as there are pairs among
/// the usable upstreams (half of them, rounded up), one takes the upstream that has fewer
/// connections than all the others. (The counter may not wrap meanwhile.)
pub proof fn law_two_choices_reach_everyone(
    pool: Seq<UpstreamRuntime>,
    counter: usize,
    exclude: Seq<Seq<char>>,
    i: int,
)
    requires
        0 <= i < pool.len(),
        pool[i].healthy,
        !exclude.contains(pool[i].address@),
        forall|k: int|
            0 <= k < pool.len() && k != i && (#[trigger] pool[k]).healthy && !exclude.contains(
                pool[k].address@,
            ) ==> pool[i].active_connections < pool[k].active_connections,
        counter + lb::eligible(pool, exclude).len() + 1 <= usize::MAX,
    ensures
        times(
            picks(
                pool,
                LoadBalancingAlgorithm::PowerOfTwoChoices,
                counter,
                exclude,
                (lb::eligible(pool, exclude).len() + 1) / 2,
            ),
            i,
        ) >= 1,
{
    let algorithm = LoadBalancingAlgorithm::PowerOfTwoChoices;
    let e = lb::eligible(pool, exclude);
    lb::law_eligible(pool, exclude);
    let n = e.len() as int;
    let j = choose|j: int| 0 <= j < e.len() && e[j] == i;
    let turns = ((n + 1) / 2) as nat;
    let s = picks(pool, algorithm, counter, exclude, turns);
    if n == 1 {
        assert(turns == 1);
        assert(picks(
            pool,
            algorithm,
            lb::counter_after(pool, algorithm, counter, exclude),
            exclude,
            0,
        ) =~= Seq::empty());
        assert(s =~= seq![Some(i)]);
        lemma_chosen_once(s, 0, i);
    } else {
        let r = counter as int % n;
        let d = if j >= r {
            j - r
        } else {
            j - r + n
        };
        lemma_rotation(counter as int, d, n);
        assert((counter + d) % n == j);
        let t = d / 2;
        lemma_pairs_in_a_row(pool, counter, exclude, turns);
        let a = (counter + 2 * t) % n;
        let b = (counter + 2 * t + 1) % n;
        assert(0 <= a < n && 0 <= b < n);
        assert(a == j || b == j);
        assert(e[a] != i ==> pool[i].active_connections < pool[e[a]].active_connections);
        assert(e[b] != i ==> pool[i].active_connections < pool[e[b]].active_connections);
        assert(s[t] == Some(i));
        lemma_chosen_once(s, t, i);
    }
}

/// A choice that is among some is counted.
proof fn lemma_chosen_once(s: Seq<Option<int>>, t: int, i: int)
    requires
        0 <= t < s.len(),
        s[t] == Some(i),
    ensures
        times(s, i) >= 1,
    decreases s.len(),
{
    if t < s.len() - 1 {
        lemma_chosen_once(s.drop_last(), t, i);
    }
}

/// How the counter moves: by one with each turn of the two round robins, by two with each choice
/// between two, and not at all with the fewest-connections algorithm. Where there is nothing to
/// choose (or, between two, only one) it stays. It wraps at its end.
pub proof fn law_counter(pool: Seq<UpstreamRuntime>, counter: usize, exclude: Seq<Seq<char>>)
    ensures
        ({
            let n = lb::eligible(pool, exclude).len();
            let turn = lb::counter_after(
                pool,
                LoadBalancingAlgorithm::RoundRobin,
                counter,
                exclude,
            );
            let weighted = lb::counter_after(
                pool,
                LoadBalancingAlgorithm::WeightedRoundRobin,
                counter,
                exclude,
            );
            let fewest = lb::counter_after(
                pool,
                LoadBalancingAlgorithm::LeastConnections,
                counter,
                exclude,
            );
            let two = lb::counter_after(
                pool,
                LoadBalancingAlgorithm::PowerOfTwoChoices,
                counter,
                exclude,
            );
            &&& weighted == turn
            &&& n == 0 ==> turn == counter
            &&& n > 0 && counter < usize::MAX ==> turn == counter + 1
            &&& n > 0 && counter == usize::MAX ==> turn == 0
            &&& fewest == counter
            &&& n <= 1 ==> two == counter
            &&& n > 1 && counter < usize::MAX - 1 ==> two == counter + 2
            &&& n > 1 && counter == usize::MAX - 1 ==> two == 0
            &&& n > 1 && counter == usize::MAX ==> two == 1
        }),
{
}

} // verus!
