//! The upstream with the fewest connections.

use crate::lb::UpstreamRuntime;
use vstd::prelude::*;

verus! {

/// The position of the upstream with the fewest connections; the first such one.
pub open spec fn least(healthy: Seq<UpstreamRuntime>) -> int
    decreases healthy.len(),
{
    if healthy.len() <= 1 {
        0
    } else {
        let b = least(healthy.drop_last());
        if healthy.last().active_connections < healthy[b].active_connections {
            healthy.len() - 1
        } else {
            b
        }
    }
}

/// What "fewest, and the first such one" means.
pub proof fn law_least(healthy: Seq<UpstreamRuntime>)
    requires
        healthy.len() > 0,
    ensures
        0 <= least(healthy) < healthy.len(),
        forall|j: int|
            0 <= j < healthy.len() ==> healthy[least(healthy)].active_connections <= (
            #[trigger] healthy[j]).active_connections,
        forall|j: int|
            0 <= j < least(healthy) ==> healthy[least(healthy)].active_connections < (
            #[trigger] healthy[j]).active_connections,
    decreases healthy.len(),
{
    if healthy.len() > 1 {
        let p = healthy.drop_last();
        law_least(p);
        assert(forall|j: int| 0 <= j < p.len() ==> p[j] == #[trigger] healthy[j]);
        assert(p[least(p)] == healthy[least(p)]);
    }
}

/// The upstreams that a list refers to.
pub open spec fn referred(healthy: Seq<&UpstreamRuntime>) -> Seq<UpstreamRuntime> {
    Seq::new(healthy.len(), |i: int| *healthy[i])
}

/// Select the healthy upstream with the fewest active connections, by its position in the list.
pub fn select(healthy: &[&UpstreamRuntime]) -> (r: Option<usize>)
    ensures
        healthy@.len() == 0 ==> r is None,
        healthy@.len() > 0 ==> (r matches Some(i) && i == least(referred(healthy@)) && i
            < healthy@.len()),
{
    let n: usize = healthy.len();
    if n == 0 {
        return None;
    }
    let mut best: usize = 0;
    let mut i: usize = 1;
    while i < n
        invariant
            n == healthy@.len(),
            1 <= i <= n,
            best == least(referred(healthy@).take(i as int)),
            best < i,
        decreases n - i,
    {
        assert(referred(healthy@).take(i as int + 1).drop_last() =~= referred(healthy@).take(
            i as int,
        ));
        if healthy[i].active_connections < healthy[best].active_connections {
            best = i;
        }
        i = i + 1;
    }
    assert(referred(healthy@).take(n as int) =~= referred(healthy@));
    Some(best)
}

} // verus!
