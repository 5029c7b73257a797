//! Buckets in memory: a vector of subscriptions kept in ascending order of
//! identity token, searched by bisection.

use crate::identity::ArcSubscriptionWrapper;
use crate::ordered::{
    ascending, lemma_split_is_rank, lemma_token_at_rank, ordered_insert, ordered_remove, rank,
};
use crate::subscription::{share, Subscription};
use std::sync::Arc;
use vstd::prelude::*;

verus! {

/// The subscriptions that a stored bucket holds, in storage order.
pub(crate) open spec fn members<C>(v: Seq<ArcSubscriptionWrapper<C>>) -> Seq<Arc<Subscription<C>>> {
    v.map_values(|w: ArcSubscriptionWrapper<C>| w.0)
}

/// The number of stored members that order before `probe`.
pub(crate) fn position<C>(
    v: &Vec<ArcSubscriptionWrapper<C>>,
    probe: &ArcSubscriptionWrapper<C>,
) -> (at: usize)
    requires
        ascending(members(v@)),
    ensures
        at == rank(members(v@), probe.0.token),
        at <= v.len(),
{
    let mut lo: usize = 0;
    let mut hi: usize = v.len();
    while lo < hi
        invariant
            lo <= hi <= v.len(),
            ascending(members(v@)),
            forall|j: int| 0 <= j < lo ==> (#[trigger] members(v@)[j]).token < probe.0.token,
            forall|j: int| hi <= j < v.len() ==> (#[trigger] members(v@)[j]).token >= probe.0.token,
        decreases hi - lo,
    {
        let mid: usize = lo + (hi - lo) / 2;
        assert(members(v@)[mid as int] == v@[mid as int].0);
        if v[mid] < *probe {
            assert forall|j: int| 0 <= j < mid + 1 implies (#[trigger] members(v@)[j]).token
                < probe.0.token by {
                if j < mid {
                    assert(members(v@)[j].token < members(v@)[mid as int].token);
                }
            }
            lo = mid + 1;
        } else {
            assert forall|j: int| mid <= j < v.len() implies (#[trigger] members(v@)[j]).token
                >= probe.0.token by {
                if mid < j {
                    assert(members(v@)[mid as int].token < members(v@)[j].token);
                }
            }
            hi = mid;
        }
    }
    proof {
        lemma_split_is_rank(members(v@), probe.0.token, lo as int);
    }
    lo
}

/// Adds `sub` to the bucket, unless a member with its token is there.
pub(crate) fn bucket_insert<C>(v: &mut Vec<ArcSubscriptionWrapper<C>>, sub: &Arc<Subscription<C>>)
    requires
        ascending(members(old(v)@)),
    ensures
        members(final(v)@) == ordered_insert(members(old(v)@), *sub),
{
    let probe = ArcSubscriptionWrapper(share(sub));
    let at = position(v, &probe);
    proof {
        lemma_token_at_rank(members(v@), sub.token);
    }
    if at < v.len() && v[at] == probe {
        assert(members(v@)[at as int] == v@[at as int].0);
    } else {
        assert(at < v.len() ==> members(v@)[at as int] == v@[at as int].0);
        v.insert(at, probe);
        assert(members(v@) =~= members(old(v)@).insert(at as int, *sub));
    }
}

/// Takes the member with the token of `sub` out of the bucket, if there is one.
pub(crate) fn bucket_remove<C>(v: &mut Vec<ArcSubscriptionWrapper<C>>, sub: &Arc<Subscription<C>>)
    requires
        ascending(members(old(v)@)),
    ensures
        members(final(v)@) == ordered_remove(members(old(v)@), sub.token),
{
    let probe = ArcSubscriptionWrapper(share(sub));
    let at = position(v, &probe);
    proof {
        lemma_token_at_rank(members(v@), sub.token);
    }
    if at < v.len() && v[at] == probe {
        assert(members(v@)[at as int] == v@[at as int].0);
        v.remove(at);
        assert(members(v@) =~= members(old(v)@).remove(at as int));
    } else {
        assert(at < v.len() ==> members(v@)[at as int] == v@[at as int].0);
    }
}

/// A new handle to every member, in storage order.
pub(crate) fn snapshot<C>(v: &Vec<ArcSubscriptionWrapper<C>>) -> (out: Vec<Arc<Subscription<C>>>)
    ensures
        out@ == members(v@),
{
    let mut out: Vec<Arc<Subscription<C>>> = Vec::with_capacity(v.len());
    let mut i: usize = 0;
    while i < v.len()
        invariant
            i <= v.len(),
            out@ == members(v@).take(i as int),
        decreases v.len() - i,
    {
        out.push(share(&v[i].0));
        assert(members(v@).take(i + 1) =~= members(v@).take(i as int).push(members(v@)[i as int]));
        i += 1;
    }
    assert(members(v@).take(i as int) =~= members(v@));
    out
}

} // verus!
