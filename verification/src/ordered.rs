//! Buckets as mathematics: sequences of subscriptions in strictly ascending
//! order of identity token.
//!
//! A bucket is a set ordered by token, written down as the sequence of its
//! members from the smallest token to the largest. No token occurs twice, so
//! a token names at most one member, and that member stands at the position
//! given by the number of smaller tokens.

use crate::subscription::Subscription;
use std::sync::Arc;
use vstd::prelude::*;

verus! {

/// Tokens grow strictly from each member to the next.
pub open spec fn ascending<C>(s: Seq<Arc<Subscription<C>>>) -> bool {
    forall|i: int, j: int|
        0 <= i < j < s.len() ==> (#[trigger] s[i]).token < (#[trigger] s[j]).token
}

/// Some member of `s` carries the token `t`.
pub open spec fn has_token<C>(s: Seq<Arc<Subscription<C>>>, t: u64) -> bool {
    exists|i: int| 0 <= i < s.len() && (#[trigger] s[i]).token == t
}

/// The number of members of `s` whose token is smaller than `t`.
pub open spec fn rank<C>(s: Seq<Arc<Subscription<C>>>, t: u64) -> int
    decreases s.len(),
{
    if s.len() == 0 {
        0
    } else if s.last().token < t {
        rank(s.drop_last(), t) + 1
    } else {
        rank(s.drop_last(), t)
    }
}

/// `s` with `sub` added. A bucket that already has a member with that token
/// stays as it is: the member in place is kept, not replaced.
pub open spec fn ordered_insert<C>(s: Seq<Arc<Subscription<C>>>, sub: Arc<Subscription<C>>) -> Seq<
    Arc<Subscription<C>>,
> {
    if has_token(s, sub.token) {
        s
    } else {
        s.insert(rank(s, sub.token), sub)
    }
}

/// `s` without the member that carries the token `t`, if there is one.
pub open spec fn ordered_remove<C>(s: Seq<Arc<Subscription<C>>>, t: u64) -> Seq<
    Arc<Subscription<C>>,
> {
    if has_token(s, t) {
        s.remove(rank(s, t))
    } else {
        s
    }
}

/// In an ascending bucket the rank of `t` parts the members below `t` from
/// those at or above it.
pub proof fn lemma_rank_splits<C>(s: Seq<Arc<Subscription<C>>>, t: u64)
    requires
        ascending(s),
    ensures
        0 <= rank(s, t) <= s.len(),
        forall|j: int| 0 <= j < rank(s, t) ==> (#[trigger] s[j]).token < t,
        forall|j: int| rank(s, t) <= j < s.len() ==> (#[trigger] s[j]).token >= t,
    decreases s.len(),
{
    if s.len() > 0 {
        let p = s.drop_last();
        assert forall|i: int, j: int| 0 <= i < j < p.len() implies (#[trigger] p[i]).token < (
        #[trigger] p[j]).token by {
            assert(p[i] == s[i] && p[j] == s[j]);
        }
        lemma_rank_splits(p, t);
        assert forall|j: int| 0 <= j < p.len() implies p[j] == s[j] by {}
        if s.last().token < t {
            if rank(p, t) < p.len() {
                let k = rank(p, t);
                assert(p[k].token >= t);
                assert(s[k].token < s[s.len() - 1].token);
            }
            assert(rank(p, t) == p.len());
            assert forall|j: int| 0 <= j < rank(s, t) implies (#[trigger] s[j]).token < t by {
                if j < p.len() {
                    assert(p[j].token < t);
                }
            }
        } else {
            assert forall|j: int| 0 <= j < rank(s, t) implies (#[trigger] s[j]).token < t by {
                assert(p[j].token < t);
            }
            assert forall|j: int| rank(s, t) <= j < s.len() implies (#[trigger] s[j]).token
                >= t by {
                if j < p.len() {
                    assert(p[j].token >= t);
                }
            }
        }
    }
}

/// The position that parts an ascending bucket at `t` is the rank of `t`.
pub proof fn lemma_split_is_rank<C>(s: Seq<Arc<Subscription<C>>>, t: u64, i: int)
    requires
        ascending(s),
        0 <= i <= s.len(),
        forall|j: int| 0 <= j < i ==> (#[trigger] s[j]).token < t,
        forall|j: int| i <= j < s.len() ==> (#[trigger] s[j]).token >= t,
    ensures
        rank(s, t) == i,
{
    lemma_rank_splits(s, t);
    let r = rank(s, t);
    if r < i {
        assert(s[r].token >= t);
    }
    if i < r {
        assert(s[i].token < t);
    }
}

/// In an ascending bucket a token is present exactly when the member at its
/// rank carries it.
pub proof fn lemma_token_at_rank<C>(s: Seq<Arc<Subscription<C>>>, t: u64)
    requires
        ascending(s),
    ensures
        0 <= rank(s, t) <= s.len(),
        has_token(s, t) <==> (rank(s, t) < s.len() && s[rank(s, t)].token == t),
{
    lemma_rank_splits(s, t);
    if has_token(s, t) {
        let i = choose|i: int| 0 <= i < s.len() && (#[trigger] s[i]).token == t;
        let r = rank(s, t);
        assert(i >= r);
        if i > r {
            assert(s[r].token < s[i].token);
            assert(s[r].token >= t);
        }
    }
}

/// Adding a member keeps a bucket ascending, adds exactly its token, and makes
/// the bucket one longer unless the token was there.
pub proof fn lemma_ordered_insert<C>(s: Seq<Arc<Subscription<C>>>, sub: Arc<Subscription<C>>)
    requires
        ascending(s),
    ensures
        ascending(ordered_insert(s, sub)),
        forall|t: u64|
            has_token(ordered_insert(s, sub), t) <==> (has_token(s, t) || t == sub.token),
        ordered_insert(s, sub).len() == if has_token(s, sub.token) {
            s.len()
        } else {
            s.len() + 1
        },
        !has_token(s, sub.token) ==> ordered_insert(s, sub)[rank(s, sub.token)] == sub,
        forall|m: Arc<Subscription<C>>| s.contains(m) ==> ordered_insert(s, sub).contains(m),
{
    let r = rank(s, sub.token);
    let n = ordered_insert(s, sub);
    lemma_rank_splits(s, sub.token);
    lemma_token_at_rank(s, sub.token);
    if !has_token(s, sub.token) {
        assert forall|i: int, j: int| 0 <= i < j < n.len() implies (#[trigger] n[i]).token < (
        #[trigger] n[j]).token by {
            if j < r {
                assert(n[i] == s[i] && n[j] == s[j]);
            } else if j == r {
                assert(n[i] == s[i]);
            } else if i < r {
                assert(n[i] == s[i] && n[j] == s[j - 1]);
            } else if i == r {
                assert(n[j] == s[j - 1]);
                assert(s[j - 1].token >= sub.token);
            } else {
                assert(n[i] == s[i - 1] && n[j] == s[j - 1]);
            }
        }
        assert forall|t: u64| has_token(n, t) <==> (has_token(s, t) || t == sub.token) by {
            if has_token(n, t) {
                let i = choose|i: int| 0 <= i < n.len() && (#[trigger] n[i]).token == t;
                if i < r {
                    assert(s[i].token == t);
                } else if i > r {
                    assert(s[i - 1].token == t);
                }
            }
            if has_token(s, t) {
                let i = choose|i: int| 0 <= i < s.len() && (#[trigger] s[i]).token == t;
                if i < r {
                    assert(n[i].token == t);
                } else {
                    assert(n[i + 1].token == t);
                }
            }
            if t == sub.token {
                assert(n[r].token == t);
            }
        }
        assert forall|m: Arc<Subscription<C>>| s.contains(m) implies n.contains(m) by {
            let i = choose|i: int| 0 <= i < s.len() && s[i] == m;
            if i < r {
                assert(n[i] == m);
            } else {
                assert(n[i + 1] == m);
            }
        }
    } else {
        assert forall|t: u64| has_token(n, t) <==> (has_token(s, t) || t == sub.token) by {}
    }
}

/// Taking a token out keeps a bucket ascending, removes exactly that token,
/// and makes the bucket one shorter if the token was there.
pub proof fn lemma_ordered_remove<C>(s: Seq<Arc<Subscription<C>>>, t: u64)
    requires
        ascending(s),
    ensures
        ascending(ordered_remove(s, t)),
        forall|u: u64| has_token(ordered_remove(s, t), u) <==> (has_token(s, u) && u != t),
        ordered_remove(s, t).len() == if has_token(s, t) {
            s.len() - 1
        } else {
            s.len() as int
        },
        forall|m: Arc<Subscription<C>>|
            ordered_remove(s, t).contains(m) <==> (s.contains(m) && m.token != t),
{
    let r = rank(s, t);
    let n = ordered_remove(s, t);
    lemma_rank_splits(s, t);
    lemma_token_at_rank(s, t);
    if has_token(s, t) {
        assert forall|i: int, j: int| 0 <= i < j < n.len() implies (#[trigger] n[i]).token < (
        #[trigger] n[j]).token by {
            let a = if i < r { i } else { i + 1 };
            let b = if j < r { j } else { j + 1 };
            assert(n[i] == s[a] && n[j] == s[b]);
        }
        assert forall|u: u64| has_token(n, u) <==> (has_token(s, u) && u != t) by {
            if has_token(n, u) {
                let i = choose|i: int| 0 <= i < n.len() && (#[trigger] n[i]).token == u;
                let a = if i < r { i } else { i + 1 };
                assert(n[i] == s[a]);
                assert(s[a].token == u);
                if a < r {
                    assert(s[a].token < s[r].token);
                } else {
                    assert(s[r].token < s[a].token);
                }
            }
            if has_token(s, u) && u != t {
                let i = choose|i: int| 0 <= i < s.len() && (#[trigger] s[i]).token == u;
                if i < r {
                    assert(n[i].token == u);
                } else {
                    assert(n[i - 1].token == u);
                }
            }
        }
        assert forall|m: Arc<Subscription<C>>| n.contains(m) <==> (s.contains(m) && m.token
            != t) by {
            if n.contains(m) {
                let i = choose|i: int| 0 <= i < n.len() && n[i] == m;
                let a = if i < r { i } else { i + 1 };
                assert(n[i] == s[a]);
                if a < r {
                    assert(s[a].token < s[r].token);
                } else {
                    assert(s[r].token < s[a].token);
                }
            }
            if s.contains(m) && m.token != t {
                let i = choose|i: int| 0 <= i < s.len() && s[i] == m;
                if i < r {
                    assert(n[i] == m);
                } else {
                    assert(n[i - 1] == m);
                }
            }
        }
    } else {
        assert forall|m: Arc<Subscription<C>>| n.contains(m) <==> (s.contains(m) && m.token
            != t) by {
            if s.contains(m) {
                let i = choose|i: int| 0 <= i < s.len() && s[i] == m;
                assert(s[i].token != t);
            }
        }
    }
}

} // verus!
