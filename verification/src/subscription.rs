//! One subscribe request, as the registry stores it.

use std::sync::Arc;
use vstd::prelude::*;

verus! {

/// `tokio::sync::Mutex`, the lock around a connection's outbound sender,
/// declared as an opaque type. The registry never locks it: a subscription
/// only carries the handle along, so nothing is claimed of what it holds.
#[verifier::external_type_specification]
#[verifier::external_body]
#[verifier::reject_recursive_types(T)]
pub struct ExMutex<T: ?Sized>(tokio::sync::Mutex<T>);

/// A subscribe request. Immutable once built.
///
/// `C` is the connection's outbound sender, shared by every subscription of
/// that connection. `token` is the subscription's identity: two subscriptions
/// are the same member of a registry bucket exactly when their tokens are
/// equal, whatever their other fields hold. Whoever builds subscriptions hands
/// each one a token of its own.
#[derive(Debug)]
#[verifier::reject_recursive_types(C)]
pub struct Subscription<C> {
    pub msg_sender: Arc<tokio::sync::Mutex<C>>,
    pub subject: String,
    pub queue: Option<String>,
    pub sid: String,
    pub token: u64,
}

/// A subscription as the registry and its owning connection share it.
pub type ArcSubscription<C> = Arc<Subscription<C>>;

impl<C> Subscription<C> {
    /// The queue group this subscription belongs to, as a sequence of
    /// characters; `None` for a plain subscription.
    pub open spec fn queue_name(&self) -> Option<Seq<char>> {
        match self.queue {
            Some(q) => Some(q@),
            None => None,
        }
    }

    /// A subscription on `subject`, in the queue group `queue` if one is
    /// named, for the subscriber `sid`, with `token` as its identity and
    /// `msg_sender` as the way to its connection.
    pub fn new(
        subject: &str,
        queue: Option<&str>,
        sid: &str,
        token: u64,
        msg_sender: Arc<tokio::sync::Mutex<C>>,
    ) -> (sub: Self)
        ensures
            sub.subject@ == subject@,
            sub.queue_name() == match queue {
                Some(q) => Some(q@),
                None => None,
            },
            sub.sid@ == sid@,
            sub.token == token,
            sub.msg_sender == msg_sender,
    {
        let queue = match queue {
            Some(q) => Some(q.to_owned()),
            None => None,
        };
        Subscription { msg_sender, subject: subject.to_owned(), queue, sid: sid.to_owned(), token }
    }
}

/// `Arc::clone` on a shared subscription. Taken on trust: the new handle
/// points to the allocation of the one given, so it is the same subscription.
/// Nothing is copied but the handle.
#[verifier::external_body]
pub(crate) fn share<C>(sub: &Arc<Subscription<C>>) -> (other: Arc<Subscription<C>>)
    ensures
        other == *sub,
{
    Arc::clone(sub)
}

} // verus!
