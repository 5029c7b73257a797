//! Equality and order of subscriptions by identity.

use crate::subscription::{share, Subscription};
use std::cmp::Ordering;
use std::sync::Arc;
use vstd::prelude::*;
use vstd::std_specs::cmp::PartialEqSpecImpl;
use vstd::std_specs::cmp::PartialOrdSpecImpl;

verus! {

/// A shared subscription, compared by its identity token alone: subject, queue
/// and subscriber id play no part. This is the element of the registry's
/// ordered buckets.
#[derive(Debug)]
#[verifier::reject_recursive_types(C)]
pub struct ArcSubscriptionWrapper<C>(pub Arc<Subscription<C>>);

impl<C> ArcSubscriptionWrapper<C> {
    /// How `self` stands to `other` in the order of identity tokens.
    pub open spec fn token_order(&self, other: &Self) -> Ordering {
        if self.0.token < other.0.token {
            Ordering::Less
        } else if self.0.token == other.0.token {
            Ordering::Equal
        } else {
            Ordering::Greater
        }
    }

    /// Compares two subscriptions by identity token.
    pub fn cmp(&self, other: &Self) -> (o: Ordering)
        ensures
            o == self.token_order(other),
    {
        let a = self.0.token;
        let b = other.0.token;
        if a < b {
            Ordering::Less
        } else if a == b {
            Ordering::Equal
        } else {
            Ordering::Greater
        }
    }
}

impl<C> Clone for ArcSubscriptionWrapper<C> {
    /// Another handle to the same subscription.
    fn clone(&self) -> (other: Self)
        ensures
            other == *self,
    {
        ArcSubscriptionWrapper(share(&self.0))
    }
}

impl<C> PartialEq for ArcSubscriptionWrapper<C> {
    fn eq(&self, other: &Self) -> (r: bool) {
        self.0.token == other.0.token
    }
}

impl<C> PartialEqSpecImpl for ArcSubscriptionWrapper<C> {
    open spec fn obeys_eq_spec() -> bool {
        true
    }

    open spec fn eq_spec(&self, other: &Self) -> bool {
        self.0.token == other.0.token
    }
}

impl<C> Eq for ArcSubscriptionWrapper<C> {}

impl<C> PartialOrd for ArcSubscriptionWrapper<C> {
    fn partial_cmp(&self, other: &Self) -> (r: Option<Ordering>) {
        Some(self.cmp(other))
    }
}

impl<C> PartialOrdSpecImpl for ArcSubscriptionWrapper<C> {
    open spec fn obeys_partial_cmp_spec() -> bool {
        true
    }

    open spec fn partial_cmp_spec(&self, other: &Self) -> Option<Ordering> {
        Some(self.token_order(other))
    }
}

} // verus!
