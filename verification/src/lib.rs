//! Subscription registry of a publish/subscribe broker.
//!
//! The registry maps a subject to the subscriptions interested in it, split
//! into plain subscriptions and named queue groups. Every operation is stated
//! against an abstract [`Registry`] of maps and sequences, and proved.

mod bucket;
pub mod error;
pub mod identity;
pub mod laws;
pub mod model;
pub mod ordered;
pub mod registry;
pub mod subscription;
mod table;

pub use crate::error::SubListError;
pub use crate::identity::ArcSubscriptionWrapper;
pub use crate::model::{Group, Registry};
pub use crate::registry::{ArcSubResult, SimpleSubList, SubListTrait, SubResult};
pub use crate::subscription::{ArcSubscription, Subscription};
