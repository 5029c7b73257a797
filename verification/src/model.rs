//! The registry as mathematics: which subscriptions stand where, and how
//! insertion and removal change that.
//!
//! Everything here is ghost. The stored registry is proved to follow it step
//! by step.

use crate::error::SubListError;
use crate::ordered::{
    ascending, has_token, lemma_ordered_insert, lemma_ordered_remove, lemma_rank_splits,
    ordered_insert, ordered_remove, rank,
};
use crate::subscription::Subscription;
use std::sync::Arc;
use vstd::prelude::*;

verus! {

/// One queue group on a subject: its name and its members in ascending order
/// of identity token.
#[verifier::ext_equal]
#[verifier::reject_recursive_types(C)]
pub struct Group<C> {
    pub name: Seq<char>,
    pub members: Seq<Arc<Subscription<C>>>,
}

/// What a registry holds.
///
/// `plain` takes a subject to its subscriptions without a queue, in ascending
/// order of identity token. `grouped` takes a subject to its queue groups, in
/// the order in which the groups came into being. A subject that has nothing
/// on one side is not a key on that side.
#[verifier::ext_equal]
#[verifier::reject_recursive_types(C)]
pub struct Registry<C> {
    pub plain: Map<Seq<char>, Seq<Arc<Subscription<C>>>>,
    pub grouped: Map<Seq<char>, Seq<Group<C>>>,
}

/// Some group of `groups` is called `name`.
pub open spec fn has_group<C>(groups: Seq<Group<C>>, name: Seq<char>) -> bool {
    exists|i: int| 0 <= i < groups.len() && (#[trigger] groups[i]).name == name
}

/// Where the group called `name` stands in `groups`, if there is one.
pub open spec fn group_at<C>(groups: Seq<Group<C>>, name: Seq<char>) -> int {
    choose|i: int| 0 <= i < groups.len() && (#[trigger] groups[i]).name == name
}

/// No two groups share a name.
pub open spec fn distinct_names<C>(groups: Seq<Group<C>>) -> bool {
    forall|i: int, j: int|
        0 <= i < j < groups.len() ==> (#[trigger] groups[i]).name != (#[trigger] groups[j]).name
}

/// `groups` after `sub` joined the group called `name`: the group gains the
/// member where it stands, or a new group with `sub` alone comes last.
pub open spec fn groups_insert<C>(
    groups: Seq<Group<C>>,
    name: Seq<char>,
    sub: Arc<Subscription<C>>,
) -> Seq<Group<C>> {
    if has_group(groups, name) {
        let i = group_at(groups, name);
        groups.update(i, Group { name, members: ordered_insert(groups[i].members, sub) })
    } else {
        groups.push(Group { name, members: seq![sub] })
    }
}

/// `groups` after the token `t` left the group called `name`: the group loses
/// that member, and leaves the sequence when no member is left.
pub open spec fn groups_remove<C>(groups: Seq<Group<C>>, name: Seq<char>, t: u64) -> Seq<
    Group<C>,
> {
    if has_group(groups, name) {
        let i = group_at(groups, name);
        let rest = ordered_remove(groups[i].members, t);
        if rest.len() == 0 {
            groups.remove(i)
        } else {
            groups.update(i, Group { name, members: rest })
        }
    } else {
        groups
    }
}

/// A bucket of the registry is never empty, ascends by token, and holds only
/// subscriptions of its own subject and queue.
pub open spec fn bucket_wf<C>(
    members: Seq<Arc<Subscription<C>>>,
    subject: Seq<char>,
    queue: Option<Seq<char>>,
) -> bool {
    &&& members.len() > 0
    &&& ascending(members)
    &&& forall|i: int|
        0 <= i < members.len() ==> (#[trigger] members[i]).subject@ == subject
            && members[i].queue_name() == queue
}

/// The groups of a subject are at least one, differ in name, and each is a
/// bucket of that subject and its own name.
pub open spec fn groups_wf<C>(groups: Seq<Group<C>>, subject: Seq<char>) -> bool {
    &&& groups.len() > 0
    &&& distinct_names(groups)
    &&& forall|i: int|
        0 <= i < groups.len() ==> bucket_wf(
            (#[trigger] groups[i]).members,
            subject,
            Some(groups[i].name),
        )
}

/// The plain subscriptions that `plain` holds on `subject`; none where the
/// subject is no key.
pub open spec fn plain_of<C>(
    plain: Map<Seq<char>, Seq<Arc<Subscription<C>>>>,
    subject: Seq<char>,
) -> Seq<Arc<Subscription<C>>> {
    if plain.contains_key(subject) {
        plain[subject]
    } else {
        Seq::empty()
    }
}

/// The queue groups that `grouped` holds on `subject`; none where the subject
/// is no key.
pub open spec fn groups_of<C>(grouped: Map<Seq<char>, Seq<Group<C>>>, subject: Seq<char>) -> Seq<
    Group<C>,
> {
    if grouped.contains_key(subject) {
        grouped[subject]
    } else {
        Seq::empty()
    }
}

/// The plain side after `sub` was inserted under its subject.
pub open spec fn plain_insert<C>(
    plain: Map<Seq<char>, Seq<Arc<Subscription<C>>>>,
    sub: Arc<Subscription<C>>,
) -> Map<Seq<char>, Seq<Arc<Subscription<C>>>> {
    plain.insert(sub.subject@, ordered_insert(plain_of(plain, sub.subject@), sub))
}

/// The plain side after the token of `sub` left its subject. A subject left
/// with no member is no key any more.
pub open spec fn plain_remove<C>(
    plain: Map<Seq<char>, Seq<Arc<Subscription<C>>>>,
    sub: Arc<Subscription<C>>,
) -> Map<Seq<char>, Seq<Arc<Subscription<C>>>> {
    let rest = ordered_remove(plain_of(plain, sub.subject@), sub.token);
    if rest.len() == 0 {
        plain.remove(sub.subject@)
    } else {
        plain.insert(sub.subject@, rest)
    }
}

/// The queue side after `sub` was inserted under its subject, into the group
/// called `name`.
pub open spec fn grouped_insert<C>(
    grouped: Map<Seq<char>, Seq<Group<C>>>,
    name: Seq<char>,
    sub: Arc<Subscription<C>>,
) -> Map<Seq<char>, Seq<Group<C>>> {
    grouped.insert(sub.subject@, groups_insert(groups_of(grouped, sub.subject@), name, sub))
}

/// The queue side after the token of `sub` left the group called `name` on
/// its subject. A subject left with no group is no key any more.
pub open spec fn grouped_remove<C>(
    grouped: Map<Seq<char>, Seq<Group<C>>>,
    name: Seq<char>,
    sub: Arc<Subscription<C>>,
) -> Map<Seq<char>, Seq<Group<C>>> {
    let rest = groups_remove(groups_of(grouped, sub.subject@), name, sub.token);
    if rest.len() == 0 {
        grouped.remove(sub.subject@)
    } else {
        grouped.insert(sub.subject@, rest)
    }
}

/// The plain side has finitely many subjects, each with a bucket of its own
/// plain subscriptions.
pub open spec fn plain_wf<C>(plain: Map<Seq<char>, Seq<Arc<Subscription<C>>>>) -> bool {
    &&& plain.dom().finite()
    &&& forall|s: Seq<char>| #[trigger] plain.contains_key(s) ==> bucket_wf(plain[s], s, None)
}

/// The queue side has finitely many subjects, each with well-formed groups of
/// its own.
pub open spec fn grouped_wf<C>(grouped: Map<Seq<char>, Seq<Group<C>>>) -> bool {
    &&& grouped.dom().finite()
    &&& forall|s: Seq<char>| #[trigger] grouped.contains_key(s) ==> groups_wf(grouped[s], s)
}

impl<C> Registry<C> {
    /// The registry that holds nothing.
    pub open spec fn empty() -> Self {
        Registry { plain: Map::empty(), grouped: Map::empty() }
    }

    /// Finitely many subjects, no empty bucket, no subject without a group,
    /// no two groups of one name on a subject, and every subscription under
    /// its own subject and queue.
    pub open spec fn wf(self) -> bool {
        plain_wf(self.plain) && grouped_wf(self.grouped)
    }

    /// The plain subscriptions on `subject`, in ascending order of token.
    pub open spec fn plain_members(self, subject: Seq<char>) -> Seq<Arc<Subscription<C>>> {
        plain_of(self.plain, subject)
    }

    /// The queue groups on `subject`, oldest group first.
    pub open spec fn groups(self, subject: Seq<char>) -> Seq<Group<C>> {
        groups_of(self.grouped, subject)
    }

    /// The members of each queue group on `subject`, group by group, without
    /// the groups' names.
    pub open spec fn group_members(self, subject: Seq<char>) -> Seq<Seq<Arc<Subscription<C>>>> {
        self.groups(subject).map_values(|g: Group<C>| g.members)
    }

    /// The members of the group called `name` on `subject`; none where there
    /// is no such group.
    pub open spec fn queue_members(self, subject: Seq<char>, name: Seq<char>) -> Seq<
        Arc<Subscription<C>>,
    > {
        if has_group(self.groups(subject), name) {
            self.groups(subject)[group_at(self.groups(subject), name)].members
        } else {
            Seq::empty()
        }
    }

    /// `sub` itself is registered: it is a member of the bucket that its
    /// subject and queue name.
    pub open spec fn holds(self, sub: Arc<Subscription<C>>) -> bool {
        match sub.queue_name() {
            Some(name) => self.queue_members(sub.subject@, name).contains(sub),
            None => self.plain_members(sub.subject@).contains(sub),
        }
    }

    /// The registry after `sub` was inserted under its subject: into its queue
    /// group, or among the plain subscriptions where it names no queue.
    pub open spec fn insert(self, sub: Arc<Subscription<C>>) -> Self {
        match sub.queue_name() {
            Some(name) => Registry { grouped: grouped_insert(self.grouped, name, sub), ..self },
            None => Registry { plain: plain_insert(self.plain, sub), ..self },
        }
    }

    /// The registry after every subscription of `subs` was inserted, first
    /// to last.
    pub open spec fn insert_all(self, subs: Seq<Arc<Subscription<C>>>) -> Self
        decreases subs.len(),
    {
        if subs.len() == 0 {
            self
        } else {
            self.insert_all(subs.drop_last()).insert(subs.last())
        }
    }

    /// The registry after `sub` was removed, or the failure.
    ///
    /// A queue subscription whose subject has no group of its queue's name is
    /// not found. A plain subscription is always removed, which changes
    /// nothing where its token is not registered. A bucket, and then a
    /// subject, that is left with nothing goes.
    pub open spec fn remove(self, sub: Arc<Subscription<C>>) -> Result<Self, SubListError> {
        match sub.queue_name() {
            Some(name) => {
                if has_group(self.groups(sub.subject@), name) {
                    Ok(Registry { grouped: grouped_remove(self.grouped, name, sub), ..self })
                } else {
                    Err(SubListError::SubscriptionNotFound)
                }
            },
            None => Ok(Registry { plain: plain_remove(self.plain, sub), ..self }),
        }
    }
}

/// In groups of distinct names, a group's name finds its own position.
pub proof fn lemma_group_at<C>(groups: Seq<Group<C>>, i: int)
    requires
        distinct_names(groups),
        0 <= i < groups.len(),
    ensures
        has_group(groups, groups[i].name),
        group_at(groups, groups[i].name) == i,
{
    let j = group_at(groups, groups[i].name);
    assert(0 <= j < groups.len() && groups[j].name == groups[i].name);
}

/// A bucket, or no bucket yet, is a bucket after one of its own subject and
/// queue joined.
pub proof fn lemma_bucket_insert_wf<C>(
    members: Seq<Arc<Subscription<C>>>,
    sub: Arc<Subscription<C>>,
    subject: Seq<char>,
    queue: Option<Seq<char>>,
)
    requires
        members.len() == 0 || bucket_wf(members, subject, queue),
        sub.subject@ == subject,
        sub.queue_name() == queue,
    ensures
        bucket_wf(ordered_insert(members, sub), subject, queue),
{
    let n = ordered_insert(members, sub);
    let r = rank(members, sub.token);
    lemma_rank_splits(members, sub.token);
    lemma_ordered_insert(members, sub);
    if !has_token(members, sub.token) {
        assert forall|i: int| 0 <= i < n.len() implies (#[trigger] n[i]).subject@ == subject
            && n[i].queue_name() == queue by {
            if i < r {
                assert(n[i] == members[i]);
            } else if i > r {
                assert(n[i] == members[i - 1]);
            }
        }
    }
}

/// A bucket that lost a token is a bucket still, unless nothing is left.
pub proof fn lemma_bucket_remove_wf<C>(
    members: Seq<Arc<Subscription<C>>>,
    t: u64,
    subject: Seq<char>,
    queue: Option<Seq<char>>,
)
    requires
        bucket_wf(members, subject, queue),
    ensures
        ordered_remove(members, t).len() == 0 || bucket_wf(
            ordered_remove(members, t),
            subject,
            queue,
        ),
{
    let n = ordered_remove(members, t);
    lemma_ordered_remove(members, t);
    assert forall|i: int| 0 <= i < n.len() implies (#[trigger] n[i]).subject@ == subject
        && n[i].queue_name() == queue by {
        assert(n.contains(n[i]));
        assert(members.contains(n[i]));
        let j = choose|j: int| 0 <= j < members.len() && members[j] == n[i];
        assert(members[j].subject@ == subject);
    }
}

/// The groups of a subject, or none yet, are well formed after one of that
/// subject joined the group of its queue's name.
pub proof fn lemma_groups_insert_wf<C>(
    groups: Seq<Group<C>>,
    name: Seq<char>,
    sub: Arc<Subscription<C>>,
    subject: Seq<char>,
)
    requires
        groups.len() == 0 || groups_wf(groups, subject),
        sub.subject@ == subject,
        sub.queue_name() == Some(name),
    ensures
        groups_wf(groups_insert(groups, name, sub), subject),
{
    let n = groups_insert(groups, name, sub);
    if has_group(groups, name) {
        let i = group_at(groups, name);
        lemma_bucket_insert_wf(groups[i].members, sub, subject, Some(name));
        assert forall|a: int, b: int| 0 <= a < b < n.len() implies (#[trigger] n[a]).name != (
        #[trigger] n[b]).name by {
            assert(n[a].name == groups[a].name && n[b].name == groups[b].name);
        }
        assert forall|k: int| 0 <= k < n.len() implies bucket_wf(
            (#[trigger] n[k]).members,
            subject,
            Some(n[k].name),
        ) by {
            if k != i {
                assert(n[k] == groups[k]);
            }
        }
    } else {
        lemma_bucket_insert_wf(Seq::empty(), sub, subject, Some(name));
        assert(ordered_insert(Seq::<Arc<Subscription<C>>>::empty(), sub) =~= seq![sub]);
        assert forall|a: int, b: int| 0 <= a < b < n.len() implies (#[trigger] n[a]).name != (
        #[trigger] n[b]).name by {
            assert(n[a] == groups[a]);
            if b < groups.len() {
                assert(n[b] == groups[b]);
            }
        }
        assert forall|k: int| 0 <= k < n.len() implies bucket_wf(
            (#[trigger] n[k]).members,
            subject,
            Some(n[k].name),
        ) by {
            if k < groups.len() {
                assert(n[k] == groups[k]);
            }
        }
    }
}

/// The groups of a subject that lost a token from one group are well formed
/// still, unless no group is left.
pub proof fn lemma_groups_remove_wf<C>(
    groups: Seq<Group<C>>,
    name: Seq<char>,
    t: u64,
    subject: Seq<char>,
)
    requires
        groups_wf(groups, subject),
    ensures
        groups_remove(groups, name, t).len() == 0 || groups_wf(
            groups_remove(groups, name, t),
            subject,
        ),
{
    let n = groups_remove(groups, name, t);
    if has_group(groups, name) {
        let i = group_at(groups, name);
        lemma_bucket_remove_wf(groups[i].members, t, subject, Some(name));
        let rest = ordered_remove(groups[i].members, t);
        if rest.len() == 0 {
            assert forall|a: int, b: int| 0 <= a < b < n.len() implies (#[trigger] n[a]).name != (
            #[trigger] n[b]).name by {
                let x = if a < i { a } else { a + 1 };
                let y = if b < i { b } else { b + 1 };
                assert(n[a] == groups[x] && n[b] == groups[y]);
            }
            assert forall|k: int| 0 <= k < n.len() implies bucket_wf(
                (#[trigger] n[k]).members,
                subject,
                Some(n[k].name),
            ) by {
                let x = if k < i { k } else { k + 1 };
                assert(n[k] == groups[x]);
            }
        } else {
            assert forall|a: int, b: int| 0 <= a < b < n.len() implies (#[trigger] n[a]).name != (
            #[trigger] n[b]).name by {
                assert(n[a].name == groups[a].name && n[b].name == groups[b].name);
            }
            assert forall|k: int| 0 <= k < n.len() implies bucket_wf(
                (#[trigger] n[k]).members,
                subject,
                Some(n[k].name),
            ) by {
                if k != i {
                    assert(n[k] == groups[k]);
                }
            }
        }
    }
}

} // verus!
