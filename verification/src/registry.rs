//! The registry in memory.
//!
//! Subjects and queue names are kept in tables, each bucket as a vector in
//! ascending order of identity token. Every operation is proved to do to the
//! abstract [`Registry`] what its definition there says.

use crate::bucket::{bucket_insert, bucket_remove, members, snapshot};
use crate::error::SubListError;
use crate::identity::ArcSubscriptionWrapper;
use crate::model::{
    bucket_wf, distinct_names, group_at, grouped_insert, grouped_remove, grouped_wf,
    groups_insert, groups_of, groups_remove, groups_wf, has_group, lemma_bucket_insert_wf,
    lemma_bucket_remove_wf, lemma_group_at, lemma_groups_insert_wf, lemma_groups_remove_wf,
    plain_insert, plain_of, plain_remove, plain_wf, Group, Registry,
};
use crate::ordered::{ascending, ordered_insert, ordered_remove};
use crate::subscription::{ArcSubscription, Subscription};
use crate::table::{
    distinct_keys, find, has_key, key_at, lemma_key_at, lemma_table_finite, lemma_table_push,
    lemma_table_remove, lemma_table_update, table_view, Entry,
};
use std::sync::Arc;
use vstd::prelude::*;

verus! {

type Bucket<C> = Vec<ArcSubscriptionWrapper<C>>;

type Groups<C> = Vec<Entry<Bucket<C>>>;

/// A match result as the one who asked and the one who delivers share it.
pub type ArcSubResult<C> = Arc<SubResult<C>>;

/// What one publish has to reach: a snapshot of the subscriptions on a
/// subject. It shares the subscriptions with the registry and is not changed
/// by what the registry does later.
#[derive(Debug)]
#[verifier::reject_recursive_types(C)]
pub struct SubResult<C> {
    /// The plain subscriptions, in ascending order of identity token.
    pub subs: Vec<ArcSubscription<C>>,
    /// The members of each queue group, group by group.
    pub qsubs: Vec<Vec<ArcSubscription<C>>>,
}

impl<C> SubResult<C> {
    /// The queue groups' members as sequences.
    pub open spec fn groups(&self) -> Seq<Seq<Arc<Subscription<C>>>> {
        self.qsubs@.map_values(|g: Vec<Arc<Subscription<C>>>| g@)
    }

    /// Whether the subject matched nothing: no plain subscription and no
    /// queue group.
    pub fn is_empty(&self) -> (r: bool)
        ensures
            r == (self.subs@.len() == 0 && self.qsubs@.len() == 0),
    {
        self.subs.len() == 0 && self.qsubs.len() == 0
    }
}

impl<C> Default for SubResult<C> {
    /// The result that matched nothing.
    fn default() -> (r: Self)
        ensures
            r.subs@.len() == 0,
            r.qsubs@.len() == 0,
    {
        SubResult { subs: Vec::new(), qsubs: Vec::new() }
    }
}

/// The stored groups of one subject as the model's groups.
pub(crate) open spec fn groups_view<C>(entries: Seq<Entry<Bucket<C>>>) -> Seq<Group<C>> {
    entries.map_values(|e: Entry<Bucket<C>>| Group { name: e.key@, members: members(e.value@) })
}

/// How a stored bucket is read.
pub(crate) open spec fn read_bucket<C>() -> spec_fn(Bucket<C>) -> Seq<Arc<Subscription<C>>> {
    |v: Bucket<C>| members(v@)
}

/// How the stored groups of a subject are read.
pub(crate) open spec fn read_groups<C>() -> spec_fn(Groups<C>) -> Seq<Group<C>> {
    |v: Groups<C>| groups_view(v@)
}

/// The stored plain side as the model's.
pub(crate) open spec fn plain_view<C>(entries: Seq<Entry<Bucket<C>>>) -> Map<
    Seq<char>,
    Seq<Arc<Subscription<C>>>,
> {
    table_view(entries, read_bucket())
}

/// The stored queue side as the model's.
pub(crate) open spec fn grouped_view<C>(entries: Seq<Entry<Groups<C>>>) -> Map<
    Seq<char>,
    Seq<Group<C>>,
> {
    table_view(entries, read_groups())
}

/// What holds of the stored plain side between operations.
pub(crate) open spec fn plain_inv<C>(entries: Seq<Entry<Bucket<C>>>) -> bool {
    &&& distinct_keys(entries)
    &&& forall|i: int|
        0 <= i < entries.len() ==> bucket_wf(
            members((#[trigger] entries[i]).value@),
            entries[i].key@,
            None,
        )
}

/// What holds of the stored queue side between operations.
pub(crate) open spec fn grouped_inv<C>(entries: Seq<Entry<Groups<C>>>) -> bool {
    &&& distinct_keys(entries)
    &&& forall|i: int|
        0 <= i < entries.len() ==> groups_wf(
            groups_view((#[trigger] entries[i]).value@),
            entries[i].key@,
        )
}

/// What the bucket operations need of stored groups: names differ and every
/// bucket ascends.
pub(crate) open spec fn groups_ok<C>(entries: Seq<Entry<Bucket<C>>>) -> bool {
    &&& distinct_keys(entries)
    &&& forall|j: int|
        0 <= j < entries.len() ==> ascending(members((#[trigger] entries[j]).value@))
}

/// Stored groups and the model's groups agree name by name and bucket by
/// bucket.
pub(crate) proof fn lemma_groups_view<C>(entries: Seq<Entry<Bucket<C>>>)
    ensures
        groups_view(entries).len() == entries.len(),
        forall|j: int|
            0 <= j < entries.len() ==> (#[trigger] groups_view(entries)[j]).name == entries[j].key@
                && groups_view(entries)[j].members == members(entries[j].value@),
        forall|name: Seq<char>| has_group(groups_view(entries), name) <==> has_key(entries, name),
        distinct_names(groups_view(entries)) <==> distinct_keys(entries),
{
    let gs = groups_view(entries);
    assert forall|name: Seq<char>| has_group(gs, name) <==> has_key(entries, name) by {
        if has_group(gs, name) {
            let j = group_at(gs, name);
            assert(entries[j].key@ == name);
        }
        if has_key(entries, name) {
            let j = key_at(entries, name);
            assert(gs[j].name == name);
        }
    }
    if distinct_names(gs) {
        assert forall|i: int, j: int| 0 <= i < j < entries.len() implies (
        #[trigger] entries[i]).key@ != (#[trigger] entries[j]).key@ by {
            assert(gs[i].name != gs[j].name);
        }
    }
    if distinct_keys(entries) {
        assert forall|i: int, j: int| 0 <= i < j < gs.len() implies (#[trigger] gs[i]).name != (
        #[trigger] gs[j]).name by {
            assert(entries[i].key@ != entries[j].key@);
        }
    }
}

/// Well-formed groups are stored in a way the bucket operations accept.
pub(crate) proof fn lemma_groups_ok<C>(entries: Seq<Entry<Bucket<C>>>, subject: Seq<char>)
    requires
        entries.len() == 0 || groups_wf(groups_view(entries), subject),
    ensures
        groups_ok(entries),
{
    lemma_groups_view(entries);
    assert forall|j: int| 0 <= j < entries.len() implies ascending(
        members((#[trigger] entries[j]).value@),
    ) by {
        let g = groups_view(entries)[j];
        assert(bucket_wf(g.members, subject, Some(g.name)));
    }
}

/// The stored plain side, kept as it should be, is a well-formed plain side.
pub(crate) proof fn lemma_plain_inv_wf<C>(entries: Seq<Entry<Bucket<C>>>)
    requires
        plain_inv(entries),
    ensures
        plain_wf(plain_view(entries)),
{
    lemma_table_finite(entries, read_bucket());
    assert forall|s: Seq<char>| #[trigger] plain_view(entries).contains_key(s) implies bucket_wf(
        plain_view(entries)[s],
        s,
        None,
    ) by {
        let i = key_at(entries, s);
        assert(entries[i].key@ == s);
    }
}

/// The stored queue side, kept as it should be, is a well-formed queue side.
pub(crate) proof fn lemma_grouped_inv_wf<C>(entries: Seq<Entry<Groups<C>>>)
    requires
        grouped_inv(entries),
    ensures
        grouped_wf(grouped_view(entries)),
{
    lemma_table_finite(entries, read_groups());
    assert forall|s: Seq<char>| #[trigger] grouped_view(entries).contains_key(s) implies groups_wf(
        grouped_view(entries)[s],
        s,
    ) by {
        let i = key_at(entries, s);
        assert(entries[i].key@ == s);
    }
}

/// What a found subject's entry says of the plain side.
pub(crate) proof fn lemma_plain_found<C>(entries: Seq<Entry<Bucket<C>>>, i: int)
    requires
        distinct_keys(entries),
        0 <= i < entries.len(),
    ensures
        plain_of(plain_view(entries), entries[i].key@) == members(entries[i].value@),
{
    lemma_key_at(entries, i);
}

/// What a found subject's entry says of the queue side.
pub(crate) proof fn lemma_grouped_found<C>(entries: Seq<Entry<Groups<C>>>, i: int)
    requires
        distinct_keys(entries),
        0 <= i < entries.len(),
    ensures
        groups_of(grouped_view(entries), entries[i].key@) == groups_view(entries[i].value@),
{
    lemma_key_at(entries, i);
}

/// Inserts `sub` into the plain bucket of its subject, which is made if it is
/// not there.
fn plain_insert_stored<C>(subs: &mut Vec<Entry<Bucket<C>>>, sub: &Arc<Subscription<C>>)
    requires
        plain_inv(old(subs)@),
        sub.queue_name() is None,
    ensures
        plain_inv(final(subs)@),
        plain_view(final(subs)@) == plain_insert(plain_view(old(subs)@), *sub),
{
    let ghost before = subs@;
    match find(subs, &sub.subject) {
        Some(i) => {
            proof {
                lemma_plain_found(before, i as int);
                lemma_bucket_insert_wf(members(before[i as int].value@), *sub, sub.subject@, None);
            }
            bucket_insert(&mut subs[i].value, sub);
            proof {
                assert(subs@ =~= before.update(i as int, subs@[i as int]));
                lemma_table_update(before, i as int, subs@[i as int], read_bucket());
                assert forall|k: int| 0 <= k < subs@.len() implies bucket_wf(
                    members((#[trigger] subs@[k]).value@),
                    subs@[k].key@,
                    None,
                ) by {
                    if k != i {
                        assert(subs@[k] == before[k]);
                    }
                }
            }
        },
        None => {
            let mut bucket: Bucket<C> = Vec::new();
            assert(members(bucket@) =~= Seq::empty());
            bucket_insert(&mut bucket, sub);
            let entry = Entry { key: sub.subject.clone(), value: bucket };
            proof {
                lemma_bucket_insert_wf(Seq::empty(), *sub, sub.subject@, None);
                lemma_table_push(before, entry, read_bucket());
            }
            subs.push(entry);
            proof {
                assert forall|k: int| 0 <= k < subs@.len() implies bucket_wf(
                    members((#[trigger] subs@[k]).value@),
                    subs@[k].key@,
                    None,
                ) by {
                    if k < before.len() {
                        assert(subs@[k] == before[k]);
                    }
                }
            }
        },
    }
}

/// Takes the token of `sub` out of the plain bucket of its subject, and the
/// subject out of the table when its bucket is left empty.
fn plain_remove_stored<C>(subs: &mut Vec<Entry<Bucket<C>>>, sub: &Arc<Subscription<C>>)
    requires
        plain_inv(old(subs)@),
    ensures
        plain_inv(final(subs)@),
        plain_view(final(subs)@) == plain_remove(plain_view(old(subs)@), *sub),
{
    let ghost before = subs@;
    match find(subs, &sub.subject) {
        Some(i) => {
            proof {
                lemma_plain_found(before, i as int);
                lemma_bucket_remove_wf(
                    members(before[i as int].value@),
                    sub.token,
                    sub.subject@,
                    None,
                );
            }
            bucket_remove(&mut subs[i].value, sub);
            let ghost mid = subs@;
            proof {
                assert(mid =~= before.update(i as int, mid[i as int]));
                lemma_table_update(before, i as int, mid[i as int], read_bucket());
            }
            if subs[i].value.len() == 0 {
                subs.remove(i);
                proof {
                    lemma_table_remove(mid, i as int, read_bucket());
                    assert(plain_view(subs@) =~= plain_view(before).remove(sub.subject@));
                    assert forall|k: int| 0 <= k < subs@.len() implies bucket_wf(
                        members((#[trigger] subs@[k]).value@),
                        subs@[k].key@,
                        None,
                    ) by {
                        let a = if k < i { k } else { k + 1 };
                        assert(subs@[k] == before[a]);
                    }
                }
            } else {
                proof {
                    assert forall|k: int| 0 <= k < subs@.len() implies bucket_wf(
                        members((#[trigger] subs@[k]).value@),
                        subs@[k].key@,
                        None,
                    ) by {
                        if k != i {
                            assert(subs@[k] == before[k]);
                        }
                    }
                }
            }
        },
        None => {
            proof {
                assert(!plain_view(before).contains_key(sub.subject@));
                assert(plain_view(before).remove(sub.subject@) =~= plain_view(before));
            }
        },
    }
}

/// Inserts `sub` into the group called `name`, which is made, after all
/// others, if it is not there.
fn groups_insert_stored<C>(groups: &mut Groups<C>, name: &String, sub: &Arc<Subscription<C>>)
    requires
        groups_ok(old(groups)@),
    ensures
        groups_view(final(groups)@) == groups_insert(groups_view(old(groups)@), name@, *sub),
{
    let ghost before = groups@;
    proof {
        lemma_groups_view(before);
    }
    match find(groups, name) {
        Some(j) => {
            proof {
                lemma_group_at(groups_view(before), j as int);
            }
            bucket_insert(&mut groups[j].value, sub);
            proof {
                lemma_groups_view(groups@);
                assert(groups_view(groups@) =~= groups_view(before).update(
                    j as int,
                    Group {
                        name: name@,
                        members: ordered_insert(groups_view(before)[j as int].members, *sub),
                    },
                ));
            }
        },
        None => {
            let mut bucket: Bucket<C> = Vec::new();
            assert(members(bucket@) =~= Seq::empty());
            bucket_insert(&mut bucket, sub);
            groups.push(Entry { key: name.clone(), value: bucket });
            proof {
                lemma_groups_view(groups@);
                assert(ordered_insert(Seq::<Arc<Subscription<C>>>::empty(), *sub) =~= seq![*sub]);
                assert(groups_view(groups@) =~= groups_view(before).push(
                    Group { name: name@, members: seq![*sub] },
                ));
            }
        },
    }
}

/// Takes the token of `sub` out of the group called `name`, and the group out
/// of the list when it is left empty. Says whether there was such a group.
fn groups_remove_stored<C>(
    groups: &mut Groups<C>,
    name: &String,
    sub: &Arc<Subscription<C>>,
) -> (found: bool)
    requires
        groups_ok(old(groups)@),
    ensures
        found == has_group(groups_view(old(groups)@), name@),
        groups_view(final(groups)@) == groups_remove(groups_view(old(groups)@), name@, sub.token),
{
    let ghost before = groups@;
    proof {
        lemma_groups_view(before);
    }
    match find(groups, name) {
        Some(j) => {
            proof {
                lemma_group_at(groups_view(before), j as int);
            }
            bucket_remove(&mut groups[j].value, sub);
            let ghost mid = groups@;
            proof {
                lemma_groups_view(mid);
            }
            if groups[j].value.len() == 0 {
                groups.remove(j);
                proof {
                    lemma_groups_view(groups@);
                    assert(groups_view(groups@) =~= groups_view(before).remove(j as int));
                }
            } else {
                proof {
                    assert(groups_view(groups@) =~= groups_view(before).update(
                        j as int,
                        Group {
                            name: name@,
                            members: ordered_remove(
                                groups_view(before)[j as int].members,
                                sub.token,
                            ),
                        },
                    ));
                }
            }
            true
        },
        None => false,
    }
}

/// Inserts `sub` into the group called `name` on its subject; subject and
/// group are made if they are not there.
fn grouped_insert_stored<C>(
    qsubs: &mut Vec<Entry<Groups<C>>>,
    name: &String,
    sub: &Arc<Subscription<C>>,
)
    requires
        grouped_inv(old(qsubs)@),
        sub.queue_name() == Some(name@),
    ensures
        grouped_inv(final(qsubs)@),
        grouped_view(final(qsubs)@) == grouped_insert(grouped_view(old(qsubs)@), name@, *sub),
{
    let ghost before = qsubs@;
    match find(qsubs, &sub.subject) {
        Some(i) => {
            proof {
                lemma_grouped_found(before, i as int);
                lemma_groups_ok(before[i as int].value@, sub.subject@);
                lemma_groups_insert_wf(
                    groups_view(before[i as int].value@),
                    name@,
                    *sub,
                    sub.subject@,
                );
            }
            groups_insert_stored(&mut qsubs[i].value, name, sub);
            proof {
                assert(qsubs@ =~= before.update(i as int, qsubs@[i as int]));
                lemma_table_update(before, i as int, qsubs@[i as int], read_groups());
                assert forall|k: int| 0 <= k < qsubs@.len() implies groups_wf(
                    groups_view((#[trigger] qsubs@[k]).value@),
                    qsubs@[k].key@,
                ) by {
                    if k != i {
                        assert(qsubs@[k] == before[k]);
                    }
                }
            }
        },
        None => {
            let mut groups: Groups<C> = Vec::new();
            assert(groups_view(groups@) =~= Seq::empty());
            groups_insert_stored(&mut groups, name, sub);
            let entry = Entry { key: sub.subject.clone(), value: groups };
            proof {
                lemma_groups_insert_wf(Seq::empty(), name@, *sub, sub.subject@);
                lemma_table_push(before, entry, read_groups());
            }
            qsubs.push(entry);
            proof {
                assert forall|k: int| 0 <= k < qsubs@.len() implies groups_wf(
                    groups_view((#[trigger] qsubs@[k]).value@),
                    qsubs@[k].key@,
                ) by {
                    if k < before.len() {
                        assert(qsubs@[k] == before[k]);
                    }
                }
            }
        },
    }
}

/// Takes the token of `sub` out of the group called `name` on its subject,
/// and prunes what is left empty. Says whether there was such a group; where
/// there was none, the queue side stays what it was.
fn grouped_remove_stored<C>(
    qsubs: &mut Vec<Entry<Groups<C>>>,
    name: &String,
    sub: &Arc<Subscription<C>>,
) -> (found: bool)
    requires
        grouped_inv(old(qsubs)@),
    ensures
        grouped_inv(final(qsubs)@),
        found == has_group(groups_of(grouped_view(old(qsubs)@), sub.subject@), name@),
        found ==> grouped_view(final(qsubs)@) == grouped_remove(
            grouped_view(old(qsubs)@),
            name@,
            *sub,
        ),
        !found ==> grouped_view(final(qsubs)@) == grouped_view(old(qsubs)@),
{
    let ghost before = qsubs@;
    match find(qsubs, &sub.subject) {
        Some(i) => {
            proof {
                lemma_grouped_found(before, i as int);
                lemma_groups_ok(before[i as int].value@, sub.subject@);
                lemma_groups_remove_wf(
                    groups_view(before[i as int].value@),
                    name@,
                    sub.token,
                    sub.subject@,
                );
            }
            let found = groups_remove_stored(&mut qsubs[i].value, name, sub);
            let ghost mid = qsubs@;
            proof {
                assert(mid =~= before.update(i as int, mid[i as int]));
                lemma_table_update(before, i as int, mid[i as int], read_groups());
                lemma_groups_view(mid[i as int].value@);
                if !found {
                    assert(grouped_view(mid) =~= grouped_view(before));
                }
            }
            if qsubs[i].value.len() == 0 {
                qsubs.remove(i);
                proof {
                    lemma_table_remove(mid, i as int, read_groups());
                    assert(grouped_view(qsubs@) =~= grouped_view(before).remove(sub.subject@));
                    assert forall|k: int| 0 <= k < qsubs@.len() implies groups_wf(
                        groups_view((#[trigger] qsubs@[k]).value@),
                        qsubs@[k].key@,
                    ) by {
                        let a = if k < i { k } else { k + 1 };
                        assert(qsubs@[k] == before[a]);
                    }
                }
            } else {
                proof {
                    assert forall|k: int| 0 <= k < qsubs@.len() implies groups_wf(
                        groups_view((#[trigger] qsubs@[k]).value@),
                        qsubs@[k].key@,
                    ) by {
                        if k != i {
                            assert(qsubs@[k] == before[k]);
                        }
                    }
                }
            }
            found
        },
        None => {
            proof {
                assert(!grouped_view(before).contains_key(sub.subject@));
            }
            false
        },
    }
}

/// A new handle to every member of every group, group by group.
fn snapshot_groups<C>(groups: &Groups<C>) -> (out: Vec<Vec<Arc<Subscription<C>>>>)
    ensures
        out@.len() == groups@.len(),
        forall|j: int| 0 <= j < out@.len() ==> (#[trigger] out@[j])@ == members(groups@[j].value@),
{
    let mut out: Vec<Vec<Arc<Subscription<C>>>> = Vec::with_capacity(groups.len());
    let mut j: usize = 0;
    while j < groups.len()
        invariant
            j <= groups.len(),
            out@.len() == j,
            forall|k: int| 0 <= k < j ==> (#[trigger] out@[k])@ == members(groups@[k].value@),
        decreases groups.len() - j,
    {
        out.push(snapshot(&groups[j].value));
        j += 1;
    }
    out
}

/// A subscription registry: what a broker asks on every subscribe,
/// unsubscribe and publish.
pub trait SubListTrait<C>: View<V = Registry<C>> + Sized {
    /// Registers `sub` under its subject, in its queue group if it names one.
    /// Never fails. A subscription whose token is registered in that bucket
    /// already changes nothing.
    fn insert(&mut self, sub: Arc<Subscription<C>>) -> (r: Result<(), SubListError>)
        ensures
            r is Ok,
            final(self)@ == old(self)@.insert(sub),
            final(self)@.wf(),
    ;

    /// Takes the subscription with the token of `sub` out of the bucket that
    /// `sub` names. Fails, and changes nothing, where `sub` names a queue and
    /// its subject has no group of that name.
    fn remove(&mut self, sub: Arc<Subscription<C>>) -> (r: Result<(), SubListError>)
        ensures
            match old(self)@.remove(sub) {
                Ok(next) => r is Ok && final(self)@ == next,
                Err(e) => r == Err::<(), SubListError>(e) && final(self)@ == old(self)@,
            },
            final(self)@.wf(),
    ;

    /// A snapshot of who is subscribed to `subject`. Never fails, and leaves
    /// the registry as it is.
    fn match_subject(&mut self, subject: &str) -> (r: Result<Arc<SubResult<C>>, SubListError>)
        ensures
            final(self)@ == old(self)@,
            final(self)@.wf(),
            r matches Ok(found) && found.subs@ == old(self)@.plain_members(subject@)
                && found.groups() == old(self)@.group_members(subject@)
                && found.qsubs@.len() == old(self)@.groups(subject@).len(),
    ;
}

/// The registry, with subjects matched by exact equality.
#[derive(Debug)]
#[verifier::reject_recursive_types(C)]
pub struct SimpleSubList<C> {
    subs: Vec<Entry<Bucket<C>>>,
    qsubs: Vec<Entry<Groups<C>>>,
}

impl<C> View for SimpleSubList<C> {
    type V = Registry<C>;

    closed spec fn view(&self) -> Registry<C> {
        Registry { plain: plain_view(self.subs@), grouped: grouped_view(self.qsubs@) }
    }
}

impl<C> SimpleSubList<C> {
    #[verifier::type_invariant]
    spec fn inv(self) -> bool {
        plain_inv(self.subs@) && grouped_inv(self.qsubs@)
    }
}

impl<C> Default for SimpleSubList<C> {
    /// The registry that holds nothing.
    fn default() -> (list: Self)
        ensures
            list@ == Registry::<C>::empty(),
            list@.wf(),
    {
        let list = SimpleSubList { subs: Vec::new(), qsubs: Vec::new() };
        proof {
            assert(plain_view(list.subs@) =~= Map::empty());
            assert(grouped_view(list.qsubs@) =~= Map::empty());
        }
        list
    }
}

impl<C> SubListTrait<C> for SimpleSubList<C> {
    fn insert(&mut self, sub: Arc<Subscription<C>>) -> (r: Result<(), SubListError>) {
        proof {
            use_type_invariant(&*self);
        }
        match &sub.queue {
            Some(name) => {
                let mut qsubs: Vec<Entry<Groups<C>>> = Vec::new();
                core::mem::swap(&mut self.qsubs, &mut qsubs);
                grouped_insert_stored(&mut qsubs, name, &sub);
                self.qsubs = qsubs;
            },
            None => {
                let mut subs: Vec<Entry<Bucket<C>>> = Vec::new();
                core::mem::swap(&mut self.subs, &mut subs);
                plain_insert_stored(&mut subs, &sub);
                self.subs = subs;
            },
        }
        proof {
            lemma_plain_inv_wf(self.subs@);
            lemma_grouped_inv_wf(self.qsubs@);
        }
        Ok(())
    }

    fn remove(&mut self, sub: Arc<Subscription<C>>) -> (r: Result<(), SubListError>) {
        proof {
            use_type_invariant(&*self);
            lemma_plain_inv_wf(self.subs@);
            lemma_grouped_inv_wf(self.qsubs@);
        }
        match &sub.queue {
            Some(name) => {
                let mut qsubs: Vec<Entry<Groups<C>>> = Vec::new();
                core::mem::swap(&mut self.qsubs, &mut qsubs);
                let found = grouped_remove_stored(&mut qsubs, name, &sub);
                self.qsubs = qsubs;
                proof {
                    lemma_grouped_inv_wf(self.qsubs@);
                }
                if found {
                    Ok(())
                } else {
                    Err(SubListError::SubscriptionNotFound)
                }
            },
            None => {
                let mut subs: Vec<Entry<Bucket<C>>> = Vec::new();
                core::mem::swap(&mut self.subs, &mut subs);
                plain_remove_stored(&mut subs, &sub);
                self.subs = subs;
                proof {
                    lemma_plain_inv_wf(self.subs@);
                }
                Ok(())
            },
        }
    }

    fn match_subject(&mut self, subject: &str) -> (r: Result<Arc<SubResult<C>>, SubListError>) {
        proof {
            use_type_invariant(&*self);
            lemma_plain_inv_wf(self.subs@);
            lemma_grouped_inv_wf(self.qsubs@);
        }
        let key = subject.to_owned();
        let mut found: SubResult<C> = SubResult { subs: Vec::new(), qsubs: Vec::new() };
        match find(&self.subs, &key) {
            Some(i) => {
                proof {
                    lemma_plain_found(self.subs@, i as int);
                }
                found.subs = snapshot(&self.subs[i].value);
            },
            None => {},
        }
        match find(&self.qsubs, &key) {
            Some(i) => {
                proof {
                    lemma_grouped_found(self.qsubs@, i as int);
                    lemma_groups_view(self.qsubs@[i as int].value@);
                }
                found.qsubs = snapshot_groups(&self.qsubs[i].value);
            },
            None => {},
        }
        assert(found.subs@ =~= self@.plain_members(subject@));
        assert(found.groups() =~= self@.group_members(subject@));
        Ok(Arc::new(found))
    }
}

} // verus!
