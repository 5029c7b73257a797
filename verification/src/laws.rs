//! What holds of every registry: the invariant that insertion and removal
//! keep, and what each of them does to what a subject matches.

use crate::error::SubListError;
use crate::model::{
    bucket_wf, group_at, groups_insert, groups_remove, groups_wf, has_group,
    lemma_bucket_insert_wf, lemma_bucket_remove_wf, lemma_group_at, lemma_groups_insert_wf,
    lemma_groups_remove_wf, Group, Registry,
};
use crate::ordered::{
    ascending, has_token, lemma_ordered_insert, lemma_ordered_remove, lemma_rank_splits,
    lemma_split_is_rank, ordered_insert, ordered_remove, rank,
};
use crate::subscription::Subscription;
use std::sync::Arc;
use vstd::prelude::*;

verus! {

/// The empty registry is well formed.
pub proof fn law_empty_is_well_formed<C>()
    ensures
        Registry::<C>::empty().wf(),
{
}

/// Insertion keeps a registry well formed: no bucket is left empty and every
/// subscription stands under its own subject and queue.
pub proof fn law_insert_keeps_well_formed<C>(r: Registry<C>, sub: Arc<Subscription<C>>)
    requires
        r.wf(),
    ensures
        r.insert(sub).wf(),
{
    let subject = sub.subject@;
    let n = r.insert(sub);
    match sub.queue_name() {
        Some(name) => {
            lemma_groups_insert_wf(r.groups(subject), name, sub, subject);
            assert forall|s: Seq<char>| #[trigger] n.grouped.contains_key(s) implies groups_wf(
                n.grouped[s],
                s,
            ) by {
                if s != subject {
                    assert(r.grouped.contains_key(s));
                }
            }
        },
        None => {
            lemma_bucket_insert_wf(r.plain_members(subject), sub, subject, None);
            assert forall|s: Seq<char>| #[trigger] n.plain.contains_key(s) implies bucket_wf(
                n.plain[s],
                s,
                None,
            ) by {
                if s != subject {
                    assert(r.plain.contains_key(s));
                }
            }
        },
    }
}

/// Removal keeps a registry well formed, whether it succeeds or not: what is
/// left empty is pruned at once.
pub proof fn law_remove_keeps_well_formed<C>(r: Registry<C>, sub: Arc<Subscription<C>>)
    requires
        r.wf(),
    ensures
        r.remove(sub) matches Ok(next) ==> next.wf(),
{
    let subject = sub.subject@;
    match r.remove(sub) {
        Ok(n) => {
            match sub.queue_name() {
                Some(name) => {
                    assert(r.grouped.contains_key(subject));
                    lemma_groups_remove_wf(r.groups(subject), name, sub.token, subject);
                    assert forall|s: Seq<char>| #[trigger]
                        n.grouped.contains_key(s) implies groups_wf(n.grouped[s], s) by {
                        if s != subject {
                            assert(r.grouped.contains_key(s));
                        }
                    }
                },
                None => {
                    if r.plain.contains_key(subject) {
                        lemma_bucket_remove_wf(r.plain[subject], sub.token, subject, None);
                    }
                    assert forall|s: Seq<char>| #[trigger]
                        n.plain.contains_key(s) implies bucket_wf(n.plain[s], s, None) by {
                        if s != subject {
                            assert(r.plain.contains_key(s));
                        }
                    }
                },
            }
        },
        Err(_) => {},
    }
}

/// No subscription is at once a plain member and a member of a queue group.
pub proof fn law_plain_and_queue_members_differ<C>(
    r: Registry<C>,
    plain_subject: Seq<char>,
    queue_subject: Seq<char>,
    name: Seq<char>,
    sub: Arc<Subscription<C>>,
)
    requires
        r.wf(),
    ensures
        !(r.plain_members(plain_subject).contains(sub) && r.queue_members(
            queue_subject,
            name,
        ).contains(sub)),
{
    let p = r.plain_members(plain_subject);
    let q = r.queue_members(queue_subject, name);
    if p.contains(sub) && q.contains(sub) {
        let i = choose|i: int| 0 <= i < p.len() && p[i] == sub;
        assert(r.plain.contains_key(plain_subject));
        assert(p[i].queue_name() == None::<Seq<char>>);
        let gs = r.groups(queue_subject);
        assert(r.grouped.contains_key(queue_subject));
        let g = group_at(gs, name);
        let k = choose|k: int| 0 <= k < q.len() && q[k] == sub;
        assert(bucket_wf(gs[g].members, queue_subject, Some(gs[g].name)));
        assert(gs[g].members[k].queue_name() == Some(gs[g].name));
    }
}

/// A subject on which no subscription is registered matches nothing: no
/// plain subscription and no queue group.
pub proof fn law_unsubscribed_subject_matches_nothing<C>(r: Registry<C>, subject: Seq<char>)
    requires
        r.wf(),
        forall|sub: Arc<Subscription<C>>| sub.subject@ == subject ==> !r.holds(sub),
    ensures
        r.plain_members(subject) == Seq::<Arc<Subscription<C>>>::empty(),
        r.group_members(subject) == Seq::<Seq<Arc<Subscription<C>>>>::empty(),
        !r.plain.contains_key(subject),
        !r.grouped.contains_key(subject),
{
    if r.plain.contains_key(subject) {
        let b = r.plain[subject];
        assert(bucket_wf(b, subject, None));
        let m = b[0];
        assert(m.subject@ == subject && m.queue_name() == None::<Seq<char>>);
        assert(r.plain_members(subject).contains(m));
        assert(r.holds(m));
    }
    if r.grouped.contains_key(subject) {
        let gs = r.grouped[subject];
        assert(groups_wf(gs, subject));
        lemma_group_at(gs, 0);
        assert(bucket_wf(gs[0].members, subject, Some(gs[0].name)));
        let m = gs[0].members[0];
        assert(m.subject@ == subject && m.queue_name() == Some(gs[0].name));
        assert(r.queue_members(subject, gs[0].name).contains(m));
        assert(r.holds(m));
    }
    assert(r.group_members(subject) =~= Seq::<Seq<Arc<Subscription<C>>>>::empty());
}

/// The registry that holds nothing matches nothing on any subject.
pub proof fn law_empty_matches_nothing<C>(subject: Seq<char>)
    ensures
        Registry::<C>::empty().plain_members(subject) == Seq::<Arc<Subscription<C>>>::empty(),
        Registry::<C>::empty().group_members(subject) == Seq::<Seq<Arc<Subscription<C>>>>::empty(),
{
    assert(Registry::<C>::empty().group_members(subject) =~= Seq::<
        Seq<Arc<Subscription<C>>>,
    >::empty());
}

/// Inserting a plain subscription touches its own subject's plain bucket and
/// nothing else. The bucket gains the subscription and its token and is one
/// longer; where the token was there already, the registry is what it was.
pub proof fn law_insert_plain<C>(r: Registry<C>, sub: Arc<Subscription<C>>)
    requires
        r.wf(),
        sub.queue_name() is None,
    ensures
        r.insert(sub).grouped == r.grouped,
        forall|s: Seq<char>|
            s != sub.subject@ ==> r.insert(sub).plain_members(s) == r.plain_members(s),
        ({
            let before = r.plain_members(sub.subject@);
            let after = r.insert(sub).plain_members(sub.subject@);
            &&& after == ordered_insert(before, sub)
            &&& forall|t: u64| has_token(after, t) <==> (has_token(before, t) || t == sub.token)
            &&& forall|m: Arc<Subscription<C>>| before.contains(m) ==> after.contains(m)
            &&& has_token(before, sub.token) ==> r.insert(sub) == r
            &&& !has_token(before, sub.token) ==> after.len() == before.len() + 1
                && r.insert(sub).holds(sub)
        }),
{
    let before = r.plain_members(sub.subject@);
    if r.plain.contains_key(sub.subject@) {
        assert(bucket_wf(before, sub.subject@, None));
    }
    lemma_ordered_insert(before, sub);
    lemma_rank_splits(before, sub.token);
    if has_token(before, sub.token) {
        assert(r.insert(sub).plain =~= r.plain);
    } else {
        let after = ordered_insert(before, sub);
        assert(after[rank(before, sub.token)] == sub);
        assert(after.contains(sub));
    }
}

/// Inserting any number of plain subscriptions on one subject, with tokens
/// that differ from each other and from those registered there, makes the
/// subject match every one of them: the match grows by their number, whatever
/// their subscriber ids are.
pub proof fn law_distinct_plain_inserts_all_match<C>(
    r: Registry<C>,
    subs: Seq<Arc<Subscription<C>>>,
    subject: Seq<char>,
)
    requires
        r.wf(),
        forall|i: int|
            0 <= i < subs.len() ==> (#[trigger] subs[i]).subject@ == subject
                && subs[i].queue_name() is None,
        forall|i: int, j: int|
            0 <= i < j < subs.len() ==> (#[trigger] subs[i]).token != (#[trigger] subs[j]).token,
        forall|i: int|
            0 <= i < subs.len() ==> !has_token(
                r.plain_members(subject),
                (#[trigger] subs[i]).token,
            ),
    ensures
        r.insert_all(subs).wf(),
        r.insert_all(subs).grouped == r.grouped,
        r.insert_all(subs).plain_members(subject).len() == r.plain_members(subject).len()
            + subs.len(),
        forall|i: int|
            0 <= i < subs.len() ==> r.insert_all(subs).plain_members(subject).contains(
                #[trigger] subs[i],
            ),
        forall|t: u64|
            has_token(r.insert_all(subs).plain_members(subject), t) <==> (has_token(
                r.plain_members(subject),
                t,
            ) || has_token(subs, t)),
    decreases subs.len(),
{
    if subs.len() > 0 {
        let front = subs.drop_last();
        let last = subs.last();
        assert forall|i: int| 0 <= i < front.len() implies front[i] == subs[i] by {}
        assert forall|i: int, j: int| 0 <= i < j < front.len() implies (#[trigger] front[i]).token
            != (#[trigger] front[j]).token by {
            assert(front[i] == subs[i] && front[j] == subs[j]);
        }
        assert forall|i: int| 0 <= i < front.len() implies !has_token(
            r.plain_members(subject),
            (#[trigger] front[i]).token,
        ) by {
            assert(front[i] == subs[i]);
        }
        assert forall|i: int| 0 <= i < front.len() implies (#[trigger] front[i]).subject@
            == subject && front[i].queue_name() is None by {
            assert(front[i] == subs[i]);
        }
        law_distinct_plain_inserts_all_match(r, front, subject);
        let mid = r.insert_all(front);
        let before = mid.plain_members(subject);
        if has_token(front, last.token) {
            let i = choose|i: int|
                0 <= i < front.len() && (#[trigger] front[i]).token == last.token;
            assert(subs[i].token != subs[subs.len() - 1].token);
        }
        assert(!has_token(before, last.token));
        law_insert_keeps_well_formed(mid, last);
        law_insert_plain(mid, last);
        if mid.plain.contains_key(subject) {
            assert(bucket_wf(before, subject, None));
        }
        lemma_ordered_insert(before, last);
        let after = r.insert_all(subs).plain_members(subject);
        assert(after == ordered_insert(before, last));
        assert forall|i: int| 0 <= i < subs.len() implies after.contains(#[trigger] subs[i]) by {
            if i < front.len() {
                assert(before.contains(front[i]));
            } else {
                assert(mid.insert(last).holds(last));
            }
        }
        assert forall|t: u64|
            has_token(after, t) <==> (has_token(r.plain_members(subject), t) || has_token(
                subs,
                t,
            )) by {
            if has_token(front, t) {
                let i = choose|i: int| 0 <= i < front.len() && (#[trigger] front[i]).token == t;
                assert(subs[i].token == t);
            }
            if t == last.token {
                assert(subs[subs.len() - 1].token == t);
            }
            if has_token(subs, t) {
                let i = choose|i: int| 0 <= i < subs.len() && (#[trigger] subs[i]).token == t;
                if i < front.len() {
                    assert(front[i].token == t);
                }
            }
        }
    }
}

/// Inserting a queue subscription touches the group of its queue's name on
/// its own subject and nothing else. Where that group is there, it gains the
/// subscription and its token and is one longer, and no group is added; where
/// the token was there already, the registry is what it was. Where the group
/// is not there, it is made, after the subject's other groups, with the
/// subscription as its only member.
pub proof fn law_insert_queue<C>(r: Registry<C>, sub: Arc<Subscription<C>>, name: Seq<char>)
    requires
        r.wf(),
        sub.queue_name() == Some(name),
    ensures
        r.insert(sub).plain == r.plain,
        forall|s: Seq<char>| s != sub.subject@ ==> r.insert(sub).groups(s) == r.groups(s),
        forall|other: Seq<char>|
            other != name ==> r.insert(sub).queue_members(sub.subject@, other) == r.queue_members(
                sub.subject@,
                other,
            ),
        forall|other: Seq<char>|
            has_group(r.insert(sub).groups(sub.subject@), other) <==> (has_group(
                r.groups(sub.subject@),
                other,
            ) || other == name),
        ({
            let groups = r.groups(sub.subject@);
            let before = r.queue_members(sub.subject@, name);
            let after = r.insert(sub).queue_members(sub.subject@, name);
            &&& after == ordered_insert(before, sub)
            &&& forall|t: u64| has_token(after, t) <==> (has_token(before, t) || t == sub.token)
            &&& forall|m: Arc<Subscription<C>>| before.contains(m) ==> after.contains(m)
            &&& has_token(before, sub.token) ==> r.insert(sub) == r
            &&& !has_token(before, sub.token) ==> after.len() == before.len() + 1
                && r.insert(sub).holds(sub)
            &&& has_group(groups, name) ==> r.insert(sub).groups(sub.subject@).len()
                == groups.len()
            &&& !has_group(groups, name) ==> r.insert(sub).groups(sub.subject@) == groups.push(
                Group { name, members: seq![sub] },
            )
        }),
{
    let subject = sub.subject@;
    let gs = r.groups(subject);
    let n = r.insert(sub);
    let ns = n.groups(subject);
    assert(ns == groups_insert(gs, name, sub));
    law_insert_keeps_well_formed(r, sub);
    assert(groups_wf(ns, subject));
    let before = r.queue_members(subject, name);
    assert forall|k: int| 0 <= k < gs.len() implies (#[trigger] ns[k]).name == gs[k].name by {}
    if has_group(gs, name) {
        assert(r.grouped.contains_key(subject));
        let i = group_at(gs, name);
        assert(bucket_wf(gs[i].members, subject, Some(gs[i].name)));
        assert(ns[i].name == name);
        lemma_group_at(ns, i);
        assert forall|k: int| 0 <= k < gs.len() && k != i implies #[trigger] ns[k] == gs[k] by {}
        if has_token(before, sub.token) {
            assert(ns =~= gs);
            assert(n.grouped =~= r.grouped);
        }
    } else {
        let last = gs.len() as int;
        assert(ns[last].name == name);
        lemma_group_at(ns, last);
        assert(ordered_insert(Seq::<Arc<Subscription<C>>>::empty(), sub) =~= seq![sub]);
        assert(before =~= Seq::empty());
        assert forall|k: int| 0 <= k < gs.len() implies #[trigger] ns[k] == gs[k] by {}
    }
    assert forall|other: Seq<char>|
        has_group(ns, other) <==> (has_group(gs, other) || other == name) by {
        if has_group(ns, other) {
            let k = group_at(ns, other);
            if k < gs.len() {
                assert(gs[k].name == other);
            }
        }
        if has_group(gs, other) {
            let k = group_at(gs, other);
            assert(ns[k].name == other);
        }
    }
    assert forall|other: Seq<char>| other != name implies n.queue_members(subject, other)
        == r.queue_members(subject, other) by {
        if has_group(gs, other) {
            assert(r.grouped.contains_key(subject));
            let k = group_at(gs, other);
            assert(ns[k] == gs[k]);
            lemma_group_at(ns, k);
        }
    }
    lemma_rank_splits(before, sub.token);
    lemma_ordered_insert(before, sub);
    if !has_token(before, sub.token) {
        let after = ordered_insert(before, sub);
        assert(after[rank(before, sub.token)] == sub);
        assert(after.contains(sub));
    }
}

/// Two subscriptions on a subject that has no queue group yet, in queues of
/// different names, make two groups, in that order, each with its own member
/// and nothing else.
pub proof fn law_two_queues_make_two_groups<C>(
    r: Registry<C>,
    first: Arc<Subscription<C>>,
    second: Arc<Subscription<C>>,
    subject: Seq<char>,
)
    requires
        r.wf(),
        r.groups(subject).len() == 0,
        first.subject@ == subject,
        second.subject@ == subject,
        first.queue_name() is Some,
        second.queue_name() is Some,
        first.queue_name() != second.queue_name(),
    ensures
        r.insert(first).insert(second).group_members(subject) == seq![seq![first], seq![second]],
        r.insert(first).insert(second).plain_members(subject) == r.plain_members(subject),
{
    let q1 = first.queue_name()->0;
    let q2 = second.queue_name()->0;
    law_insert_queue(r, first, q1);
    let mid = r.insert(first);
    law_insert_keeps_well_formed(r, first);
    let ms = mid.groups(subject);
    assert(ms =~= seq![Group { name: q1, members: seq![first] }]);
    if has_group(ms, q2) {
        let k = group_at(ms, q2);
        assert(ms[k].name == q1);
    }
    law_insert_queue(mid, second, q2);
    let ns = mid.insert(second).groups(subject);
    assert(ns =~= seq![
        Group { name: q1, members: seq![first] },
        Group { name: q2, members: seq![second] },
    ]);
    assert(mid.insert(second).group_members(subject) =~= seq![seq![first], seq![second]]);
}

/// Removing a registered member from a queue group changes that group alone.
/// A group of more than one member loses exactly that member, and every group
/// stays where it is; a group of one member goes, and the groups after it
/// move up; and when it was the subject's only group, the subject is no key
/// of the queue side any more. The plain side, every other subject and every
/// other group are untouched.
pub proof fn law_remove_queue_member<C>(r: Registry<C>, sub: Arc<Subscription<C>>, name: Seq<char>)
    requires
        r.wf(),
        sub.queue_name() == Some(name),
        has_token(r.queue_members(sub.subject@, name), sub.token),
    ensures
        r.remove(sub) matches Ok(next) && {
            let subject = sub.subject@;
            let groups = r.groups(subject);
            let at = group_at(groups, name);
            let before = r.queue_members(subject, name);
            let after = next.queue_members(subject, name);
            &&& next.plain == r.plain
            &&& forall|s: Seq<char>| s != subject ==> next.groups(s) == r.groups(s)
            &&& forall|other: Seq<char>|
                other != name ==> next.queue_members(subject, other) == r.queue_members(
                    subject,
                    other,
                )
            &&& forall|other: Seq<char>|
                has_group(next.groups(subject), other) <==> (has_group(groups, other) && (other
                    != name || before.len() > 1))
            &&& after == ordered_remove(before, sub.token)
            &&& after.len() == before.len() - 1
            &&& forall|t: u64| has_token(after, t) <==> (has_token(before, t) && t != sub.token)
            &&& before.len() > 1 ==> {
                &&& next.groups(subject).len() == groups.len()
                &&& forall|k: int|
                    0 <= k < groups.len() && k != at ==> #[trigger] next.groups(subject)[k]
                        == groups[k]
            }
            &&& before.len() == 1 ==> {
                &&& next.groups(subject) == groups.remove(at)
                &&& next.groups(subject).len() == groups.len() - 1
            }
            &&& (before.len() == 1 && groups.len() == 1) ==> !next.grouped.contains_key(subject)
        },
{
    let subject = sub.subject@;
    let gs = r.groups(subject);
    assert(has_group(gs, name));
    assert(r.grouped.contains_key(subject));
    assert(groups_wf(gs, subject));
    let at = group_at(gs, name);
    let before = gs[at].members;
    assert(bucket_wf(before, subject, Some(gs[at].name)));
    lemma_ordered_remove(before, sub.token);
    let rest = ordered_remove(before, sub.token);
    let next = r.remove(sub)->Ok_0;
    let ns = groups_remove(gs, name, sub.token);
    law_remove_keeps_well_formed(r, sub);
    assert(next.groups(subject) =~= ns);
    if rest.len() > 0 {
        assert(groups_wf(ns, subject));
        assert(ns[at].name == name);
        lemma_group_at(ns, at);
        assert forall|k: int| 0 <= k < gs.len() implies (#[trigger] ns[k]).name == gs[k].name by {}
        assert forall|other: Seq<char>| has_group(ns, other) <==> has_group(gs, other) by {
            if has_group(ns, other) {
                let k = group_at(ns, other);
                assert(gs[k].name == other);
            }
            if has_group(gs, other) {
                let k = group_at(gs, other);
                assert(ns[k].name == other);
            }
        }
        assert forall|other: Seq<char>| other != name implies next.queue_members(subject, other)
            == r.queue_members(subject, other) by {
            if has_group(gs, other) {
                let k = group_at(gs, other);
                assert(ns[k] == gs[k]);
                lemma_group_at(ns, k);
            }
        }
    } else {
        assert(ns == gs.remove(at));
        assert(ns.len() == 0 || groups_wf(ns, subject));
        assert forall|k: int| 0 <= k < ns.len() implies #[trigger] ns[k] == gs[if k < at {
            k
        } else {
            k + 1
        }] by {}
        assert forall|other: Seq<char>|
            has_group(ns, other) <==> (has_group(gs, other) && other != name) by {
            if has_group(ns, other) {
                let k = group_at(ns, other);
                let x = if k < at { k } else { k + 1 };
                assert(ns[k] == gs[x]);
                assert(gs[x].name == other);
                lemma_group_at(gs, x);
            }
            if has_group(gs, other) && other != name {
                let x = group_at(gs, other);
                let k = if x < at { x } else { x - 1 };
                assert(ns[k] == gs[x]);
                assert(ns[k].name == other);
            }
        }
        assert forall|other: Seq<char>| other != name implies next.queue_members(subject, other)
            == r.queue_members(subject, other) by {
            if has_group(gs, other) {
                let x = group_at(gs, other);
                let k = if x < at { x } else { x - 1 };
                assert(ns[k] == gs[x]);
                lemma_group_at(ns, k);
            }
        }
        assert(next.queue_members(subject, name) =~= rest);
    }
}

/// Removing a registered plain subscription takes exactly it out of its
/// subject's plain bucket. When it was the last one there, the subject is no
/// key of the plain side any more and matches no plain subscription. The
/// queue side and every other subject are untouched.
pub proof fn law_remove_plain_member<C>(r: Registry<C>, sub: Arc<Subscription<C>>)
    requires
        r.wf(),
        sub.queue_name() is None,
        has_token(r.plain_members(sub.subject@), sub.token),
    ensures
        r.remove(sub) matches Ok(next) && {
            let subject = sub.subject@;
            let before = r.plain_members(subject);
            let after = next.plain_members(subject);
            &&& next.grouped == r.grouped
            &&& forall|s: Seq<char>| s != subject ==> next.plain_members(s) == r.plain_members(s)
            &&& after == ordered_remove(before, sub.token)
            &&& after.len() == before.len() - 1
            &&& forall|t: u64| has_token(after, t) <==> (has_token(before, t) && t != sub.token)
            &&& before.len() == 1 ==> !next.plain.contains_key(subject)
        },
{
    let subject = sub.subject@;
    let before = r.plain_members(subject);
    assert(r.plain.contains_key(subject));
    assert(bucket_wf(before, subject, None));
    lemma_ordered_remove(before, sub.token);
    let next = r.remove(sub)->Ok_0;
    assert(next.plain_members(subject) =~= ordered_remove(before, sub.token));
}

/// Removing a plain subscription whose token is not registered on its subject
/// succeeds and changes nothing.
pub proof fn law_remove_absent_plain<C>(r: Registry<C>, sub: Arc<Subscription<C>>)
    requires
        r.wf(),
        sub.queue_name() is None,
        !has_token(r.plain_members(sub.subject@), sub.token),
    ensures
        r.remove(sub) == Ok::<Registry<C>, SubListError>(r),
{
    let subject = sub.subject@;
    let next = r.remove(sub)->Ok_0;
    if r.plain.contains_key(subject) {
        assert(bucket_wf(r.plain[subject], subject, None));
        assert(next.plain =~= r.plain);
    } else {
        assert(next.plain =~= r.plain);
    }
}

/// Removal fails exactly for a queue subscription whose subject has no group
/// of its queue's name, and then with `SubscriptionNotFound`. A queue
/// subscription whose group is there but does not hold its token is removed
/// successfully, to no effect.
pub proof fn law_remove_fails_without_group<C>(r: Registry<C>, sub: Arc<Subscription<C>>)
    requires
        r.wf(),
    ensures
        r.remove(sub) is Err <==> (sub.queue_name() matches Some(name) && !has_group(
            r.groups(sub.subject@),
            name,
        )),
        r.remove(sub) matches Err(e) ==> e == SubListError::SubscriptionNotFound,
        (sub.queue_name() matches Some(name) && has_group(r.groups(sub.subject@), name)
            && !has_token(r.queue_members(sub.subject@, name), sub.token)) ==> r.remove(sub)
            == Ok::<Registry<C>, SubListError>(r),
{
    let subject = sub.subject@;
    match sub.queue_name() {
        Some(name) => {
            let gs = r.groups(subject);
            if has_group(gs, name) && !has_token(r.queue_members(subject, name), sub.token) {
                assert(r.grouped.contains_key(subject));
                assert(groups_wf(gs, subject));
                let at = group_at(gs, name);
                assert(bucket_wf(gs[at].members, subject, Some(gs[at].name)));
                let ns = groups_remove(gs, name, sub.token);
                assert(ns =~= gs);
                let next = r.remove(sub)->Ok_0;
                assert(next.grouped =~= r.grouped);
            }
        },
        None => {},
    }
}

/// Inserting a subscription a second time changes nothing.
pub proof fn law_insert_twice_is_insert_once<C>(r: Registry<C>, sub: Arc<Subscription<C>>)
    requires
        r.wf(),
    ensures
        r.insert(sub).insert(sub) == r.insert(sub),
{
    law_insert_keeps_well_formed(r, sub);
    match sub.queue_name() {
        Some(name) => {
            law_insert_queue(r, sub, name);
            law_insert_queue(r.insert(sub), sub, name);
        },
        None => {
            law_insert_plain(r, sub);
            law_insert_plain(r.insert(sub), sub);
        },
    }
}

/// Taking out what was just put in gives the bucket back as it was.
proof fn lemma_insert_then_remove<C>(s: Seq<Arc<Subscription<C>>>, sub: Arc<Subscription<C>>)
    requires
        ascending(s),
        !has_token(s, sub.token),
    ensures
        has_token(ordered_insert(s, sub), sub.token),
        ordered_remove(ordered_insert(s, sub), sub.token) == s,
{
    let r = rank(s, sub.token);
    let n = ordered_insert(s, sub);
    lemma_rank_splits(s, sub.token);
    lemma_ordered_insert(s, sub);
    assert(n[r].token == sub.token);
    assert forall|j: int| 0 <= j < r implies (#[trigger] n[j]).token < sub.token by {
        assert(n[j] == s[j]);
    }
    assert forall|j: int| r <= j < n.len() implies (#[trigger] n[j]).token >= sub.token by {
        if j > r {
            assert(n[j] == s[j - 1]);
        }
    }
    lemma_split_is_rank(n, sub.token, r);
    assert(n.remove(r) =~= s);
}

/// A subscription whose token is new to its bucket can be inserted and then
/// removed, and the registry is what it was before: nothing is left behind,
/// not even an empty group or subject.
pub proof fn law_insert_then_remove_restores<C>(r: Registry<C>, sub: Arc<Subscription<C>>)
    requires
        r.wf(),
        match sub.queue_name() {
            Some(name) => !has_token(r.queue_members(sub.subject@, name), sub.token),
            None => !has_token(r.plain_members(sub.subject@), sub.token),
        },
    ensures
        r.insert(sub).remove(sub) == Ok::<Registry<C>, SubListError>(r),
{
    let subject = sub.subject@;
    let mid = r.insert(sub);
    law_insert_keeps_well_formed(r, sub);
    match sub.queue_name() {
        Some(name) => {
            let gs = r.groups(subject);
            let ms = mid.groups(subject);
            assert(ms == groups_insert(gs, name, sub));
            assert(groups_wf(ms, subject));
            if has_group(gs, name) {
                assert(r.grouped.contains_key(subject));
                assert(groups_wf(gs, subject));
                let i = group_at(gs, name);
                assert(bucket_wf(gs[i].members, subject, Some(gs[i].name)));
                lemma_insert_then_remove(gs[i].members, sub);
                assert(ms[i].name == name);
                lemma_group_at(ms, i);
                assert(groups_remove(ms, name, sub.token) =~= gs);
            } else {
                let last = gs.len() as int;
                lemma_insert_then_remove(Seq::empty(), sub);
                assert(ordered_insert(Seq::<Arc<Subscription<C>>>::empty(), sub) =~= seq![sub]);
                assert(ms[last].name == name);
                lemma_group_at(ms, last);
                assert(groups_remove(ms, name, sub.token) =~= gs);
            }
            let back = mid.remove(sub)->Ok_0;
            assert(back.grouped =~= r.grouped);
        },
        None => {
            let s = r.plain_members(subject);
            if r.plain.contains_key(subject) {
                assert(bucket_wf(s, subject, None));
            }
            lemma_insert_then_remove(s, sub);
            let back = mid.remove(sub)->Ok_0;
            assert(back.plain =~= r.plain);
        },
    }
}

} // verus!
