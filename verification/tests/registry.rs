use std::sync::Arc;
use sublist::{SimpleSubList, SubListError, SubListTrait, SubResult, Subscription};
use tokio::sync::Mutex;

type Sender = Arc<Mutex<u32>>;

fn sender() -> Sender {
    Arc::new(Mutex::new(0))
}

fn plain(subject: &str, sid: &str, token: u64) -> Arc<Subscription<u32>> {
    Arc::new(Subscription::new(subject, None, sid, token, sender()))
}

fn queued(subject: &str, queue: &str, sid: &str, token: u64) -> Arc<Subscription<u32>> {
    Arc::new(Subscription::new(subject, Some(queue), sid, token, sender()))
}

fn tokens(subs: &Vec<Arc<Subscription<u32>>>) -> Vec<u64> {
    subs.iter().map(|s| s.token).collect()
}

fn group_tokens(found: &SubResult<u32>) -> Vec<Vec<u64>> {
    found.qsubs.iter().map(tokens).collect()
}

#[test]
fn test_match() {
    let mut sl = SimpleSubList::default();
    let mut subs = Vec::new();
    let r = sl.match_subject("test").unwrap();
    assert_eq!(r.subs.len(), 0);
    assert_eq!(r.qsubs.len(), 0);
    let sub = Arc::new(Subscription::new("test", None, "1", 1, sender()));
    subs.push(sub.clone());
    let r = sl.insert(sub);
    assert!(!r.is_err());
    let r = sl.match_subject("test").unwrap();
    assert_eq!(r.subs.len(), 1);
    assert_eq!(r.qsubs.len(), 0);
    let sub = Arc::new(Subscription::new("test", None, "1", 2, sender()));
    subs.push(sub.clone());
    let r = sl.insert(sub);
    assert!(!r.is_err());
    let r = sl.match_subject("test").unwrap();
    assert_eq!(r.subs.len(), 2);
    assert_eq!(r.qsubs.len(), 0);
    let sub = Arc::new(Subscription::new("test", Some("q"), "1", 3, sender()));
    subs.push(sub.clone());
    let r = sl.insert(sub);
    assert!(!r.is_err());
    let r = sl.match_subject("test").unwrap();
    assert_eq!(r.subs.len(), 2);
    assert_eq!(r.qsubs.len(), 1);
    let sub = Arc::new(Subscription::new("test", Some("q"), "1", 4, sender()));
    subs.push(sub.clone());
    let r = sl.insert(sub);
    assert!(!r.is_err());
    let r = sl.match_subject("test").unwrap();
    assert_eq!(r.subs.len(), 2);
    assert_eq!(r.qsubs.len(), 1);

    let sub = Arc::new(Subscription::new("test", Some("q2"), "1", 5, sender()));
    subs.push(sub.clone());
    let r = sl.insert(sub);
    assert!(!r.is_err());
    let r = sl.match_subject("test").unwrap();
    assert_eq!(r.subs.len(), 2);
    assert_eq!(r.qsubs.len(), 2);

    let s = subs.pop().unwrap();
    let r = sl.remove(s);
    assert!(!r.is_err());
    let r = sl.match_subject("test").unwrap();
    assert_eq!(r.subs.len(), 2);
    assert_eq!(r.qsubs.len(), 1);

    let s = subs.pop().unwrap();
    let r = sl.remove(s);
    assert!(!r.is_err());
    let r = sl.match_subject("test").unwrap();
    assert_eq!(r.subs.len(), 2);
    assert_eq!(r.qsubs.len(), 1);

    let s = subs.pop().unwrap();
    let r = sl.remove(s);
    assert!(!r.is_err());
    let r = sl.match_subject("test").unwrap();
    assert_eq!(r.subs.len(), 2);
    assert_eq!(r.qsubs.len(), 0);

    let s = subs.pop().unwrap();
    let r = sl.remove(s);
    assert!(!r.is_err());
    let r = sl.match_subject("test").unwrap();
    assert_eq!(r.subs.len(), 1);
    assert_eq!(r.qsubs.len(), 0);

    let s = subs.pop().unwrap();
    let r = sl.remove(s);
    assert!(!r.is_err());
    let r = sl.match_subject("test").unwrap();
    assert_eq!(r.subs.len(), 0);
    assert_eq!(r.qsubs.len(), 0);
}

#[test]
fn empty_registry_matches_nothing() {
    let mut sl: SimpleSubList<u32> = SimpleSubList::default();
    for subject in ["test", "", "a.b.c", "*"] {
        let r = sl.match_subject(subject).unwrap();
        assert_eq!(r.subs.len(), 0);
        assert_eq!(r.qsubs.len(), 0);
        assert!(r.is_empty());
    }
}

#[test]
fn unsubscribed_subject_matches_nothing_beside_a_subscribed_one() {
    let mut sl = SimpleSubList::default();
    sl.insert(plain("orders", "1", 1)).unwrap();
    sl.insert(queued("orders", "workers", "2", 2)).unwrap();
    let r = sl.match_subject("invoices").unwrap();
    assert!(r.is_empty());
    let r = sl.match_subject("orders").unwrap();
    assert!(!r.is_empty());
}

#[test]
fn subjects_match_by_exact_equality_only() {
    let mut sl = SimpleSubList::default();
    sl.insert(plain("orders.new", "1", 1)).unwrap();
    for other in ["orders", "orders.", "orders.*", "orders.>", "orders.new.eu", "Orders.new", ""] {
        assert!(sl.match_subject(other).unwrap().is_empty());
    }
    assert_eq!(tokens(&sl.match_subject("orders.new").unwrap().subs), vec![1]);
}

#[test]
fn distinct_instances_with_one_subscriber_id_all_match() {
    let mut sl = SimpleSubList::default();
    let order = [40u64, 7, 19, 3, 88, 21, 5, 64, 1, 30];
    for (n, token) in order.iter().enumerate() {
        sl.insert(plain("test", "same-sid", *token)).unwrap();
        let r = sl.match_subject("test").unwrap();
        assert_eq!(r.subs.len(), n + 1);
        assert_eq!(r.qsubs.len(), 0);
    }
    let r = sl.match_subject("test").unwrap();
    assert_eq!(tokens(&r.subs), vec![1, 3, 5, 7, 19, 21, 30, 40, 64, 88]);
    assert!(r.subs.iter().all(|s| s.sid == "same-sid"));
}

#[test]
fn plain_members_come_out_in_ascending_token_order() {
    let mut sl = SimpleSubList::default();
    sl.insert(plain("t", "c", u64::MAX)).unwrap();
    sl.insert(plain("t", "a", 0)).unwrap();
    sl.insert(plain("t", "b", 1 << 40)).unwrap();
    let r = sl.match_subject("t").unwrap();
    assert_eq!(tokens(&r.subs), vec![0, 1 << 40, u64::MAX]);
    let sids: Vec<&str> = r.subs.iter().map(|s| s.sid.as_str()).collect();
    assert_eq!(sids, vec!["a", "b", "c"]);
}

#[test]
fn inserting_the_same_instance_twice_keeps_one_member() {
    let mut sl = SimpleSubList::default();
    let sub = plain("test", "1", 9);
    assert_eq!(sl.insert(sub.clone()), Ok(()));
    assert_eq!(sl.insert(sub.clone()), Ok(()));
    let r = sl.match_subject("test").unwrap();
    assert_eq!(r.subs.len(), 1);
    assert!(Arc::ptr_eq(&r.subs[0], &sub));
}

#[test]
fn a_registered_token_keeps_the_member_that_came_first() {
    let mut sl = SimpleSubList::default();
    sl.insert(plain("test", "first", 9)).unwrap();
    sl.insert(plain("test", "second", 9)).unwrap();
    let r = sl.match_subject("test").unwrap();
    assert_eq!(r.subs.len(), 1);
    assert_eq!(r.subs[0].sid, "first");

    sl.insert(queued("test", "q", "first", 4)).unwrap();
    sl.insert(queued("test", "q", "second", 4)).unwrap();
    let r = sl.match_subject("test").unwrap();
    assert_eq!(r.qsubs.len(), 1);
    assert_eq!(r.qsubs[0].len(), 1);
    assert_eq!(r.qsubs[0][0].sid, "first");
}

#[test]
fn one_token_may_stand_in_several_buckets() {
    let mut sl = SimpleSubList::default();
    sl.insert(plain("a", "1", 5)).unwrap();
    sl.insert(plain("b", "1", 5)).unwrap();
    sl.insert(queued("a", "q", "1", 5)).unwrap();
    sl.insert(queued("a", "q2", "1", 5)).unwrap();
    let a = sl.match_subject("a").unwrap();
    assert_eq!(tokens(&a.subs), vec![5]);
    assert_eq!(group_tokens(&a), vec![vec![5], vec![5]]);
    assert_eq!(tokens(&sl.match_subject("b").unwrap().subs), vec![5]);

    sl.remove(queued("a", "q", "1", 5)).unwrap();
    let a = sl.match_subject("a").unwrap();
    assert_eq!(tokens(&a.subs), vec![5]);
    assert_eq!(group_tokens(&a), vec![vec![5]]);
    assert_eq!(a.qsubs[0][0].queue.as_deref(), Some("q2"));
}

#[test]
fn two_queue_names_make_two_groups() {
    let mut sl = SimpleSubList::default();
    sl.insert(queued("test", "q1", "1", 10)).unwrap();
    sl.insert(queued("test", "q2", "1", 20)).unwrap();
    sl.insert(queued("test", "q1", "1", 11)).unwrap();
    sl.insert(queued("test", "q2", "1", 5)).unwrap();
    sl.insert(queued("test", "q1", "1", 2)).unwrap();
    let r = sl.match_subject("test").unwrap();
    assert_eq!(r.subs.len(), 0);
    assert_eq!(r.qsubs.len(), 2);
    assert_eq!(group_tokens(&r), vec![vec![2, 10, 11], vec![5, 20]]);
    assert!(r.qsubs[0].iter().all(|s| s.queue.as_deref() == Some("q1")));
    assert!(r.qsubs[1].iter().all(|s| s.queue.as_deref() == Some("q2")));
}

#[test]
fn groups_come_out_in_the_order_they_were_made() {
    let mut sl = SimpleSubList::default();
    sl.insert(queued("s", "zeta", "1", 1)).unwrap();
    sl.insert(queued("s", "alpha", "1", 2)).unwrap();
    sl.insert(queued("s", "mid", "1", 3)).unwrap();
    assert_eq!(group_tokens(&sl.match_subject("s").unwrap()), vec![vec![1], vec![2], vec![3]]);
    sl.remove(queued("s", "zeta", "1", 1)).unwrap();
    assert_eq!(group_tokens(&sl.match_subject("s").unwrap()), vec![vec![2], vec![3]]);
    sl.insert(queued("s", "zeta", "1", 1)).unwrap();
    assert_eq!(group_tokens(&sl.match_subject("s").unwrap()), vec![vec![2], vec![3], vec![1]]);
}

#[test]
fn a_queue_group_and_a_plain_subscription_of_one_name_stay_apart() {
    let mut sl = SimpleSubList::default();
    sl.insert(plain("test", "1", 1)).unwrap();
    sl.insert(queued("test", "test", "1", 2)).unwrap();
    sl.insert(queued("other", "test", "1", 3)).unwrap();
    let r = sl.match_subject("test").unwrap();
    assert_eq!(tokens(&r.subs), vec![1]);
    assert_eq!(group_tokens(&r), vec![vec![2]]);
    let r = sl.match_subject("other").unwrap();
    assert_eq!(r.subs.len(), 0);
    assert_eq!(group_tokens(&r), vec![vec![3]]);
}

#[test]
fn removing_one_of_several_group_members_changes_that_group_alone() {
    let mut sl = SimpleSubList::default();
    sl.insert(plain("test", "p", 100)).unwrap();
    sl.insert(queued("test", "q1", "1", 1)).unwrap();
    sl.insert(queued("test", "q1", "1", 2)).unwrap();
    sl.insert(queued("test", "q1", "1", 3)).unwrap();
    sl.insert(queued("test", "q2", "1", 4)).unwrap();
    sl.insert(queued("test", "q2", "1", 5)).unwrap();
    sl.insert(queued("else", "q1", "1", 6)).unwrap();

    assert_eq!(sl.remove(queued("test", "q1", "1", 2)), Ok(()));
    let r = sl.match_subject("test").unwrap();
    assert_eq!(tokens(&r.subs), vec![100]);
    assert_eq!(group_tokens(&r), vec![vec![1, 3], vec![4, 5]]);
    assert_eq!(group_tokens(&sl.match_subject("else").unwrap()), vec![vec![6]]);
}

#[test]
fn removing_the_last_member_prunes_the_group_and_then_the_subject() {
    let mut sl = SimpleSubList::default();
    sl.insert(queued("test", "q1", "1", 1)).unwrap();
    sl.insert(queued("test", "q2", "1", 2)).unwrap();

    assert_eq!(sl.remove(queued("test", "q1", "1", 1)), Ok(()));
    assert_eq!(group_tokens(&sl.match_subject("test").unwrap()), vec![vec![2]]);
    // the pruned group is gone: removing from it again is refused
    assert_eq!(sl.remove(queued("test", "q1", "1", 1)), Err(SubListError::SubscriptionNotFound));

    assert_eq!(sl.remove(queued("test", "q2", "1", 2)), Ok(()));
    assert!(sl.match_subject("test").unwrap().is_empty());
    // the pruned subject is gone too
    assert_eq!(sl.remove(queued("test", "q2", "1", 2)), Err(SubListError::SubscriptionNotFound));
}

#[test]
fn removing_the_last_plain_subscription_prunes_the_subject() {
    let mut sl = SimpleSubList::default();
    sl.insert(plain("test", "1", 1)).unwrap();
    sl.insert(plain("keep", "1", 2)).unwrap();
    assert_eq!(sl.remove(plain("test", "1", 1)), Ok(()));
    let r = sl.match_subject("test").unwrap();
    assert_eq!(r.subs.len(), 0);
    assert!(r.is_empty());
    assert_eq!(tokens(&sl.match_subject("keep").unwrap().subs), vec![2]);
    // and the subject can be used again
    sl.insert(plain("test", "1", 3)).unwrap();
    assert_eq!(tokens(&sl.match_subject("test").unwrap().subs), vec![3]);
}

#[test]
fn removing_from_a_group_that_is_not_there_fails_and_changes_nothing() {
    let mut sl = SimpleSubList::default();
    // neither the subject nor the group exists
    assert_eq!(sl.remove(queued("test", "q", "1", 1)), Err(SubListError::SubscriptionNotFound));
    assert!(sl.match_subject("test").unwrap().is_empty());

    sl.insert(plain("test", "1", 1)).unwrap();
    sl.insert(queued("test", "q", "1", 2)).unwrap();
    sl.insert(queued("test", "q", "1", 3)).unwrap();
    // the subject has plain subscriptions and a group of another name
    assert_eq!(sl.remove(queued("test", "nope", "1", 2)), Err(SubListError::SubscriptionNotFound));
    // a subject that only has no groups
    sl.insert(plain("plain-only", "1", 4)).unwrap();
    let refused = sl.remove(queued("plain-only", "q", "1", 4));
    assert_eq!(refused, Err(SubListError::SubscriptionNotFound));
    // the group exists, but on another subject
    let refused = sl.remove(queued("elsewhere", "q", "1", 2));
    assert_eq!(refused, Err(SubListError::SubscriptionNotFound));

    let r = sl.match_subject("test").unwrap();
    assert_eq!(tokens(&r.subs), vec![1]);
    assert_eq!(group_tokens(&r), vec![vec![2, 3]]);
    assert_eq!(tokens(&sl.match_subject("plain-only").unwrap().subs), vec![4]);
    assert!(sl.match_subject("elsewhere").unwrap().is_empty());
}

#[test]
fn removing_an_unregistered_token_from_a_group_that_exists_succeeds_to_no_effect() {
    let mut sl = SimpleSubList::default();
    sl.insert(queued("test", "q", "1", 2)).unwrap();
    assert_eq!(sl.remove(queued("test", "q", "1", 99)), Ok(()));
    assert_eq!(group_tokens(&sl.match_subject("test").unwrap()), vec![vec![2]]);
}

#[test]
fn removing_a_plain_subscription_that_is_not_there_is_silent() {
    let mut sl = SimpleSubList::default();
    // unknown subject
    assert_eq!(sl.remove(plain("test", "1", 1)), Ok(()));
    assert!(sl.match_subject("test").unwrap().is_empty());
    // known subject, unknown token
    sl.insert(plain("test", "1", 1)).unwrap();
    assert_eq!(sl.remove(plain("test", "1", 2)), Ok(()));
    assert_eq!(tokens(&sl.match_subject("test").unwrap().subs), vec![1]);
    // a subject that only has queue groups
    sl.insert(queued("queues", "q", "1", 3)).unwrap();
    assert_eq!(sl.remove(plain("queues", "1", 3)), Ok(()));
    assert_eq!(group_tokens(&sl.match_subject("queues").unwrap()), vec![vec![3]]);
}

#[test]
fn removal_goes_by_token_and_not_by_field_values() {
    let mut sl = SimpleSubList::default();
    sl.insert(plain("test", "1", 1)).unwrap();
    sl.insert(plain("test", "1", 2)).unwrap();
    // same token as a member, other subscriber id and sender: the member goes
    assert_eq!(sl.remove(plain("test", "another", 1)), Ok(()));
    assert_eq!(tokens(&sl.match_subject("test").unwrap().subs), vec![2]);
}

#[test]
fn removing_from_the_middle_and_the_ends_keeps_the_order() {
    let mut sl = SimpleSubList::default();
    for token in [5u64, 1, 4, 2, 3] {
        sl.insert(plain("t", "1", token)).unwrap();
    }
    sl.remove(plain("t", "1", 3)).unwrap();
    assert_eq!(tokens(&sl.match_subject("t").unwrap().subs), vec![1, 2, 4, 5]);
    sl.remove(plain("t", "1", 1)).unwrap();
    assert_eq!(tokens(&sl.match_subject("t").unwrap().subs), vec![2, 4, 5]);
    sl.remove(plain("t", "1", 5)).unwrap();
    assert_eq!(tokens(&sl.match_subject("t").unwrap().subs), vec![2, 4]);
}

#[test]
fn a_snapshot_is_not_changed_by_what_the_registry_does_later() {
    let mut sl = SimpleSubList::default();
    sl.insert(plain("test", "1", 1)).unwrap();
    sl.insert(queued("test", "q", "1", 2)).unwrap();
    let before = sl.match_subject("test").unwrap();
    sl.remove(plain("test", "1", 1)).unwrap();
    sl.remove(queued("test", "q", "1", 2)).unwrap();
    sl.insert(plain("test", "1", 3)).unwrap();
    assert_eq!(tokens(&before.subs), vec![1]);
    assert_eq!(group_tokens(&before), vec![vec![2]]);
    let after = sl.match_subject("test").unwrap();
    assert_eq!(tokens(&after.subs), vec![3]);
    assert_eq!(after.qsubs.len(), 0);
}

#[test]
fn a_snapshot_shares_the_registered_subscriptions() {
    let mut sl = SimpleSubList::default();
    let p = plain("test", "1", 1);
    let q = queued("test", "q", "1", 2);
    sl.insert(p.clone()).unwrap();
    sl.insert(q.clone()).unwrap();
    assert_eq!(Arc::strong_count(&p), 2);
    let r = sl.match_subject("test").unwrap();
    assert!(Arc::ptr_eq(&r.subs[0], &p));
    assert!(Arc::ptr_eq(&r.qsubs[0][0], &q));
    assert!(Arc::ptr_eq(&r.subs[0].msg_sender, &p.msg_sender));
    // registry, snapshot and the caller each hold one handle
    assert_eq!(Arc::strong_count(&p), 3);
    assert_eq!(Arc::strong_count(&q), 3);
    drop(r);
    assert_eq!(Arc::strong_count(&p), 2);
    sl.remove(p.clone()).unwrap();
    assert_eq!(Arc::strong_count(&p), 1);
}

#[test]
fn matching_leaves_the_registry_as_it_is() {
    let mut sl = SimpleSubList::default();
    sl.insert(plain("test", "1", 1)).unwrap();
    sl.insert(queued("test", "q", "1", 2)).unwrap();
    for _ in 0..3 {
        let r = sl.match_subject("test").unwrap();
        assert_eq!(tokens(&r.subs), vec![1]);
        assert_eq!(group_tokens(&r), vec![vec![2]]);
    }
}

#[test]
fn many_subjects_are_kept_apart() {
    let mut sl = SimpleSubList::default();
    for n in 0..50u64 {
        sl.insert(plain(&format!("subject.{}", n), "1", n)).unwrap();
        sl.insert(queued(&format!("subject.{}", n), "q", "1", 1000 + n)).unwrap();
    }
    for n in 0..50u64 {
        let r = sl.match_subject(&format!("subject.{}", n)).unwrap();
        assert_eq!(tokens(&r.subs), vec![n]);
        assert_eq!(group_tokens(&r), vec![vec![1000 + n]]);
    }
    for n in (0..50u64).filter(|n| n % 2 == 0) {
        sl.remove(plain(&format!("subject.{}", n), "1", n)).unwrap();
    }
    for n in 0..50u64 {
        let r = sl.match_subject(&format!("subject.{}", n)).unwrap();
        assert_eq!(r.subs.len(), if n % 2 == 0 { 0 } else { 1 });
        assert_eq!(r.qsubs.len(), 1);
    }
}

#[test]
fn sub_result_is_empty_only_without_plain_and_without_groups() {
    let empty: SubResult<u32> = SubResult::default();
    assert!(empty.is_empty());
    assert_eq!(empty.subs.len(), 0);
    assert_eq!(empty.qsubs.len(), 0);
    let only_plain = SubResult { subs: vec![plain("t", "1", 1)], qsubs: Vec::new() };
    assert!(!only_plain.is_empty());
    let only_groups: SubResult<u32> = SubResult { subs: Vec::new(), qsubs: vec![Vec::new()] };
    assert!(!only_groups.is_empty());
    let both =
        SubResult { subs: vec![plain("t", "1", 1)], qsubs: vec![vec![queued("t", "q", "1", 2)]] };
    assert!(!both.is_empty());
}
