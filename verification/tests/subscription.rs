use std::cmp::Ordering;
use std::sync::Arc;
use sublist::{ArcSubscription, ArcSubscriptionWrapper, Subscription};
use tokio::sync::Mutex;

fn wrapped(
    subject: &str,
    queue: Option<&str>,
    sid: &str,
    token: u64,
) -> ArcSubscriptionWrapper<u8> {
    let sender = Arc::new(Mutex::new(0));
    ArcSubscriptionWrapper(Arc::new(Subscription::new(subject, queue, sid, token, sender)))
}

#[test]
fn new_keeps_what_it_is_given() {
    let sender = Arc::new(Mutex::new(String::from("out")));
    let sub = Subscription::new("orders.new", Some("workers"), "sid-7", 42, sender.clone());
    assert_eq!(sub.subject, "orders.new");
    assert_eq!(sub.queue, Some(String::from("workers")));
    assert_eq!(sub.sid, "sid-7");
    assert_eq!(sub.token, 42);
    assert!(Arc::ptr_eq(&sub.msg_sender, &sender));
    assert_eq!(Arc::strong_count(&sender), 2);
}

#[test]
fn new_without_a_queue_is_a_plain_subscription() {
    let sub = Subscription::new("", None, "", 0, Arc::new(Mutex::new(())));
    assert_eq!(sub.subject, "");
    assert_eq!(sub.queue, None);
    assert_eq!(sub.sid, "");
    assert_eq!(sub.token, 0);
}

#[test]
fn subscriptions_of_one_connection_share_its_sender() {
    let sender = Arc::new(Mutex::new(5u32));
    let a: ArcSubscription<u32> = Arc::new(Subscription::new("a", None, "1", 1, sender.clone()));
    let b: ArcSubscription<u32> =
        Arc::new(Subscription::new("b", Some("q"), "2", 2, sender.clone()));
    assert!(Arc::ptr_eq(&a.msg_sender, &b.msg_sender));
    assert_eq!(*a.msg_sender.try_lock().unwrap(), 5);
}

#[test]
fn wrappers_are_equal_exactly_when_their_tokens_are() {
    let a = wrapped("x", None, "1", 3);
    let same_token = wrapped("y", Some("q"), "2", 3);
    let same_fields = wrapped("x", None, "1", 4);
    assert!(a == same_token);
    assert!(a != same_fields);
    assert!(a == a);
}

#[test]
fn wrappers_order_by_token() {
    let low = wrapped("z", None, "9", 1);
    let high = wrapped("a", None, "0", 2);
    let top = wrapped("a", None, "0", u64::MAX);
    assert_eq!(low.cmp(&high), Ordering::Less);
    assert_eq!(high.cmp(&low), Ordering::Greater);
    assert_eq!(low.cmp(&wrapped("other", Some("q"), "5", 1)), Ordering::Equal);
    assert_eq!(high.cmp(&top), Ordering::Less);
    assert_eq!(low.partial_cmp(&high), Some(Ordering::Less));
    assert_eq!(high.partial_cmp(&low), Some(Ordering::Greater));
    assert_eq!(high.partial_cmp(&high), Some(Ordering::Equal));
    assert!(low < high);
    assert!(high > low);
    assert!(low <= low);
    assert!(!(high < low));
}

#[test]
fn a_cloned_wrapper_is_the_same_subscription() {
    let a = wrapped("x", Some("q"), "1", 3);
    let b = a.clone();
    assert!(Arc::ptr_eq(&a.0, &b.0));
    assert!(a == b);
    assert_eq!(Arc::strong_count(&a.0), 2);
}
