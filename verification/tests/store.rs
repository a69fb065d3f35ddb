//! Store behaviour: entries with expiration, the sweeper's purge, and
//! publish/subscribe fan-out through real broadcast channels.

use mini_redis::db::State;
use mini_redis::subs::Subscriptions;

#[test]
fn get_of_fresh_state_is_none() {
    let state = State::new();
    assert_eq!(state.get("anything"), None);
}

#[test]
fn set_then_get_returns_the_value() {
    let mut state = State::new();
    state.set("k".to_string(), b"v".to_vec(), None, 0);
    assert_eq!(state.get("k"), Some(b"v".to_vec()));
    assert_eq!(state.get("other"), None);
}

#[test]
fn overwrite_replaces_the_value_and_its_expiration() {
    let mut state = State::new();
    state.set("k".to_string(), b"a".to_vec(), Some(100), 0);
    assert_eq!(state.next_expiration(), Some(100));
    // Overwriting without a time to live clears the pending expiration:
    // the index mirrors the entries exactly.
    state.set("k".to_string(), b"b".to_vec(), None, 10);
    assert_eq!(state.get("k"), Some(b"b".to_vec()));
    assert_eq!(state.next_expiration(), None);
    // The old deadline passing deletes nothing.
    assert_eq!(state.purge_expired(1000), None);
    assert_eq!(state.get("k"), Some(b"b".to_vec()));
}

#[test]
fn set_reports_when_the_sweeper_must_wake() {
    let mut state = State::new();
    // First expiration: the sweeper sleeps forever until woken.
    assert!(state.set("a".to_string(), b"1".to_vec(), Some(500), 0));
    // A later expiration does not move the deadline up.
    assert!(!state.set("b".to_string(), b"2".to_vec(), Some(900), 0));
    // An earlier one does.
    assert!(state.set("c".to_string(), b"3".to_vec(), Some(100), 0));
    // No expiration, no wakeup.
    assert!(!state.set("d".to_string(), b"4".to_vec(), None, 0));
    assert_eq!(state.next_expiration(), Some(100));
}

#[test]
fn purge_deletes_exactly_what_is_due() {
    let mut state = State::new();
    state.set("early".to_string(), b"1".to_vec(), Some(100), 0);
    state.set("late".to_string(), b"2".to_vec(), Some(300), 0);
    state.set("forever".to_string(), b"3".to_vec(), None, 0);
    // Nothing is due yet; the sweeper is told the earliest deadline.
    assert_eq!(state.purge_expired(99), Some(100));
    assert_eq!(state.get("early"), Some(b"1".to_vec()));
    // At 100 the early key goes; the next deadline is reported.
    assert_eq!(state.purge_expired(100), Some(300));
    assert_eq!(state.get("early"), None);
    assert_eq!(state.get("late"), Some(b"2".to_vec()));
    // Past the last deadline everything with a time to live is gone.
    assert_eq!(state.purge_expired(1000), None);
    assert_eq!(state.get("late"), None);
    assert_eq!(state.get("forever"), Some(b"3".to_vec()));
}

#[test]
fn purge_after_shutdown_does_nothing() {
    let mut state = State::new();
    state.set("k".to_string(), b"v".to_vec(), Some(10), 0);
    state.set_shutdown();
    assert!(state.is_shutdown());
    assert_eq!(state.purge_expired(1000), None);
    assert_eq!(state.get("k"), Some(b"v".to_vec()));
}

#[test]
fn publish_without_subscribers_reaches_nobody() {
    let state = State::new();
    assert_eq!(state.publish("nowhere", b"msg".to_vec()), 0);
}

#[test]
fn publish_counts_current_subscribers() {
    let mut state = State::new();
    let mut rx1 = state.subscribe("foo".to_string());
    assert_eq!(state.publish("foo", b"bar".to_vec()), 1);
    let mut rx2 = state.subscribe("foo".to_string());
    assert_eq!(state.publish("foo", b"baz".to_vec()), 2);
    assert_eq!(rx1.try_recv().unwrap(), b"bar".to_vec());
    assert_eq!(rx1.try_recv().unwrap(), b"baz".to_vec());
    // The second receiver only sees what was sent after it subscribed.
    assert_eq!(rx2.try_recv().unwrap(), b"baz".to_vec());
    assert!(rx2.try_recv().is_err());
}

#[test]
fn dropped_subscribers_no_longer_count() {
    let mut state = State::new();
    let rx = state.subscribe("foo".to_string());
    drop(rx);
    // The channel outlives its receivers; with none left, nobody is
    // reached.
    assert_eq!(state.publish("foo", b"bar".to_vec()), 0);
    let mut rx2 = state.subscribe("foo".to_string());
    assert_eq!(state.publish("foo", b"again".to_vec()), 1);
    assert_eq!(rx2.try_recv().unwrap(), b"again".to_vec());
}

#[test]
fn messages_arrive_in_publish_order() {
    let mut state = State::new();
    let mut rx = state.subscribe("ch".to_string());
    for i in 0..5u8 {
        assert_eq!(state.publish("ch", vec![i]), 1);
    }
    for i in 0..5u8 {
        assert_eq!(rx.try_recv().unwrap(), vec![i]);
    }
}

#[test]
fn subscriptions_track_nested_subscribe_and_unsubscribe_all() {
    let mut subs = Subscriptions::new();
    assert!(subs.is_empty());
    assert!(subs.add("foo".to_string()));
    assert_eq!(subs.len(), 1);
    assert!(subs.add("bar".to_string()));
    assert_eq!(subs.len(), 2);
    // Subscribing the same channel again adds nothing.
    assert!(!subs.add("foo".to_string()));
    assert_eq!(subs.len(), 2);
    assert!(subs.contains("foo"));
    assert!(subs.contains("bar"));
    // An unsubscribe with no channels names them all.
    let all = subs.channel_names();
    assert_eq!(all.len(), 2);
    for name in &all {
        assert!(subs.remove(name.as_str()));
    }
    assert!(subs.is_empty());
    assert!(!subs.remove("foo"));
}

#[test]
fn expirations_spanning_equal_instants_all_clear() {
    let mut state = State::new();
    state.set("a".to_string(), b"1".to_vec(), Some(50), 0);
    state.set("b".to_string(), b"2".to_vec(), Some(50), 0);
    state.set("c".to_string(), b"3".to_vec(), Some(50), 0);
    assert_eq!(state.purge_expired(50), None);
    assert_eq!(state.get("a"), None);
    assert_eq!(state.get("b"), None);
    assert_eq!(state.get("c"), None);
}
