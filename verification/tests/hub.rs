use m0_core::pubsub::Hub;

#[test]
fn round_trip_one_message() {
    let mut hub = Hub::new();
    let sub = hub.subscribe("fresh");
    hub.publish("fresh", "hello".to_string());
    assert_eq!(hub.try_next(&sub), Some("hello".to_string()));
    assert_eq!(hub.try_next(&sub), None);
}

#[test]
fn per_topic_order_is_publish_order() {
    let mut hub = Hub::new();
    let sub = hub.subscribe("predictions");
    hub.publish("predictions", "tick-1".to_string());
    hub.publish("predictions", "tick-2".to_string());
    assert_eq!(hub.try_next(&sub), Some("tick-1".to_string()));
    assert_eq!(hub.try_next(&sub), Some("tick-2".to_string()));
    assert_eq!(hub.try_next(&sub), None);
}

#[test]
fn no_historical_replay() {
    let mut hub = Hub::new();
    hub.publish("t", "before".to_string());
    let sub = hub.subscribe("t");
    assert_eq!(hub.try_next(&sub), None);
    hub.publish("t", "after".to_string());
    assert_eq!(hub.try_next(&sub), Some("after".to_string()));
}

#[test]
fn publish_without_subscribers_is_discarded() {
    let mut hub = Hub::new();
    hub.publish("nobody", "lost".to_string());
    let sub = hub.subscribe("nobody");
    assert_eq!(hub.try_next(&sub), None);
}

#[test]
fn slow_consumer_loses_oldest_not_newest() {
    let mut hub = Hub::with_capacity(2);
    let sub = hub.subscribe("busy");
    hub.publish("busy", "m1".to_string());
    hub.publish("busy", "m2".to_string());
    hub.publish("busy", "m3".to_string());
    assert_eq!(hub.try_next(&sub), Some("m2".to_string()));
    assert_eq!(hub.try_next(&sub), Some("m3".to_string()));
    assert_eq!(hub.try_next(&sub), None);
}

#[test]
fn subscribers_have_independent_cursors() {
    let mut hub = Hub::new();
    let fast = hub.subscribe("t");
    let slow = hub.subscribe("t");
    hub.publish("t", "a".to_string());
    assert_eq!(hub.try_next(&fast), Some("a".to_string()));
    hub.publish("t", "b".to_string());
    assert_eq!(hub.try_next(&fast), Some("b".to_string()));
    assert_eq!(hub.try_next(&slow), Some("a".to_string()));
    assert_eq!(hub.try_next(&slow), Some("b".to_string()));
}

#[test]
fn unsubscribe_releases_the_handle() {
    let mut hub = Hub::new();
    let gone = hub.subscribe("t");
    let kept = hub.subscribe("t");
    hub.unsubscribe(gone);
    hub.publish("t", "m".to_string());
    assert_eq!(hub.try_next(&kept), Some("m".to_string()));
}

#[test]
fn drain_returns_pending_in_order() {
    let mut hub = Hub::new();
    let sub = hub.subscribe("t");
    for i in 0..5u32 {
        hub.publish("t", format!("m{i}"));
    }
    let out = hub.drain(&sub, 3);
    assert_eq!(out, vec!["m0".to_string(), "m1".to_string(), "m2".to_string()]);
    let rest = hub.drain(&sub, 10);
    assert_eq!(rest, vec!["m3".to_string(), "m4".to_string()]);
    assert!(hub.drain(&sub, 10).is_empty());
}

#[test]
fn topic_creation_is_idempotent() {
    let mut hub = Hub::new();
    hub.topic("x");
    hub.topic("x");
    let sub = hub.subscribe("x");
    hub.publish("x", "m".to_string());
    assert_eq!(hub.try_next(&sub), Some("m".to_string()));
}

#[test]
fn full_buffer_keeps_its_bound_under_overflow() {
    let mut hub = Hub::with_capacity(3);
    let sub = hub.subscribe("busy");
    for i in 0..7u32 {
        hub.publish("busy", format!("m{i}"));
    }
    let out = hub.drain(&sub, 10);
    assert_eq!(out, vec!["m4".to_string(), "m5".to_string(), "m6".to_string()]);
}
