use m0_core::pubsub::Hub;
use m0_core::session::Session;
use m0_core::session::DRAIN_BATCH;

#[test]
fn first_message_must_be_subscribe() {
    let mut hub = Hub::new();
    let mut session = Session::new();
    let reply = session.on_text(&mut hub, "hello there");
    assert_eq!(reply, Some("{\"error\":\"expected subscribe\"}".to_string()));
    assert!(matches!(session, Session::Connected));
    let reply = session.on_text(&mut hub, "{\"subscribe\":\"predictions\"}");
    assert_eq!(reply, Some("{\"ok\":true}".to_string()));
    assert!(matches!(session, Session::Subscribed(_)));
}

#[test]
fn malformed_json_is_a_protocol_error() {
    let mut hub = Hub::new();
    let mut session = Session::new();
    let reply = session.on_text(&mut hub, "{\"subscribe\":");
    assert_eq!(reply, Some("{\"error\":\"expected subscribe\"}".to_string()));
    assert!(matches!(session, Session::Connected));
    let reply = session.on_text(&mut hub, "{\"subscribe\":42}");
    assert_eq!(reply, Some("{\"error\":\"expected subscribe\"}".to_string()));
    assert!(matches!(session, Session::Connected));
}

#[test]
fn subscribed_session_streams_in_publish_order() {
    let mut hub = Hub::new();
    let mut session = Session::new();
    session.on_text(&mut hub, "{\"subscribe\":\"predictions\"}");
    hub.publish("predictions", "tick-1".to_string());
    hub.publish("predictions", "tick-2".to_string());
    let out = session.drain_batch(&mut hub);
    assert_eq!(out, vec!["tick-1".to_string(), "tick-2".to_string()]);
    assert!(session.drain_batch(&mut hub).is_empty());
}

#[test]
fn post_subscribe_text_is_relayed_to_the_echo_topic() {
    let mut hub = Hub::new();
    let mut listener = Session::new();
    listener.on_text(&mut hub, "{\"subscribe\":\"echo\"}");
    let mut talker = Session::new();
    talker.on_text(&mut hub, "{\"subscribe\":\"predictions\"}");
    let reply = talker.on_text(&mut hub, "free-form text");
    assert_eq!(reply, None);
    assert!(matches!(talker, Session::Subscribed(_)));
    let out = listener.drain_batch(&mut hub);
    assert_eq!(out, vec!["free-form text".to_string()]);
}

#[test]
fn drain_is_bounded_per_iteration() {
    let mut hub = Hub::new();
    let mut session = Session::new();
    session.on_text(&mut hub, "{\"subscribe\":\"busy\"}");
    for i in 0..12u32 {
        hub.publish("busy", format!("m{i}"));
    }
    let first = session.drain_batch(&mut hub);
    assert_eq!(first.len(), DRAIN_BATCH);
    assert_eq!(first[0], "m0");
    assert_eq!(first[9], "m9");
    let second = session.drain_batch(&mut hub);
    assert_eq!(second, vec!["m10".to_string(), "m11".to_string()]);
}

#[test]
fn close_releases_the_subscription() {
    let mut hub = Hub::new();
    let mut session = Session::new();
    session.on_text(&mut hub, "{\"subscribe\":\"t\"}");
    session.on_close(&mut hub);
    assert!(matches!(session, Session::Closed));
    // Nothing accumulates for the released handle; a new subscriber is
    // unaffected by the old one.
    hub.publish("t", "m".to_string());
    let sub = hub.subscribe("t");
    hub.publish("t", "n".to_string());
    assert_eq!(hub.try_next(&sub), Some("n".to_string()));
}

#[test]
fn closed_session_ignores_traffic() {
    let mut hub = Hub::new();
    let mut session = Session::new();
    session.on_close(&mut hub);
    assert_eq!(session.on_text(&mut hub, "{\"subscribe\":\"t\"}"), None);
    assert!(matches!(session, Session::Closed));
    assert!(session.drain_batch(&mut hub).is_empty());
}

#[test]
fn repeated_subscribe_is_a_protocol_error() {
    let mut hub = Hub::new();
    let mut session = Session::new();
    assert_eq!(
        session.on_text(&mut hub, "{\"subscribe\":\"predictions\"}"),
        Some("{\"ok\":true}".to_string())
    );
    // A second subscribe attempt is out of order: protocol error, the
    // session stays subscribed, and nothing lands on the echo topic.
    let mut echo_listener = Session::new();
    echo_listener.on_text(&mut hub, "{\"subscribe\":\"echo\"}");
    assert_eq!(
        session.on_text(&mut hub, "{\"subscribe\":\"other\"}"),
        Some("{\"error\":\"expected subscribe\"}".to_string())
    );
    assert!(matches!(session, Session::Subscribed(_)));
    assert!(echo_listener.drain_batch(&mut hub).is_empty());
    // The original subscription still streams.
    hub.publish("predictions", "tick".to_string());
    assert_eq!(session.drain_batch(&mut hub), vec!["tick".to_string()]);
}
