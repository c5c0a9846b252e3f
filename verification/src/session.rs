//! The control-protocol state machine of one streaming session.
//!
//! A session starts `Connected` and accepts exactly one control message,
//! a subscribe request; any other first message is answered with a
//! protocol-error payload and the session stays `Connected`. After a valid
//! subscribe it is `Subscribed`: a second subscribe attempt is rejected
//! with the same protocol-error payload, other inbound text is relayed
//! onto the well-known echo topic, and the send loop drains the
//! subscription in bounded batches. A close moves it to `Closed`,
//! releasing the handle.

use vstd::prelude::*;

use crate::pubsub::Hub;
use crate::pubsub::Subscription;
use crate::pubsub::spec_publish;
use crate::pubsub::spec_set_pending;
use crate::pubsub::spec_subscribe;
use crate::pubsub::spec_unsubscribe;

verus! {

/// At most this many messages are drained per inbound-loop iteration, so
/// that a busy topic cannot starve inbound processing.
pub const DRAIN_BATCH: usize = 10;

/// The topic named by a well-formed subscribe request, if the text is one.
pub uninterp spec fn subscribe_topic_of(s: Seq<char>) -> Option<Seq<char>>;

/// Relies on `serde_json::from_str`, `serde_json::Value::get` and
/// `serde_json::Value::as_str`: the parse depends on the text alone, and
/// yields the string under the `subscribe` key when the text is a JSON
/// object carrying one.
#[verifier::external_body]
fn parse_subscribe(text: &str) -> (r: Option<String>)
    ensures
        r is Some <==> subscribe_topic_of(text@) is Some,
        r matches Some(t) ==> subscribe_topic_of(text@) == Some(t@),
{
    match serde_json::from_str::<serde_json::Value>(text) {
        Ok(v) => match v.get("subscribe") {
            Some(s) => s.as_str().map(|x| x.to_string()),
            None => None,
        },
        Err(_) => None,
    }
}

/// The acknowledgement sent after a successful subscribe.
pub open spec fn spec_ok_payload() -> Seq<char> {
    "{\"ok\":true}"@
}

/// The protocol-error payload sent for an out-of-order control message.
pub open spec fn spec_error_payload() -> Seq<char> {
    "{\"error\":\"expected subscribe\"}"@
}

/// The well-known secondary topic post-subscribe client text is relayed to.
pub fn echo_topic() -> (r: &'static str)
    ensures
        r@ == "echo"@,
{
    "echo"
}

/// The acknowledgement sent after a successful subscribe.
pub fn ok_payload() -> (r: String)
    ensures
        r@ == spec_ok_payload(),
{
    "{\"ok\":true}".to_owned()
}

/// The protocol-error payload sent for an out-of-order control message.
pub fn error_payload() -> (r: String)
    ensures
        r@ == spec_error_payload(),
{
    "{\"error\":\"expected subscribe\"}".to_owned()
}

/// One live connection's protocol state: `Connected` until the one
/// subscribe, then `Subscribed` holding the hub handle, and `Closed` once
/// the transport is gone.
pub enum Session {
    Connected,
    Subscribed(Subscription),
    Closed,
}

impl Session {
    /// A freshly accepted connection, before any traffic.
    pub fn new() -> (r: Session)
        ensures
            r is Connected,
    {
        Session::Connected
    }

    /// Handles one inbound text frame. While `Connected`, only a subscribe
    /// request is accepted: it acquires a handle from the hub and answers
    /// the acknowledgement; anything else answers the protocol-error
    /// payload and the session stays `Connected`, awaiting a valid
    /// subscribe. While `Subscribed`, a second subscribe attempt is out of
    /// order and answers the protocol-error payload, with the session and
    /// its subscription untouched; any other text is relayed onto the echo
    /// topic and nothing is answered. A closed session ignores traffic.
    pub fn on_text(&mut self, hub: &mut Hub, text: &str) -> (reply: Option<String>)
        requires
            old(hub)@.wf(),
            old(hub)@.next_id < u64::MAX,
        ensures
            final(hub)@.wf(),
            *old(self) is Connected && subscribe_topic_of(text@) is Some ==> {
                &&& *final(self) matches Session::Subscribed(s)
                    && s.topic_name() == subscribe_topic_of(text@)->Some_0
                    && s.sub_id() == old(hub)@.next_id
                &&& final(hub)@ == spec_subscribe(old(hub)@, subscribe_topic_of(text@)->Some_0)
                &&& reply matches Some(r) && r@ == spec_ok_payload()
            },
            *old(self) is Connected && subscribe_topic_of(text@) is None ==> {
                &&& *final(self) is Connected
                &&& final(hub)@ == old(hub)@
                &&& reply matches Some(r) && r@ == spec_error_payload()
            },
            *old(self) is Subscribed && subscribe_topic_of(text@) is Some ==> {
                &&& *final(self) == *old(self)
                &&& final(hub)@ == old(hub)@
                &&& reply matches Some(r) && r@ == spec_error_payload()
            },
            *old(self) is Subscribed && subscribe_topic_of(text@) is None ==> {
                &&& *final(self) == *old(self)
                &&& final(hub)@ == spec_publish(old(hub)@, "echo"@, text@)
                &&& reply is None
            },
            *old(self) is Closed ==> *final(self) is Closed && final(hub)@ == old(hub)@
                && reply is None,
    {
        match self {
            Session::Connected => {
                match parse_subscribe(text) {
                    Some(topic) => {
                        let sub = hub.subscribe(topic.as_str());
                        *self = Session::Subscribed(sub);
                        Some(ok_payload())
                    },
                    None => Some(error_payload()),
                }
            },
            Session::Subscribed(_) => {
                match parse_subscribe(text) {
                    Some(_) => Some(error_payload()),
                    None => {
                        hub.publish(echo_topic(), text.to_owned());
                        None
                    },
                }
            },
            Session::Closed => None,
        }
    }

    /// One bounded pass of the send loop: up to `DRAIN_BATCH` pending
    /// messages of the session's subscription, oldest first. A session that
    /// is not subscribed has nothing to drain.
    pub fn drain_batch(&self, hub: &mut Hub) -> (out: Vec<String>)
        requires
            old(hub)@.wf(),
        ensures
            final(hub)@.wf(),
            *self matches Session::Subscribed(s) ==> ({
                let p = old(hub)@.pending(s.topic_name(), s.sub_id());
                let k = if DRAIN_BATCH <= p.len() {
                    DRAIN_BATCH as int
                } else {
                    p.len() as int
                };
                &&& out@.len() == k
                &&& forall|y: int| 0 <= y < k ==> (#[trigger] out@[y])@ == p[y]
                &&& (k == 0 ==> final(hub)@ == old(hub)@)
                &&& (k > 0 ==> final(hub)@ == spec_set_pending(
                    old(hub)@,
                    s.topic_name(),
                    s.sub_id(),
                    p.skip(k),
                ))
            }),
            !(*self is Subscribed) ==> out@.len() == 0 && final(hub)@ == old(hub)@,
    {
        match self {
            Session::Subscribed(sub) => hub.drain(sub, DRAIN_BATCH),
            _ => {
                let out: Vec<String> = Vec::new();
                proof {
                    assert(out@.len() == 0);
                }
                out
            },
        }
    }

    /// Terminates the session: a subscribed session releases its handle,
    /// and the session is `Closed` whatever state it was in.
    pub fn on_close(&mut self, hub: &mut Hub)
        requires
            old(hub)@.wf(),
        ensures
            *final(self) is Closed,
            final(hub)@.wf(),
            *old(self) matches Session::Subscribed(s) ==> final(hub)@ == spec_unsubscribe(
                old(hub)@,
                s.topic_name(),
                s.sub_id(),
            ),
            !(*old(self) is Subscribed) ==> final(hub)@ == old(hub)@,
    {
        let mut taken = Session::Closed;
        core::mem::swap(self, &mut taken);
        match taken {
            Session::Subscribed(sub) => hub.unsubscribe(sub),
            _ => {},
        }
    }
}

} // verus!
