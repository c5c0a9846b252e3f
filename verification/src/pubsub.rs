//! Topic-based publish/subscribe fan-out.
//!
//! The hub owns a registry of topics, created lazily on first publish or
//! first subscribe. Each subscriber owns a bounded buffer of pending
//! messages, independent of every other subscriber; a publish appends the
//! message to every current subscriber's buffer, dropping that subscriber's
//! oldest message when the buffer is full. A subscriber's read cursor
//! starts at "now": it never sees messages published before it subscribed,
//! and a publish to a topic with no subscribers discards the message.

use vstd::prelude::*;

verus! {

/// Default bound on a subscriber's pending buffer.
pub const DEFAULT_CAPACITY: usize = 512;

/// One subscriber as the contracts see it: its identity and its pending
/// messages, oldest first.
#[verifier::ext_equal]
pub struct SubView {
    pub id: nat,
    pub queue: Seq<Seq<char>>,
}

/// One topic as the contracts see it: its name and its subscribers in
/// subscription order.
#[verifier::ext_equal]
pub struct TopicView {
    pub name: Seq<char>,
    pub subs: Seq<SubView>,
}

/// The hub as the contracts see it.
#[verifier::ext_equal]
pub struct HubView {
    pub capacity: nat,
    pub next_id: nat,
    pub topics: Seq<TopicView>,
}

/// The index of the topic named `name`, or -1 when the registry holds none.
pub open spec fn find_topic(topics: Seq<TopicView>, name: Seq<char>) -> int
    decreases topics.len(),
{
    if topics.len() == 0 {
        -1
    } else if topics[0].name == name {
        0
    } else {
        let r = find_topic(topics.drop_first(), name);
        if r == -1 {
            -1
        } else {
            r + 1
        }
    }
}

/// The index of the subscriber with identity `id`, or -1.
pub open spec fn find_sub(subs: Seq<SubView>, id: nat) -> int
    decreases subs.len(),
{
    if subs.len() == 0 {
        -1
    } else if subs[0].id == id {
        0
    } else {
        let r = find_sub(subs.drop_first(), id);
        if r == -1 {
            -1
        } else {
            r + 1
        }
    }
}

impl HubView {
    /// Whether a topic of this name exists.
    pub open spec fn has_topic(self, name: Seq<char>) -> bool {
        find_topic(self.topics, name) >= 0
    }

    /// Whether subscriber `id` is currently registered under `name`.
    pub open spec fn is_subscriber(self, name: Seq<char>, id: nat) -> bool {
        &&& find_topic(self.topics, name) >= 0
        &&& find_sub(self.topics[find_topic(self.topics, name)].subs, id) >= 0
    }

    /// The pending messages of subscriber `id` under `name`, oldest first.
    pub open spec fn pending(self, name: Seq<char>, id: nat) -> Seq<Seq<char>> {
        let i = find_topic(self.topics, name);
        if i >= 0 {
            let j = find_sub(self.topics[i].subs, id);
            if j >= 0 {
                self.topics[i].subs[j].queue
            } else {
                Seq::empty()
            }
        } else {
            Seq::empty()
        }
    }

    /// The registry's internal consistency: a positive buffer bound, one
    /// topic per name, one entry per subscriber identity, identities below
    /// the allocator's next, and no buffer over the bound.
    pub open spec fn wf(self) -> bool {
        &&& self.capacity >= 1
        &&& forall|i: int, j: int|
            0 <= i < j < self.topics.len() ==> (#[trigger] self.topics[i]).name != (
            #[trigger] self.topics[j]).name
        &&& forall|i: int, j: int|
            0 <= i < self.topics.len() && 0 <= j < (#[trigger] self.topics[i]).subs.len() ==> (
            #[trigger] self.topics[i].subs[j]).id < self.next_id
        &&& forall|i: int, j: int, k: int|
            0 <= i < self.topics.len() && 0 <= j < k < (#[trigger] self.topics[i]).subs.len()
                ==> (#[trigger] self.topics[i].subs[j]).id != (
            #[trigger] self.topics[i].subs[k]).id
        &&& forall|i: int, j: int|
            0 <= i < self.topics.len() && 0 <= j < (#[trigger] self.topics[i]).subs.len() ==> (
            #[trigger] self.topics[i].subs[j]).queue.len() <= self.capacity
    }
}

/// The registry after making sure a topic of this name exists: untouched
/// when one does, extended by an empty topic when none does.
pub open spec fn spec_ensure_topic(h: HubView, name: Seq<char>) -> HubView {
    if h.has_topic(name) {
        h
    } else {
        HubView {
            topics: h.topics.push(TopicView { name, subs: Seq::empty() }),
            ..h
        }
    }
}

/// A subscriber's buffer after one more message under bound `cap`:
/// appended, dropping the oldest when the buffer is full.
pub open spec fn spec_push_drop(q: Seq<Seq<char>>, m: Seq<char>, cap: nat) -> Seq<Seq<char>> {
    if q.len() < cap {
        q.push(m)
    } else {
        q.drop_first().push(m)
    }
}

/// One subscriber after a publish reaches it.
pub open spec fn spec_stepped_sub(s: SubView, msg: Seq<char>, cap: nat) -> SubView {
    SubView { id: s.id, queue: spec_push_drop(s.queue, msg, cap) }
}

/// The hub after a publish: the topic exists afterwards, and every one of
/// its current subscribers has the message appended to its buffer,
/// dropping that subscriber's oldest message on overflow.
pub open spec fn spec_publish(h: HubView, name: Seq<char>, msg: Seq<char>) -> HubView {
    let h1 = spec_ensure_topic(h, name);
    let i = find_topic(h1.topics, name);
    let t = h1.topics[i];
    let t2 = TopicView {
        name: t.name,
        subs: t.subs.map(|j: int, s: SubView| spec_stepped_sub(s, msg, h.capacity)),
    };
    HubView { topics: h1.topics.update(i, t2), ..h1 }
}

/// The hub after a subscribe: the topic exists afterwards and carries one
/// more subscriber, with a fresh identity and an empty buffer.
pub open spec fn spec_subscribe(h: HubView, name: Seq<char>) -> HubView {
    let h1 = spec_ensure_topic(h, name);
    let i = find_topic(h1.topics, name);
    let t = h1.topics[i];
    let t2 = TopicView {
        name: t.name,
        subs: t.subs.push(SubView { id: h.next_id, queue: Seq::empty() }),
    };
    HubView { capacity: h.capacity, next_id: h.next_id + 1, topics: h1.topics.update(i, t2) }
}

/// The hub with subscriber `id`'s buffer replaced by `q`; untouched when
/// no such subscriber exists.
pub open spec fn spec_set_pending(h: HubView, name: Seq<char>, id: nat, q: Seq<Seq<char>>) -> HubView {
    if h.is_subscriber(name, id) {
        let i = find_topic(h.topics, name);
        let j = find_sub(h.topics[i].subs, id);
        let s2 = SubView { id, queue: q };
        let t2 = TopicView { name: h.topics[i].name, subs: h.topics[i].subs.update(j, s2) };
        HubView { topics: h.topics.update(i, t2), ..h }
    } else {
        h
    }
}

/// The hub after subscriber `id` under `name` releases its handle.
pub open spec fn spec_unsubscribe(h: HubView, name: Seq<char>, id: nat) -> HubView {
    if h.is_subscriber(name, id) {
        let i = find_topic(h.topics, name);
        let j = find_sub(h.topics[i].subs, id);
        let t2 = TopicView {
            name: h.topics[i].name,
            subs: h.topics[i].subs.remove(j),
        };
        HubView { topics: h.topics.update(i, t2), ..h }
    } else {
        h
    }
}

} // verus!

verus! {

/// What `find_topic` returns: -1 exactly when no topic has the name, else
/// the first index carrying it.
pub proof fn lemma_find_topic_props(topics: Seq<TopicView>, name: Seq<char>)
    ensures
        find_topic(topics, name) == -1 || 0 <= find_topic(topics, name) < topics.len(),
        find_topic(topics, name) >= 0 ==> topics[find_topic(topics, name)].name == name,
        find_topic(topics, name) == -1 ==> forall|j: int|
            0 <= j < topics.len() ==> (#[trigger] topics[j]).name != name,
        forall|j: int| 0 <= j < find_topic(topics, name) ==> (#[trigger] topics[j]).name != name,
    decreases topics.len(),
{
    if topics.len() > 0 && topics[0].name != name {
        lemma_find_topic_props(topics.drop_first(), name);
        assert forall|j: int| 0 <= j < topics.len() implies #[trigger] topics[j] == if j == 0 {
            topics[0]
        } else {
            topics.drop_first()[j - 1]
        } by {}
    }
}

/// `find_topic` finds the first index carrying the name.
pub proof fn lemma_find_topic_hit(topics: Seq<TopicView>, name: Seq<char>, i: int)
    requires
        0 <= i < topics.len(),
        topics[i].name == name,
        forall|j: int| 0 <= j < i ==> (#[trigger] topics[j]).name != name,
    ensures
        find_topic(topics, name) == i,
    decreases topics.len(),
{
    if i > 0 {
        assert(topics[0].name != name);
        assert forall|j: int| 0 <= j < i - 1 implies (#[trigger] topics.drop_first()[j]).name
            != name by {
            assert(topics.drop_first()[j] == topics[j + 1]);
        }
        assert(topics.drop_first()[i - 1] == topics[i]);
        lemma_find_topic_hit(topics.drop_first(), name, i - 1);
    }
}

/// What `find_sub` returns: -1 exactly when no subscriber has the
/// identity, else the first index carrying it.
pub proof fn lemma_find_sub_props(subs: Seq<SubView>, id: nat)
    ensures
        find_sub(subs, id) == -1 || 0 <= find_sub(subs, id) < subs.len(),
        find_sub(subs, id) >= 0 ==> subs[find_sub(subs, id)].id == id,
        find_sub(subs, id) == -1 ==> forall|j: int|
            0 <= j < subs.len() ==> (#[trigger] subs[j]).id != id,
        forall|j: int| 0 <= j < find_sub(subs, id) ==> (#[trigger] subs[j]).id != id,
    decreases subs.len(),
{
    if subs.len() > 0 && subs[0].id != id {
        lemma_find_sub_props(subs.drop_first(), id);
        assert forall|j: int| 0 <= j < subs.len() implies #[trigger] subs[j] == if j == 0 {
            subs[0]
        } else {
            subs.drop_first()[j - 1]
        } by {}
    }
}

/// `find_sub` finds the first index carrying the identity.
pub proof fn lemma_find_sub_hit(subs: Seq<SubView>, id: nat, i: int)
    requires
        0 <= i < subs.len(),
        subs[i].id == id,
        forall|j: int| 0 <= j < i ==> (#[trigger] subs[j]).id != id,
    ensures
        find_sub(subs, id) == i,
    decreases subs.len(),
{
    if i > 0 {
        assert(subs[0].id != id);
        assert forall|j: int| 0 <= j < i - 1 implies (#[trigger] subs.drop_first()[j]).id != id by {
            assert(subs.drop_first()[j] == subs[j + 1]);
        }
        assert(subs.drop_first()[i - 1] == subs[i]);
        lemma_find_sub_hit(subs.drop_first(), id, i - 1);
    }
}

struct SubEntry {
    id: u64,
    queue: Vec<String>,
}

struct Topic {
    name: String,
    subs: Vec<SubEntry>,
}

/// The fan-out hub: the registry of topics and their subscribers.
pub struct Hub {
    topics: Vec<Topic>,
    capacity: usize,
    next_id: u64,
}

/// A subscriber handle: a cursor into one topic's fan-out, owned by one
/// session.
pub struct Subscription {
    topic: String,
    id: u64,
}

impl Subscription {
    /// The name of the topic this handle reads.
    pub closed spec fn topic_name(self) -> Seq<char> {
        self.topic@
    }

    /// The identity the hub knows this handle by.
    pub closed spec fn sub_id(self) -> nat {
        self.id as nat
    }

    /// The name of the topic this handle reads.
    pub fn topic_str(&self) -> (r: &str)
        ensures
            r@ == self.topic_name(),
    {
        self.topic.as_str()
    }
}

impl View for SubEntry {
    type V = SubView;

    closed spec fn view(&self) -> SubView {
        SubView { id: self.id as nat, queue: self.queue@.map(|i: int, m: String| m@) }
    }
}

impl View for Topic {
    type V = TopicView;

    closed spec fn view(&self) -> TopicView {
        TopicView { name: self.name@, subs: self.subs@.map(|i: int, s: SubEntry| s@) }
    }
}

impl View for Hub {
    type V = HubView;

    closed spec fn view(&self) -> HubView {
        HubView {
            capacity: self.capacity as nat,
            next_id: self.next_id as nat,
            topics: self.topics@.map(|i: int, t: Topic| t@),
        }
    }
}

proof fn lemma_sub_view(s: SubEntry)
    ensures
        s@.queue.len() == s.queue@.len(),
        forall|k: int| 0 <= k < s.queue@.len() ==> #[trigger] s@.queue[k] == s.queue@[k]@,
{
}

proof fn lemma_topic_view(t: Topic)
    ensures
        t@.name == t.name@,
        t@.subs.len() == t.subs@.len(),
        forall|k: int| 0 <= k < t.subs@.len() ==> #[trigger] t@.subs[k] == t.subs@[k]@,
{
}

proof fn lemma_hub_view(h: Hub)
    ensures
        h@.topics.len() == h.topics@.len(),
        forall|k: int| 0 <= k < h.topics@.len() ==> #[trigger] h@.topics[k] == h.topics@[k]@,
{
}

impl Hub {
    /// An empty hub with the default per-subscriber buffer bound.
    pub fn new() -> (r: Hub)
        ensures
            r@.wf(),
            r@.topics == Seq::<TopicView>::empty(),
            r@.capacity == DEFAULT_CAPACITY,
            r@.next_id == 0,
    {
        Hub::with_capacity(DEFAULT_CAPACITY)
    }

    /// An empty hub whose subscribers buffer at most `capacity` messages.
    pub fn with_capacity(capacity: usize) -> (r: Hub)
        requires
            capacity >= 1,
        ensures
            r@.wf(),
            r@.topics == Seq::<TopicView>::empty(),
            r@.capacity == capacity,
            r@.next_id == 0,
    {
        let r = Hub { topics: Vec::new(), capacity, next_id: 0 };
        proof {
            assert(r@.topics =~= Seq::<TopicView>::empty());
        }
        r
    }

    /// The identity the next subscription will get; a caller can test it
    /// against the identity space's end before subscribing.
    pub fn next_subscriber_id(&self) -> (r: u64)
        ensures
            r as nat == self@.next_id,
    {
        self.next_id
    }

    /// The index of the topic named `name`, if the registry holds one.
    fn topic_idx(&self, name: &String) -> (r: Option<usize>)
        ensures
            match r {
                Some(i) => 0 <= i < self@.topics.len() && find_topic(self@.topics, name@)
                    == i,
                None => find_topic(self@.topics, name@) == -1,
            },
    {
        let n = self.topics.len();
        let mut i: usize = 0;
        while i < n
            invariant
                0 <= i <= n,
                n == self.topics.len(),
                self@.topics.len() == n,
                forall|j: int| 0 <= j < i ==> (#[trigger] self@.topics[j]).name != name@,
            decreases n - i,
        {
            assert(self@.topics[i as int] == self.topics@[i as int]@);
            if self.topics[i].name == *name {
                proof {
                    lemma_find_topic_hit(self@.topics, name@, i as int);
                }
                return Some(i);
            }
            i = i + 1;
        }
        proof {
            lemma_find_topic_props(self@.topics, name@);
        }
        None
    }

    /// Makes sure the topic exists, creating it empty when it does not, and
    /// returns its index. Creation is idempotent: an existing topic is
    /// reused, never duplicated.
    fn ensure_topic(&mut self, name: &String) -> (i: usize)
        requires
            old(self)@.wf(),
        ensures
            final(self)@ == spec_ensure_topic(old(self)@, name@),
            final(self)@.wf(),
            i == find_topic(final(self)@.topics, name@),
            0 <= i < final(self)@.topics.len(),
    {
        let ghost h0 = self@;
        match self.topic_idx(name) {
            Some(i) => {
                proof {
                    lemma_find_topic_props(h0.topics, name@);
                }
                i
            },
            None => {
                let i = self.topics.len();
                self.topics.push(Topic { name: name.clone(), subs: Vec::new() });
                proof {
                    let newt = TopicView { name: name@, subs: Seq::empty() };
                    assert(self.topics@[i as int]@.subs =~= Seq::<SubView>::empty());
                    assert(self.topics@[i as int]@ =~= newt);
                    assert(self@.topics =~= h0.topics.push(newt));
                    assert(self@ =~= spec_ensure_topic(h0, name@));
                    lemma_find_topic_props(h0.topics, name@);
                    lemma_find_topic_hit(self@.topics, name@, i as int);
                    assert forall|a: int, b: int|
                        0 <= a < b < self@.topics.len() implies (#[trigger] self@.topics[a]).name
                        != (#[trigger] self@.topics[b]).name by {
                        if b < i {
                            assert(h0.topics[a].name != h0.topics[b].name);
                        } else {
                            assert(self@.topics[b].name == name@);
                            assert(h0.topics[a].name != name@);
                        }
                    }
                    assert(self@.wf());
                }
                i
            },
        }
    }

    /// Idempotent topic creation: after the call the topic exists; nothing
    /// else changes, and an existing topic of the same name is reused.
    pub fn topic(&mut self, name: &str)
        requires
            old(self)@.wf(),
        ensures
            final(self)@ == spec_ensure_topic(old(self)@, name@),
            final(self)@.wf(),
            final(self)@.has_topic(name@),
    {
        let owned: String = name.to_owned();
        let _ = self.ensure_topic(&owned);
    }
}

} // verus!

verus! {

impl Hub {
    /// Opens a subscription on `name`, creating the topic when absent. The
    /// handle starts with an empty buffer: no historical replay. Nothing
    /// else in the hub changes.
    pub fn subscribe(&mut self, name: &str) -> (s: Subscription)
        requires
            old(self)@.wf(),
            old(self)@.next_id < u64::MAX,
        ensures
            final(self)@ == spec_subscribe(old(self)@, name@),
            final(self)@.wf(),
            s.topic_name() == name@,
            s.sub_id() == old(self)@.next_id,
            final(self)@.is_subscriber(name@, old(self)@.next_id),
            final(self)@.pending(name@, old(self)@.next_id) == Seq::<Seq<char>>::empty(),
    {
        let owned: String = name.to_owned();
        let ghost h0 = self@;
        let i = self.ensure_topic(&owned);
        let ghost h1 = self@;
        let id = self.next_id;
        self.next_id = id + 1;
        let ghost h2 = self@;
        proof {
            assert(h2.topics == h1.topics);
            assert(h2.capacity == h1.capacity);
            assert(h2.next_id == h1.next_id + 1);
        }
        let ghost oldt = h1.topics[i as int];
        let ghost newsub = SubView { id: id as nat, queue: Seq::empty() };
        let ghost newt = TopicView { name: oldt.name, subs: oldt.subs.push(newsub) };
        let entry = SubEntry { id, queue: Vec::new() };
        proof {
            assert(entry@.queue =~= Seq::<Seq<char>>::empty());
            assert(entry@ =~= newsub);
            assert(h2.topics[i as int] == self.topics@[i as int]@);
        }
        let t = &mut self.topics[i];
        let ghost tin = *t;
        t.subs.push(entry);
        proof {
            assert(tin@ == oldt);
            assert(t.subs@ == tin.subs@.push(entry));
            assert forall|k: int| 0 <= k < t@.subs.len() implies #[trigger] t@.subs[k]
                == oldt.subs.push(newsub)[k] by {
                if k < tin.subs@.len() {
                    assert(t.subs@[k] == tin.subs@[k]);
                    assert(tin@.subs[k] == oldt.subs[k]);
                } else {
                    assert(t.subs@[k] == entry);
                }
            }
            assert(t@.subs =~= oldt.subs.push(newsub));
            assert(t@ =~= newt);
            assert forall|k: int| 0 <= k < self@.topics.len() implies #[trigger] self@.topics[k]
                == h1.topics.update(i as int, newt)[k] by {
                if k != i as int {
                    assert(self@.topics[k] == self.topics@[k]@);
                }
            }
            assert(self@.topics =~= h1.topics.update(i as int, newt));
            assert(self@ =~~= spec_subscribe(h0, name@));
            lemma_find_topic_props(h1.topics, name@);
            lemma_find_topic_hit(self@.topics, name@, i as int);
            let subs2 = self@.topics[i as int].subs;
            let ghost ln = oldt.subs.len() as int;
            assert forall|j: int| 0 <= j < ln implies (#[trigger] subs2[j]).id != id as nat by {
                assert(subs2[j] == oldt.subs[j]);
                assert(oldt.subs[j].id < h1.next_id);
            }
            lemma_find_sub_hit(subs2, id as nat, ln);
            assert(self@.pending(name@, id as nat) =~= Seq::<Seq<char>>::empty());
            assert forall|a: int, b: int|
                0 <= a < b < self@.topics.len() implies (#[trigger] self@.topics[a]).name != (
                #[trigger] self@.topics[b]).name by {
                assert(self@.topics[a].name == h1.topics[a].name);
                assert(self@.topics[b].name == h1.topics[b].name);
            }
            assert forall|a: int, b: int|
                0 <= a < self@.topics.len() && 0 <= b < (
                #[trigger] self@.topics[a]).subs.len() implies (
                #[trigger] self@.topics[a].subs[b]).id < self@.next_id by {
                if a == i as int && b == ln {
                } else {
                    assert(self@.topics[a].subs[b] == h1.topics[a].subs[b]);
                }
            }
            assert forall|a: int, b: int, c: int|
                0 <= a < self@.topics.len() && 0 <= b < c < (
                #[trigger] self@.topics[a]).subs.len() implies (
                #[trigger] self@.topics[a].subs[b]).id != (
                #[trigger] self@.topics[a].subs[c]).id by {
                if a == i as int && c == ln {
                    assert(self@.topics[a].subs[b] == h1.topics[a].subs[b]);
                    assert(h1.topics[a].subs[b].id < h1.next_id);
                } else if a == i as int {
                    assert(self@.topics[a].subs[b] == h1.topics[a].subs[b]);
                    assert(self@.topics[a].subs[c] == h1.topics[a].subs[c]);
                } else {
                    assert(self@.topics[a].subs[b] == h1.topics[a].subs[b]);
                    assert(self@.topics[a].subs[c] == h1.topics[a].subs[c]);
                }
            }
            assert forall|a: int, b: int|
                0 <= a < self@.topics.len() && 0 <= b < (
                #[trigger] self@.topics[a]).subs.len() implies (
                #[trigger] self@.topics[a].subs[b]).queue.len() <= self@.capacity by {
                if a == i as int && b == ln {
                } else {
                    assert(self@.topics[a].subs[b] == h1.topics[a].subs[b]);
                }
            }
            assert(self@.wf());
        }
        Subscription { topic: owned, id }
    }
}

} // verus!

verus! {

/// The subscribers of one topic with the first `j` already stepped by a
/// publish of `msg` and the rest still untouched.
spec fn spec_partial_subs(subs: Seq<SubView>, msg: Seq<char>, cap: nat, j: int) -> Seq<SubView> {
    Seq::new(subs.len(), |k: int| if k < j { spec_stepped_sub(subs[k], msg, cap) } else { subs[k] })
}

/// The hub mid-publish: topic `i`'s first `j` subscribers stepped.
spec fn spec_partial_publish(h1: HubView, i: int, msg: Seq<char>, j: int) -> HubView {
    HubView {
        capacity: h1.capacity,
        next_id: h1.next_id,
        topics: h1.topics.update(
            i,
            TopicView {
                name: h1.topics[i].name,
                subs: spec_partial_subs(h1.topics[i].subs, msg, h1.capacity, j),
            },
        ),
    }
}

impl Hub {
    /// Publishes `msg` on `name`, creating the topic when absent. Every
    /// current subscriber of the topic gets the message appended to its
    /// buffer; a full buffer loses its oldest message instead of blocking
    /// the publisher. With no subscribers the message is discarded.
    pub fn publish(&mut self, name: &str, msg: String)
        requires
            old(self)@.wf(),
        ensures
            final(self)@ == spec_publish(old(self)@, name@, msg@),
            final(self)@.wf(),
    {
        let owned: String = name.to_owned();
        let ghost h0 = self@;
        let i = self.ensure_topic(&owned);
        let ghost h1 = self@;
        let cap = self.capacity;
        assert(self@.topics[i as int] == self.topics@[i as int]@);
        let n = self.topics[i].subs.len();
        let mut j: usize = 0;
        proof {
            let ps0 = spec_partial_subs(h1.topics[i as int].subs, msg@, cap as nat, 0);
            assert forall|k: int| 0 <= k < ps0.len() implies #[trigger] ps0[k] == h1.topics[
                i as int].subs[k] by {}
            assert(ps0 =~= h1.topics[i as int].subs);
            assert(TopicView { name: h1.topics[i as int].name, subs: ps0 } =~~= h1.topics[
                i as int]);
            assert(h1.topics.update(
                i as int,
                TopicView { name: h1.topics[i as int].name, subs: ps0 },
            ) =~= h1.topics);
            assert(self@ =~~= spec_partial_publish(h1, i as int, msg@, 0));
        }
        while j < n
            invariant
                0 <= j <= n,
                0 <= i < h1.topics.len(),
                h1.wf(),
                cap == h1.capacity,
                n == h1.topics[i as int].subs.len(),
                i < self.topics.len(),
                self@ == spec_partial_publish(h1, i as int, msg@, j as int),
            decreases n - j,
        {
            let ghost hcur = self@;
            let ghost olds = h1.topics[i as int].subs[j as int];
            let ghost oldt2 = hcur.topics[i as int];
            proof {
                lemma_hub_view(*self);
                assert(spec_partial_subs(h1.topics[i as int].subs, msg@, cap as nat, j as int)[
                    j as int] == olds);
                assert(hcur.topics[i as int].subs[j as int] == olds);
                assert(hcur.topics[i as int] == self.topics@[i as int]@);
                assert(olds.queue.len() <= cap);
            }
            let t = &mut self.topics[i];
            let ghost tin = *t;
            proof {
                lemma_topic_view(tin);
                assert(tin@ == oldt2);
                assert(tin.subs@.len() == oldt2.subs.len());
            }
            let s = &mut t.subs[j];
            let ghost sin = *s;
            proof {
                assert(sin@ == olds);
                lemma_sub_view(sin);
            }
            if s.queue.len() >= cap {
                let _dropped = s.queue.remove(0);
            }
            s.queue.push(msg.clone());
            proof {
                lemma_sub_view(*s);
                let stepped = spec_push_drop(olds.queue, msg@, cap as nat);
                if olds.queue.len() < cap {
                    assert(s.queue@ == sin.queue@.push(msg));
                    assert forall|k: int| 0 <= k < s@.queue.len() implies #[trigger] s@.queue[k]
                        == stepped[k] by {
                        if k < sin.queue@.len() {
                            assert(s.queue@[k] == sin.queue@[k]);
                            assert(sin@.queue[k] == olds.queue[k]);
                        } else {
                            assert(s.queue@[k] == msg);
                        }
                    }
                } else {
                    assert(s.queue@ == sin.queue@.remove(0).push(msg));
                    assert forall|k: int| 0 <= k < s@.queue.len() implies #[trigger] s@.queue[k]
                        == stepped[k] by {
                        if k < sin.queue@.len() - 1 {
                            assert(s.queue@[k] == sin.queue@[k + 1]);
                            assert(sin@.queue[k + 1] == olds.queue[k + 1]);
                            assert(stepped[k] == olds.queue.drop_first()[k]);
                        } else {
                            assert(s.queue@[k] == msg);
                        }
                    }
                }
                assert(s@.queue =~= stepped);
                assert(s@ =~= spec_stepped_sub(olds, msg@, cap as nat));
                assert(s@ == spec_stepped_sub(olds, msg@, cap as nat));
                lemma_topic_view(*t);
                assert(t.subs@ == tin.subs@.update(j as int, *s));
                assert forall|k: int| 0 <= k < t@.subs.len() implies #[trigger] t@.subs[k]
                    == oldt2.subs.update(j as int, s@)[k] by {
                    if k != j as int {
                        assert(t.subs@[k] == tin.subs@[k]);
                        assert(tin@.subs[k] == oldt2.subs[k]);
                    } else {
                        assert(t.subs@[k] == *s);
                    }
                }
                assert(t@.subs =~= oldt2.subs.update(j as int, s@));
                assert(t@ =~= TopicView { name: oldt2.name, subs: oldt2.subs.update(j as int, s@) });
                lemma_hub_view(*self);
                assert forall|k: int| 0 <= k < self@.topics.len() implies #[trigger] self@.topics[k]
                    == hcur.topics.update(i as int, t@)[k] by {
                    if k != i as int {
                        assert(self@.topics[k] == self.topics@[k]@);
                    } else {
                        assert(self@.topics[k] == self.topics@[k]@);
                        assert(self.topics@[k] == *t);
                    }
                }
                assert(self@.topics =~= hcur.topics.update(i as int, t@));
                let nxt = spec_partial_publish(h1, i as int, msg@, j as int + 1);
                assert forall|k: int| 0 <= k < self@.topics.len() implies #[trigger] self@.topics[k]
                    =~~= nxt.topics[k] by {
                    if k == i as int {
                        assert forall|b: int|
                            0 <= b < self@.topics[k].subs.len() implies #[trigger] self@.topics[
                            k].subs[b] == nxt.topics[k].subs[b] by {
                            assert(self@.topics[k].subs[b] == hcur.topics.update(
                                i as int,
                                t@,
                            )[k].subs[b]);
                            if b == j as int {
                            } else {
                                assert(t@.subs[b] == oldt2.subs[b]);
                            }
                        }
                        assert(self@.topics[k].subs =~= nxt.topics[k].subs);
                    }
                }
                assert(self@.topics =~~= nxt.topics);
                assert(self@ =~~= nxt);
            }
            j = j + 1;
        }
        proof {
            let subs = h1.topics[i as int].subs;
            assert(spec_partial_subs(subs, msg@, cap as nat, n as int) =~= subs.map(
                |k: int, s: SubView| spec_stepped_sub(s, msg@, cap as nat),
            ));
            assert(self@ =~~= spec_publish(h0, name@, msg@));
            assert forall|a: int, b: int|
                0 <= a < b < self@.topics.len() implies (#[trigger] self@.topics[a]).name != (
                #[trigger] self@.topics[b]).name by {
                assert(self@.topics[a].name == h1.topics[a].name);
                assert(self@.topics[b].name == h1.topics[b].name);
            }
            assert forall|a: int, b: int|
                0 <= a < self@.topics.len() && 0 <= b < (
                #[trigger] self@.topics[a]).subs.len() implies (
                #[trigger] self@.topics[a].subs[b]).id < self@.next_id by {
                if a == i as int {
                    assert(self@.topics[a].subs[b] == spec_stepped_sub(
                        h1.topics[a].subs[b],
                        msg@,
                        cap as nat,
                    ));
                } else {
                    assert(self@.topics[a].subs[b] == h1.topics[a].subs[b]);
                }
            }
            assert forall|a: int, b: int, c: int|
                0 <= a < self@.topics.len() && 0 <= b < c < (
                #[trigger] self@.topics[a]).subs.len() implies (
                #[trigger] self@.topics[a].subs[b]).id != (
                #[trigger] self@.topics[a].subs[c]).id by {
                if a == i as int {
                    assert(self@.topics[a].subs[b] == spec_stepped_sub(
                        h1.topics[a].subs[b],
                        msg@,
                        cap as nat,
                    ));
                    assert(self@.topics[a].subs[c] == spec_stepped_sub(
                        h1.topics[a].subs[c],
                        msg@,
                        cap as nat,
                    ));
                } else {
                    assert(self@.topics[a].subs[b] == h1.topics[a].subs[b]);
                    assert(self@.topics[a].subs[c] == h1.topics[a].subs[c]);
                }
            }
            assert forall|a: int, b: int|
                0 <= a < self@.topics.len() && 0 <= b < (
                #[trigger] self@.topics[a]).subs.len() implies (
                #[trigger] self@.topics[a].subs[b]).queue.len() <= self@.capacity by {
                if a == i as int {
                    assert(self@.topics[a].subs[b] == spec_stepped_sub(
                        h1.topics[a].subs[b],
                        msg@,
                        cap as nat,
                    ));
                    assert(h1.topics[a].subs[b].queue.len() <= cap);
                } else {
                    assert(self@.topics[a].subs[b] == h1.topics[a].subs[b]);
                }
            }
            assert(self@.wf());
        }
    }
}

} // verus!

verus! {

/// Law: replacing a subscriber's buffer touches that buffer alone — the
/// subscriber stays registered, reads back exactly the new buffer, and the
/// registry stays consistent as long as the new buffer is within bound.
pub proof fn lemma_set_pending_props(h: HubView, name: Seq<char>, id: nat, q: Seq<Seq<char>>)
    requires
        h.wf(),
        h.is_subscriber(name, id),
        q.len() <= h.capacity,
    ensures
        spec_set_pending(h, name, id, q).wf(),
        spec_set_pending(h, name, id, q).is_subscriber(name, id),
        spec_set_pending(h, name, id, q).pending(name, id) == q,
        spec_set_pending(h, name, id, q).capacity == h.capacity,
        spec_set_pending(h, name, id, q).next_id == h.next_id,
        find_topic(spec_set_pending(h, name, id, q).topics, name) == find_topic(h.topics, name),
        find_sub(
            spec_set_pending(h, name, id, q).topics[find_topic(h.topics, name)].subs,
            id,
        ) == find_sub(h.topics[find_topic(h.topics, name)].subs, id),
{
    let i = find_topic(h.topics, name);
    let j = find_sub(h.topics[i].subs, id);
    lemma_find_topic_props(h.topics, name);
    lemma_find_sub_props(h.topics[i].subs, id);
    let h2 = spec_set_pending(h, name, id, q);
    assert forall|a: int| 0 <= a < h2.topics.len() implies (#[trigger] h2.topics[a]).name
        == h.topics[a].name by {}
    lemma_find_topic_hit(h2.topics, name, i);
    assert forall|b: int| 0 <= b < h2.topics[i].subs.len() implies (
    #[trigger] h2.topics[i].subs[b]).id == h.topics[i].subs[b].id by {}
    assert forall|b: int| 0 <= b < j implies (#[trigger] h2.topics[i].subs[b]).id != id by {
        assert(h.topics[i].subs[b].id != id);
    }
    lemma_find_sub_hit(h2.topics[i].subs, id, j);
    assert(h2.pending(name, id) == q);
    assert forall|a: int, b: int|
        0 <= a < h2.topics.len() && 0 <= b < (#[trigger] h2.topics[a]).subs.len() implies (
        #[trigger] h2.topics[a].subs[b]).id < h2.next_id && (
    #[trigger] h2.topics[a].subs[b]).queue.len() <= h2.capacity by {
        if a == i && b == j {
        } else {
            assert(h2.topics[a].subs[b] == h.topics[a].subs[b]);
        }
    }
    assert forall|a: int, b: int, c: int|
        0 <= a < h2.topics.len() && 0 <= b < c < (#[trigger] h2.topics[a]).subs.len() implies (
        #[trigger] h2.topics[a].subs[b]).id != (#[trigger] h2.topics[a].subs[c]).id by {
        assert(h2.topics[a].subs[b].id == h.topics[a].subs[b].id);
        assert(h2.topics[a].subs[c].id == h.topics[a].subs[c].id);
    }
    assert forall|a: int, b: int|
        0 <= a < b < h2.topics.len() implies (#[trigger] h2.topics[a]).name != (
    #[trigger] h2.topics[b]).name by {}
    assert(h2.wf());
}

impl Hub {
    /// The index of subscriber `id` within topic `i`, if registered there.
    fn sub_idx(&self, i: usize, id: u64) -> (r: Option<usize>)
        requires
            i < self@.topics.len(),
        ensures
            match r {
                Some(j) => 0 <= j < self@.topics[i as int].subs.len() && find_sub(
                    self@.topics[i as int].subs,
                    id as nat,
                ) == j,
                None => find_sub(self@.topics[i as int].subs, id as nat) == -1,
            },
    {
        let m = self.topics[i].subs.len();
        let mut j: usize = 0;
        proof {
            assert(self@.topics[i as int] == self.topics@[i as int]@);
        }
        while j < m
            invariant
                0 <= j <= m,
                i < self.topics.len(),
                i < self@.topics.len(),
                m == self@.topics[i as int].subs.len(),
                m == self.topics@[i as int].subs@.len(),
                forall|k: int| 0 <= k < j ==> (#[trigger] self@.topics[i as int].subs[k]).id
                    != id as nat,
            decreases m - j,
        {
            proof {
                assert(self@.topics[i as int] == self.topics@[i as int]@);
                assert(self@.topics[i as int].subs[j as int] == self.topics@[i as int].subs@[
                    j as int]@);
            }
            if self.topics[i].subs[j].id == id {
                proof {
                    lemma_find_sub_hit(self@.topics[i as int].subs, id as nat, j as int);
                }
                return Some(j);
            }
            j = j + 1;
        }
        proof {
            lemma_find_sub_props(self@.topics[i as int].subs, id as nat);
        }
        None
    }

    /// A non-blocking read on a subscription: the oldest pending message,
    /// if there is one right now. Nothing else in the hub changes.
    pub fn try_next(&mut self, sub: &Subscription) -> (r: Option<String>)
        requires
            old(self)@.wf(),
        ensures
            final(self)@.wf(),
            ({
                let p = old(self)@.pending(sub.topic_name(), sub.sub_id());
                if p.len() == 0 {
                    r is None && final(self)@ == old(self)@
                } else {
                    &&& r matches Some(m) && m@ == p[0]
                    &&& final(self)@ == spec_set_pending(
                        old(self)@,
                        sub.topic_name(),
                        sub.sub_id(),
                        p.drop_first(),
                    )
                }
            }),
    {
        let ghost h0 = self@;
        let i = match self.topic_idx(&sub.topic) {
            Some(i) => i,
            None => {
                return None;
            },
        };
        let j = match self.sub_idx(i, sub.id) {
            Some(j) => j,
            None => {
                return None;
            },
        };
        let ghost p = h0.pending(sub.topic_name(), sub.sub_id());
        proof {
            assert(p == h0.topics[i as int].subs[j as int].queue);
        }
        assert(self@.topics[i as int] == self.topics@[i as int]@);
        assert(self@.topics[i as int].subs[j as int] == self.topics@[i as int].subs@[j as int]@);
        let qlen = self.topics[i].subs[j].queue.len();
        if qlen == 0 {
            return None;
        }
        let ghost oldt = h0.topics[i as int];
        let ghost olds = h0.topics[i as int].subs[j as int];
        proof {
            lemma_hub_view(*self);
            assert(h0.topics[i as int] == self.topics@[i as int]@);
            assert(olds.queue.len() <= h0.capacity);
        }
        let t = &mut self.topics[i];
        let ghost tin = *t;
        proof {
            lemma_topic_view(tin);
            assert(tin@ == oldt);
            assert(tin.subs@.len() == oldt.subs.len());
        }
        let s = &mut t.subs[j];
        let ghost sin = *s;
        proof {
            assert(sin@ == olds);
            lemma_sub_view(sin);
        }
        let msg = s.queue.remove(0);
        proof {
            lemma_sub_view(*s);
            assert(s.queue@ == sin.queue@.remove(0));
            assert forall|k: int| 0 <= k < s@.queue.len() implies #[trigger] s@.queue[k]
                == olds.queue.drop_first()[k] by {
                assert(s.queue@[k] == sin.queue@[k + 1]);
                assert(sin@.queue[k + 1] == olds.queue[k + 1]);
            }
            assert(s@.queue =~= olds.queue.drop_first());
            assert(p.drop_first() == olds.queue.drop_first());
            assert(s@ =~= SubView { id: olds.id, queue: p.drop_first() });
            lemma_topic_view(*t);
            assert(t.subs@ == tin.subs@.update(j as int, *s));
            assert forall|k: int| 0 <= k < t@.subs.len() implies #[trigger] t@.subs[k]
                == oldt.subs.update(j as int, s@)[k] by {
                if k != j as int {
                    assert(t.subs@[k] == tin.subs@[k]);
                    assert(tin@.subs[k] == oldt.subs[k]);
                } else {
                    assert(t.subs@[k] == *s);
                }
            }
            assert(t@.subs =~= oldt.subs.update(j as int, s@));
            assert(t@ =~= TopicView { name: oldt.name, subs: oldt.subs.update(j as int, s@) });
            lemma_hub_view(*self);
            assert forall|k: int| 0 <= k < self@.topics.len() implies #[trigger] self@.topics[k]
                == h0.topics.update(
                i as int,
                TopicView { name: oldt.name, subs: oldt.subs.update(j as int, s@) },
            )[k] by {
                assert(self@.topics[k] == self.topics@[k]@);
                if k == i as int {
                    assert(self.topics@[k] == *t);
                }
            }
            assert(self@.topics =~= h0.topics.update(
                i as int,
                TopicView { name: oldt.name, subs: oldt.subs.update(j as int, s@) },
            ));
            lemma_find_sub_props(h0.topics[i as int].subs, sub.sub_id());
            assert(olds.id == sub.sub_id());
            assert(self@ =~~= spec_set_pending(h0, sub.topic_name(), sub.sub_id(), p.drop_first()));
            lemma_set_pending_props(h0, sub.topic_name(), sub.sub_id(), p.drop_first());
        }
        Some(msg)
    }

    /// Releases a subscription: the subscriber leaves its topic's fan-out
    /// and its buffered messages are gone. Everything else stays.
    pub fn unsubscribe(&mut self, sub: Subscription)
        requires
            old(self)@.wf(),
        ensures
            final(self)@ == spec_unsubscribe(old(self)@, sub.topic_name(), sub.sub_id()),
            final(self)@.wf(),
            !final(self)@.is_subscriber(sub.topic_name(), sub.sub_id()),
    {
        let ghost h0 = self@;
        let i = match self.topic_idx(&sub.topic) {
            Some(i) => i,
            None => {
                proof {
                    lemma_find_topic_props(h0.topics, sub.topic_name());
                }
                return ;
            },
        };
        let j = match self.sub_idx(i, sub.id) {
            Some(j) => j,
            None => {
                return ;
            },
        };
        let ghost oldt = h0.topics[i as int];
        proof {
            lemma_hub_view(*self);
            assert(h0.topics[i as int] == self.topics@[i as int]@);
        }
        let t = &mut self.topics[i];
        let ghost tin = *t;
        proof {
            lemma_topic_view(tin);
            assert(tin@ == oldt);
            assert(tin.subs@.len() == oldt.subs.len());
        }
        let _removed = t.subs.remove(j);
        proof {
            lemma_topic_view(*t);
            assert(t.subs@ == tin.subs@.remove(j as int));
            assert forall|k: int| 0 <= k < t@.subs.len() implies #[trigger] t@.subs[k]
                == oldt.subs.remove(j as int)[k] by {
                if k < j as int {
                    assert(t.subs@[k] == tin.subs@[k]);
                    assert(tin@.subs[k] == oldt.subs[k]);
                } else {
                    assert(t.subs@[k] == tin.subs@[k + 1]);
                    assert(tin@.subs[k + 1] == oldt.subs[k + 1]);
                }
            }
            assert(t@.subs =~= oldt.subs.remove(j as int));
            assert(t@ =~= TopicView { name: oldt.name, subs: oldt.subs.remove(j as int) });
            lemma_hub_view(*self);
            assert forall|k: int| 0 <= k < self@.topics.len() implies #[trigger] self@.topics[k]
                == h0.topics.update(
                i as int,
                TopicView { name: oldt.name, subs: oldt.subs.remove(j as int) },
            )[k] by {
                assert(self@.topics[k] == self.topics@[k]@);
                if k == i as int {
                    assert(self.topics@[k] == *t);
                }
            }
            assert(self@.topics =~= h0.topics.update(
                i as int,
                TopicView { name: oldt.name, subs: oldt.subs.remove(j as int) },
            ));
            assert(self@ =~~= spec_unsubscribe(h0, sub.topic_name(), sub.sub_id()));
            let h2 = self@;
            oldt.subs.remove_ensures(j as int);
            lemma_find_topic_props(h0.topics, sub.topic_name());
            lemma_find_sub_props(h0.topics[i as int].subs, sub.sub_id());
            assert forall|a: int| 0 <= a < h2.topics.len() implies (#[trigger] h2.topics[a]).name
                == h0.topics[a].name by {}
            lemma_find_topic_hit(h2.topics, sub.topic_name(), i as int);
            assert forall|b: int| 0 <= b < h2.topics[i as int].subs.len() implies (
            #[trigger] h2.topics[i as int].subs[b]).id != sub.sub_id() by {
                if b < j {
                    assert(h2.topics[i as int].subs[b] == h0.topics[i as int].subs[b]);
                    assert(h0.topics[i as int].subs[b].id != sub.sub_id());
                } else {
                    assert(h2.topics[i as int].subs[b] == h0.topics[i as int].subs[b + 1]);
                    assert(h0.topics[i as int].subs[j as int].id == sub.sub_id());
                    assert(h0.topics[i as int].subs[b + 1].id != h0.topics[i as int].subs[
                        j as int].id);
                }
            }
            lemma_find_sub_props(h2.topics[i as int].subs, sub.sub_id());
            assert(!h2.is_subscriber(sub.topic_name(), sub.sub_id()));
            assert forall|a: int, b: int|
                0 <= a < h2.topics.len() && 0 <= b < (
                #[trigger] h2.topics[a]).subs.len() implies (
                #[trigger] h2.topics[a].subs[b]).id < h2.next_id && (
            #[trigger] h2.topics[a].subs[b]).queue.len() <= h2.capacity by {
                if a == i as int {
                    if b < j {
                        assert(h2.topics[a].subs[b] == h0.topics[a].subs[b]);
                    } else {
                        assert(h2.topics[a].subs[b] == h0.topics[a].subs[b + 1]);
                    }
                } else {
                    assert(h2.topics[a].subs[b] == h0.topics[a].subs[b]);
                }
            }
            assert forall|a: int, b: int, c: int|
                0 <= a < h2.topics.len() && 0 <= b < c < (
                #[trigger] h2.topics[a]).subs.len() implies (
                #[trigger] h2.topics[a].subs[b]).id != (#[trigger] h2.topics[a].subs[c]).id by {
                if a == i as int {
                    if b < j && c < j {
                        assert(h2.topics[a].subs[b] == h0.topics[a].subs[b]);
                        assert(h2.topics[a].subs[c] == h0.topics[a].subs[c]);
                    } else if b < j {
                        assert(h2.topics[a].subs[b] == h0.topics[a].subs[b]);
                        assert(h2.topics[a].subs[c] == h0.topics[a].subs[c + 1]);
                    } else {
                        assert(h2.topics[a].subs[b] == h0.topics[a].subs[b + 1]);
                        assert(h2.topics[a].subs[c] == h0.topics[a].subs[c + 1]);
                    }
                } else {
                    assert(h2.topics[a].subs[b] == h0.topics[a].subs[b]);
                    assert(h2.topics[a].subs[c] == h0.topics[a].subs[c]);
                }
            }
            assert forall|a: int, b: int|
                0 <= a < b < h2.topics.len() implies (#[trigger] h2.topics[a]).name != (
            #[trigger] h2.topics[b]).name by {}
            assert(h2.wf());
        }
    }
}

} // verus!

verus! {

/// Law: setting a subscriber's buffer twice keeps only the second setting.
pub proof fn lemma_set_pending_twice(
    h: HubView,
    name: Seq<char>,
    id: nat,
    q1: Seq<Seq<char>>,
    q2: Seq<Seq<char>>,
)
    requires
        h.wf(),
        h.is_subscriber(name, id),
        q1.len() <= h.capacity,
    ensures
        spec_set_pending(spec_set_pending(h, name, id, q1), name, id, q2) == spec_set_pending(
            h,
            name,
            id,
            q2,
        ),
{
    let i = find_topic(h.topics, name);
    let j = find_sub(h.topics[i].subs, id);
    lemma_find_topic_props(h.topics, name);
    lemma_find_sub_props(h.topics[i].subs, id);
    lemma_set_pending_props(h, name, id, q1);
    let h1 = spec_set_pending(h, name, id, q1);
    let a = spec_set_pending(h1, name, id, q2);
    let b = spec_set_pending(h, name, id, q2);
    assert(0 <= i < h.topics.len());
    assert(0 <= j < h.topics[i].subs.len());
    assert(a.topics.len() == b.topics.len());
    assert(a.topics[i].subs =~= b.topics[i].subs);
    assert(a.topics[i] =~~= b.topics[i]);
    assert(a.topics =~= b.topics);
    assert(a =~~= b);
}

impl Hub {
    /// Drains up to `max` pending messages of a subscription, oldest first,
    /// without blocking: the bounded per-iteration read of a session's send
    /// loop. The messages come out in publish order; nothing else in the
    /// hub changes.
    pub fn drain(&mut self, sub: &Subscription, max: usize) -> (out: Vec<String>)
        requires
            old(self)@.wf(),
        ensures
            final(self)@.wf(),
            ({
                let p = old(self)@.pending(sub.topic_name(), sub.sub_id());
                let k = if max <= p.len() {
                    max as int
                } else {
                    p.len() as int
                };
                &&& out@.len() == k
                &&& forall|y: int| 0 <= y < k ==> (#[trigger] out@[y])@ == p[y]
                &&& (k == 0 ==> final(self)@ == old(self)@)
                &&& (k > 0 ==> final(self)@ == spec_set_pending(
                    old(self)@,
                    sub.topic_name(),
                    sub.sub_id(),
                    p.skip(k),
                ))
            }),
    {
        let ghost h0 = self@;
        let ghost p = h0.pending(sub.topic_name(), sub.sub_id());
        let mut out: Vec<String> = Vec::new();
        let mut x: usize = 0;
        let mut done = false;
        proof {
            let ti = find_topic(h0.topics, sub.topic_name());
            lemma_find_topic_props(h0.topics, sub.topic_name());
            if ti >= 0 {
                let sj = find_sub(h0.topics[ti].subs, sub.sub_id());
                lemma_find_sub_props(h0.topics[ti].subs, sub.sub_id());
                if sj >= 0 {
                    assert(h0.topics[ti].subs[sj].queue.len() <= h0.capacity);
                }
            }
        }
        while x < max && !done
            invariant
                0 <= x <= max,
                x <= p.len(),
                h0.wf(),
                p.len() <= h0.capacity || p.len() == 0,
                p == h0.pending(sub.topic_name(), sub.sub_id()),
                p.len() > 0 ==> h0.is_subscriber(sub.topic_name(), sub.sub_id()),
                out@.len() == x,
                forall|y: int| 0 <= y < x ==> (#[trigger] out@[y])@ == p[y],
                x == 0 ==> self@ == h0,
                x > 0 ==> self@ == spec_set_pending(
                    h0,
                    sub.topic_name(),
                    sub.sub_id(),
                    p.skip(x as int),
                ),
                self@.wf(),
                done ==> x == p.len(),
            decreases max - x + (if done { 0int } else { 1int }),
        {
            let ghost hcur = self@;
            proof {
                if x > 0 {
                    lemma_set_pending_props(h0, sub.topic_name(), sub.sub_id(), p.skip(x as int));
                } else {
                    assert(p.skip(0) =~= p);
                }
            }
            assert(hcur.pending(sub.topic_name(), sub.sub_id()) == p.skip(x as int));
            match self.try_next(sub) {
                Some(m) => {
                    proof {
                        assert(m@ == p.skip(x as int)[0]);
                        assert(p.skip(x as int)[0] == p[x as int]);
                        assert(p.skip(x as int).drop_first() =~= p.skip(x as int + 1));
                        if x == 0 {
                            assert(p.drop_first() == p.skip(1));
                        } else {
                            lemma_set_pending_twice(
                                h0,
                                sub.topic_name(),
                                sub.sub_id(),
                                p.skip(x as int),
                                p.skip(x as int + 1),
                            );
                        }
                    }
                    out.push(m);
                    x = x + 1;
                },
                None => {
                    proof {
                        assert(p.skip(x as int).len() == 0);
                    }
                    done = true;
                },
            }
        }
        out
    }
}

} // verus!

verus! {

/// The hub after the messages `msgs` are published on `name`, in order.
pub open spec fn spec_publish_all(h: HubView, name: Seq<char>, msgs: Seq<Seq<char>>) -> HubView
    decreases msgs.len(),
{
    if msgs.len() == 0 {
        h
    } else {
        spec_publish_all(spec_publish(h, name, msgs[0]), name, msgs.drop_first())
    }
}

/// Law: topic creation is idempotent. Making sure a topic exists twice is
/// the same as doing it once; an existing topic is reused, and a missing
/// one is created exactly once — callers racing on the same fresh name all
/// converge on one shared topic.
pub proof fn lemma_topic_creation_idempotent(h: HubView, name: Seq<char>)
    ensures
        spec_ensure_topic(spec_ensure_topic(h, name), name) == spec_ensure_topic(h, name),
        spec_ensure_topic(h, name).has_topic(name),
        h.has_topic(name) ==> spec_ensure_topic(h, name) == h,
        !h.has_topic(name) ==> spec_ensure_topic(h, name).topics.len() == h.topics.len() + 1,
{
    if !h.has_topic(name) {
        lemma_find_topic_props(h.topics, name);
        let h1 = spec_ensure_topic(h, name);
        assert(h1.topics[h.topics.len() as int].name == name);
        assert forall|k: int| 0 <= k < h.topics.len() implies (#[trigger] h1.topics[k]).name
            != name by {
            assert(h1.topics[k] == h.topics[k]);
        }
        lemma_find_topic_hit(h1.topics, name, h.topics.len() as int);
    }
}

/// Law: one publish steps every subscriber's buffer by the bounded append:
/// the message lands at the end, and only a full buffer loses its oldest
/// message. The hub stays consistent and the subscriber registered.
pub proof fn lemma_publish_steps_buffer(h: HubView, name: Seq<char>, id: nat, msg: Seq<char>)
    requires
        h.wf(),
        h.is_subscriber(name, id),
    ensures
        spec_publish(h, name, msg).wf(),
        spec_publish(h, name, msg).is_subscriber(name, id),
        spec_publish(h, name, msg).pending(name, id) == spec_push_drop(
            h.pending(name, id),
            msg,
            h.capacity,
        ),
        spec_publish(h, name, msg).capacity == h.capacity,
        spec_publish(h, name, msg).next_id == h.next_id,
{
    let i = find_topic(h.topics, name);
    let j = find_sub(h.topics[i].subs, id);
    lemma_find_topic_props(h.topics, name);
    lemma_find_sub_props(h.topics[i].subs, id);
    let h2 = spec_publish(h, name, msg);
    assert(h2.topics.len() == h.topics.len());
    assert forall|a: int| 0 <= a < h2.topics.len() implies (#[trigger] h2.topics[a]).name
        == h.topics[a].name by {}
    lemma_find_topic_hit(h2.topics, name, i);
    assert forall|b: int| 0 <= b < h2.topics[i].subs.len() implies (
    #[trigger] h2.topics[i].subs[b]) == spec_stepped_sub(h.topics[i].subs[b], msg, h.capacity) by {}
    assert forall|b: int| 0 <= b < j implies (#[trigger] h2.topics[i].subs[b]).id != id by {
        assert(h.topics[i].subs[b].id != id);
    }
    assert(h2.topics[i].subs[j].id == id);
    lemma_find_sub_hit(h2.topics[i].subs, id, j);
    assert(h2.pending(name, id) == spec_push_drop(h.topics[i].subs[j].queue, msg, h.capacity));
    assert forall|a: int, b: int|
        0 <= a < h2.topics.len() && 0 <= b < (#[trigger] h2.topics[a]).subs.len() implies (
        #[trigger] h2.topics[a].subs[b]).id < h2.next_id && (
    #[trigger] h2.topics[a].subs[b]).queue.len() <= h2.capacity by {
        if a == i {
            assert(h2.topics[a].subs[b] == spec_stepped_sub(h.topics[a].subs[b], msg, h.capacity));
            assert(h.topics[a].subs[b].queue.len() <= h.capacity);
        } else {
            assert(h2.topics[a] == h.topics[a]);
        }
    }
    assert forall|a: int, b: int, c: int|
        0 <= a < h2.topics.len() && 0 <= b < c < (#[trigger] h2.topics[a]).subs.len() implies (
        #[trigger] h2.topics[a].subs[b]).id != (#[trigger] h2.topics[a].subs[c]).id by {
        if a == i {
            assert(h2.topics[a].subs[b] == spec_stepped_sub(h.topics[a].subs[b], msg, h.capacity));
            assert(h2.topics[a].subs[c] == spec_stepped_sub(h.topics[a].subs[c], msg, h.capacity));
        } else {
            assert(h2.topics[a] == h.topics[a]);
        }
    }
    assert forall|a: int, b: int|
        0 <= a < b < h2.topics.len() implies (#[trigger] h2.topics[a]).name != (
    #[trigger] h2.topics[b]).name by {}
    assert(h2.wf());
}

/// Law: one publish under a subscriber whose buffer still has room appends
/// exactly that message at the end of its buffer, and keeps the hub
/// consistent and the subscriber registered.
pub proof fn lemma_publish_appends(h: HubView, name: Seq<char>, id: nat, msg: Seq<char>)
    requires
        h.wf(),
        h.is_subscriber(name, id),
        h.pending(name, id).len() < h.capacity,
    ensures
        spec_publish(h, name, msg).wf(),
        spec_publish(h, name, msg).is_subscriber(name, id),
        spec_publish(h, name, msg).pending(name, id) == h.pending(name, id).push(msg),
        spec_publish(h, name, msg).capacity == h.capacity,
        spec_publish(h, name, msg).next_id == h.next_id,
{
    lemma_publish_steps_buffer(h, name, id, msg);
}

/// Law: the drop-oldest overflow policy. One publish under a subscriber
/// whose buffer is full loses that subscriber's oldest message and keeps
/// the newest: the publisher never blocks and never fails on a slow
/// consumer, and the buffer stays at its bound.
pub proof fn lemma_publish_drops_oldest(h: HubView, name: Seq<char>, id: nat, msg: Seq<char>)
    requires
        h.wf(),
        h.is_subscriber(name, id),
        h.pending(name, id).len() == h.capacity,
    ensures
        spec_publish(h, name, msg).wf(),
        spec_publish(h, name, msg).is_subscriber(name, id),
        spec_publish(h, name, msg).pending(name, id) == h.pending(name, id).drop_first().push(
            msg,
        ),
        spec_publish(h, name, msg).pending(name, id).len() == h.capacity,
        spec_publish(h, name, msg).capacity == h.capacity,
{
    lemma_publish_steps_buffer(h, name, id, msg);
}

/// Law: a subscriber that subscribed before a run of publishes to its
/// topic, and whose buffer never overflows during that run, holds every
/// published message in publish order — draining then yields them exactly
/// in the order they were published.
pub proof fn lemma_subscriber_sees_publishes_in_order(
    h: HubView,
    name: Seq<char>,
    id: nat,
    msgs: Seq<Seq<char>>,
)
    requires
        h.wf(),
        h.is_subscriber(name, id),
        h.pending(name, id).len() + msgs.len() <= h.capacity,
    ensures
        spec_publish_all(h, name, msgs).wf(),
        spec_publish_all(h, name, msgs).is_subscriber(name, id),
        spec_publish_all(h, name, msgs).pending(name, id) == h.pending(name, id) + msgs,
    decreases msgs.len(),
{
    if msgs.len() == 0 {
        assert(h.pending(name, id) + msgs =~= h.pending(name, id));
    } else {
        lemma_publish_appends(h, name, id, msgs[0]);
        let h1 = spec_publish(h, name, msgs[0]);
        lemma_subscriber_sees_publishes_in_order(h1, name, id, msgs.drop_first());
        assert(h.pending(name, id).push(msgs[0]) + msgs.drop_first() =~= h.pending(name, id)
            + msgs);
    }
}

} // verus!

verus! {

proof fn lemma_ensure_topic_props(h: HubView, name: Seq<char>)
    requires
        h.wf(),
    ensures
        spec_ensure_topic(h, name).wf(),
        spec_ensure_topic(h, name).has_topic(name),
        spec_ensure_topic(h, name).capacity == h.capacity,
        spec_ensure_topic(h, name).next_id == h.next_id,
{
    lemma_topic_creation_idempotent(h, name);
    lemma_find_topic_props(h.topics, name);
    let h1 = spec_ensure_topic(h, name);
    if !h.has_topic(name) {
        let ln = h.topics.len() as int;
        assert forall|a: int, b: int|
            0 <= a < b < h1.topics.len() implies (#[trigger] h1.topics[a]).name != (
        #[trigger] h1.topics[b]).name by {
            assert(h1.topics[a] == h.topics[a]);
            if b < ln {
                assert(h1.topics[b] == h.topics[b]);
            } else {
                assert(h1.topics[b].name == name);
                assert(h.topics[a].name != name);
            }
        }
        assert forall|a: int, b: int|
            0 <= a < h1.topics.len() && 0 <= b < (#[trigger] h1.topics[a]).subs.len() implies (
            #[trigger] h1.topics[a].subs[b]).id < h1.next_id && (
        #[trigger] h1.topics[a].subs[b]).queue.len() <= h1.capacity by {
            if a < ln {
                assert(h1.topics[a] == h.topics[a]);
            }
        }
        assert forall|a: int, b: int, c: int|
            0 <= a < h1.topics.len() && 0 <= b < c < (#[trigger] h1.topics[a]).subs.len() implies (
            #[trigger] h1.topics[a].subs[b]).id != (#[trigger] h1.topics[a].subs[c]).id by {
            if a < ln {
                assert(h1.topics[a] == h.topics[a]);
            }
        }
        assert(h1.wf());
    }
}

/// Law: a fresh subscription is registered under its topic with an empty
/// buffer — no historical replay — and the hub stays consistent.
pub proof fn lemma_subscribe_props(h: HubView, name: Seq<char>)
    requires
        h.wf(),
    ensures
        spec_subscribe(h, name).wf(),
        spec_subscribe(h, name).is_subscriber(name, h.next_id),
        spec_subscribe(h, name).pending(name, h.next_id) == Seq::<Seq<char>>::empty(),
        spec_subscribe(h, name).capacity == h.capacity,
        spec_subscribe(h, name).next_id == h.next_id + 1,
{
    lemma_ensure_topic_props(h, name);
    let h1 = spec_ensure_topic(h, name);
    let i = find_topic(h1.topics, name);
    lemma_find_topic_props(h1.topics, name);
    let h2 = spec_subscribe(h, name);
    assert(h2.topics.len() == h1.topics.len());
    assert forall|a: int| 0 <= a < h2.topics.len() implies (#[trigger] h2.topics[a]).name
        == h1.topics[a].name by {}
    lemma_find_topic_hit(h2.topics, name, i);
    let subs2 = h2.topics[i].subs;
    let ln = h1.topics[i].subs.len() as int;
    assert forall|b: int| 0 <= b < ln implies (#[trigger] subs2[b]).id != h.next_id by {
        assert(subs2[b] == h1.topics[i].subs[b]);
        assert(h1.topics[i].subs[b].id < h1.next_id);
    }
    assert(subs2[ln].id == h.next_id);
    lemma_find_sub_hit(subs2, h.next_id, ln);
    assert(h2.pending(name, h.next_id) == Seq::<Seq<char>>::empty());
    assert forall|a: int, b: int|
        0 <= a < h2.topics.len() && 0 <= b < (#[trigger] h2.topics[a]).subs.len() implies (
        #[trigger] h2.topics[a].subs[b]).id < h2.next_id && (
    #[trigger] h2.topics[a].subs[b]).queue.len() <= h2.capacity by {
        if a == i && b == ln {
        } else {
            assert(h2.topics[a].subs[b] == h1.topics[a].subs[b]);
        }
    }
    assert forall|a: int, b: int, c: int|
        0 <= a < h2.topics.len() && 0 <= b < c < (#[trigger] h2.topics[a]).subs.len() implies (
        #[trigger] h2.topics[a].subs[b]).id != (#[trigger] h2.topics[a].subs[c]).id by {
        if a == i && c == ln {
            assert(h2.topics[a].subs[b] == h1.topics[a].subs[b]);
            assert(h1.topics[a].subs[b].id < h1.next_id);
        } else {
            assert(h2.topics[a].subs[b] == h1.topics[a].subs[b]);
            assert(h2.topics[a].subs[c] == h1.topics[a].subs[c]);
        }
    }
    assert forall|a: int, b: int|
        0 <= a < b < h2.topics.len() implies (#[trigger] h2.topics[a]).name != (
    #[trigger] h2.topics[b]).name by {}
    assert(h2.wf());
}

/// Law: the round trip on a topic that has never been used. Subscribing,
/// then publishing one message, leaves exactly that message — and nothing
/// else — for the subscriber; after it is read the buffer is empty again.
pub proof fn lemma_round_trip(h: HubView, name: Seq<char>, msg: Seq<char>)
    requires
        h.wf(),
        !h.has_topic(name),
    ensures
        ({
            let after_sub = spec_subscribe(h, name);
            let after_pub = spec_publish(after_sub, name, msg);
            &&& after_pub.pending(name, h.next_id) == seq![msg]
            &&& spec_set_pending(after_pub, name, h.next_id, Seq::<Seq<char>>::empty()).pending(
                name,
                h.next_id,
            ) == Seq::<Seq<char>>::empty()
        }),
{
    lemma_subscribe_props(h, name);
    let after_sub = spec_subscribe(h, name);
    lemma_publish_appends(after_sub, name, h.next_id, msg);
    let after_pub = spec_publish(after_sub, name, msg);
    assert(Seq::<Seq<char>>::empty().push(msg) =~= seq![msg]);
    lemma_set_pending_props(after_pub, name, h.next_id, Seq::<Seq<char>>::empty());
}

} // verus!
