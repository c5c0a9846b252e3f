//! Ingress rate governance: a fixed-window request counter keyed by client
//! identity.
//!
//! One entry per key holds `(count, window_start_ms)`. A call within the
//! window increments the count and is allowed only while the count stays at
//! or under the limit; the over-limit count is retained, so a client that
//! keeps hammering stays rejected until the window rolls over. A limit of
//! zero is an explicit development-mode bypass that allows everything.

use vstd::prelude::*;

verus! {

/// Length of one counting window, in milliseconds.
pub const WINDOW_MS: u64 = 60_000;

#[verifier::external_type_specification]
#[verifier::external_body]
#[verifier::reject_recursive_types(K)]
#[verifier::reject_recursive_types(V)]
#[verifier::reject_recursive_types(S)]
pub struct ExDashMap<K, V, S>(dashmap::DashMap<K, V, S>);

/// The concurrent map behind the limiter: client key to
/// `(count, window_start_ms)`.
pub type WindowMap = dashmap::DashMap<String, (u32, u64)>;

/// The entries a window map holds, keyed by client identity.
pub uninterp spec fn window_entries(m: WindowMap) -> Map<Seq<char>, (u32, u64)>;

/// The entry under `key`, if the map holds one.
pub open spec fn entry_of(m: Map<Seq<char>, (u32, u64)>, key: Seq<char>) -> Option<(u32, u64)> {
    if m.contains_key(key) {
        Some(m[key])
    } else {
        None
    }
}

/// The entry after one request at `now_ms` hits the given prior entry:
/// a missing or rolled-over entry restarts the window at count 1; otherwise
/// the count rises (saturating) and the window start stays.
pub open spec fn spec_window_step(entry: Option<(u32, u64)>, now_ms: u64) -> (u32, u64) {
    match entry {
        None => (1u32, now_ms),
        Some((count, start)) => if now_ms > start + WINDOW_MS {
            (1u32, now_ms)
        } else {
            if count == u32::MAX {
                (count, start)
            } else {
                ((count + 1) as u32, start)
            }
        },
    }
}

/// Whether the request that produced `entry` is allowed under `limit`:
/// the post-increment count must not exceed it.
pub open spec fn spec_window_allows(entry: (u32, u64), limit: u32) -> bool {
    entry.0 <= limit
}

/// In-process fixed-window request limiter, one entry per client key.
pub struct RateLimiter {
    map: WindowMap,
    max_per_minute: u32,
}

impl RateLimiter {
    /// The entries currently held, keyed by client identity.
    pub closed spec fn entries(self) -> Map<Seq<char>, (u32, u64)> {
        window_entries(self.map)
    }

    /// The configured per-window limit.
    pub closed spec fn limit(self) -> u32 {
        self.max_per_minute
    }

    /// Whether the limiter holds no entry yet.
    pub open spec fn has_no_entries(self) -> bool {
        self.entries() == Map::<Seq<char>, (u32, u64)>::empty()
    }

    /// A limiter with no entries yet.
    ///
    /// Relies on `dashmap::DashMap::new`: a freshly created map is empty.
    #[verifier::external_body]
    pub fn new(max_per_minute: u32) -> (r: RateLimiter)
        ensures
            r.limit() == max_per_minute,
            r.has_no_entries(),
    {
        RateLimiter { map: dashmap::DashMap::new(), max_per_minute }
    }

    /// The pure window decision: the new entry for the key, and whether the
    /// triggering request passes.
    fn window_step(entry: Option<(u32, u64)>, now_ms: u64, limit: u32) -> (r: ((u32, u64), bool))
        ensures
            r.0 == spec_window_step(entry, now_ms),
            r.1 == spec_window_allows(spec_window_step(entry, now_ms), limit),
    {
        let new_entry: (u32, u64) = match entry {
            None => (1u32, now_ms),
            Some((count, start)) => {
                if now_ms > start && now_ms - start > WINDOW_MS {
                    (1u32, now_ms)
                } else {
                    if count == u32::MAX {
                        (count, start)
                    } else {
                        (count + 1, start)
                    }
                }
            },
        };
        let allow = new_entry.0 <= limit;
        (new_entry, allow)
    }

    /// Decides one inbound request for `key` at `now_ms` on the monotonic
    /// clock. With a limit of zero everything is allowed and no entry is
    /// touched; otherwise the key's entry advances by one window step and
    /// the request passes exactly when the stepped count is within the
    /// limit.
    pub fn allow(&mut self, key: &str, now_ms: u64) -> (r: bool)
        ensures
            final(self).limit() == old(self).limit(),
            old(self).limit() == 0 ==> r && final(self).entries() == old(self).entries(),
            old(self).limit() != 0 ==> {
                let stepped = spec_window_step(entry_of(old(self).entries(), key@), now_ms);
                &&& final(self).entries() == old(self).entries().insert(key@, stepped)
                &&& r == spec_window_allows(stepped, old(self).limit())
            },
    {
        if self.max_per_minute == 0 {
            return true;
        }
        let entry = self.window_get(key);
        let (new_entry, allow) = Self::window_step(entry, now_ms, self.max_per_minute);
        self.window_set(key, new_entry);
        allow
    }

    /// Relies on `dashmap::DashMap::get`: returns the value stored under the
    /// key, if the map holds one.
    #[verifier::external_body]
    fn window_get(&self, key: &str) -> (r: Option<(u32, u64)>)
        ensures
            r == entry_of(window_entries(self.map), key@),
    {
        self.map.get(key).map(|e| *e.value())
    }

    /// Relies on `dashmap::DashMap::insert`: afterwards the map holds `v`
    /// under the key, and no other entry has moved.
    #[verifier::external_body]
    fn window_set(&mut self, key: &str, v: (u32, u64))
        ensures
            window_entries(final(self).map) == window_entries(old(self).map).insert(key@, v),
            final(self).max_per_minute == old(self).max_per_minute,
    {
        self.map.insert(key.to_owned(), v);
    }
}

} // verus!

verus! {

/// The key's entry after a run of requests at the given times, starting
/// from `entry`.
pub open spec fn spec_window_fold(entry: Option<(u32, u64)>, times: Seq<u64>) -> Option<
    (u32, u64),
>
    decreases times.len(),
{
    if times.len() == 0 {
        entry
    } else {
        spec_window_fold(Some(spec_window_step(entry, times[0])), times.drop_first())
    }
}

proof fn lemma_fold_counts(entry: (u32, u64), times: Seq<u64>)
    requires
        forall|j: int| 0 <= j < times.len() ==> entry.1 <= #[trigger] times[j] <= entry.1 + WINDOW_MS,
        entry.0 + times.len() <= u32::MAX,
    ensures
        spec_window_fold(Some(entry), times) == Some(
            ((entry.0 + times.len()) as u32, entry.1),
        ),
    decreases times.len(),
{
    if times.len() > 0 {
        let stepped = spec_window_step(Some(entry), times[0]);
        assert(stepped == ((entry.0 + 1) as u32, entry.1));
        assert forall|j: int| 0 <= j < times.drop_first().len() implies entry.1
            <= #[trigger] times.drop_first()[j] <= entry.1 + WINDOW_MS by {
            assert(times.drop_first()[j] == times[j + 1]);
        }
        lemma_fold_counts(stepped, times.drop_first());
    }
}

/// Law: for one client key, more than `limit` requests within a single
/// window are rejected from the request after the `limit`-th onward. The
/// decision of request `i` (counting from zero, all requests falling inside
/// the window opened by the first) is `allow` exactly when `i < limit`.
pub proof fn lemma_window_sticky_rejection(times: Seq<u64>, limit: u32, i: int)
    requires
        1 <= limit,
        0 < times.len() <= u32::MAX,
        forall|j: int| 0 <= j < times.len() ==> times[0] <= #[trigger] times[j] <= times[0]
            + WINDOW_MS,
        0 <= i < times.len(),
    ensures
        spec_window_allows(
            spec_window_step(spec_window_fold(None, times.take(i)), times[i]),
            limit,
        ) <==> i < limit,
{
    if i == 0 {
        assert(times.take(0).len() == 0);
        assert(spec_window_step(None, times[0]) == (1u32, times[0]));
    } else {
        let prefix = times.take(i);
        assert(prefix[0] == times[0]);
        let first = spec_window_step(None, prefix[0]);
        assert(first == (1u32, times[0]));
        let rest = prefix.drop_first();
        assert forall|j: int| 0 <= j < rest.len() implies times[0] <= #[trigger] rest[j]
            <= times[0] + WINDOW_MS by {
            assert(rest[j] == times[j + 1]);
        }
        lemma_fold_counts(first, rest);
        assert(spec_window_fold(None, prefix) == Some((i as u32, times[0])));
        let stepped = spec_window_step(Some((i as u32, times[0])), times[i]);
        assert(stepped.0 == i + 1);
    }
}

/// Law: while the window of an entry that has reached the limit has not
/// rolled over, the next request for that key is still rejected. (With a
/// limit at the counter's saturation point the count can no longer tell
/// "at the limit" from "over it", so that limit is left out.)
pub proof fn lemma_window_rejects_within_window(entry: (u32, u64), now_ms: u64, limit: u32)
    requires
        limit <= entry.0,
        limit < u32::MAX,
        now_ms <= entry.1 + WINDOW_MS,
    ensures
        !spec_window_allows(spec_window_step(Some(entry), now_ms), limit),
{
}

/// Law: once the window of an entry has rolled over, the next request for
/// that key is allowed again, whatever count the entry had reached.
pub proof fn lemma_window_reopens(entry: (u32, u64), now_ms: u64, limit: u32)
    requires
        1 <= limit,
        now_ms > entry.1 + WINDOW_MS,
    ensures
        spec_window_allows(spec_window_step(Some(entry), now_ms), limit),
        spec_window_step(Some(entry), now_ms) == (1u32, now_ms),
{
}

} // verus!

verus! {

/// The whitespace a header value is trimmed of.
pub open spec fn spec_is_space(c: char) -> bool {
    c == ' ' || c == '\t' || c == '\r' || c == '\n'
}

/// The value up to (not including) its first comma.
pub open spec fn spec_before_comma(s: Seq<char>) -> Seq<char>
    decreases s.len(),
{
    if s.len() == 0 {
        s
    } else if s[0] == ',' {
        Seq::empty()
    } else {
        seq![s[0]] + spec_before_comma(s.drop_first())
    }
}

/// The value without leading whitespace.
pub open spec fn spec_trim_start(s: Seq<char>) -> Seq<char>
    decreases s.len(),
{
    if s.len() > 0 && spec_is_space(s[0]) {
        spec_trim_start(s.drop_first())
    } else {
        s
    }
}

/// The value without trailing whitespace.
pub open spec fn spec_trim_end(s: Seq<char>) -> Seq<char>
    decreases s.len(),
{
    if s.len() > 0 && spec_is_space(s[s.len() - 1]) {
        spec_trim_end(s.drop_last())
    } else {
        s
    }
}

/// The identity key of an inbound request: the first comma-separated field
/// of the forwarded-address header, trimmed; a fixed fallback when the
/// header is absent.
pub open spec fn spec_client_key(header: Option<Seq<char>>) -> Seq<char> {
    match header {
        None => "local"@,
        Some(s) => spec_trim_end(spec_trim_start(spec_before_comma(s))),
    }
}

proof fn lemma_before_comma_is_take(s: Seq<char>, e: int)
    requires
        0 <= e <= s.len(),
        forall|j: int| 0 <= j < e ==> s[j] != ',',
        e < s.len() ==> s[e] == ',',
    ensures
        spec_before_comma(s) == s.take(e),
    decreases s.len(),
{
    if s.len() == 0 {
        assert(s.take(e) =~= s);
    } else if e == 0 {
        assert(spec_before_comma(s) =~= s.take(0));
    } else {
        assert(s[0] != ',');
        assert forall|j: int| 0 <= j < e - 1 implies s.drop_first()[j] != ',' by {
            assert(s.drop_first()[j] == s[j + 1]);
        }
        assert(e - 1 < s.drop_first().len() ==> s.drop_first()[e - 1] == s[e]);
        lemma_before_comma_is_take(s.drop_first(), e - 1);
        assert(s.take(e) =~= seq![s[0]] + s.drop_first().take(e - 1));
    }
}

pub(crate) proof fn lemma_trim_start_is_skip(s: Seq<char>, a: int)
    requires
        0 <= a <= s.len(),
        forall|j: int| 0 <= j < a ==> spec_is_space(s[j]),
        a < s.len() ==> !spec_is_space(s[a]),
    ensures
        spec_trim_start(s) == s.skip(a),
    decreases s.len(),
{
    if a == 0 {
        assert(s.skip(0) =~= s);
    } else {
        assert(spec_is_space(s[0]));
        assert forall|j: int| 0 <= j < a - 1 implies spec_is_space(s.drop_first()[j]) by {
            assert(s.drop_first()[j] == s[j + 1]);
        }
        assert(a - 1 < s.drop_first().len() ==> s.drop_first()[a - 1] == s[a]);
        lemma_trim_start_is_skip(s.drop_first(), a - 1);
        assert(s.skip(a) =~= s.drop_first().skip(a - 1));
    }
}

pub(crate) proof fn lemma_trim_end_is_take(s: Seq<char>, b: int)
    requires
        0 <= b <= s.len(),
        forall|j: int| b <= j < s.len() ==> spec_is_space(s[j]),
        b > 0 ==> !spec_is_space(s[b - 1]),
    ensures
        spec_trim_end(s) == s.take(b),
    decreases s.len(),
{
    if b == s.len() {
        assert(s.take(b) =~= s);
    } else {
        assert(spec_is_space(s[s.len() - 1]));
        assert(s.drop_last() =~= s.take(s.len() - 1));
        assert forall|j: int| b <= j < s.drop_last().len() implies spec_is_space(
            s.drop_last()[j],
        ) by {
            assert(s.drop_last()[j] == s[j]);
        }
        lemma_trim_end_is_take(s.drop_last(), b);
        assert(s.drop_last().take(b) =~= s.take(b));
    }
}

/// Whether `c` is trimmed from the edges of a header value.
pub(crate) fn is_space_char(c: char) -> (r: bool)
    ensures
        r == spec_is_space(c),
{
    c == ' ' || c == '\t' || c == '\r' || c == '\n'
}

/// Derives the identity key of an inbound request from its forwarded-address
/// header, if any: the first comma-separated field, trimmed of surrounding
/// whitespace; `"local"` when no header was sent.
pub fn client_key(forwarded: Option<&str>) -> (r: String)
    ensures
        forwarded is None ==> r@ == spec_client_key(None),
        forwarded matches Some(v) ==> r@ == spec_client_key(Some(v@)),
{
    match forwarded {
        None => "local".to_owned(),
        Some(v) => {
            let n = v.unicode_len();
            let mut end: usize = 0;
            while end < n && v.get_char(end) != ','
                invariant
                    0 <= end <= n,
                    n == v@.len(),
                    forall|j: int| 0 <= j < end ==> v@[j] != ',',
                decreases n - end,
            {
                end = end + 1;
            }
            let mut start: usize = 0;
            while start < end && is_space_char(v.get_char(start))
                invariant
                    0 <= start <= end <= n,
                    n == v@.len(),
                    forall|j: int| 0 <= j < start ==> spec_is_space(v@[j]),
                decreases end - start,
            {
                start = start + 1;
            }
            let mut stop: usize = end;
            while stop > start && is_space_char(v.get_char(stop - 1))
                invariant
                    0 <= start <= stop <= end <= n,
                    n == v@.len(),
                    forall|j: int| stop <= j < end ==> spec_is_space(v@[j]),
                decreases stop,
            {
                stop = stop - 1;
            }
            proof {
                lemma_before_comma_is_take(v@, end as int);
                let p = v@.take(end as int);
                assert forall|j: int| 0 <= j < start implies spec_is_space(p[j]) by {
                    assert(p[j] == v@[j]);
                }
                lemma_trim_start_is_skip(p, start as int);
                let q = p.skip(start as int);
                assert forall|j: int| stop - start <= j < q.len() implies spec_is_space(
                    q[j],
                ) by {
                    assert(q[j] == v@[j + start]);
                }
                assert(stop - start > 0 ==> q[stop - start - 1] == v@[stop - 1]);
                lemma_trim_end_is_take(q, stop as int - start as int);
                assert(q.take(stop as int - start as int) =~= v@.subrange(
                    start as int,
                    stop as int,
                ));
            }
            v.substring_char(start, stop).to_owned()
        },
    }
}

} // verus!
