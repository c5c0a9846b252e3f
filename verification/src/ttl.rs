//! A value paired with the instant it stops being fresh.

use vstd::prelude::*;

verus! {

/// A cached value together with its expiry time, in milliseconds on the
/// caller's monotonic clock.
pub struct Ttl<T> {
    pub value: T,
    pub expires_at: u64,
}

impl<T> Ttl<T> {
    /// Wraps `value`, fresh until `now_ms + ttl_ms`.
    pub fn new(value: T, ttl_ms: u64, now_ms: u64) -> (r: Ttl<T>)
        requires
            now_ms + ttl_ms <= u64::MAX,
        ensures
            r.value == value,
            r.expires_at == now_ms + ttl_ms,
    {
        Ttl { value, expires_at: now_ms + ttl_ms }
    }

    /// A value is expired from its expiry instant onward.
    pub fn expired(&self, now_ms: u64) -> (r: bool)
        ensures
            r == (now_ms >= self.expires_at),
    {
        now_ms >= self.expires_at
    }
}

} // verus!
