//! Per-session delivery pacing.
//!
//! A session's outbound sends pass through its pacer: an emission is
//! granted no earlier than the minimum interval after the previous one.
//! The pacer only computes, on a monotonic clock handed in by the caller;
//! the caller performs the actual waiting.

use vstd::prelude::*;

verus! {

/// The instant granted to an emission requested at `t`, after a previous
/// emission at `last` under minimum interval `d`: at once if the interval
/// has passed, else at the end of the interval.
pub open spec fn spec_granted(last: int, d: int, t: int) -> int {
    if t >= last + d {
        t
    } else {
        last + d
    }
}

/// The instants granted to emissions requested at `times`, one after
/// another, after a previous emission at `last`.
pub open spec fn spec_emissions(last: int, d: int, times: Seq<int>) -> Seq<int>
    decreases times.len(),
{
    if times.len() == 0 {
        Seq::empty()
    } else {
        let e = spec_granted(last, d, times[0]);
        seq![e] + spec_emissions(e, d, times.drop_first())
    }
}

/// Law: however emissions are requested, the granted instants of one
/// session are always at least the minimum interval apart.
pub proof fn lemma_pacer_min_gap(last: int, d: int, times: Seq<int>)
    ensures
        spec_emissions(last, d, times).len() == times.len(),
        times.len() > 0 ==> spec_emissions(last, d, times)[0] >= last + d,
        forall|i: int|
            0 <= i < times.len() - 1 ==> #[trigger] spec_emissions(last, d, times)[i + 1]
                >= spec_emissions(last, d, times)[i] + d,
    decreases times.len(),
{
    if times.len() > 0 {
        let e = spec_granted(last, d, times[0]);
        lemma_pacer_min_gap(e, d, times.drop_first());
        let es = spec_emissions(last, d, times);
        let rest = spec_emissions(e, d, times.drop_first());
        assert(es == seq![e] + rest);
        assert forall|i: int| 0 <= i < times.len() - 1 implies #[trigger] es[i + 1] >= es[i]
            + d by {
            if i == 0 {
                assert(rest.len() > 0);
                assert(es[0] == e);
                assert(es[1] == rest[0]);
                assert(rest[0] >= e + d);
            } else {
                assert(rest[(i - 1) + 1] >= rest[i - 1] + d);
                assert(es[i] == rest[i - 1]);
                assert(es[i + 1] == rest[i]);
            }
        }
    }
}

/// Enforces a minimum interval between successive sends on one session.
pub struct Throttle {
    pub min_interval_ms: u64,
    pub last_emission_ms: Option<u64>,
}

impl Throttle {
    /// The instant of the session's last emission, if it has emitted.
    pub open spec fn last_emission(self) -> Option<u64> {
        self.last_emission_ms
    }

    /// A pacer that has not emitted yet: the first send goes out at once.
    pub fn new(min_interval_ms: u64) -> (r: Throttle)
        ensures
            r.min_interval_ms == min_interval_ms,
            r.last_emission() is None,
    {
        Throttle { min_interval_ms, last_emission_ms: None }
    }

    /// Clearance for an emission requested at `now_ms` on the monotonic
    /// clock: how much longer the caller must wait before sending. The
    /// emission is recorded at `now_ms + wait_ms`, never closer than the
    /// minimum interval to the previous emission.
    pub fn wait(&mut self, now_ms: u64) -> (wait_ms: u64)
        requires
            now_ms + old(self).min_interval_ms <= u64::MAX,
            old(self).last_emission() matches Some(l) ==> l + old(self).min_interval_ms
                <= u64::MAX,
        ensures
            final(self).min_interval_ms == old(self).min_interval_ms,
            final(self).last_emission() == Some((now_ms + wait_ms) as u64),
            old(self).last_emission() is None ==> wait_ms == 0,
            old(self).last_emission() matches Some(l) ==> now_ms + wait_ms == spec_granted(
                l as int,
                old(self).min_interval_ms as int,
                now_ms as int,
            ),
    {
        let wait_ms: u64 = match self.last_emission_ms {
            None => 0,
            Some(l) => {
                if now_ms >= l && now_ms - l >= self.min_interval_ms {
                    0
                } else {
                    if now_ms >= l {
                        self.min_interval_ms - (now_ms - l)
                    } else {
                        (l - now_ms) + self.min_interval_ms
                    }
                }
            },
        };
        self.last_emission_ms = Some(now_ms + wait_ms);
        wait_ms
    }
}

} // verus!
