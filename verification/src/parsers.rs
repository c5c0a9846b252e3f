//! Log-line parsers of the indexer: each recognizes its marker anywhere in
//! the line and yields a skeleton event for it.

use vstd::prelude::*;

verus! {

/// Whether `pat` occurs in `s` starting at position `i`.
pub open spec fn spec_match_at(s: Seq<char>, pat: Seq<char>, i: int) -> bool {
    0 <= i && i + pat.len() <= s.len() && s.subrange(i, i + pat.len()) == pat
}

/// Whether `pat` occurs anywhere in `s`.
pub open spec fn spec_contains(s: Seq<char>, pat: Seq<char>) -> bool {
    exists|i: int| spec_match_at(s, pat, i)
}

fn match_at(s: &str, pat: &str, i: usize) -> (r: bool)
    requires
        i + pat@.len() <= s@.len(),
        s@.len() <= usize::MAX,
    ensures
        r == spec_match_at(s@, pat@, i as int),
{
    let m = pat.unicode_len();
    let mut j: usize = 0;
    while j < m
        invariant
            0 <= j <= m,
            m == pat@.len(),
            i + m <= s@.len(),
            s@.len() <= usize::MAX,
            forall|k: int| 0 <= k < j ==> s@[i + k] == pat@[k],
        decreases m - j,
    {
        if s.get_char(i + j) != pat.get_char(j) {
            proof {
                assert(s@.subrange(i as int, i as int + m) != pat@) by {
                    assert(s@.subrange(i as int, i as int + m)[j as int] == s@[i + j]);
                }
            }
            return false;
        }
        j = j + 1;
    }
    proof {
        assert(s@.subrange(i as int, i as int + m) =~= pat@);
    }
    true
}

/// Whether the pattern occurs anywhere in the text.
pub fn contains_pattern(s: &str, pat: &str) -> (r: bool)
    ensures
        r == spec_contains(s@, pat@),
{
    let n = s.unicode_len();
    let m = pat.unicode_len();
    if m > n {
        proof {
            assert forall|i: int| !spec_match_at(s@, pat@, i) by {}
        }
        return false;
    }
    if m == 0 {
        proof {
            assert(s@.subrange(0, 0) =~= pat@);
            assert(spec_match_at(s@, pat@, 0));
        }
        return true;
    }
    let mut i: usize = 0;
    while i <= n - m
        invariant
            0 <= i <= n - m + 1,
            1 <= m <= n,
            n == s@.len(),
            m == pat@.len(),
            forall|k: int| 0 <= k < i ==> !spec_match_at(s@, pat@, k),
        decreases n - m + 1 - i,
    {
        if match_at(s, pat, i) {
            return true;
        }
        i = i + 1;
    }
    proof {
        assert forall|k: int| !spec_match_at(s@, pat@, k) by {
            if 0 <= k <= n - m {
                assert(!spec_match_at(s@, pat@, k));
            }
        }
    }
    false
}

/// A market-registry change seen in the program log.
pub struct RegistryEvent {
    pub slot: u64,
    pub market_id: String,
    pub action: String,
}

/// An oracle bundle seen in the program log. The payload carries the raw
/// log line; the transport layer wraps it into its wire object.
pub struct OracleEvent {
    pub slot: u64,
    pub market_id: String,
    pub epoch_id: u64,
    pub payload_raw: String,
}

/// Recognizes a registry log line by its marker and yields the skeleton
/// registry event for `slot`; any other line is not a registry event.
pub fn parse_registry_log(slot: u64, line: &str) -> (r: Option<RegistryEvent>)
    ensures
        r is Some <==> spec_contains(line@, "M0_REGISTRY"@),
        r matches Some(ev) ==> ev.slot == slot && ev.market_id@ == "DEMO"@ && ev.action@
            == "upsert"@,
{
    if contains_pattern(line, "M0_REGISTRY") {
        Some(
            RegistryEvent { slot, market_id: "DEMO".to_owned(), action: "upsert".to_owned() },
        )
    } else {
        None
    }
}

/// Recognizes an oracle log line by its marker and yields the skeleton
/// oracle event for `slot`, carrying the raw line as its payload; any
/// other line is not an oracle event.
pub fn parse_oracle_log(slot: u64, line: &str) -> (r: Option<OracleEvent>)
    ensures
        r is Some <==> spec_contains(line@, "M0_ORACLE"@),
        r matches Some(ev) ==> ev.slot == slot && ev.market_id@ == "DEMO"@ && ev.epoch_id == 1
            && ev.payload_raw@ == line@,
{
    if contains_pattern(line, "M0_ORACLE") {
        Some(
            OracleEvent {
                slot,
                market_id: "DEMO".to_owned(),
                epoch_id: 1,
                payload_raw: line.to_owned(),
            },
        )
    } else {
        None
    }
}

} // verus!
