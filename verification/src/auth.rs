//! Authentication helpers of the gateway: the hashed API-key allow-list
//! and bearer-token extraction. Keys are stored and compared as the
//! lowercase hex of their SHA-256 digest.

use vstd::prelude::*;
use vstd::string::StringSliceAdditionalSpecFns;
use vstd::slice::slice_index_get;
use vstd::slice::slice_subrange;

verus! {

/// The SHA-256 digest of a byte string.
pub uninterp spec fn sha256_of(data: Seq<u8>) -> Seq<u8>;

/// Relies on `sha2::Sha256::digest`: the digest depends on the input bytes
/// alone and is 32 bytes long.
#[verifier::external_body]
fn sha256(data: &[u8]) -> (r: Vec<u8>)
    ensures
        r@ == sha256_of(data@),
        r@.len() == 32,
{
    <sha2::Sha256 as sha2::Digest>::digest(data).to_vec()
}

/// The lowercase hex digit of a nibble value.
pub open spec fn spec_hex_digit(n: int) -> char {
    if n == 0 {
        '0'
    } else if n == 1 {
        '1'
    } else if n == 2 {
        '2'
    } else if n == 3 {
        '3'
    } else if n == 4 {
        '4'
    } else if n == 5 {
        '5'
    } else if n == 6 {
        '6'
    } else if n == 7 {
        '7'
    } else if n == 8 {
        '8'
    } else if n == 9 {
        '9'
    } else if n == 10 {
        'a'
    } else if n == 11 {
        'b'
    } else if n == 12 {
        'c'
    } else if n == 13 {
        'd'
    } else if n == 14 {
        'e'
    } else {
        'f'
    }
}

/// The lowercase hex encoding of a byte string: two digits per byte, high
/// nibble first.
pub open spec fn spec_hex_of(data: Seq<u8>) -> Seq<char> {
    Seq::new(
        data.len() * 2,
        |i: int|
            if i % 2 == 0 {
                spec_hex_digit(data[i / 2] as int / 16)
            } else {
                spec_hex_digit(data[i / 2] as int % 16)
            },
    )
}

/// Relies on `hex::encode`: lowercase, two digits per byte, high nibble
/// first, as its digit table shows.
#[verifier::external_body]
fn hex_encode(data: &[u8]) -> (r: String)
    ensures
        r@ == spec_hex_of(data@),
{
    hex::encode(data)
}

/// The form a key is stored in: the hex of its SHA-256.
pub open spec fn spec_key_hash(key: Seq<u8>) -> Seq<char> {
    spec_hex_of(sha256_of(key))
}

/// The whitespace trimmed off a configured key.
pub open spec fn spec_is_space_u8(b: u8) -> bool {
    b == 32 || b == 9 || b == 13 || b == 10
}

/// The bytes of a configuration string up to (not including) its first
/// comma.
pub open spec fn spec_before_comma_u8(s: Seq<u8>) -> Seq<u8>
    decreases s.len(),
{
    if s.len() == 0 {
        s
    } else if s[0] == 44 {
        Seq::empty()
    } else {
        seq![s[0]] + spec_before_comma_u8(s.drop_first())
    }
}

/// The bytes without leading whitespace.
pub open spec fn spec_trim_start_u8(s: Seq<u8>) -> Seq<u8>
    decreases s.len(),
{
    if s.len() > 0 && spec_is_space_u8(s[0]) {
        spec_trim_start_u8(s.drop_first())
    } else {
        s
    }
}

/// The bytes without trailing whitespace.
pub open spec fn spec_trim_end_u8(s: Seq<u8>) -> Seq<u8>
    decreases s.len(),
{
    if s.len() > 0 && spec_is_space_u8(s[s.len() - 1]) {
        spec_trim_end_u8(s.drop_last())
    } else {
        s
    }
}

proof fn lemma_before_comma_u8_len(s: Seq<u8>)
    ensures
        spec_before_comma_u8(s).len() <= s.len(),
    decreases s.len(),
{
    if s.len() > 0 && s[0] != 44 {
        lemma_before_comma_u8_len(s.drop_first());
    }
}

/// The allow-list parsed from a comma-separated configuration string: the
/// key hash of each non-empty trimmed entry, in order.
pub open spec fn spec_config_hashes(s: Seq<u8>) -> Seq<Seq<char>>
    decreases s.len(),
    via spec_config_hashes_dec
{
    let f = spec_before_comma_u8(s);
    let t = spec_trim_end_u8(spec_trim_start_u8(f));
    let head: Seq<Seq<char>> = if t.len() > 0 {
        seq![spec_key_hash(t)]
    } else {
        Seq::empty()
    };
    if f.len() >= s.len() {
        head
    } else {
        head + spec_config_hashes(s.skip(f.len() as int + 1))
    }
}

#[via_fn]
proof fn spec_config_hashes_dec(s: Seq<u8>) {
    lemma_before_comma_u8_len(s);
}

proof fn lemma_before_comma_u8_is_take(s: Seq<u8>, e: int)
    requires
        0 <= e <= s.len(),
        forall|j: int| 0 <= j < e ==> s[j] != 44,
        e < s.len() ==> s[e] == 44,
    ensures
        spec_before_comma_u8(s) == s.take(e),
    decreases s.len(),
{
    if s.len() == 0 {
        assert(s.take(e) =~= s);
    } else if e == 0 {
        assert(spec_before_comma_u8(s) =~= s.take(0));
    } else {
        assert forall|j: int| 0 <= j < e - 1 implies s.drop_first()[j] != 44 by {
            assert(s.drop_first()[j] == s[j + 1]);
        }
        assert(e - 1 < s.drop_first().len() ==> s.drop_first()[e - 1] == s[e]);
        lemma_before_comma_u8_is_take(s.drop_first(), e - 1);
        assert(s.take(e) =~= seq![s[0]] + s.drop_first().take(e - 1));
    }
}

proof fn lemma_trim_start_u8_is_skip(s: Seq<u8>, a: int)
    requires
        0 <= a <= s.len(),
        forall|j: int| 0 <= j < a ==> spec_is_space_u8(s[j]),
        a < s.len() ==> !spec_is_space_u8(s[a]),
    ensures
        spec_trim_start_u8(s) == s.skip(a),
    decreases s.len(),
{
    if a == 0 {
        assert(s.skip(0) =~= s);
    } else {
        assert forall|j: int| 0 <= j < a - 1 implies spec_is_space_u8(s.drop_first()[j]) by {
            assert(s.drop_first()[j] == s[j + 1]);
        }
        assert(a - 1 < s.drop_first().len() ==> s.drop_first()[a - 1] == s[a]);
        lemma_trim_start_u8_is_skip(s.drop_first(), a - 1);
        assert(s.skip(a) =~= s.drop_first().skip(a - 1));
    }
}

proof fn lemma_trim_end_u8_is_take(s: Seq<u8>, b: int)
    requires
        0 <= b <= s.len(),
        forall|j: int| b <= j < s.len() ==> spec_is_space_u8(s[j]),
        b > 0 ==> !spec_is_space_u8(s[b - 1]),
    ensures
        spec_trim_end_u8(s) == s.take(b),
    decreases s.len(),
{
    if b == s.len() {
        assert(s.take(b) =~= s);
    } else {
        assert(s.drop_last() =~= s.take(s.len() - 1));
        assert forall|j: int| b <= j < s.drop_last().len() implies spec_is_space_u8(
            s.drop_last()[j],
        ) by {
            assert(s.drop_last()[j] == s[j]);
        }
        lemma_trim_end_u8_is_take(s.drop_last(), b);
        assert(s.drop_last().take(b) =~= s.take(b));
    }
}

/// Whether `b` is trimmed off the edges of a configured key.
fn is_space_byte(b: u8) -> (r: bool)
    ensures
        r == spec_is_space_u8(b),
{
    b == 32 || b == 9 || b == 13 || b == 10
}

/// The API-key allow-list: only the hex-encoded SHA-256 of each configured
/// key is kept.
pub struct ApiKeyAuth {
    allowed_hashes: Vec<String>,
}

impl ApiKeyAuth {
    /// The stored key hashes, in configuration order.
    pub closed spec fn hashes(self) -> Seq<Seq<char>> {
        self.allowed_hashes@.map(|i: int, h: String| h@)
    }

    /// Builds the allow-list from a comma-separated configuration string:
    /// each non-empty entry, trimmed of surrounding whitespace, is stored
    /// as its key hash.
    pub fn from_config(raw: &str) -> (r: ApiKeyAuth)
        ensures
            r.hashes() == spec_config_hashes(raw.spec_bytes()),
    {
        let bytes = raw.as_bytes();
        let n = bytes.len();
        let mut hashes: Vec<String> = Vec::new();
        let mut st: usize = 0;
        let mut done = false;
        proof {
            assert(bytes@.skip(0) =~= bytes@);
            assert(hashes@.map(|i: int, h: String| h@) =~= Seq::<Seq<char>>::empty());
        }
        while !done
            invariant
                0 <= st <= n,
                n == bytes@.len(),
                bytes@ == raw.spec_bytes(),
                !done ==> spec_config_hashes(raw.spec_bytes()) == hashes@.map(
                    |i: int, h: String| h@,
                ) + spec_config_hashes(bytes@.skip(st as int)),
                done ==> spec_config_hashes(raw.spec_bytes()) == hashes@.map(
                    |i: int, h: String| h@,
                ),
            decreases n - st + (if done { 0int } else { 1int }),
        {
            let ghost su = bytes@.skip(st as int);
            let ghost pre = hashes@.map(|i: int, h: String| h@);
            let mut e: usize = st;
            while e < n && *slice_index_get(bytes, e) != 44
                invariant
                    st <= e <= n,
                    n == bytes@.len(),
                    forall|j: int| st <= j < e ==> bytes@[j] != 44,
                decreases n - e,
            {
                e = e + 1;
            }
            let mut a: usize = st;
            while a < e && is_space_byte(*slice_index_get(bytes, a))
                invariant
                    st <= a <= e <= n,
                    n == bytes@.len(),
                    forall|j: int| st <= j < a ==> spec_is_space_u8(bytes@[j]),
                decreases e - a,
            {
                a = a + 1;
            }
            let mut b: usize = e;
            while b > a && is_space_byte(*slice_index_get(bytes, b - 1))
                invariant
                    st <= a <= b <= e <= n,
                    n == bytes@.len(),
                    forall|j: int| b <= j < e ==> spec_is_space_u8(bytes@[j]),
                decreases b,
            {
                b = b - 1;
            }
            proof {
                assert forall|j: int| 0 <= j < e - st implies su[j] != 44 by {
                    assert(su[j] == bytes@[st + j]);
                }
                assert((e as int) - (st as int) < su.len() ==> su[e - st] == bytes@[e as int]);
                lemma_before_comma_u8_is_take(su, e as int - st as int);
                let f = su.take(e as int - st as int);
                assert forall|j: int| 0 <= j < a - st implies spec_is_space_u8(f[j]) by {
                    assert(f[j] == bytes@[st + j]);
                }
                assert((a as int) - (st as int) < f.len() ==> f[a - st] == bytes@[a as int]);
                lemma_trim_start_u8_is_skip(f, a as int - st as int);
                let g = f.skip(a as int - st as int);
                assert forall|j: int| b - a <= j < g.len() implies spec_is_space_u8(g[j]) by {
                    assert(g[j] == bytes@[a + j]);
                }
                assert((b as int) - (a as int) > 0 ==> g[b - a - 1] == bytes@[b as int - 1]);
                lemma_trim_end_u8_is_take(g, b as int - a as int);
                assert(g.take(b as int - a as int) =~= bytes@.subrange(a as int, b as int));
                assert(spec_trim_end_u8(spec_trim_start_u8(spec_before_comma_u8(su)))
                    == bytes@.subrange(a as int, b as int));
            }
            if b > a {
                let field = slice_subrange(bytes, a, b);
                let digest = sha256(field);
                let h = hex_encode(digest.as_slice());
                hashes.push(h);
                proof {
                    assert(hashes@.map(|i: int, h2: String| h2@) =~= pre.push(
                        spec_key_hash(bytes@.subrange(a as int, b as int)),
                    ));
                }
            }
            if e < n {
                proof {
                    let f = spec_before_comma_u8(su);
                    assert(f.len() == e - st);
                    assert(su.skip(f.len() as int + 1) =~= bytes@.skip(e as int + 1));
                    assert(spec_config_hashes(su) == (if b > a {
                        seq![spec_key_hash(bytes@.subrange(a as int, b as int))]
                    } else {
                        Seq::<Seq<char>>::empty()
                    }) + spec_config_hashes(bytes@.skip(e as int + 1)));
                    if b > a {
                        assert(pre.push(spec_key_hash(bytes@.subrange(a as int, b as int)))
                            + spec_config_hashes(bytes@.skip(e as int + 1)) =~= pre + (seq![
                            spec_key_hash(bytes@.subrange(a as int, b as int)),
                        ] + spec_config_hashes(bytes@.skip(e as int + 1))));
                    } else {
                        assert(pre + (Seq::<Seq<char>>::empty() + spec_config_hashes(
                            bytes@.skip(e as int + 1),
                        )) =~= pre + spec_config_hashes(bytes@.skip(e as int + 1)));
                    }
                }
                st = e + 1;
            } else {
                proof {
                    let f = spec_before_comma_u8(su);
                    assert(f.len() == su.len());
                    assert(spec_config_hashes(su) == (if b > a {
                        seq![spec_key_hash(bytes@.subrange(a as int, b as int))]
                    } else {
                        Seq::<Seq<char>>::empty()
                    }));
                    if b > a {
                        assert(pre.push(spec_key_hash(bytes@.subrange(a as int, b as int))) =~= pre
                            + spec_config_hashes(su));
                    } else {
                        assert(pre + spec_config_hashes(su) =~= pre);
                    }
                }
                done = true;
            }
        }
        ApiKeyAuth { allowed_hashes: hashes }
    }

    /// The stored form of one key: the lowercase hex of its SHA-256.
    pub fn key_hash(key: &str) -> (r: String)
        ensures
            r@ == spec_key_hash(key.spec_bytes()),
    {
        let digest = sha256(key.as_bytes());
        hex_encode(digest.as_slice())
    }

    /// Whether `key` is accepted: an empty allow-list is the explicit
    /// development-mode bypass and accepts every key; otherwise the key's
    /// hash must be on the list.
    pub fn verify(&self, key: &str) -> (r: bool)
        ensures
            r == (self.hashes().len() == 0 || self.hashes().contains(
                spec_key_hash(key.spec_bytes()),
            )),
    {
        if self.allowed_hashes.len() == 0 {
            return true;
        }
        let digest = sha256(key.as_bytes());
        let h = hex_encode(digest.as_slice());
        let m = self.allowed_hashes.len();
        let mut i: usize = 0;
        while i < m
            invariant
                0 <= i <= m,
                m == self.allowed_hashes@.len(),
                h@ == spec_key_hash(key.spec_bytes()),
                forall|k: int| 0 <= k < i ==> (#[trigger] self.allowed_hashes@[k])@ != h@,
            decreases m - i,
        {
            if h == self.allowed_hashes[i] {
                proof {
                    assert(self.hashes()[i as int] == h@);
                }
                return true;
            }
            i = i + 1;
        }
        proof {
            assert forall|k: int| 0 <= k < self.hashes().len() implies #[trigger] self.hashes()[k]
                != spec_key_hash(key.spec_bytes()) by {
                assert(self.hashes()[k] == self.allowed_hashes@[k]@);
            }
        }
        false
    }
}

} // verus!

verus! {

/// The claims carried by a verified token.
pub struct Claims {
    pub sub: String,
    pub exp: usize,
    pub aud: Option<String>,
    pub iss: Option<String>,
}

/// The token-verification configuration: shared secret and the expected
/// audience and issuer, where configured.
pub struct JwtAuth {
    pub secret: String,
    pub audience: Option<String>,
    pub issuer: Option<String>,
}

impl JwtAuth {
    /// A verifier for the given secret, audience and issuer.
    pub fn new(secret: String, audience: Option<String>, issuer: Option<String>) -> (r: JwtAuth)
        ensures
            r.secret == secret,
            r.audience == audience,
            r.issuer == issuer,
    {
        JwtAuth { secret, audience, issuer }
    }
}

/// A header value without surrounding whitespace.
pub open spec fn spec_trimmed(v: Seq<char>) -> Seq<char> {
    crate::rate_limit::spec_trim_end(crate::rate_limit::spec_trim_start(v))
}

/// The token carried by an authorization header value: the value, trimmed,
/// must open with the bearer scheme; what follows the scheme is the token,
/// trimmed.
pub open spec fn spec_bearer_token(v: Seq<char>) -> Option<Seq<char>> {
    let t = spec_trimmed(v);
    if t.len() >= 7 && t.take(7) == "Bearer "@ {
        Some(spec_trimmed(t.skip(7)))
    } else {
        None
    }
}

/// Extracts the bearer token from an authorization header value, if the
/// value carries one.
pub fn bearer_token(header_value: &str) -> (r: Option<String>)
    ensures
        r is Some <==> spec_bearer_token(header_value@) is Some,
        r matches Some(t) ==> spec_bearer_token(header_value@) == Some(t@),
{
    let v = header_value;
    let n = v.unicode_len();
    let mut a: usize = 0;
    while a < n && crate::rate_limit::is_space_char(v.get_char(a))
        invariant
            0 <= a <= n,
            n == v@.len(),
            forall|j: int| 0 <= j < a ==> crate::rate_limit::spec_is_space(v@[j]),
        decreases n - a,
    {
        a = a + 1;
    }
    let mut b: usize = n;
    while b > a && crate::rate_limit::is_space_char(v.get_char(b - 1))
        invariant
            0 <= a <= b <= n,
            n == v@.len(),
            forall|j: int| b <= j < n ==> crate::rate_limit::spec_is_space(v@[j]),
        decreases b,
    {
        b = b - 1;
    }
    proof {
        crate::rate_limit::lemma_trim_start_is_skip(v@, a as int);
        let q = v@.skip(a as int);
        assert forall|j: int| b - a <= j < q.len() implies crate::rate_limit::spec_is_space(
            q[j],
        ) by {
            assert(q[j] == v@[j + a]);
        }
        assert(b - a > 0 ==> q[b - a - 1] == v@[b as int - 1]);
        crate::rate_limit::lemma_trim_end_is_take(q, b as int - a as int);
        assert(spec_trimmed(v@) =~= v@.subrange(a as int, b as int));
        reveal_strlit("Bearer ");
    }
    let ghost t = spec_trimmed(v@);
    if b - a < 7 {
        proof {
            assert(t.len() < 7);
        }
        return None;
    }
    let is_bearer = v.get_char(a) == 'B' && v.get_char(a + 1) == 'e' && v.get_char(a + 2) == 'a'
        && v.get_char(a + 3) == 'r' && v.get_char(a + 4) == 'e' && v.get_char(a + 5) == 'r'
        && v.get_char(a + 6) == ' ';
    proof {
        reveal_strlit("Bearer ");
        assert forall|j: int| 0 <= j < 7 implies t.take(7)[j] == v@[a + j] by {}
        if is_bearer {
            assert(t.take(7) =~= "Bearer "@);
        } else {
            assert(t.take(7)[0] == v@[a as int]);
            assert(t.take(7)[1] == v@[a as int + 1]);
            assert(t.take(7)[2] == v@[a as int + 2]);
            assert(t.take(7)[3] == v@[a as int + 3]);
            assert(t.take(7)[4] == v@[a as int + 4]);
            assert(t.take(7)[5] == v@[a as int + 5]);
            assert(t.take(7)[6] == v@[a as int + 6]);
            assert(t.take(7) != "Bearer "@);
        }
    }
    if !is_bearer {
        return None;
    }
    let mut a2: usize = a + 7;
    while a2 < b && crate::rate_limit::is_space_char(v.get_char(a2))
        invariant
            a + 7 <= a2 <= b <= n,
            n == v@.len(),
            forall|j: int| a + 7 <= j < a2 ==> crate::rate_limit::spec_is_space(v@[j]),
        decreases b - a2,
    {
        a2 = a2 + 1;
    }
    let mut b2: usize = b;
    while b2 > a2 && crate::rate_limit::is_space_char(v.get_char(b2 - 1))
        invariant
            a2 <= b2 <= b <= n,
            n == v@.len(),
            forall|j: int| b2 <= j < b ==> crate::rate_limit::spec_is_space(v@[j]),
        decreases b2,
    {
        b2 = b2 - 1;
    }
    proof {
        let rest = t.skip(7);
        assert(rest =~= v@.subrange(a as int + 7, b as int));
        assert forall|j: int| 0 <= j < a2 - (a + 7) implies crate::rate_limit::spec_is_space(
            rest[j],
        ) by {
            assert(rest[j] == v@[j + a + 7]);
        }
        assert(a2 - (a + 7) < rest.len() ==> rest[a2 as int - (a as int + 7)] == v@[a2 as int]);
        crate::rate_limit::lemma_trim_start_is_skip(rest, a2 as int - (a as int + 7));
        let q2 = rest.skip(a2 as int - (a as int + 7));
        assert(q2 =~= v@.subrange(a2 as int, b as int));
        assert forall|j: int| b2 - a2 <= j < q2.len() implies crate::rate_limit::spec_is_space(
            q2[j],
        ) by {
            assert(q2[j] == v@[j + a2]);
        }
        assert(b2 - a2 > 0 ==> q2[b2 as int - a2 as int - 1] == v@[b2 as int - 1]);
        crate::rate_limit::lemma_trim_end_is_take(q2, b2 as int - a2 as int);
        assert(spec_trimmed(rest) =~= v@.subrange(a2 as int, b2 as int));
    }
    Some(v.substring_char(a2, b2).to_owned())
}

} // verus!
