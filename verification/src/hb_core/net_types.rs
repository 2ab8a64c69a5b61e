//! Resources by URL: parsed URLs and their origins, subresource integrity
//! (a digest of the bytes, base64-encoded, compared with the expected text)
//! and an in-memory loader.
use vstd::prelude::*;
use sha2::Digest;
use base64::Engine;
use crate::text::slice_bytes;
use crate::hb_core::error::EngineError;

verus! {

// ---------------------------------------------------------------------------
// Digests, base64 and URL parsing, from their crates.
// ---------------------------------------------------------------------------
/// The SHA-256 digest of a byte string.
pub uninterp spec fn sha256_spec(b: Seq<u8>) -> Seq<u8>;

/// The SHA-384 digest of a byte string.
pub uninterp spec fn sha384_spec(b: Seq<u8>) -> Seq<u8>;

/// The SHA-512 digest of a byte string.
pub uninterp spec fn sha512_spec(b: Seq<u8>) -> Seq<u8>;

/// The character of a 6-bit value in the standard base64 alphabet
/// (`A`–`Z`, `a`–`z`, `0`–`9`, `+`, `/`).
pub open spec fn b64_digit(v: int) -> char {
    if v < 26 {
        (0x41 + v) as char
    } else if v < 52 {
        (0x61 + v - 26) as char
    } else if v < 62 {
        (0x30 + v - 52) as char
    } else if v == 62 {
        '+'
    } else {
        '/'
    }
}

/// The standard, padded base64 encoding of a byte string: each group of
/// three bytes becomes four characters of six bits each, and a final group
/// of one or two bytes is padded with `=` to four characters.
pub open spec fn base64_spec(b: Seq<u8>) -> Seq<char>
    decreases b.len(),
{
    let x0 = b[0] as int;
    let x1 = b[1] as int;
    let x2 = b[2] as int;
    if b.len() == 0 {
        seq![]
    } else if b.len() == 1 {
        seq![b64_digit(x0 / 4), b64_digit((x0 % 4) * 16), '=', '=']
    } else if b.len() == 2 {
        seq![b64_digit(x0 / 4), b64_digit((x0 % 4) * 16 + x1 / 16), b64_digit((x1 % 16) * 4), '=']
    } else {
        seq![
            b64_digit(x0 / 4),
            b64_digit((x0 % 4) * 16 + x1 / 16),
            b64_digit((x1 % 16) * 4 + x2 / 64),
            b64_digit(x2 % 64),
        ] + base64_spec(b.subrange(3, b.len() as int))
    }
}

/// What `url::Url::parse` makes of a text: `None` when it is refused, else
/// the serialization, the scheme, the host and the explicit port.
pub uninterp spec fn url_parse_spec(s: Seq<char>) -> Option<
    (Seq<char>, Seq<char>, Option<Seq<char>>, Option<u16>),
>;

/// Calls `sha2::Sha256::digest`; the claim is that the result is the named
/// SHA-256 digest of `bytes` and is 32 bytes long.
#[verifier::external_body]
fn sha256(bytes: &[u8]) -> (r: Vec<u8>)
    ensures
        r@ == sha256_spec(bytes@),
        r@.len() == 32,
{
    sha2::Sha256::digest(bytes).to_vec()
}

/// Calls `sha2::Sha384::digest`; the claim is that the result is the named
/// SHA-384 digest of `bytes` and is 48 bytes long.
#[verifier::external_body]
fn sha384(bytes: &[u8]) -> (r: Vec<u8>)
    ensures
        r@ == sha384_spec(bytes@),
        r@.len() == 48,
{
    sha2::Sha384::digest(bytes).to_vec()
}

/// Calls `sha2::Sha512::digest`; the claim is that the result is the named
/// SHA-512 digest of `bytes` and is 64 bytes long.
#[verifier::external_body]
fn sha512(bytes: &[u8]) -> (r: Vec<u8>)
    ensures
        r@ == sha512_spec(bytes@),
        r@.len() == 64,
{
    sha2::Sha512::digest(bytes).to_vec()
}

/// Calls `Engine::encode` of `base64::engine::general_purpose::STANDARD`; the
/// claim is that the result is the standard padded encoding of `bytes` as
/// `base64_spec` writes it out, four characters for every three bytes or part
/// of three. Inputs are digests, far below the length at which the crate's
/// size computation would overflow.
#[verifier::external_body]
fn base64_standard(bytes: &[u8]) -> (r: String)
    requires
        bytes@.len() <= 64,
    ensures
        r@ == base64_spec(bytes@),
        r@.len() == 4 * ((bytes@.len() + 2) / 3),
{
    base64::engine::general_purpose::STANDARD.encode(bytes)
}

/// Calls `url::Url::parse` and reads `as_str`, `scheme`, `host_str` and
/// `port` of the result; the claim is only that this is the named parse of `s`.
#[verifier::external_body]
fn parse_url_parts(s: &str) -> (r: Option<ParsedUrl>)
    ensures
        match url_parse_spec(s@) {
            Some(t) => r matches Some(u) && u.parts() == t,
            None => r is None,
        },
{
    match url::Url::parse(s) {
        Ok(u) => Some(
            ParsedUrl {
                href: u.as_str().to_string(),
                scheme: u.scheme().to_string(),
                host: match u.host_str() {
                    Some(h) => Some(h.to_string()),
                    None => None,
                },
                port: u.port(),
            },
        ),
        Err(_) => None,
    }
}

// ---------------------------------------------------------------------------
// URLs and origins.
// ---------------------------------------------------------------------------
/// A URL as the engine reads it: its serialization, scheme, host and port.
#[derive(Debug, Clone, PartialEq, Eq)]
pub struct ParsedUrl {
    pub href: String,
    pub scheme: String,
    pub host: Option<String>,
    pub port: Option<u16>,
}

impl ParsedUrl {
    pub open spec fn parts(&self) -> (Seq<char>, Seq<char>, Option<Seq<char>>, Option<u16>) {
        (
            self.href@,
            self.scheme@,
            match self.host {
                Some(h) => Some(h@),
                None => None,
            },
            self.port,
        )
    }

    /// Parses a URL; `None` when the text is not one.
    pub fn parse(s: &str) -> (r: Option<ParsedUrl>)
        ensures
            match url_parse_spec(s@) {
                Some(t) => r matches Some(u) && u.parts() == t,
                None => r is None,
            },
    {
        parse_url_parts(s)
    }
}

#[derive(Debug, Clone, PartialEq, Eq, PartialOrd, Ord)]
pub struct Origin {
    pub scheme: String,
    pub host: String,
    pub port: Option<u16>,
}

impl Origin {
    /// The origin of a URL: its scheme, host and port; `None` for a URL
    /// without a host.
    pub fn from_url(u: &ParsedUrl) -> (r: Option<Self>)
        ensures
            match u.host {
                Some(h) => r matches Some(o) && o.scheme@ == u.scheme@ && o.host@ == h@ && o.port
                    == u.port,
                None => r is None,
            },
    {
        match &u.host {
            Some(h) => Some(Origin { scheme: u.scheme.clone(), host: h.clone(), port: u.port }),
            None => None,
        }
    }
}

// ---------------------------------------------------------------------------
// Subresource integrity.
// ---------------------------------------------------------------------------
#[derive(Debug, Clone, Copy, PartialEq, Eq, Structural)]
pub enum SriAlg {
    Sha256,
    Sha384,
    Sha512,
}

/// Expected integrity: the digest algorithm and the base64 of the digest.
#[derive(Debug, Clone, PartialEq, Eq)]
pub struct SRI {
    pub alg: SriAlg,
    pub b64: String,
}

pub open spec fn digest_spec(alg: SriAlg, b: Seq<u8>) -> Seq<u8> {
    match alg {
        SriAlg::Sha256 => sha256_spec(b),
        SriAlg::Sha384 => sha384_spec(b),
        SriAlg::Sha512 => sha512_spec(b),
    }
}

/// The integrity text of `b` under `alg`: base64 of its digest.
pub open spec fn sri_text(alg: SriAlg, b: Seq<u8>) -> Seq<char> {
    base64_spec(digest_spec(alg, b))
}

/// The integrity text of `bytes` under `alg`.
pub fn integrity_text(alg: SriAlg, bytes: &[u8]) -> (r: String)
    ensures
        r@ == sri_text(alg, bytes@),
{
    let d = match alg {
        SriAlg::Sha256 => sha256(bytes),
        SriAlg::Sha384 => sha384(bytes),
        SriAlg::Sha512 => sha512(bytes),
    };
    base64_standard(d.as_slice())
}

/// The outcome of an integrity check whose computed text is `got`.
pub open spec fn sri_outcome(sri: SRI, got: Seq<char>, r: Result<(), EngineError>) -> bool {
    if got == sri.b64@ {
        r is Ok
    } else {
        r matches Err(EngineError::SRI { expected, got: g }) && expected@ == sri.b64@ && g@ == got
    }
}

/// Compares the computed integrity text `got` with the expected one.
pub fn check_sri(sri: &SRI, got: String) -> (r: Result<(), EngineError>)
    ensures
        sri_outcome(*sri, got@, r),
{
    if got == sri.b64 {
        Ok(())
    } else {
        Err(EngineError::SRI { expected: sri.b64.clone(), got })
    }
}

// ---------------------------------------------------------------------------
// Loading.
// ---------------------------------------------------------------------------
/// Bytes that passed the integrity check they were loaded under.
#[derive(Debug, Clone)]
pub struct VerifiedBytes(pub Vec<u8>);

pub trait ResourceLoader {
    fn get(&self, url: &ParsedUrl, sri: Option<&SRI>) -> Result<VerifiedBytes, EngineError>;
}

/// The map an association list with distinct keys stands for.
pub open spec fn assoc_map(s: Seq<(Seq<char>, Seq<u8>)>) -> Map<Seq<char>, Seq<u8>>
    decreases s.len(),
{
    if s.len() == 0 {
        Map::empty()
    } else {
        assoc_map(s.drop_last()).insert(s.last().0, s.last().1)
    }
}

pub open spec fn keys_distinct(s: Seq<(Seq<char>, Seq<u8>)>) -> bool {
    forall|i: int, j: int| 0 <= i < j < s.len() ==> (#[trigger] s[i]).0 != (#[trigger] s[j]).0
}

pub proof fn lemma_assoc_map_at(s: Seq<(Seq<char>, Seq<u8>)>, j: int)
    requires
        keys_distinct(s),
        0 <= j < s.len(),
    ensures
        assoc_map(s).contains_key(s[j].0),
        assoc_map(s)[s[j].0] == s[j].1,
    decreases s.len(),
{
    if j < s.len() - 1 {
        assert(s.drop_last()[j] == s[j]);
        lemma_assoc_map_at(s.drop_last(), j);
        assert(s[j].0 != s[s.len() - 1].0);
    }
}

pub proof fn lemma_assoc_map_absent(s: Seq<(Seq<char>, Seq<u8>)>, k: Seq<char>)
    requires
        forall|j: int| 0 <= j < s.len() ==> (#[trigger] s[j]).0 != k,
    ensures
        !assoc_map(s).contains_key(k),
    decreases s.len(),
{
    if s.len() > 0 {
        assert forall|j: int| 0 <= j < s.drop_last().len() implies (#[trigger] s.drop_last()[j]).0 != k by {
            assert(s.drop_last()[j] == s[j]);
        }
        lemma_assoc_map_absent(s.drop_last(), k);
    }
}

pub proof fn lemma_assoc_map_update(s: Seq<(Seq<char>, Seq<u8>)>, j: int, v: Seq<u8>)
    requires
        keys_distinct(s),
        0 <= j < s.len(),
    ensures
        assoc_map(s.update(j, (s[j].0, v))) =~= assoc_map(s).insert(s[j].0, v),
    decreases s.len(),
{
    let k = s[j].0;
    let t = s.update(j, (k, v));
    if j == s.len() - 1 {
        assert(t.drop_last() =~= s.drop_last());
    } else {
        assert(t.drop_last() =~= s.drop_last().update(j, (k, v)));
        assert(s.drop_last()[j] == s[j]);
        lemma_assoc_map_update(s.drop_last(), j, v);
        assert(s[j].0 != s[s.len() - 1].0);
    }
}

pub struct MemoryLoader {
    map: Vec<(String, Vec<u8>)>,
}

pub open spec fn entries_view(v: Seq<(String, Vec<u8>)>) -> Seq<(Seq<char>, Seq<u8>)> {
    v.map_values(|p: (String, Vec<u8>)| (p.0@, p.1@))
}

impl MemoryLoader {
    #[verifier::type_invariant]
    spec fn inv(self) -> bool {
        keys_distinct(entries_view(self.map@))
    }

    /// The resources held, by URL.
    pub closed spec fn resources(self) -> Map<Seq<char>, Seq<u8>> {
        assoc_map(entries_view(self.map@))
    }

    pub fn new() -> (r: Self)
        ensures
            r.resources() == Map::<Seq<char>, Seq<u8>>::empty(),
    {
        let r = MemoryLoader { map: Vec::new() };
        assert(entries_view(r.map@) =~= Seq::empty());
        r
    }

    /// Where the entry for `key` sits, if there is one.
    fn position(&self, key: &str) -> (r: Option<usize>)
        ensures
            match r {
                Some(j) => j < self.map@.len() && entries_view(self.map@)[j as int].0 == key@,
                None => forall|j: int|
                    0 <= j < self.map@.len() ==> (#[trigger] entries_view(self.map@)[j]).0 != key@,
            },
    {
        let k = crate::text::str_chars(key);
        let mut j: usize = 0;
        while j < self.map.len()
            invariant
                j <= self.map@.len(),
                k@ == key@,
                forall|m: int| 0 <= m < j ==> (#[trigger] entries_view(self.map@)[m]).0 != key@,
            decreases self.map.len() - j,
        {
            let name = crate::text::str_chars(self.map[j].0.as_str());
            assert(entries_view(self.map@)[j as int].0 == self.map@[j as int].0@);
            if crate::text::chars_eq_lit(&name, k.as_slice()) {
                return Some(j);
            }
            j = j + 1;
        }
        None
    }

    /// Stores `bytes` as the resource at `url`, replacing any earlier one.
    pub fn insert(&mut self, url: &str, bytes: Vec<u8>)
        ensures
            final(self).resources() == old(self).resources().insert(url@, bytes@),
    {
        proof {
            use_type_invariant(&*self);
        }
        let ghost before = entries_view(self.map@);
        let pos = self.position(url);
        let mut m: Vec<(String, Vec<u8>)> = Vec::new();
        std::mem::swap(&mut m, &mut self.map);
        assert(entries_view(m@) == before);
        match pos {
            Some(j) => {
                let key = m[j].0.clone();
                proof {
                    lemma_assoc_map_update(before, j as int, bytes@);
                }
                m.set(j, (key, bytes));
                assert(entries_view(m@) =~= before.update(j as int, (url@, bytes@)));
            },
            None => {
                m.push((String::from_str(url), bytes));
                assert(entries_view(m@) =~= before.push((url@, bytes@)));
                assert(entries_view(m@).drop_last() =~= before);
            },
        }
        self.map = m;
    }

    /// The resource at `url`.
    pub fn lookup(&self, url: &str) -> (r: Option<Vec<u8>>)
        ensures
            match r {
                Some(b) => self.resources().contains_key(url@) && b@ == self.resources()[url@],
                None => !self.resources().contains_key(url@),
            },
    {
        proof {
            use_type_invariant(self);
        }
        match self.position(url) {
            Some(j) => {
                proof {
                    lemma_assoc_map_at(entries_view(self.map@), j as int);
                }
                let b = &self.map[j].1;
                Some(slice_bytes(b, 0, b.len()))
            },
            None => {
                proof {
                    lemma_assoc_map_absent(entries_view(self.map@), url@);
                }
                None
            },
        }
    }

    /// Checks `bytes` against the expected integrity.
    fn verify_sri(bytes: &[u8], sri: &SRI) -> (r: Result<(), EngineError>)
        ensures
            sri_outcome(*sri, sri_text(sri.alg, bytes@), r),
    {
        let got = integrity_text(sri.alg, bytes);
        check_sri(sri, got)
    }
}

/// What loading `url` from a store holding `res` gives, as far as it depends
/// on the store: missing resources are a network error naming the URL; a
/// present one is returned when no integrity is asked or when it checks.
pub open spec fn memory_get_outcome(
    res: Map<Seq<char>, Seq<u8>>,
    url: Seq<char>,
    sri: Option<SRI>,
    r: Result<VerifiedBytes, EngineError>,
) -> bool {
    if !res.contains_key(url) {
        r matches Err(EngineError::Network(m)) && m@ == "not found: "@ + url
    } else {
        match sri {
            None => r matches Ok(b) && b.0@ == res[url],
            Some(s) => if sri_text(s.alg, res[url]) == s.b64@ {
                r matches Ok(b) && b.0@ == res[url]
            } else {
                r matches Err(EngineError::SRI { expected, got }) && expected@ == s.b64@ && got@
                    == sri_text(s.alg, res[url])
            },
        }
    }
}

pub open spec fn opt_sri(sri: Option<&SRI>) -> Option<SRI> {
    match sri {
        Some(s) => Some(*s),
        None => None,
    }
}

impl ResourceLoader for MemoryLoader {
    fn get(&self, url: &ParsedUrl, sri: Option<&SRI>) -> (r: Result<VerifiedBytes, EngineError>)
        ensures
            memory_get_outcome(self.resources(), url.href@, opt_sri(sri), r),
    {
        match self.lookup(url.href.as_str()) {
            None => {
                let mut m = String::from_str("not found: ");
                m.append(url.href.as_str());
                Err(EngineError::Network(m))
            },
            Some(bytes) => {
                match sri {
                    Some(s) => {
                        match MemoryLoader::verify_sri(bytes.as_slice(), s) {
                            Ok(()) => Ok(VerifiedBytes(bytes)),
                            Err(e) => Err(e),
                        }
                    },
                    None => Ok(VerifiedBytes(bytes)),
                }
            },
        }
    }
}

/// A read gives back what was written: once `bytes` is stored at `url`,
/// loading `url` without an integrity check yields exactly `bytes`, and with
/// one yields `bytes` when their integrity text is the expected one and an
/// integrity error otherwise; loading any other URL is as before.
pub proof fn lemma_get_after_insert(
    res: Map<Seq<char>, Seq<u8>>,
    url: Seq<char>,
    bytes: Seq<u8>,
    other: Seq<char>,
    sri: Option<SRI>,
    r: Result<VerifiedBytes, EngineError>,
)
    ensures
        memory_get_outcome(res.insert(url, bytes), url, None, r) ==> (r matches Ok(b) && b.0@
            == bytes),
        memory_get_outcome(res.insert(url, bytes), url, sri, r) ==> match sri {
            Some(s) => if sri_text(s.alg, bytes) == s.b64@ {
                r matches Ok(b) && b.0@ == bytes
            } else {
                r is Err
            },
            None => r matches Ok(b) && b.0@ == bytes,
        },
        other != url ==> (memory_get_outcome(res.insert(url, bytes), other, sri, r)
            <==> memory_get_outcome(res, other, sri, r)),
{
}

} // verus!
