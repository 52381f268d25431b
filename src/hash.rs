//! The SRI digest of a NAR: SHA-256 over the bytes written, in base64.
use vstd::prelude::*;

use crate::nar::NarSink;
use crate::text::push_str;
use sha2::Digest;

verus! {

/// A running SHA-256 computation (`sha2::Sha256`, an alias that cannot be
/// declared to Verus as it stands).
#[verifier::external_body]
struct Sha256State {
    inner: sha2::Sha256,
}

/// The SHA-256 digest of a byte string.
pub uninterp spec fn sha256_of(data: Seq<u8>) -> Seq<u8>;

/// The character of a six-bit value in the standard base64 alphabet.
pub open spec fn base64_char(n: nat) -> char {
    if n < 26 {
        (65 + n) as char
    } else if n < 52 {
        (97 + n - 26) as char
    } else if n < 62 {
        (48 + n - 52) as char
    } else if n == 62 {
        '+'
    } else {
        '/'
    }
}

/// The standard base64 encoding, with padding: every three bytes become four
/// characters, a last one or two bytes become two or three characters and
/// `=` fills the group.
pub open spec fn base64_of(d: Seq<u8>) -> Seq<char>
    decreases d.len(),
{
    if d.len() == 0 {
        Seq::empty()
    } else if d.len() == 1 {
        let n = d[0] as nat;
        seq![base64_char(n / 4), base64_char((n % 4) * 16), '=', '=']
    } else if d.len() == 2 {
        let n = d[0] as nat * 256 + d[1] as nat;
        seq![base64_char(n / 1024), base64_char((n / 16) % 64), base64_char((n % 16) * 4), '=']
    } else {
        let n = d[0] as nat * 65536 + d[1] as nat * 256 + d[2] as nat;
        seq![base64_char(n / 262144), base64_char((n / 4096) % 64), base64_char((n / 64) % 64), base64_char(n % 64)]
            + base64_of(d.subrange(3, d.len() as int))
    }
}

proof fn lemma_base64_len(d: Seq<u8>)
    ensures
        base64_of(d).len() == 4 * ((d.len() + 2) / 3),
    decreases d.len(),
{
    if d.len() >= 3 {
        lemma_base64_len(d.subrange(3, d.len() as int));
    }
}

/// A sink that hashes what is written to it.
pub struct NarHasher {
    state: Sha256State,
    input: Ghost<Seq<u8>>,
}

impl View for NarHasher {
    type V = Seq<u8>;

    /// Everything hashed so far.
    closed spec fn view(&self) -> Seq<u8> {
        self.input@
    }
}

/// Relies on `sha2::Sha256::default`: a state that has hashed nothing.
#[verifier::external_body]
fn sha256_state() -> Sha256State {
    Sha256State { inner: sha2::Sha256::default() }
}

/// Relies on `sha2::Digest::update`: the state goes on hashing `b`.
#[verifier::external_body]
fn sha256_update(h: &mut NarHasher, b: &[u8])
    ensures
        final(h)@ == old(h)@ + b@,
{
    h.state.inner.update(b)
}

/// Relies on `sha2::Digest::finalize`: the digest of everything hashed, 32
/// bytes for SHA-256.
#[verifier::external_body]
fn sha256_finish(h: NarHasher) -> (r: Vec<u8>)
    ensures
        r@ == sha256_of(h@),
        r@.len() == 32,
{
    h.state.inner.finalize().to_vec()
}

/// Relies on `base64::Engine::encode` with the standard alphabet and padding.
#[verifier::external_body]
fn base64_encode(b: &[u8]) -> (r: String)
    ensures
        r@ == base64_of(b@),
{
    base64::Engine::encode(&base64::engine::general_purpose::STANDARD, b)
}

/// The prefix of an SRI digest of this kind.
pub open spec fn sri_prefix() -> Seq<char> {
    seq!['s', 'h', 'a', '2', '5', '6', '-']
}

/// `sha256-` followed by an encoded digest.
pub fn sri_string(encoded: &str) -> (r: String)
    ensures
        r@ == sri_prefix() + encoded@,
{
    let mut r = "sha256-".to_owned();
    proof {
        reveal_strlit("sha256-");
        assert(r@ =~= sri_prefix());
    }
    push_str(&mut r, encoded);
    r
}

impl NarHasher {
    /// A hasher that has seen nothing.
    pub fn new() -> (r: NarHasher)
        ensures
            r@ == Seq::<u8>::empty(),
    {
        NarHasher { state: sha256_state(), input: Ghost(Seq::empty()) }
    }

    /// `sha256-` followed by the base64 of the SHA-256 of everything written:
    /// 51 characters.
    pub fn digest(self) -> (r: String)
        ensures
            r@ == sri_prefix() + base64_of(sha256_of(self@)),
            r@.len() == 51,
    {
        let d = sha256_finish(self);
        let b = base64_encode(d.as_slice());
        proof {
            lemma_base64_len(d@);
        }
        sri_string(b.as_str())
    }
}

impl NarSink for NarHasher {
    open spec fn written(&self) -> Seq<u8> {
        self@
    }

    fn write_bytes(&mut self, b: &[u8]) {
        sha256_update(self, b);
    }
}

} // verus!
