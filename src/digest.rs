//! SHA-256 digests of content, in lowercase hex.

use vstd::prelude::*;

verus! {

/// The SHA-256 digest of a byte sequence (32 bytes).
pub uninterp spec fn sha256_of(data: Seq<u8>) -> Seq<u8>;

/// The bytes fed so far to a running SHA-256 computation.
pub uninterp spec fn hasher_input(h: Hasher) -> Seq<u8>;

/// The lowercase hex digit for `n < 16`.
pub open spec fn hex_digit(n: u8) -> char {
    seq!['0', '1', '2', '3', '4', '5', '6', '7', '8', '9', 'a', 'b', 'c', 'd', 'e', 'f'][n as int]
}

/// Lowercase hex: two digits per byte, the high nibble first.
pub open spec fn hex_lower(b: Seq<u8>) -> Seq<char>
    decreases b.len(),
{
    if b.len() == 0 {
        Seq::empty()
    } else {
        hex_lower(b.drop_last()) + seq![hex_digit(b.last() / 16), hex_digit(b.last() % 16)]
    }
}

/// A lowercase hex digit.
pub open spec fn is_hex_char(c: char) -> bool {
    ('0' <= c && c <= '9') || ('a' <= c && c <= 'f')
}

/// A content hash as stored: 64 lowercase hex digits.
pub open spec fn is_hash(s: Seq<char>) -> bool {
    &&& s.len() == 64
    &&& forall|i: int| 0 <= i < s.len() ==> #[trigger] is_hex_char(s[i])
}

/// Hex text has two digits per byte, each a lowercase hex digit.
pub proof fn lemma_hex_lower(b: Seq<u8>)
    ensures
        hex_lower(b).len() == 2 * b.len(),
        forall|i: int| 0 <= i < hex_lower(b).len() ==> #[trigger] is_hex_char(hex_lower(b)[i]),
    decreases b.len(),
{
    if b.len() > 0 {
        lemma_hex_lower(b.drop_last());
        let d = seq!['0', '1', '2', '3', '4', '5', '6', '7', '8', '9', 'a', 'b', 'c', 'd', 'e', 'f'];
        assert forall|n: int| 0 <= n < 16 implies #[trigger] is_hex_char(d[n]) by {}
        let h = hex_lower(b);
        let p = hex_lower(b.drop_last());
        assert forall|i: int| 0 <= i < h.len() implies #[trigger] is_hex_char(h[i]) by {
            if i < p.len() {
                assert(h[i] == p[i]);
            } else if i == p.len() {
                assert(h[i] == d[(b.last() / 16) as int]);
            } else {
                assert(h[i] == d[(b.last() % 16) as int]);
            }
        }
    }
}

/// A running SHA-256 computation.
#[verifier::external_body]
pub struct Hasher {
    inner: sha2::Sha256,
}

/// Relies on `sha2::Sha256::new` (through `Digest`): a computation that
/// has been fed nothing.
#[verifier::external_body]
fn sha256_start() -> (h: Hasher)
    ensures
        hasher_input(h) == Seq::<u8>::empty(),
{
    Hasher { inner: <sha2::Sha256 as sha2::Digest>::new() }
}

/// Relies on `Digest::update` of `sha2::Sha256`: the chunk is appended to
/// what was fed.
#[verifier::external_body]
fn sha256_feed(h: &mut Hasher, chunk: &[u8])
    ensures
        hasher_input(*final(h)) == hasher_input(*old(h)) + chunk@,
{
    sha2::Digest::update(&mut h.inner, chunk);
}

/// Relies on `Digest::finalize` of `sha2::Sha256`: the 32-byte digest of
/// everything fed.
#[verifier::external_body]
fn sha256_finish(h: Hasher) -> (r: Vec<u8>)
    ensures
        r@ == sha256_of(hasher_input(h)),
        r@.len() == 32,
{
    sha2::Digest::finalize(h.inner).to_vec()
}

/// Relies on `data_encoding::HEXLOWER.encode`: two lowercase hex digits per
/// byte, high nibble first.
#[verifier::external_body]
fn hex_encode(b: &[u8]) -> (r: String)
    ensures
        r@ == hex_lower(b@),
{
    data_encoding::HEXLOWER.encode(b)
}

impl Hasher {
    /// A computation that has been fed nothing.
    pub fn new() -> (h: Hasher)
        ensures
            hasher_input(h) == Seq::<u8>::empty(),
    {
        sha256_start()
    }

    /// Feeds `chunk` after what was fed before.
    pub fn update(&mut self, chunk: &[u8])
        ensures
            hasher_input(*final(self)) == hasher_input(*old(self)) + chunk@,
    {
        sha256_feed(self, chunk)
    }

    /// The digest of everything fed, as 64 lowercase hex digits.
    pub fn finish_hex(self) -> (r: String)
        ensures
            r@ == hex_lower(sha256_of(hasher_input(self))),
            is_hash(r@),
    {
        let d = sha256_finish(self);
        proof {
            lemma_hex_lower(d@);
        }
        hex_encode(d.as_slice())
    }
}

/// The SHA-256 digest of `data` as 64 lowercase hex digits.
pub fn digest(data: &[u8]) -> (r: String)
    ensures
        r@ == hex_lower(sha256_of(data@)),
        is_hash(r@),
{
    let mut h = Hasher::new();
    h.update(data);
    proof {
        assert(Seq::<u8>::empty() + data@ =~= data@);
    }
    h.finish_hex()
}

} // verus!
