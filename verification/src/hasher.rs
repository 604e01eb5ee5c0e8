//! Content digests: SHA-256 over the full byte stream of a file, fed chunk by
//! chunk, and rendered as lower-case hexadecimal text.
//!
//! The hash itself and the hexadecimal rendering are computed by the `sha2`
//! and `hex` crates. What this module assumes of them is stated on the items
//! marked `external_body` below; everything else is proved.

use sha2::Digest;
use vstd::prelude::*;
use vstd::slice::slice_subrange;

verus! {

/// Number of bytes a reader is expected to offer per read.
pub const CHUNK_SIZE: usize = 8192;

/// The SHA-256 digest of `message`, as `sha2::Sha256` computes it.
///
/// Left uninterpreted: the only facts used are the ones stated on
/// `sha256_new`, `sha256_update` and `sha256_finalize`.
pub uninterp spec fn sha256(message: Seq<u8>) -> Seq<u8>;

/// The bytes a running `sha2::Sha256` state has been given so far, in order.
pub uninterp spec fn absorbed(state: Sha256State) -> Seq<u8>;

/// A running `sha2::Sha256` computation.
///
/// The state is opaque to the verifier; it is spoken of only through
/// `absorbed`.
#[verifier::external_body]
pub struct Sha256State {
    inner: sha2::Sha256,
}

/// Calls `sha2::Sha256::new` (`Digest::new`): a fresh state that has been
/// given no bytes.
#[verifier::external_body]
fn sha256_new() -> (state: Sha256State)
    ensures
        absorbed(state) == Seq::<u8>::empty(),
{
    Sha256State { inner: sha2::Sha256::new() }
}

/// Calls `Digest::update` on the state: the bytes of `data` are appended to
/// what the state has been given.
#[verifier::external_body]
fn sha256_update(state: &mut Sha256State, data: &[u8])
    ensures
        absorbed(*final(state)) == absorbed(*old(state)) + data@,
{
    state.inner.update(data)
}

/// Calls `Digest::finalize` on the state: the result is the SHA-256 digest of
/// everything the state was given, which is 32 bytes long.
#[verifier::external_body]
fn sha256_finalize(state: Sha256State) -> (digest: Vec<u8>)
    ensures
        digest@ == sha256(absorbed(state)),
        digest@.len() == 32,
{
    state.inner.finalize().to_vec()
}

/// Calls `hex::encode`: two lower-case hexadecimal digits per byte, the high
/// nibble first.
#[verifier::external_body]
fn hex_encode(bytes: &Vec<u8>) -> (text: String)
    ensures
        text@ == hex_text(bytes@),
{
    hex::encode(bytes)
}

/// The lower-case hexadecimal digit for a value in `0..16`.
pub open spec fn hex_digit(nibble: int) -> char {
    seq!['0', '1', '2', '3', '4', '5', '6', '7', '8', '9', 'a', 'b', 'c', 'd', 'e', 'f'][nibble]
}

/// Lower-case hexadecimal rendering of `bytes`: character `2 * i` is the high
/// nibble of byte `i`, character `2 * i + 1` its low nibble.
pub open spec fn hex_text(bytes: Seq<u8>) -> Seq<char> {
    Seq::new(
        2 * bytes.len(),
        |i: int|
            if i % 2 == 0 {
                hex_digit(bytes[i / 2] as int / 16)
            } else {
                hex_digit(bytes[i / 2] as int % 16)
            },
    )
}

/// The digest text of a file whose full content is `content`.
pub open spec fn hex_digest(content: Seq<u8>) -> Seq<char> {
    hex_text(sha256(content))
}

/// Different digests have different texts: grouping by digest text is
/// grouping by digest.
pub proof fn law_digest_text_tells_digests_apart(first: Seq<u8>, second: Seq<u8>)
    requires
        hex_text(first) == hex_text(second),
    ensures
        first == second,
{
    assert(first.len() == second.len()) by {
        assert(hex_text(first).len() == 2 * first.len());
        assert(hex_text(second).len() == 2 * second.len());
    }
    assert forall|i: int| 0 <= i < first.len() implies first[i] == second[i] by {
        let a = first[i] as int;
        let b = second[i] as int;
        assert(hex_text(first)[2 * i] == hex_digit(a / 16));
        assert(hex_text(second)[2 * i] == hex_digit(b / 16));
        assert(hex_text(first)[2 * i + 1] == hex_digit(a % 16));
        assert(hex_text(second)[2 * i + 1] == hex_digit(b % 16));
        lemma_hex_digits_differ(a / 16, b / 16);
        lemma_hex_digits_differ(a % 16, b % 16);
    }
    assert(first =~= second);
}

/// Different values below sixteen have different hexadecimal digits.
proof fn lemma_hex_digits_differ(a: int, b: int)
    requires
        0 <= a < 16,
        0 <= b < 16,
        hex_digit(a) == hex_digit(b),
    ensures
        a == b,
{
}

/// An incremental hasher over the content of one file.
///
/// Its view is the sequence of bytes it has consumed so far.
pub struct ContentHasher {
    state: Sha256State,
}

impl View for ContentHasher {
    type V = Seq<u8>;

    closed spec fn view(&self) -> Seq<u8> {
        absorbed(self.state)
    }
}

/// What follows one read from the stream being hashed.
pub enum HashProgress {
    /// The stream has not ended: read again and hand the result to the
    /// hasher carried here.
    More(ContentHasher),
    /// The stream has ended: this is the digest text of everything read.
    Done(String),
}

impl ContentHasher {
    /// A hasher that has consumed nothing.
    pub fn new() -> (hasher: ContentHasher)
        ensures
            hasher@ == Seq::<u8>::empty(),
    {
        ContentHasher { state: sha256_new() }
    }

    /// Consumes `chunk`.
    pub fn update(&mut self, chunk: &[u8])
        ensures
            final(self)@ == old(self)@ + chunk@,
    {
        sha256_update(&mut self.state, chunk);
    }

    /// Ends the stream: the digest text of everything consumed, 64
    /// hexadecimal digits.
    pub fn finalize(self) -> (digest: String)
        ensures
            digest@ == hex_digest(self@),
            digest@.len() == 64,
    {
        let raw = sha256_finalize(self.state);
        hex_encode(&raw)
    }

    /// Accounts for one read that placed `n` bytes at the front of `buffer`.
    ///
    /// A read of zero bytes marks the end of the stream and yields the
    /// digest; any other read is consumed and hashing goes on.
    pub fn absorb_read(self, buffer: &[u8], n: usize) -> (progress: HashProgress)
        requires
            n <= buffer@.len(),
        ensures
            match progress {
                HashProgress::Done(digest) => n == 0 && digest@ == hex_digest(self@)
                    && digest@.len() == 64,
                HashProgress::More(next) => n > 0 && next@ == self@ + buffer@.take(n as int),
            },
    {
        if n == 0 {
            HashProgress::Done(self.finalize())
        } else {
            let mut next = self;
            next.update(slice_subrange(buffer, 0, n));
            HashProgress::More(next)
        }
    }
}

/// The digest text of `content`, hashed in reads of at most `CHUNK_SIZE`
/// bytes. How the content is cut into reads does not show in the result.
pub fn digest_of_bytes(content: &[u8]) -> (digest: String)
    ensures
        digest@ == hex_digest(content@),
        digest@.len() == 64,
{
    let total = content.len();
    let mut hasher = ContentHasher::new();
    let mut offset: usize = 0;
    while offset < total
        invariant
            total == content@.len(),
            offset <= total,
            hasher@ == content@.take(offset as int),
        decreases total - offset,
    {
        let end: usize = if total - offset > CHUNK_SIZE {
            offset + CHUNK_SIZE
        } else {
            total
        };
        hasher.update(slice_subrange(content, offset, end));
        assert(content@.take(offset as int) + content@.subrange(offset as int, end as int)
            =~= content@.take(end as int));
        offset = end;
    }
    assert(content@.take(total as int) =~= content@);
    hasher.finalize()
}

} // verus!
