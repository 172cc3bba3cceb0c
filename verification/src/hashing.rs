//! Content hashing: a streaming BLAKE3 hasher with byte-level progress
//! accounting, and one-shot chunked digests over in-memory bytes.
//!
//! The digest of a byte sequence is named by the uninterpreted function
//! [`blake3_hex`]; everything the library proves about digests goes through
//! that name, so a digest depends on the hashed bytes and on nothing else.

use vstd::prelude::*;

verus! {

/// The lowercase hexadecimal BLAKE3 digest of a byte sequence, as the
/// `blake3` crate computes it. Left uninterpreted: the library states only
/// that it is a function of the bytes alone.
pub uninterp spec fn blake3_hex(input: Seq<u8>) -> Seq<char>;

/// The bytes fed so far into a `blake3::Hasher`. The model speaks of
/// hashers in default mode — the only mode this library constructs; a keyed
/// or key-derivation hasher digests the same bytes differently and is never
/// reachable here.
pub uninterp spec fn hasher_input(h: blake3::Hasher) -> Seq<u8>;

/// Declares `blake3::Hasher`, the blake3 crate's incremental hash state, so
/// that signatures and fields of this library can carry it; its contents are
/// spoken of only through [`hasher_input`].
#[verifier::external_type_specification]
#[verifier::external_body]
pub struct ExHasher(blake3::Hasher);

/// A character of a lowercase hexadecimal digest.
pub open spec fn is_hex_char(c: char) -> bool {
    ('0' <= c && c <= '9') || ('a' <= c && c <= 'f')
}

/// A well-formed digest string: exactly 64 lowercase hexadecimal characters.
pub open spec fn is_hex_digest(s: Seq<char>) -> bool {
    &&& s.len() == 64
    &&& forall|i: int| 0 <= i < s.len() ==> is_hex_char(#[trigger] s[i])
}

/// Relies on `blake3::Hasher::new`: a fresh hasher has been fed no bytes.
#[verifier::external_body]
fn hasher_new() -> (h: blake3::Hasher)
    ensures
        hasher_input(h) == Seq::<u8>::empty(),
{
    blake3::Hasher::new()
}

/// Relies on `blake3::Hasher::update`: appends the chunk to the bytes fed so
/// far, and changes nothing else about what the hasher will digest.
#[verifier::external_body]
fn hasher_update(h: &mut blake3::Hasher, chunk: &[u8])
    ensures
        hasher_input(*final(h)) == hasher_input(*old(h)) + chunk@,
{
    h.update(chunk);
}

/// Relies on `blake3::Hasher::finalize` and `blake3::Hash::to_hex`: the
/// digest of exactly the bytes fed so far, encoded as 64 lowercase
/// hexadecimal characters. `finalize` is documented as idempotent, so the
/// digest is a function of the fed bytes alone.
#[verifier::external_body]
fn hasher_finalize(h: &blake3::Hasher) -> (r: String)
    ensures
        r@ == blake3_hex(hasher_input(*h)),
        is_hex_digest(r@),
{
    h.finalize().to_hex().as_str().to_string()
}

/// An incremental content hasher. Bytes are fed in chunks; the digest is the
/// BLAKE3 digest of everything fed, independent of the chunking. The pair
/// `(bytes_hashed, total_size)` backs byte-level progress reports while a
/// large file streams through.
pub struct StreamingHasher {
    inner: blake3::Hasher,
    bytes_hashed: u64,
    total_size: u64,
}

impl View for StreamingHasher {
    type V = Seq<u8>;

    /// The bytes fed so far.
    closed spec fn view(&self) -> Seq<u8> {
        hasher_input(self.inner)
    }
}

impl StreamingHasher {
    /// The byte counter always matches the bytes actually fed.
    pub closed spec fn wf(&self) -> bool {
        self.bytes_hashed == self@.len()
    }

    /// The total size the progress fraction is measured against.
    pub closed spec fn spec_total_size(&self) -> u64 {
        self.total_size
    }

    /// Starts a hash over a stream whose total length is expected to be
    /// `total_size` bytes (used only for progress; feeding more or fewer
    /// bytes is allowed).
    pub fn start(total_size: u64) -> (h: StreamingHasher)
        ensures
            h@ == Seq::<u8>::empty(),
            h.wf(),
            h.spec_total_size() == total_size,
    {
        StreamingHasher { inner: hasher_new(), bytes_hashed: 0, total_size }
    }

    /// Feeds one chunk; afterwards the hasher has seen the old bytes followed
    /// by the chunk.
    pub fn feed(&mut self, chunk: &[u8])
        requires
            old(self).wf(),
            old(self)@.len() + chunk@.len() <= u64::MAX,
        ensures
            final(self).wf(),
            final(self)@ == old(self)@ + chunk@,
            final(self).spec_total_size() == old(self).spec_total_size(),
    {
        hasher_update(&mut self.inner, chunk);
        self.bytes_hashed = self.bytes_hashed + chunk.len() as u64;
    }

    /// Progress so far: `(bytes hashed, total size)`. The caller turns this
    /// into a fraction; it is `(0, total)` before the first chunk.
    pub fn progress(&self) -> (p: (u64, u64))
        requires
            self.wf(),
        ensures
            p.0 == self@.len(),
            p.1 == self.spec_total_size(),
    {
        (self.bytes_hashed, self.total_size)
    }

    /// The digest of everything fed so far.
    pub fn finish(&self) -> (r: String)
        ensures
            r@ == blake3_hex(self@),
            is_hex_digest(r@),
    {
        hasher_finalize(&self.inner)
    }
}

/// Hashes a full byte buffer, streaming it through the hasher in chunks of
/// `chunk_size` bytes. The digest does not depend on `chunk_size`: it is
/// `blake3_hex` of the bytes, whatever chunking was used.
pub fn hash_bytes_with_chunk_size(bytes: &[u8], chunk_size: usize) -> (r: String)
    requires
        chunk_size >= 1,
    ensures
        r@ == blake3_hex(bytes@),
        is_hex_digest(r@),
{
    let len = bytes.len();
    let mut h = StreamingHasher::start(len as u64);
    let mut i: usize = 0;
    while i < len
        invariant
            h.wf(),
            i <= len,
            len == bytes@.len(),
            h@ == bytes@.subrange(0, i as int),
            chunk_size >= 1,
        decreases len - i,
    {
        let end = if len - i < chunk_size { len } else { i + chunk_size };
        let chunk = vstd::slice::slice_subrange(bytes, i, end);
        h.feed(chunk);
        proof {
            assert(h@ =~= bytes@.subrange(0, end as int));
        }
        i = end;
    }
    proof {
        assert(bytes@.subrange(0, len as int) =~= bytes@);
    }
    h.finish()
}

/// Hashes a full byte buffer with the default chunk size the library streams
/// files with.
pub fn hash_bytes(bytes: &[u8]) -> (r: String)
    ensures
        r@ == blake3_hex(bytes@),
        is_hex_digest(r@),
{
    hash_bytes_with_chunk_size(bytes, 8192)
}

/// Hashing is deterministic: the digest is a function of the bytes alone, so
/// hashing equal byte sequences yields equal digests, whatever chunking
/// either run used.
pub proof fn lemma_digest_deterministic(a: Seq<u8>, b: Seq<u8>)
    requires
        a == b,
    ensures
        blake3_hex(a) == blake3_hex(b),
{
}

} // verus!
