use rand::Rng;
use vstd::prelude::*;
use vstd::slice::slice_subrange;

verus! {

/// How many leading bytes of a file the prefix digest reads: four pages.
pub const PREFIX_LEN: usize = 16384;

/// The 128-bit value that `gxhash::gxhash128` gives for `input` under `seed`.
pub uninterp spec fn gxhash128_of(input: Seq<u8>, seed: i64) -> u128;

/// `gxhash::gxhash128`: the hash of `input` under `seed`, which depends on
/// nothing but the two.
#[verifier::external_body]
fn gxhash128(input: &[u8], seed: i64) -> (digest: u128)
    ensures
        digest == gxhash128_of(input@, seed),
{
    gxhash::gxhash128(input, seed)
}

/// `rand::rng` and `Rng::random`: a fresh 64-bit seed, of which nothing is
/// known beforehand.
#[verifier::external_body]
pub(crate) fn fresh_seed() -> (seed: i64) {
    rand::rng().random()
}

/// The leading region of `content` that the prefix digest reads.
pub open spec fn head(content: Seq<u8>) -> Seq<u8> {
    if content.len() <= PREFIX_LEN {
        content
    } else {
        content.take(PREFIX_LEN as int)
    }
}

/// The digest of the whole of `content` under `seed`.
pub open spec fn full_digest(content: Seq<u8>, seed: i64) -> u128 {
    gxhash128_of(content, seed)
}

/// The digest of the leading region of `content` under `seed`.
pub open spec fn prefix_digest(content: Seq<u8>, seed: i64) -> u128 {
    gxhash128_of(head(content), seed)
}

/// The digest that the hash stage files `content` under: of all of it in
/// strict mode, of its leading region otherwise.
pub open spec fn stage_digest(strict: bool, content: Seq<u8>, seed: i64) -> u128 {
    if strict {
        full_digest(content, seed)
    } else {
        prefix_digest(content, seed)
    }
}

/// How many leading bytes of a file of `size` bytes the stage digest reads.
pub open spec fn bytes_read(strict: bool, size: u64) -> u64 {
    if strict || size <= PREFIX_LEN {
        size
    } else {
        PREFIX_LEN as u64
    }
}

/// Digest of the entire content.
pub fn full_hash(content: &[u8], seed: i64) -> (digest: u128)
    ensures
        digest == full_digest(content@, seed),
{
    gxhash128(content, seed)
}

/// Digest of the leading region only: a cheap filter that cannot tell apart
/// contents that differ past that region.
pub fn prefix_hash(content: &[u8], seed: i64) -> (digest: u128)
    ensures
        digest == prefix_digest(content@, seed),
{
    if content.len() <= PREFIX_LEN {
        gxhash128(content, seed)
    } else {
        gxhash128(slice_subrange(content, 0, PREFIX_LEN), seed)
    }
}

/// The digest under which the hash stage files `content`.
pub fn stage_hash(strict: bool, content: &[u8], seed: i64) -> (digest: u128)
    ensures
        digest == stage_digest(strict, content@, seed),
{
    if strict {
        full_hash(content, seed)
    } else {
        prefix_hash(content, seed)
    }
}

/// How many leading bytes of a file of `size` bytes have to be read for the
/// stage digest.
pub fn read_len(strict: bool, size: u64) -> (len: u64)
    ensures
        len == bytes_read(strict, size),
{
    if strict || size <= PREFIX_LEN as u64 {
        size
    } else {
        PREFIX_LEN as u64
    }
}

/// Equal content under one seed has one full digest.
pub proof fn full_digest_of_equal_content(a: Seq<u8>, b: Seq<u8>, seed: i64)
    requires
        a =~= b,
    ensures
        full_digest(a, seed) == full_digest(b, seed),
{
}

/// Contents that agree on their leading region have one prefix digest under
/// one seed, whatever follows that region.
pub proof fn prefix_digest_ignores_tail(a: Seq<u8>, b: Seq<u8>, seed: i64)
    requires
        head(a) =~= head(b),
    ensures
        prefix_digest(a, seed) == prefix_digest(b, seed),
        stage_digest(false, a, seed) == stage_digest(false, b, seed),
{
}

/// The stage digest of a file is the stage digest of the bytes that are read
/// of it.
pub proof fn stage_digest_of_bytes_read(strict: bool, content: Seq<u8>, seed: i64)
    requires
        content.len() <= u64::MAX,
    ensures
        stage_digest(strict, content.take(bytes_read(strict, content.len() as u64) as int), seed)
            == stage_digest(strict, content, seed),
{
    let taken = content.take(bytes_read(strict, content.len() as u64) as int);
    if strict || content.len() <= PREFIX_LEN {
        assert(taken =~= content);
    } else {
        assert(head(taken) =~= head(content));
    }
}

} // verus!
