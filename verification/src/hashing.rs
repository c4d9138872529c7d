//! Content digests: XXH3 in 64 bits, fed block by block and rendered as
//! sixteen lowercase hexadecimal digits.

use vstd::prelude::*;
use vstd::slice::slice_subrange;
use crate::text::{hex_fixed, push_hex_fixed};

verus! {

/// The streaming hasher of `xxhash_rust`, opaque to the verifier.
#[verifier::external_type_specification]
#[verifier::external_body]
pub struct ExXxh3(xxhash_rust::xxh3::Xxh3);

/// The 64-bit XXH3 digest of `data`, with the default seed and secret.
pub uninterp spec fn xxh3_64(data: Seq<u8>) -> u64;

/// All the bytes that a hasher has been fed, in the order they came.
pub uninterp spec fn hasher_input(h: xxhash_rust::xxh3::Xxh3) -> Seq<u8>;

/// The number of bytes that are hashed at a time.
pub const BLOCK_SIZE: usize = 4096;

/// The number of hexadecimal digits of a digest.
pub const DIGEST_WIDTH: u8 = 16;

/// The text of the digest of `content`.
pub open spec fn digest_text(content: Seq<u8>) -> Seq<u8> {
    hex_fixed(xxh3_64(content) as nat, 16)
}

/// Trusted: `Xxh3::new`. The contract claims that a new hasher has been
/// fed nothing.
#[verifier::external_body]
fn hasher_new() -> (h: xxhash_rust::xxh3::Xxh3)
    ensures
        hasher_input(h) == Seq::<u8>::empty(),
{
    xxhash_rust::xxh3::Xxh3::new()
}

/// Trusted: `Xxh3::update`. The contract claims that the block is added
/// behind what the hasher was fed before.
#[verifier::external_body]
fn hasher_update(h: &mut xxhash_rust::xxh3::Xxh3, block: &[u8])
    ensures
        hasher_input(*final(h)) == hasher_input(*old(h)) + block@,
{
    h.update(block)
}

/// Trusted: `Xxh3::digest`. The contract claims that the digest depends
/// only on the bytes fed, however they were cut into blocks: it is the
/// XXH3 digest of all of them.
#[verifier::external_body]
fn hasher_digest(h: &xxhash_rust::xxh3::Xxh3) -> (d: u64)
    ensures
        d == xxh3_64(hasher_input(*h)),
{
    h.digest()
}

/// The digest of `content` as sixteen lowercase hexadecimal digits. The
/// content is hashed in blocks of `BLOCK_SIZE` bytes.
pub fn compute_xxhash(content: &[u8]) -> (hash: Vec<u8>)
    ensures
        hash@ == digest_text(content@),
{
    let mut hasher = hasher_new();
    let mut pos: usize = 0;
    assert(content@.take(0) =~= Seq::<u8>::empty());
    while pos < content.len()
        invariant
            pos <= content.len(),
            hasher_input(hasher) == content@.take(pos as int),
        decreases content.len() - pos,
    {
        let end: usize = if content.len() - pos > BLOCK_SIZE {
            pos + BLOCK_SIZE
        } else {
            content.len()
        };
        let block = slice_subrange(content, pos, end);
        hasher_update(&mut hasher, block);
        assert(content@.take(pos as int) + content@.subrange(pos as int, end as int)
            =~= content@.take(end as int));
        pos = end;
    }
    assert(content@.take(pos as int) =~= content@);
    let digest: u64 = hasher_digest(&hasher);
    let mut hash: Vec<u8> = Vec::new();
    push_hex_fixed(&mut hash, digest, DIGEST_WIDTH);
    assert(hash@ =~= digest_text(content@));
    hash
}

} // verus!
