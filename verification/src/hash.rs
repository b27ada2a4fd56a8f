//! The content digest of a file.
use vstd::prelude::*;
use vstd::std_specs::hash::DefaultHasherAdditionalSpecFns;
use std::collections::hash_map::DefaultHasher;
use std::hash::Hasher;

verus! {

/// The digest of a sequence of bytes: what a fresh hasher makes of the bytes
/// written to it in one piece.
pub open spec fn digest(bytes: Seq<u8>) -> u64 {
    DefaultHasher::spec_finish(seq![bytes])
}

/// Computes the digest of the content of a file.
pub fn content_hash(bytes: &[u8]) -> (hash: u64)
    ensures
        hash == digest(bytes@),
{
    let mut hasher = DefaultHasher::new();
    hasher.write(bytes);
    assert(hasher@ =~= seq![bytes@]);
    hasher.finish()
}

/// Equal contents have equal digests.
pub proof fn lemma_digest_is_a_function(first: Seq<u8>, second: Seq<u8>)
    requires
        first == second,
    ensures
        digest(first) == digest(second),
{
}

} // verus!
