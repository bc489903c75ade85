//! The rank table: a hash map from byte strings to token ids, seen by the
//! proofs as a map from byte sequences to ids.
use rustc_hash::FxBuildHasher;
use rustc_hash::FxHashMap;
use vstd::prelude::*;

verus! {

/// rustc_hash's `FxBuildHasher`, the hasher state of `FxHashMap`, carried
/// through opaquely.
#[verifier::external_type_specification]
#[verifier::external_body]
pub struct ExFxBuildHasher(FxBuildHasher);

/// The entries of a rank table: each byte-string key with its id.
pub uninterp spec fn vocab_of(m: FxHashMap<Vec<u8>, u32>) -> Map<Seq<u8>, u32>;

/// The id that marks "no entry": a missing key ranks last.
pub const NO_RANK: u32 = u32::MAX;

/// The rank of a byte string: its id in the table, or the sentinel when absent.
pub open spec fn rank_of(vocab: Map<Seq<u8>, u32>, s: Seq<u8>) -> u32 {
    if vocab.contains_key(s) {
        vocab[s]
    } else {
        NO_RANK
    }
}

/// Relies on `HashMap::get` (with rustc_hash's `FxBuildHasher`): the value
/// stored under a key equal to the given bytes, if any. `Vec<u8>` borrows as
/// `[u8]` with equal hashes and equality, so the lookup is by content.
#[verifier::external_body]
pub(crate) fn lookup(encoder: &FxHashMap<Vec<u8>, u32>, key: &[u8]) -> (r: Option<u32>)
    ensures
        match r {
            Some(id) => vocab_of(*encoder).contains_key(key@) && vocab_of(*encoder)[key@] == id,
            None => !vocab_of(*encoder).contains_key(key@),
        },
{
    encoder.get(key).copied()
}

} // verus!
