//! Hashes of texts.

use std::collections::hash_map::DefaultHasher;
use std::hash::Hasher;
use vstd::prelude::*;
use vstd::std_specs::hash::DefaultHasherAdditionalSpecFns;

verus! {

/// What `<str as Hash>::hash` writes to a hasher.
pub uninterp spec fn hash_writes(text: Seq<char>) -> Seq<Seq<u8>>;

/// Feeds a text to a hasher, by `<str as Hash>::hash`. What it writes depends
/// on the text alone, and what the hasher was fed before stays.
#[verifier::external_body]
pub(crate) fn feed_text(text: &str, hasher: &mut DefaultHasher)
    ensures
        final(hasher)@ == old(hasher)@ + hash_writes(text@),
{
    std::hash::Hash::hash(text, hasher)
}

/// The hash of one text.
pub open spec fn text_hash(text: Seq<char>) -> u64 {
    DefaultHasher::spec_finish(hash_writes(text))
}

/// The hash of one text.
pub fn hash_text(text: &str) -> (hash: u64)
    ensures
        hash == text_hash(text@),
{
    let mut hasher = DefaultHasher::new();
    feed_text(text, &mut hasher);
    assert(hasher@ =~= hash_writes(text@));
    hasher.finish()
}

/// A text is hashed by what it writes to a fresh hasher and by nothing else:
/// texts that write the same hash alike.
pub proof fn a_text_is_hashed_by_what_it_writes(a: Seq<char>, b: Seq<char>)
    ensures
        text_hash(a) == DefaultHasher::spec_finish(hash_writes(a)),
        hash_writes(a) == hash_writes(b) ==> text_hash(a) == text_hash(b),
{
}

} // verus!
