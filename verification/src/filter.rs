//! Filters: compact summaries of a set of keys that can say that a key is not in the set.
pub mod bloom;

use vstd::prelude::*;

verus! {

/// A way of summarising a set of keys in a byte string, the filter, so that for every key of
/// the set the filter answers that the key may be there. For other keys it may answer either
/// way. The canonical one is a Bloom filter.
///
/// The name stands for the encoding: it is stored with the filters, and filters stored
/// under another name are not consulted.
pub trait FilterPolicy: Copy + Send + Sync {
    /// The name of the policy.
    spec fn spec_name(&self) -> Seq<char>;

    /// What `may_contain` answers for a filter and a key.
    spec fn may_match(&self, filter: Seq<u8>, key: Seq<u8>) -> bool;

    /// The name of the policy. It must change when the encoding changes in an
    /// incompatible way.
    fn name(&self) -> (s: &str)
        ensures
            s@ == self.spec_name(),
    ;

    /// Whether `filter` may hold `key`: `true` for every key that the filter was made
    /// from, and `true` or `false` for any other.
    fn may_contain(&self, filter: &[u8], key: &[u8]) -> (b: bool)
        ensures
            b == self.may_match(filter@, key@),
    ;

    /// A filter for `keys`, which may hold every one of them.
    fn create_filter(&self, keys: &Vec<Vec<u8>>) -> (filter: Vec<u8>)
        ensures
            forall|i: int| 0 <= i < keys@.len() ==> self.may_match(filter@, #[trigger] keys@[i]@),
    ;
}

} // verus!
