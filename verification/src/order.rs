//! Ordering of key/value pairs by key.

use vstd::prelude::*;

use crate::record::Key;
use crate::text::{key_lt, lemma_key_lt_total, str_lt};

verus! {

/// The entries whose key is `k`.
pub open spec fn has_key<V>(k: Seq<char>) -> spec_fn((Key, V)) -> bool {
    |e: (Key, V)| e.0@ == k
}

/// Entries in non-decreasing key order.
pub open spec fn sorted_by_key<V>(s: Seq<(Key, V)>) -> bool {
    forall|i: int, j: int| 0 <= i < j < s.len() ==> !key_lt(#[trigger] s[j].0@, #[trigger] s[i].0@)
}

/// Three-way comparison of keys in code-point lexicographic order.
pub fn compare_keys(a: &Key, b: &Key) -> (o: std::cmp::Ordering)
    ensures
        (o == std::cmp::Ordering::Less) == key_lt(a@, b@),
        (o == std::cmp::Ordering::Equal) == (a@ == b@),
        (o == std::cmp::Ordering::Greater) == key_lt(b@, a@),
{
    proof {
        lemma_key_lt_total(a@, b@);
        crate::text::lemma_key_lt_irreflexive(a@);
        if key_lt(a@, b@) {
            crate::text::lemma_key_lt_asymmetric(a@, b@);
        }
    }
    if str_lt(a.as_str(), b.as_str()) {
        std::cmp::Ordering::Less
    } else if *a == *b {
        std::cmp::Ordering::Equal
    } else {
        std::cmp::Ordering::Greater
    }
}

/// `slice::sort_by` with `compare_keys`: a stable sort, so the entries come out
/// in key order and the entries of each key keep their relative order.
#[verifier::external_body]
pub(crate) fn sort_by_key<V>(v: &mut Vec<(Key, V)>)
    ensures
        final(v)@.len() == old(v)@.len(),
        sorted_by_key(final(v)@),
        forall|k: Seq<char>| #[trigger]
            final(v)@.filter(has_key::<V>(k)) == old(v)@.filter(has_key::<V>(k)),
{
    v.sort_by(|a, b| compare_keys(&a.0, &b.0))
}

} // verus!
