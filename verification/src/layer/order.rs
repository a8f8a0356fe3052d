//! Sorting keys so that larger keys come first.
use crate::layer::{key_less, key_views, lex_less};
use itertools::Itertools;
use std::cmp::Ordering;
use vstd::prelude::*;

verus! {

/// How `x` stands to `y` when larger keys come first: `Less` when `x` is the
/// larger key, `Greater` when it is the smaller, `Equal` when they are the same.
pub fn reversed(x: &Vec<u8>, y: &Vec<u8>) -> (o: Ordering)
    ensures
        o == Ordering::Less <==> lex_less(y@, x@),
        o == Ordering::Greater <==> lex_less(x@, y@),
{
    if key_less(y, x) {
        proof {
            crate::layer::lemma_lex_total(x@, y@);
        }
        Ordering::Less
    } else if key_less(x, y) {
        Ordering::Greater
    } else {
        Ordering::Equal
    }
}

/// `Itertools::sorted_by` with `reversed` as the order: the keys come back
/// rearranged, none lost and none added, and no key stands before a larger one.
#[verifier::external_body]
pub(crate) fn sort_descending(keys: Vec<Vec<u8>>) -> (sorted: Vec<Vec<u8>>)
    ensures
        key_views(sorted@).to_multiset() == key_views(keys@).to_multiset(),
        forall|i: int, j: int|
            0 <= i < j < sorted.len() ==> !lex_less(
                #[trigger] key_views(sorted@)[i],
                #[trigger] key_views(sorted@)[j],
            ),
{
    keys.into_iter().sorted_by(|x, y| reversed(x, y)).collect()
}

} // verus!
