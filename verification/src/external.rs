//! Calls into the `itertools` crate. What a contract in this file says of
//! the result is taken from that crate's documentation and source; Verus
//! does not look into the call.

use crate::combinatorics::{is_combination, is_permutation, lex_less, rows};
use itertools::Itertools;
use vstd::prelude::*;

verus! {

/// `Itertools::combinations(k)` on the range `0..n`, collected.
///
/// The crate picks positions, not values: it yields each way to take `k` of
/// the `n` positions once, as a list in increasing order, and advances from
/// one list to the next in lexicographic order. With `k == 0` it yields the
/// empty list alone, and with `k > n` nothing.
#[verifier::external_body]
pub(crate) fn range_combinations(n: usize, k: usize) -> (all: Vec<Vec<usize>>)
    ensures
        forall|i: int| 0 <= i < all.len() ==> is_combination(#[trigger] all[i]@, n as nat, k as nat),
        forall|c: Seq<usize>| #[trigger]
            is_combination(c, n as nat, k as nat) ==> exists|i: int|
                0 <= i < all.len() && #[trigger] all[i]@ == c,
        forall|i: int, j: int|
            0 <= i < j < all.len() ==> lex_less(#[trigger] all[i]@, #[trigger] all[j]@),
{
    (0..n).combinations(k).collect()
}

/// `Itertools::permutations(n)` on the range `0..n`, collected.
///
/// The crate yields each order in which the `n` positions can be listed
/// once, starting from `0, 1, .., n - 1` and advancing in lexicographic
/// order. With `n == 0` it yields the empty list alone.
#[verifier::external_body]
pub(crate) fn range_permutations(n: usize) -> (all: Vec<Vec<usize>>)
    ensures
        forall|i: int| 0 <= i < all.len() ==> is_permutation(#[trigger] all[i]@, n as nat),
        forall|p: Seq<usize>| #[trigger]
            is_permutation(p, n as nat) ==> exists|i: int|
                0 <= i < all.len() && #[trigger] all[i]@ == p,
        forall|i: int, j: int|
            0 <= i < j < all.len() ==> lex_less(#[trigger] all[i]@, #[trigger] all[j]@),
{
    (0..n).permutations(n).collect()
}

/// `Itertools::unique()` on the identifiers, counted.
///
/// The crate passes on the first occurrence of each value and drops the
/// later ones, so the count is the number of different values.
#[verifier::external_body]
pub(crate) fn count_unique(ids: &Vec<u8>) -> (count: usize)
    ensures
        count == ids@.to_set().len(),
{
    ids.iter().unique().count()
}

/// `Itertools::chunks(size)` on the items, each chunk collected.
///
/// The crate hands the items out in their order, `size` of them to each
/// chunk; the last chunk is shorter where the items run out, and no chunk is
/// empty. It panics on a size of 0.
#[verifier::external_body]
pub(crate) fn chunked<T>(items: Vec<T>, size: usize) -> (chunks: Vec<Vec<T>>)
    requires
        size > 0,
    ensures
        rows(chunks).flatten() == items@,
        forall|i: int| 0 <= i < chunks.len() - 1 ==> (#[trigger] chunks[i]).len() == size,
        chunks.len() > 0 ==> 0 < chunks[chunks.len() - 1].len() <= size,
{
    let pieces = items.into_iter().chunks(size);
    let collected = pieces.into_iter().map(|piece| piece.collect()).collect();
    collected
}

} // verus!
