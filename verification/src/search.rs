//! The search over scored candidates: each worker keeps the candidates that
//! come close to the best it has seen, and the kept candidates of all
//! workers are put in one list, best first.

use crate::combinatorics::rows;
use crate::error::ConfigError;
use crate::external::chunked;
use crate::matchup::Matchup;
use crate::sequences::{lemma_filter_first, lemma_flat_map_contains, lemma_flat_map_member};
use vstd::prelude::*;

verus! {

/// What the search ranks: anything with a rating. A lower rating is better.
pub trait Rated: Sized {
    /// The rating.
    spec fn rating(&self) -> i16;

    /// The rating.
    fn get_rating(&self) -> (rating: i16)
        ensures
            rating == self.rating(),
    ;
}

impl Rated for Matchup {
    open spec fn rating(&self) -> i16 {
        self.rating
    }

    fn get_rating(&self) -> (rating: i16) {
        self.rating
    }
}

/// The rating against which a worker measures its first candidate.
pub const NO_RATING_YET: i16 = i16::MAX;

/// A candidate is kept where its rating is below 1.10 times the best rating
/// that the worker has kept so far.
pub open spec fn near_best(best: i16, rating: i16) -> bool {
    10 * rating < 11 * best
}

/// The best rating that a worker has kept after a candidate of the given
/// rating.
pub open spec fn best_after(best: i16, rating: i16) -> i16 {
    if near_best(best, rating) && rating < best {
        rating
    } else {
        best
    }
}

/// The best rating kept of the candidates, seen in order.
pub open spec fn best_kept<T: Rated>(candidates: Seq<T>) -> i16
    decreases candidates.len(),
{
    if candidates.len() == 0 {
        NO_RATING_YET
    } else {
        best_after(best_kept(candidates.drop_last()), candidates.last().rating())
    }
}

/// The candidates that a worker keeps when it sees them in order: each one
/// that is near the best rating kept before it.
pub open spec fn retained<T: Rated>(candidates: Seq<T>) -> Seq<T>
    decreases candidates.len(),
{
    if candidates.len() == 0 {
        Seq::empty()
    } else if near_best(best_kept(candidates.drop_last()), candidates.last().rating()) {
        retained(candidates.drop_last()).push(candidates.last())
    } else {
        retained(candidates.drop_last())
    }
}

/// A worker's state: the best rating kept so far, and the candidates kept.
pub struct ChunkSearch<T: Rated> {
    pub best_rating: i16,
    pub kept: Vec<T>,
}

impl<T: Rated> ChunkSearch<T> {
    /// A worker that has seen nothing.
    pub fn new() -> (search: ChunkSearch<T>)
        ensures
            search.best_rating == NO_RATING_YET,
            search.kept@ == Seq::<T>::empty(),
    {
        ChunkSearch { best_rating: NO_RATING_YET, kept: Vec::new() }
    }

    /// Shows the worker one more candidate. The result says whether the
    /// candidate was kept.
    pub fn offer(&mut self, candidate: T) -> (kept: bool)
        ensures
            kept == near_best(old(self).best_rating, candidate.rating()),
            final(self).best_rating == best_after(old(self).best_rating, candidate.rating()),
            final(self).kept@ == if kept {
                old(self).kept@.push(candidate)
            } else {
                old(self).kept@
            },
    {
        let rating: i16 = candidate.get_rating();
        let near = is_near_best(self.best_rating, rating);
        if near {
            if rating < self.best_rating {
                self.best_rating = rating;
            }
            self.kept.push(candidate);
        }
        near
    }

    /// The candidates kept, in the order in which they were seen.
    pub fn into_kept(self) -> (kept: Vec<T>)
        ensures
            kept == self.kept,
    {
        self.kept
    }
}

/// Whether a rating is below 1.10 times the best rating.
pub fn is_near_best(best: i16, rating: i16) -> (near: bool)
    ensures
        near == near_best(best, rating),
{
    let scaled_rating: i32 = 10 * (rating as i32);
    let scaled_best: i32 = 11 * (best as i32);
    scaled_rating < scaled_best
}

/// The candidates that a worker keeps of its chunk.
pub fn retain_near_best<T: Rated>(candidates: Vec<T>) -> (kept: Vec<T>)
    ensures
        kept@ == retained(candidates@),
{
    let ghost all = candidates@;
    let mut search: ChunkSearch<T> = ChunkSearch::new();
    for candidate in it: candidates.into_iter()
        invariant
            it.seq() == all,
            search.best_rating == best_kept(all.take(it.index() as int)),
            search.kept@ == retained(all.take(it.index() as int)),
    {
        proof {
            assert(all.take(it.index() + 1).drop_last() =~= all.take(it.index() as int));
        }
        search.offer(candidate);
    }
    proof {
        assert(all.take(all.len() as int) =~= all);
    }
    search.into_kept()
}

/// Where no rating is negative, the best rating that a worker has kept is
/// the lowest rating that it has seen, and a candidate of that rating is
/// among those kept.
pub proof fn lemma_best_candidate_is_kept<T: Rated>(candidates: Seq<T>)
    requires
        forall|i: int| 0 <= i < candidates.len() ==> (#[trigger] candidates[i]).rating() >= 0,
    ensures
        best_kept(candidates) >= 0,
        forall|i: int|
            0 <= i < candidates.len() ==> best_kept(candidates) <= (#[trigger] candidates[i]).rating(),
        candidates.len() > 0 ==> exists|k: int|
            0 <= k < retained(candidates).len() && (#[trigger] retained(candidates)[k]).rating()
                == best_kept(candidates),
    decreases candidates.len(),
{
    if candidates.len() > 0 {
        let init = candidates.drop_last();
        let last = candidates.last();
        lemma_best_candidate_is_kept(init);
        let kept = retained(candidates);
        assert forall|i: int| 0 <= i < candidates.len() implies best_kept(candidates) <= (
        #[trigger] candidates[i]).rating() by {
            if i < init.len() {
                assert(init[i] == candidates[i]);
            }
        }
        if near_best(best_kept(init), last.rating()) {
            if last.rating() <= best_kept(init) {
                assert(kept[kept.len() - 1].rating() == best_kept(candidates));
            } else {
                assert(init.len() > 0);
                let k = choose|k: int|
                    0 <= k < retained(init).len() && (#[trigger] retained(init)[k]).rating()
                        == best_kept(init);
                assert(kept[k].rating() == best_kept(candidates));
            }
        } else {
            assert(init.len() > 0);
            let k = choose|k: int|
                0 <= k < retained(init).len() && (#[trigger] retained(init)[k]).rating() == best_kept(
                    init,
                );
            assert(kept[k].rating() == best_kept(candidates));
        }
    }
}

/// Picks the candidates of one rating.
pub open spec fn rated<T: Rated>(rating: i16) -> spec_fn(T) -> bool {
    |candidate: T| candidate.rating() == rating
}

/// No candidate has a lower rating than one before it.
pub open spec fn sorted_by_rating<T: Rated>(candidates: Seq<T>) -> bool {
    forall|i: int, j: int|
        0 <= i < j < candidates.len() ==> (#[trigger] candidates[i]).rating()
            <= (#[trigger] candidates[j]).rating()
}

/// `ranking` holds the candidates in ascending order of rating, and those of
/// equal rating in the order that they have in `candidates`.
pub open spec fn is_ranking_of<T: Rated>(ranking: Seq<T>, candidates: Seq<T>) -> bool {
    &&& sorted_by_rating(ranking)
    &&& ranking.to_multiset() == candidates.to_multiset()
    &&& forall|rating: i16| #[trigger]
        ranking.filter(rated::<T>(rating)) == candidates.filter(rated::<T>(rating))
}

fn reversed<T: Rated>(candidates: Vec<T>) -> (turned: Vec<T>)
    ensures
        turned@ == candidates@.reverse(),
{
    let ghost all = candidates@;
    let mut rest = candidates;
    let mut turned: Vec<T> = Vec::new();
    while rest.len() > 0
        invariant
            rest.len() + turned.len() == all.len(),
            rest@ == all.take(rest.len() as int),
            forall|i: int| 0 <= i < turned.len() ==> turned[i] == all[all.len() - 1 - i],
        decreases rest.len(),
    {
        let last = rest.pop().unwrap();
        turned.push(last);
        proof {
            assert(rest@ =~= all.take(rest.len() as int));
        }
    }
    proof {
        assert(turned@ =~= all.reverse());
    }
    turned
}

fn merge_ranked<T: Rated>(left: Vec<T>, right: Vec<T>) -> (merged: Vec<T>)
    requires
        sorted_by_rating(left@),
        sorted_by_rating(right@),
    ensures
        is_ranking_of(merged@, left@ + right@),
{
    let ghost a = left@;
    let ghost b = right@;
    let mut l = reversed(left);
    let mut r = reversed(right);
    let mut merged: Vec<T> = Vec::new();
    proof {
        assert(a.take(0) =~= Seq::<T>::empty());
        assert(b.take(0) =~= Seq::<T>::empty());
        assert forall|rating: i16| #[trigger]
            merged@.filter(rated::<T>(rating)) == a.take(0).filter(rated::<T>(rating)) + b.take(0).filter(
                rated::<T>(rating),
            ) by {
            reveal(Seq::filter);
            assert(merged@.filter(rated::<T>(rating)) =~= Seq::<T>::empty());
        }
        assert(merged@.to_multiset() =~= a.take(0).to_multiset().add(b.take(0).to_multiset())) by {
            broadcast use vstd::seq_lib::group_to_multiset_ensures;

        }
    }
    while l.len() > 0 || r.len() > 0
        invariant
            sorted_by_rating(a),
            sorted_by_rating(b),
            l.len() <= a.len(),
            r.len() <= b.len(),
            forall|i: int| 0 <= i < l.len() ==> l[i] == a[a.len() - 1 - i],
            forall|i: int| 0 <= i < r.len() ==> r[i] == b[b.len() - 1 - i],
            merged.len() == (a.len() - l.len()) + (b.len() - r.len()),
            sorted_by_rating(merged@),
            forall|i: int, j: int|
                0 <= i < merged.len() && a.len() - l.len() <= j < a.len() ==> (#[trigger] merged[i]).rating()
                    <= (#[trigger] a[j]).rating(),
            forall|i: int, j: int|
                0 <= i < merged.len() && b.len() - r.len() <= j < b.len() ==> (#[trigger] merged[i]).rating()
                    <= (#[trigger] b[j]).rating(),
            forall|i: int, j: int|
                0 <= i < b.len() - r.len() && a.len() - l.len() <= j < a.len() ==> (#[trigger] b[i]).rating()
                    < (#[trigger] a[j]).rating(),
            merged@.to_multiset() == a.take(a.len() - l.len()).to_multiset().add(
                b.take(b.len() - r.len()).to_multiset(),
            ),
            forall|rating: i16| #[trigger]
                merged@.filter(rated::<T>(rating)) == a.take(a.len() - l.len()).filter(rated::<T>(rating))
                    + b.take(b.len() - r.len()).filter(rated::<T>(rating)),
        decreases l.len() + r.len(),
    {
        let ghost i = a.len() - l.len();
        let ghost j = b.len() - r.len();
        let ghost before = merged@;
        let from_right = if l.len() == 0 {
            true
        } else if r.len() == 0 {
            false
        } else {
            r[r.len() - 1].get_rating() < l[l.len() - 1].get_rating()
        };
        if from_right {
            let next = r.pop().unwrap();
            merged.push(next);
            proof {
                assert(next == b[j]);
                b.lemma_take_succ_push(j);
                assert(b.take(j + 1) =~= b.take(j).push(next));
                vstd::seq_lib::to_multiset_build(before, next);
                vstd::seq_lib::to_multiset_build(b.take(j), next);
                assert(merged@.to_multiset() =~= a.take(i).to_multiset().add(
                    b.take(j + 1).to_multiset(),
                ));
                assert forall|rating: i16| #[trigger]
                    merged@.filter(rated::<T>(rating)) == a.take(i).filter(rated::<T>(rating)) + b.take(
                        j + 1,
                    ).filter(rated::<T>(rating)) by {
                    before.lemma_filter_push(next, rated::<T>(rating));
                    b.take(j).lemma_filter_push(next, rated::<T>(rating));
                    assert(before.filter(rated::<T>(rating)) == a.take(i).filter(rated::<T>(rating))
                        + b.take(j).filter(rated::<T>(rating)));
                    if next.rating() == rating {
                        assert(a.take(i).filter(rated::<T>(rating)) + b.take(j).filter(
                            rated::<T>(rating),
                        ).push(next) =~= (a.take(i).filter(rated::<T>(rating)) + b.take(j).filter(
                            rated::<T>(rating),
                        )).push(next));
                    }
                }
                assert(sorted_by_rating(merged@)) by {
                    assert forall|x: int, y: int| 0 <= x < y < merged.len() implies (
                    #[trigger] merged[x]).rating() <= (#[trigger] merged[y]).rating() by {
                        if y == merged.len() - 1 {
                            assert(merged[x] == before[x]);
                            assert(before[x].rating() <= b[j].rating());
                        } else {
                            assert(merged[x] == before[x]);
                            assert(merged[y] == before[y]);
                        }
                    }
                }
                assert forall|x: int, y: int|
                    0 <= x < merged.len() && a.len() - l.len() <= y < a.len() implies (
                #[trigger] merged[x]).rating() <= (#[trigger] a[y]).rating() by {
                    if x == merged.len() - 1 {
                        assert(l[l.len() - 1] == a[i]);
                        if y > i {
                            assert(a[i].rating() <= a[y].rating());
                        }
                    } else {
                        assert(merged[x] == before[x]);
                    }
                }
                assert forall|x: int, y: int|
                    0 <= x < merged.len() && b.len() - r.len() <= y < b.len() implies (
                #[trigger] merged[x]).rating() <= (#[trigger] b[y]).rating() by {
                    if x == merged.len() - 1 {
                        assert(b[j].rating() <= b[y].rating());
                    } else {
                        assert(merged[x] == before[x]);
                    }
                }
                assert forall|x: int, y: int|
                    0 <= x < b.len() - r.len() && a.len() - l.len() <= y < a.len() implies (
                #[trigger] b[x]).rating() < (#[trigger] a[y]).rating() by {
                    if x == j {
                        assert(l[l.len() - 1] == a[i]);
                        if y > i {
                            assert(a[i].rating() <= a[y].rating());
                        }
                    }
                }
            }
        } else {
            let next = l.pop().unwrap();
            merged.push(next);
            proof {
                assert(next == a[i]);
                a.lemma_take_succ_push(i);
                assert(a.take(i + 1) =~= a.take(i).push(next));
                vstd::seq_lib::to_multiset_build(before, next);
                vstd::seq_lib::to_multiset_build(a.take(i), next);
                assert(merged@.to_multiset() =~= a.take(i + 1).to_multiset().add(
                    b.take(j).to_multiset(),
                ));
                assert forall|rating: i16| #[trigger]
                    merged@.filter(rated::<T>(rating)) == a.take(i + 1).filter(rated::<T>(rating)) + b.take(
                        j,
                    ).filter(rated::<T>(rating)) by {
                    before.lemma_filter_push(next, rated::<T>(rating));
                    a.take(i).lemma_filter_push(next, rated::<T>(rating));
                    assert(before.filter(rated::<T>(rating)) == a.take(i).filter(rated::<T>(rating))
                        + b.take(j).filter(rated::<T>(rating)));
                    if next.rating() == rating {
                        let taken = b.take(j).filter(rated::<T>(rating));
                        assert(taken.len() == 0) by {
                            if taken.len() > 0 {
                                b.take(j).lemma_filter_pred(rated::<T>(rating), 0);
                                assert(taken.contains(taken[0]));
                                b.take(j).lemma_filter_contains_rev(rated::<T>(rating), taken[0]);
                                let at = choose|at: int|
                                    0 <= at < b.take(j).len() && b.take(j)[at] == taken[0];
                                assert(b[at].rating() < a[i].rating());
                            }
                        }
                        assert(a.take(i).filter(rated::<T>(rating)).push(next) + taken =~= (a.take(
                            i,
                        ).filter(rated::<T>(rating)) + taken).push(next));
                    }
                }
                assert(sorted_by_rating(merged@)) by {
                    assert forall|x: int, y: int| 0 <= x < y < merged.len() implies (
                    #[trigger] merged[x]).rating() <= (#[trigger] merged[y]).rating() by {
                        if y == merged.len() - 1 {
                            assert(merged[x] == before[x]);
                            assert(before[x].rating() <= a[i].rating());
                        } else {
                            assert(merged[x] == before[x]);
                            assert(merged[y] == before[y]);
                        }
                    }
                }
                assert forall|x: int, y: int|
                    0 <= x < merged.len() && a.len() - l.len() <= y < a.len() implies (
                #[trigger] merged[x]).rating() <= (#[trigger] a[y]).rating() by {
                    if x == merged.len() - 1 {
                        assert(a[i].rating() <= a[y].rating());
                    } else {
                        assert(merged[x] == before[x]);
                    }
                }
                assert forall|x: int, y: int|
                    0 <= x < merged.len() && b.len() - r.len() <= y < b.len() implies (
                #[trigger] merged[x]).rating() <= (#[trigger] b[y]).rating() by {
                    if x == merged.len() - 1 {
                        assert(r[r.len() - 1] == b[j]);
                        if y > j {
                            assert(b[j].rating() <= b[y].rating());
                        }
                    } else {
                        assert(merged[x] == before[x]);
                    }
                }
            }
        }
    }
    proof {
        assert(a.take(a.len() as int) =~= a);
        assert(b.take(b.len() as int) =~= b);
        vstd::seq_lib::lemma_multiset_commutative(a, b);
        assert forall|rating: i16| #[trigger]
            merged@.filter(rated::<T>(rating)) == (a + b).filter(rated::<T>(rating)) by {
            Seq::filter_distributes_over_add(a, b, rated::<T>(rating));
        }
    }
    merged
}

/// The candidates in ascending order of rating; candidates of equal rating
/// keep their order.
pub fn rank_by_rating<T: Rated>(candidates: Vec<T>) -> (ranking: Vec<T>)
    ensures
        is_ranking_of(ranking@, candidates@),
    decreases candidates.len(),
{
    let ghost all = candidates@;
    if candidates.len() <= 1 {
        return candidates;
    }
    let mut left = candidates;
    let right = left.split_off(left.len() / 2);
    let ghost first = left@;
    let ghost second = right@;
    let left_ranked = rank_by_rating(left);
    let right_ranked = rank_by_rating(right);
    let ranking = merge_ranked(left_ranked, right_ranked);
    proof {
        assert(all =~= first + second);
        vstd::seq_lib::lemma_multiset_commutative(first, second);
        vstd::seq_lib::lemma_multiset_commutative(left_ranked@, right_ranked@);
        assert forall|rating: i16| #[trigger]
            ranking@.filter(rated::<T>(rating)) == all.filter(rated::<T>(rating)) by {
            Seq::filter_distributes_over_add(first, second, rated::<T>(rating));
            Seq::filter_distributes_over_add(left_ranked@, right_ranked@, rated::<T>(rating));
            assert(left_ranked@.filter(rated::<T>(rating)) == first.filter(rated::<T>(rating)));
            assert(right_ranked@.filter(rated::<T>(rating)) == second.filter(rated::<T>(rating)));
        }
    }
    ranking
}

/// The kept candidates of all workers in one list, in ascending order of
/// rating. Candidates of equal rating stand in the order of the batches, and
/// within a batch in the order that they have there.
pub fn merge_results<T: Rated>(batches: Vec<Vec<T>>) -> (ranking: Vec<T>)
    ensures
        is_ranking_of(ranking@, rows(batches).flatten()),
{
    let ghost parts = rows(batches);
    let mut all: Vec<T> = Vec::new();
    proof {
        assert(parts.take(0).flatten() =~= Seq::<T>::empty());
    }
    for batch in it: batches.into_iter()
        invariant
            it.seq() == batches@,
            parts == rows(batches),
            all@ == parts.take(it.index() as int).flatten(),
    {
        let mut batch = batch;
        proof {
            parts.lemma_take_succ_push(it.index() as int);
            parts.take(it.index() as int).lemma_flatten_push(parts[it.index() as int]);
        }
        all.append(&mut batch);
    }
    proof {
        assert(parts.take(parts.len() as int) =~= parts);
    }
    rank_by_rating(all)
}

/// How many lineups a chunk holds: the share of one worker, rounded down,
/// but at least one.
pub open spec fn chunk_size(number_of_lineups: nat, number_of_workers: nat) -> nat {
    if number_of_lineups / number_of_workers == 0 {
        1
    } else {
        number_of_lineups / number_of_workers
    }
}

/// Every chunk but the last holds `size` items, and the last holds at least
/// one and at most `size`.
pub open spec fn is_chunking<T>(chunks: Seq<Seq<T>>, size: nat) -> bool {
    &&& forall|i: int| 0 <= i < chunks.len() - 1 ==> (#[trigger] chunks[i]).len() == size
    &&& chunks.len() > 0 ==> 0 < chunks.last().len() <= size
}

/// The lineups in chunks, one for each worker to search: runs of
/// `chunk_size` lineups in their order. Where the lineups do not divide
/// evenly, there are more chunks than `number_of_workers`.
///
/// Fails where `number_of_workers` is 0.
pub fn split_for_workers<T>(lineups: Vec<T>, number_of_workers: usize) -> (split: Result<
    Vec<Vec<T>>,
    ConfigError,
>)
    ensures
        match split {
            Ok(chunks) => {
                &&& number_of_workers > 0
                &&& rows(chunks).flatten() == lineups@
                &&& is_chunking(
                    rows(chunks),
                    chunk_size(lineups@.len(), number_of_workers as nat),
                )
            },
            Err(error) => number_of_workers == 0 && error == ConfigError::NoWorkers,
        },
{
    if number_of_workers == 0 {
        return Err(ConfigError::NoWorkers);
    }
    let share: usize = lineups.len() / number_of_workers;
    let size: usize = if share == 0 {
        1
    } else {
        share
    };
    let chunks = chunked(lineups, size);
    proof {
        assert forall|i: int| 0 <= i < rows(chunks).len() - 1 implies (#[trigger] rows(
            chunks,
        )[i]).len() == size by {
            assert(chunks[i].len() == size);
        }
    }
    Ok(chunks)
}

/// `retained` as a function to map by.
pub open spec fn retaining<T: Rated>() -> spec_fn(Seq<T>) -> Seq<T> {
    |candidates: Seq<T>| retained(candidates)
}

/// What the workers keep of their chunks, chunk by chunk.
pub open spec fn retained_of_all<T: Rated>(chunks: Seq<Seq<T>>) -> Seq<T> {
    chunks.flat_map(retaining::<T>())
}

/// A worker keeps nothing that it has not seen.
pub proof fn lemma_retained_are_candidates<T: Rated>(candidates: Seq<T>, kept: T)
    requires
        retained(candidates).contains(kept),
    ensures
        candidates.contains(kept),
    decreases candidates.len(),
{
    if candidates.len() > 0 {
        let init = candidates.drop_last();
        let k = choose|k: int| 0 <= k < retained(candidates).len() && retained(candidates)[k] == kept;
        if k < retained(init).len() {
            assert(retained(init)[k] == kept);
            lemma_retained_are_candidates(init, kept);
            let at = choose|at: int| 0 <= at < init.len() && init[at] == kept;
            assert(candidates[at] == kept);
        } else {
            assert(candidates[candidates.len() - 1] == kept);
        }
    }
}

/// Where no rating is negative and some worker has a candidate, the ranking
/// of what the workers keep begins with a candidate that no candidate of any
/// worker undercuts.
pub proof fn lemma_best_candidate_first<T: Rated>(chunks: Seq<Seq<T>>, ranking: Seq<T>)
    requires
        forall|c: int, i: int|
            0 <= c < chunks.len() && 0 <= i < chunks[c].len() ==> (#[trigger] chunks[c][i]).rating()
                >= 0,
        exists|c: int| 0 <= c < chunks.len() && (#[trigger] chunks[c]).len() > 0,
        is_ranking_of(ranking, retained_of_all(chunks)),
    ensures
        ranking.len() > 0,
        forall|c: int, i: int|
            0 <= c < chunks.len() && 0 <= i < chunks[c].len() ==> ranking[0].rating() <= (
            #[trigger] chunks[c][i]).rating(),
        exists|c: int| 0 <= c < chunks.len() && (#[trigger] chunks[c]).contains(ranking[0]),
{
    broadcast use vstd::seq_lib::to_multiset_contains;

    let kept = retained_of_all(chunks);
    assert forall|c: int| 0 <= c < chunks.len() && (#[trigger] chunks[c]).len() > 0 implies exists|
        at: int,
    |
        0 <= at < ranking.len() && (#[trigger] ranking[at]).rating() == best_kept(chunks[c]) by {
        lemma_best_candidate_is_kept(chunks[c]);
        let own = retained(chunks[c]);
        let k = choose|k: int| 0 <= k < own.len() && (#[trigger] own[k]).rating() == best_kept(chunks[c]);
        assert(own.contains(own[k]));
        lemma_flat_map_contains(chunks, retaining::<T>(), c, own[k]);
        assert(kept.to_multiset().count(own[k]) > 0);
        assert(ranking.contains(own[k]));
        let at = choose|at: int| 0 <= at < ranking.len() && ranking[at] == own[k];
        assert(ranking[at].rating() == best_kept(chunks[c]));
    }
    let some = choose|c: int| 0 <= c < chunks.len() && (#[trigger] chunks[c]).len() > 0;
    assert(ranking.len() > 0);
    assert forall|c: int, i: int| 0 <= c < chunks.len() && 0 <= i < chunks[c].len() implies ranking[0].rating()
        <= (#[trigger] chunks[c][i]).rating() by {
        lemma_best_candidate_is_kept(chunks[c]);
        let at = choose|at: int|
            0 <= at < ranking.len() && (#[trigger] ranking[at]).rating() == best_kept(chunks[c]);
        if at > 0 {
            assert(ranking[0].rating() <= ranking[at].rating());
        }
    }
    assert(ranking.contains(ranking[0]));
    assert(ranking.to_multiset().count(ranking[0]) > 0);
    assert(kept.contains(ranking[0]));
    let from = lemma_flat_map_member(chunks, retaining::<T>(), ranking[0]);
    lemma_retained_are_candidates(chunks[from], ranking[0]);
}

/// The candidates have one ranking only.
pub proof fn lemma_ranking_unique<T: Rated>(first: Seq<T>, second: Seq<T>, candidates: Seq<T>)
    requires
        is_ranking_of(first, candidates),
        is_ranking_of(second, candidates),
    ensures
        first == second,
{
    assert forall|rating: i16| #[trigger]
        first.filter(rated::<T>(rating)) == second.filter(rated::<T>(rating)) by {
        assert(first.filter(rated::<T>(rating)) == candidates.filter(rated::<T>(rating)));
        assert(second.filter(rated::<T>(rating)) == candidates.filter(rated::<T>(rating)));
    }
    lemma_sorted_alike(first, second);
}

/// Two lists in ascending order of rating that hold, for each rating, the
/// same candidates in the same order are the same list.
proof fn lemma_sorted_alike<T: Rated>(first: Seq<T>, second: Seq<T>)
    requires
        sorted_by_rating(first),
        sorted_by_rating(second),
        first.to_multiset() == second.to_multiset(),
        forall|rating: i16| #[trigger]
            first.filter(rated::<T>(rating)) == second.filter(rated::<T>(rating)),
    ensures
        first == second,
    decreases first.len(),
{
    broadcast use vstd::seq_lib::to_multiset_contains;

    first.to_multiset_ensures();
    second.to_multiset_ensures();
    if first.len() == 0 {
        assert(first =~= second);
    } else {
        let a = first[0];
        let b = second[0];
        assert(first.contains(a));
        assert(second.to_multiset().count(a) > 0);
        assert(second.contains(a));
        assert(second.contains(b));
        assert(first.to_multiset().count(b) > 0);
        assert(first.contains(b));
        let at_a = choose|at: int| 0 <= at < second.len() && second[at] == a;
        let at_b = choose|at: int| 0 <= at < first.len() && first[at] == b;
        assert(b.rating() <= second[at_a].rating());
        assert(a.rating() <= first[at_b].rating());
        assert(a.rating() == b.rating());
        lemma_filter_first(first, rated::<T>(a.rating()), 0);
        lemma_filter_first(second, rated::<T>(a.rating()), 0);
        assert(a == b);
        let rest_a = first.drop_first();
        let rest_b = second.drop_first();
        assert(first =~= seq![a] + rest_a);
        assert(second =~= seq![a] + rest_b);
        assert forall|rating: i16| #[trigger]
            rest_a.filter(rated::<T>(rating)) == rest_b.filter(rated::<T>(rating)) by {
            rest_a.lemma_filter_prepend(a, rated::<T>(rating));
            rest_b.lemma_filter_prepend(a, rated::<T>(rating));
            let whole = first.filter(rated::<T>(rating));
            assert(whole == second.filter(rated::<T>(rating)));
            if rated::<T>(rating)(a) {
                assert(rest_a.filter(rated::<T>(rating)) =~= whole.drop_first());
                assert(rest_b.filter(rated::<T>(rating)) =~= whole.drop_first());
            } else {
                assert(rest_a.filter(rated::<T>(rating)) =~= whole);
                assert(rest_b.filter(rated::<T>(rating)) =~= whole);
            }
        }
        assert(rest_a.to_multiset() =~= rest_b.to_multiset()) by {
            vstd::seq_lib::to_multiset_remove(first, 0);
            vstd::seq_lib::to_multiset_remove(second, 0);
            assert(first.remove(0) =~= rest_a);
            assert(second.remove(0) =~= rest_b);
        }
        assert(sorted_by_rating(rest_a)) by {
            assert forall|i: int, j: int| 0 <= i < j < rest_a.len() implies (#[trigger] rest_a[i]).rating()
                <= (#[trigger] rest_a[j]).rating() by {
                assert(rest_a[i] == first[i + 1]);
                assert(rest_a[j] == first[j + 1]);
            }
        }
        assert(sorted_by_rating(rest_b)) by {
            assert forall|i: int, j: int| 0 <= i < j < rest_b.len() implies (#[trigger] rest_b[i]).rating()
                <= (#[trigger] rest_b[j]).rating() by {
                assert(rest_b[i] == second[i + 1]);
                assert(rest_b[j] == second[j + 1]);
            }
        }
        lemma_sorted_alike(rest_a, rest_b);
    }
}

} // verus!
