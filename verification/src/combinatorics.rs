//! Enumerations of index tuples: the ways to pick `k` of `n` positions, and
//! the orders in which `n` positions can be listed, both in lexicographic
//! order.

use crate::external::{range_combinations, range_permutations};
use vstd::prelude::*;

verus! {

/// The rows of a nested vector, each as a sequence.
pub open spec fn rows<T>(all: Vec<Vec<T>>) -> Seq<Seq<T>> {
    Seq::new(all@.len(), |i: int| all@[i]@)
}

/// `c` holds `k` positions from `lo` up to, not including, `n`, in strictly
/// increasing order.
pub open spec fn is_combination_in(c: Seq<usize>, lo: nat, n: nat, k: nat) -> bool {
    &&& c.len() == k
    &&& forall|i: int| 0 <= i < c.len() ==> lo <= #[trigger] c[i] < n
    &&& forall|i: int, j: int| 0 <= i < j < c.len() ==> c[i] < c[j]
}

/// `c` picks `k` of the positions below `n`, in strictly increasing order.
pub open spec fn is_combination(c: Seq<usize>, n: nat, k: nat) -> bool {
    is_combination_in(c, 0, n, k)
}

/// `p` lists every position below `n` exactly once.
pub open spec fn is_permutation(p: Seq<usize>, n: nat) -> bool {
    &&& p.len() == n
    &&& forall|i: int| 0 <= i < p.len() ==> #[trigger] p[i] < n
    &&& forall|i: int, j: int| 0 <= i < j < p.len() ==> p[i] != p[j]
}

/// `a` and `b` agree before place `at`, and there `a` holds the smaller entry.
pub open spec fn first_difference(a: Seq<usize>, b: Seq<usize>, at: int) -> bool {
    &&& 0 <= at < a.len()
    &&& at < b.len()
    &&& a[at] < b[at]
    &&& forall|j: int| 0 <= j < at ==> a[j] == b[j]
}

/// Lexicographic order: at the first place where `a` and `b` differ, `a`
/// holds the smaller entry.
pub open spec fn lex_less(a: Seq<usize>, b: Seq<usize>) -> bool {
    exists|at: int| first_difference(a, b, at)
}

/// Each tuple comes before all later ones in lexicographic order.
pub open spec fn lex_sorted(all: Seq<Seq<usize>>) -> bool {
    forall|i: int, j: int| 0 <= i < j < all.len() ==> lex_less(#[trigger] all[i], #[trigger] all[j])
}

/// No tuple comes before itself.
pub proof fn lemma_lex_less_irreflexive(a: Seq<usize>)
    ensures
        !lex_less(a, a),
{
}

/// What comes before a tuple comes before all that the tuple comes before.
pub proof fn lemma_lex_less_transitive(a: Seq<usize>, b: Seq<usize>, c: Seq<usize>)
    requires
        lex_less(a, b),
        lex_less(b, c),
    ensures
        lex_less(a, c),
{
    let ab = choose|at: int| first_difference(a, b, at);
    let bc = choose|at: int| first_difference(b, c, at);
    let at = if ab <= bc { ab } else { bc };
    assert(first_difference(a, c, at));
}

/// Two lexicographically sorted lists that hold the same tuples are the same
/// list.
pub proof fn lemma_lex_sorted_unique(s1: Seq<Seq<usize>>, s2: Seq<Seq<usize>>)
    requires
        lex_sorted(s1),
        lex_sorted(s2),
        forall|i: int| 0 <= i < s1.len() ==> s2.contains(#[trigger] s1[i]),
        forall|i: int| 0 <= i < s2.len() ==> s1.contains(#[trigger] s2[i]),
    ensures
        s1 == s2,
    decreases s1.len(),
{
    if s1.len() == 0 {
        if s2.len() > 0 {
            assert(s1.contains(s2[0]));
        }
        assert(s1 =~= s2);
    } else {
        assert(s2.contains(s1[0]));
        let j = choose|j: int| 0 <= j < s2.len() && s2[j] == s1[0];
        assert(s1.contains(s2[0]));
        let i = choose|i: int| 0 <= i < s1.len() && s1[i] == s2[0];
        lemma_lex_less_irreflexive(s1[0]);
        if j > 0 {
            assert(lex_less(s2[0], s2[j]));
            if i > 0 {
                assert(lex_less(s1[0], s1[i]));
                lemma_lex_less_transitive(s1[0], s1[i], s1[0]);
            }
        }
        assert(s1[0] == s2[0]);
        let t1 = s1.drop_first();
        let t2 = s2.drop_first();
        assert forall|a: int| 0 <= a < t1.len() implies t2.contains(#[trigger] t1[a]) by {
            assert(t1[a] == s1[a + 1]);
            assert(s2.contains(s1[a + 1]));
            let m = choose|m: int| 0 <= m < s2.len() && s2[m] == s1[a + 1];
            assert(lex_less(s1[0], s1[a + 1]));
            assert(m > 0);
            assert(t2[m - 1] == s2[m]);
        }
        assert forall|a: int| 0 <= a < t2.len() implies t1.contains(#[trigger] t2[a]) by {
            assert(t2[a] == s2[a + 1]);
            assert(s1.contains(s2[a + 1]));
            let m = choose|m: int| 0 <= m < s1.len() && s1[m] == s2[a + 1];
            assert(lex_less(s2[0], s2[a + 1]));
            assert(m > 0);
            assert(t1[m - 1] == s1[m]);
        }
        assert(lex_sorted(t1)) by {
            assert forall|a: int, b: int| 0 <= a < b < t1.len() implies lex_less(
                #[trigger] t1[a],
                #[trigger] t1[b],
            ) by {
                assert(lex_less(s1[a + 1], s1[b + 1]));
            }
        }
        assert(lex_sorted(t2)) by {
            assert forall|a: int, b: int| 0 <= a < b < t2.len() implies lex_less(
                #[trigger] t2[a],
                #[trigger] t2[b],
            ) by {
                assert(lex_less(s2[a + 1], s2[b + 1]));
            }
        }
        lemma_lex_sorted_unique(t1, t2);
        assert(s1 =~= seq![s1[0]] + t1);
        assert(s2 =~= seq![s2[0]] + t2);
    }
}

/// The ways to pick `k` of the positions from `lo` up to, not including, `n`,
/// in lexicographic order: first those that take `lo`, then those that do
/// not.
pub open spec fn combinations_from(lo: nat, n: nat, k: nat) -> Seq<Seq<usize>>
    decreases n - lo,
{
    if k == 0 {
        seq![Seq::<usize>::empty()]
    } else if lo >= n {
        Seq::empty()
    } else {
        combinations_from(lo + 1, n, (k - 1) as nat).map_values(
            |rest: Seq<usize>| seq![lo as usize] + rest,
        ) + combinations_from(lo + 1, n, k)
    }
}

/// The ways to pick `k` of the positions below `n`, each in increasing order,
/// all of them in lexicographic order.
pub open spec fn combinations(n: nat, k: nat) -> Seq<Seq<usize>> {
    combinations_from(0, n, k)
}

/// `all` lists every way to pick `k` of `n` positions, and nothing else, in
/// lexicographic order.
pub open spec fn enumerates_combinations(all: Seq<Seq<usize>>, n: nat, k: nat) -> bool {
    &&& forall|i: int| 0 <= i < all.len() ==> is_combination(#[trigger] all[i], n, k)
    &&& forall|c: Seq<usize>| #[trigger] is_combination(c, n, k) ==> all.contains(c)
    &&& lex_sorted(all)
}

proof fn lemma_combinations_valid(lo: nat, n: nat, k: nat)
    requires
        n <= usize::MAX,
    ensures
        forall|i: int|
            0 <= i < combinations_from(lo, n, k).len() ==> is_combination_in(
                #[trigger] combinations_from(lo, n, k)[i],
                lo,
                n,
                k,
            ),
    decreases n - lo,
{
    if k == 0 {
    } else if lo >= n {
    } else {
        let taking = combinations_from(lo + 1, n, (k - 1) as nat);
        let skipping = combinations_from(lo + 1, n, k);
        let all = combinations_from(lo, n, k);
        lemma_combinations_valid(lo + 1, n, (k - 1) as nat);
        lemma_combinations_valid(lo + 1, n, k);
        assert forall|i: int| 0 <= i < all.len() implies is_combination_in(
            #[trigger] all[i],
            lo,
            n,
            k,
        ) by {
            if i < taking.len() {
                let rest = taking[i];
                assert(is_combination_in(rest, lo + 1, n, (k - 1) as nat));
                assert(all[i] == seq![lo as usize] + rest);
                assert forall|a: int| 0 <= a < all[i].len() implies lo <= #[trigger] all[i][a]
                    < n by {
                    if a > 0 {
                        assert(all[i][a] == rest[a - 1]);
                    }
                }
                assert forall|a: int, b: int| 0 <= a < b < all[i].len() implies all[i][a]
                    < all[i][b] by {
                    assert(all[i][b] == rest[b - 1]);
                    if a > 0 {
                        assert(all[i][a] == rest[a - 1]);
                    }
                }
            } else {
                assert(all[i] == skipping[i - taking.len()]);
                assert(is_combination_in(skipping[i - taking.len()], lo + 1, n, k));
            }
        }
    }
}

proof fn lemma_combinations_complete(lo: nat, n: nat, k: nat, c: Seq<usize>)
    requires
        n <= usize::MAX,
        is_combination_in(c, lo, n, k),
    ensures
        combinations_from(lo, n, k).contains(c),
    decreases n - lo,
{
    let all = combinations_from(lo, n, k);
    if k == 0 {
        assert(c =~= Seq::<usize>::empty());
        assert(all[0] == c);
    } else {
        assert(lo <= c[0] < n);
        let taking = combinations_from(lo + 1, n, (k - 1) as nat);
        let skipping = combinations_from(lo + 1, n, k);
        if c[0] == lo {
            let rest = c.drop_first();
            assert forall|a: int| 0 <= a < rest.len() implies lo + 1 <= #[trigger] rest[a]
                < n by {
                assert(rest[a] == c[a + 1]);
                assert(c[0] < c[a + 1]);
            }
            assert forall|a: int, b: int| 0 <= a < b < rest.len() implies rest[a] < rest[b] by {
                assert(rest[a] == c[a + 1]);
                assert(rest[b] == c[b + 1]);
            }
            assert(is_combination_in(rest, lo + 1, n, (k - 1) as nat));
            lemma_combinations_complete(lo + 1, n, (k - 1) as nat, rest);
            let m = choose|m: int| 0 <= m < taking.len() && taking[m] == rest;
            assert(seq![lo as usize] + rest =~= c);
            assert(all[m] == c);
        } else {
            assert forall|a: int| 0 <= a < c.len() implies lo + 1 <= #[trigger] c[a] < n by {
                if a > 0 {
                    assert(c[0] < c[a]);
                }
            }
            assert(is_combination_in(c, lo + 1, n, k));
            lemma_combinations_complete(lo + 1, n, k, c);
            let m = choose|m: int| 0 <= m < skipping.len() && skipping[m] == c;
            assert(all[taking.len() + m] == c);
        }
    }
}

proof fn lemma_combinations_sorted(lo: nat, n: nat, k: nat)
    requires
        n <= usize::MAX,
    ensures
        lex_sorted(combinations_from(lo, n, k)),
    decreases n - lo,
{
    if k == 0 {
    } else if lo >= n {
    } else {
        let taking = combinations_from(lo + 1, n, (k - 1) as nat);
        let skipping = combinations_from(lo + 1, n, k);
        let all = combinations_from(lo, n, k);
        lemma_combinations_sorted(lo + 1, n, (k - 1) as nat);
        lemma_combinations_sorted(lo + 1, n, k);
        lemma_combinations_valid(lo + 1, n, k);
        assert forall|i: int, j: int| 0 <= i < j < all.len() implies lex_less(
            #[trigger] all[i],
            #[trigger] all[j],
        ) by {
            if j < taking.len() {
                assert(lex_less(taking[i], taking[j]));
                let at = choose|at: int| first_difference(taking[i], taking[j], at);
                assert(first_difference(all[i], all[j], at + 1)) by {
                    assert forall|a: int| 0 <= a < at + 1 implies all[i][a] == all[j][a] by {
                        if a > 0 {
                            assert(all[i][a] == taking[i][a - 1]);
                            assert(all[j][a] == taking[j][a - 1]);
                        }
                    }
                    assert(all[i][at + 1] == taking[i][at]);
                    assert(all[j][at + 1] == taking[j][at]);
                }
            } else if i < taking.len() {
                let later = skipping[j - taking.len()];
                assert(all[j] == later);
                assert(is_combination_in(later, lo + 1, n, k));
                assert(lo + 1 <= later[0]);
                assert(all[i][0] == lo as usize);
                assert(first_difference(all[i], all[j], 0));
            } else {
                assert(lex_less(skipping[i - taking.len()], skipping[j - taking.len()]));
            }
        }
    }
}

/// `combinations(n, k)` lists every way to pick `k` of `n` positions, and
/// nothing else, in lexicographic order; no other list does.
pub proof fn lemma_combinations_enumerate(n: nat, k: nat)
    requires
        n <= usize::MAX,
    ensures
        enumerates_combinations(combinations(n, k), n, k),
        forall|all: Seq<Seq<usize>>| #[trigger]
            enumerates_combinations(all, n, k) ==> all == combinations(n, k),
{
    lemma_combinations_valid(0, n, k);
    lemma_combinations_sorted(0, n, k);
    assert forall|c: Seq<usize>| #[trigger] is_combination(c, n, k) implies combinations(
        n,
        k,
    ).contains(c) by {
        lemma_combinations_complete(0, n, k, c);
    }
    assert forall|all: Seq<Seq<usize>>| #[trigger]
        enumerates_combinations(all, n, k) implies all == combinations(n, k) by {
        let own = combinations(n, k);
        assert forall|i: int| 0 <= i < own.len() implies all.contains(#[trigger] own[i]) by {
            assert(is_combination(own[i], n, k));
        }
        assert forall|i: int| 0 <= i < all.len() implies own.contains(#[trigger] all[i]) by {
            assert(is_combination(all[i], n, k));
        }
        lemma_lex_sorted_unique(all, own);
    }
}

/// Every way to pick `k` of the positions below `n`, each in increasing
/// order, all of them in lexicographic order.
pub fn index_combinations(n: usize, k: usize) -> (all: Vec<Vec<usize>>)
    ensures
        rows(all) == combinations(n as nat, k as nat),
{
    let all = range_combinations(n, k);
    proof {
        let listed = rows(all);
        assert forall|c: Seq<usize>| #[trigger]
            is_combination(c, n as nat, k as nat) implies listed.contains(c) by {
            let i = choose|i: int| 0 <= i < all.len() && #[trigger] all[i]@ == c;
            assert(listed[i] == c);
        }
        assert(enumerates_combinations(listed, n as nat, k as nat));
        lemma_combinations_enumerate(n as nat, k as nat);
    }
    all
}

proof fn lemma_singles_count(lo: nat, n: nat)
    requires
        lo <= n,
    ensures
        combinations_from(lo, n, 1).len() == n - lo,
    decreases n - lo,
{
    if lo < n {
        lemma_singles_count(lo + 1, n);
        assert(combinations_from(lo + 1, n, 0).len() == 1);
    }
}

proof fn lemma_pairs_count_from(lo: nat, n: nat)
    requires
        lo <= n,
    ensures
        2 * combinations_from(lo, n, 2).len() == (n - lo) * (n - lo - 1),
    decreases n - lo,
{
    if lo < n {
        lemma_pairs_count_from(lo + 1, n);
        lemma_singles_count(lo + 1, n);
        let left = n - lo;
        assert(2 * (left - 1) + (left - 1) * (left - 2) == left * (left - 1)) by (nonlinear_arith);
    } else {
        assert(0 * (0 - 1) == 0);
    }
}

/// There are `n * (n - 1) / 2` ways to pick two of `n` positions.
pub proof fn lemma_pairs_count(n: nat)
    ensures
        2 * combinations(n, 2).len() == n * (n - 1),
{
    lemma_pairs_count_from(0, n);
}

/// Each entry of `avail` is smaller than the entries after it.
pub open spec fn strictly_increasing(avail: Seq<usize>) -> bool {
    forall|i: int, j: int| 0 <= i < j < avail.len() ==> avail[i] < avail[j]
}

/// `p` lists every entry of `avail` exactly once.
pub open spec fn is_arrangement(p: Seq<usize>, avail: Seq<usize>) -> bool {
    &&& p.len() == avail.len()
    &&& forall|i: int| 0 <= i < p.len() ==> avail.contains(#[trigger] p[i])
    &&& forall|i: int, j: int| 0 <= i < j < p.len() ==> p[i] != p[j]
}

/// The orders in which the entries of `avail` can be listed. The lists that
/// start with the first entry come first, then those that start with the
/// second, and so on; within each group the remaining entries are arranged
/// in the same way.
pub open spec fn arrangements(avail: Seq<usize>) -> Seq<Seq<usize>>
    decreases avail.len(), 1int, 0int,
{
    if avail.len() == 0 {
        seq![Seq::<usize>::empty()]
    } else {
        arrangements_from(avail, 0)
    }
}

/// The arrangements of `avail` that start with its entry at place `first` or
/// at a later place.
pub open spec fn arrangements_from(avail: Seq<usize>, first: nat) -> Seq<Seq<usize>>
    decreases avail.len(), 0int, avail.len() - first,
{
    if first >= avail.len() {
        Seq::empty()
    } else {
        arrangements(avail.remove(first as int)).map_values(
            |rest: Seq<usize>| seq![avail[first as int]] + rest,
        ) + arrangements_from(avail, first + 1)
    }
}

/// The positions below `n`, in increasing order.
pub open spec fn positions(n: nat) -> Seq<usize> {
    Seq::new(n, |i: int| i as usize)
}

/// The orders in which the positions below `n` can be listed, in
/// lexicographic order.
pub open spec fn permutations(n: nat) -> Seq<Seq<usize>> {
    arrangements(positions(n))
}

/// `all` lists every order of the positions below `n`, and nothing else, in
/// lexicographic order.
pub open spec fn enumerates_permutations(all: Seq<Seq<usize>>, n: nat) -> bool {
    &&& forall|i: int| 0 <= i < all.len() ==> is_permutation(#[trigger] all[i], n)
    &&& forall|p: Seq<usize>| #[trigger] is_permutation(p, n) ==> all.contains(p)
    &&& lex_sorted(all)
}

/// The product of the numbers from 1 to `n`.
pub open spec fn factorial(n: nat) -> nat
    decreases n,
{
    if n == 0 {
        1
    } else {
        n * factorial((n - 1) as nat)
    }
}

proof fn lemma_remove_keeps_order(avail: Seq<usize>, at: int)
    requires
        strictly_increasing(avail),
        0 <= at < avail.len(),
    ensures
        strictly_increasing(avail.remove(at)),
        !avail.remove(at).contains(avail[at]),
        forall|v: usize| avail.contains(v) && v != avail[at] ==> avail.remove(at).contains(v),
        forall|v: usize| avail.remove(at).contains(v) ==> avail.contains(v),
{
    let rest = avail.remove(at);
    assert forall|i: int| 0 <= i < rest.len() implies #[trigger] rest[i] == avail[if i < at {
        i
    } else {
        i + 1
    }] by {}
    assert forall|v: usize| avail.contains(v) && v != avail[at] implies rest.contains(v) by {
        let m = choose|m: int| 0 <= m < avail.len() && avail[m] == v;
        if m < at {
            assert(rest[m] == v);
        } else {
            assert(rest[m - 1] == v);
        }
    }
    assert forall|v: usize| rest.contains(v) implies avail.contains(v) by {
        let m = choose|m: int| 0 <= m < rest.len() && rest[m] == v;
        assert(avail[if m < at { m } else { m + 1 }] == v);
    }
    if rest.contains(avail[at]) {
        let m = choose|m: int| 0 <= m < rest.len() && rest[m] == avail[at];
        assert(false);
    }
}

proof fn lemma_arrangements_valid(avail: Seq<usize>)
    requires
        strictly_increasing(avail),
    ensures
        forall|i: int|
            0 <= i < arrangements(avail).len() ==> is_arrangement(
                #[trigger] arrangements(avail)[i],
                avail,
            ),
    decreases avail.len(), 1int, 0int,
{
    let all = arrangements(avail);
    if avail.len() > 0 {
        lemma_arrangements_from_valid(avail, 0);
        assert forall|i: int| 0 <= i < all.len() implies is_arrangement(#[trigger] all[i], avail) by {
            assert(all[i] == arrangements_from(avail, 0)[i]);
        }
    } else {
        assert(is_arrangement(all[0], avail));
    }
}

proof fn lemma_arrangements_from_valid(avail: Seq<usize>, first: nat)
    requires
        strictly_increasing(avail),
    ensures
        forall|i: int|
            0 <= i < arrangements_from(avail, first).len() ==> {
                &&& is_arrangement(#[trigger] arrangements_from(avail, first)[i], avail)
                &&& first < avail.len()
                &&& arrangements_from(avail, first)[i][0] >= avail[first as int]
            },
    decreases avail.len(), 0int, avail.len() - first,
{
    if first < avail.len() {
        let head = avail[first as int];
        let fewer = avail.remove(first as int);
        let starting = arrangements(fewer);
        let all = arrangements_from(avail, first);
        lemma_remove_keeps_order(avail, first as int);
        lemma_arrangements_valid(fewer);
        lemma_arrangements_from_valid(avail, first + 1);
        assert forall|i: int| 0 <= i < all.len() implies {
            &&& is_arrangement(#[trigger] all[i], avail)
            &&& all[i][0] >= avail[first as int]
        } by {
            if i < starting.len() {
                let rest = starting[i];
                assert(is_arrangement(rest, fewer));
                assert(all[i] == seq![head] + rest);
                assert forall|a: int| 0 <= a < all[i].len() implies avail.contains(
                    #[trigger] all[i][a],
                ) by {
                    if a > 0 {
                        assert(all[i][a] == rest[a - 1]);
                        assert(fewer.contains(rest[a - 1]));
                    }
                }
                assert forall|a: int, b: int| 0 <= a < b < all[i].len() implies all[i][a]
                    != all[i][b] by {
                    assert(all[i][b] == rest[b - 1]);
                    assert(fewer.contains(rest[b - 1]));
                    if a > 0 {
                        assert(all[i][a] == rest[a - 1]);
                    }
                }
            } else {
                let later = arrangements_from(avail, first + 1);
                assert(all[i] == later[i - starting.len()]);
                assert(is_arrangement(later[i - starting.len()], avail));
            }
        }
    }
}

proof fn lemma_arrangements_complete(avail: Seq<usize>, p: Seq<usize>)
    requires
        strictly_increasing(avail),
        is_arrangement(p, avail),
    ensures
        arrangements(avail).contains(p),
    decreases avail.len(), 1int, 0int,
{
    if avail.len() == 0 {
        assert(p =~= Seq::<usize>::empty());
        assert(arrangements(avail)[0] == p);
    } else {
        assert(avail.contains(p[0]));
        let at = choose|at: int| 0 <= at < avail.len() && avail[at] == p[0];
        lemma_arrangements_from_complete(avail, 0, at, p);
    }
}

proof fn lemma_arrangements_from_complete(avail: Seq<usize>, first: nat, at: int, p: Seq<usize>)
    requires
        strictly_increasing(avail),
        is_arrangement(p, avail),
        first <= at < avail.len(),
        p[0] == avail[at],
    ensures
        arrangements_from(avail, first).contains(p),
    decreases avail.len(), 0int, avail.len() - first,
{
    let fewer = avail.remove(first as int);
    let starting = arrangements(fewer);
    let later = arrangements_from(avail, first + 1);
    let all = arrangements_from(avail, first);
    if first == at {
        let rest = p.drop_first();
        lemma_remove_keeps_order(avail, at);
        assert forall|a: int| 0 <= a < rest.len() implies fewer.contains(#[trigger] rest[a]) by {
            assert(rest[a] == p[a + 1]);
            assert(avail.contains(p[a + 1]));
            assert(p[0] != p[a + 1]);
        }
        assert forall|a: int, b: int| 0 <= a < b < rest.len() implies rest[a] != rest[b] by {
            assert(rest[a] == p[a + 1]);
            assert(rest[b] == p[b + 1]);
        }
        assert(is_arrangement(rest, fewer));
        lemma_arrangements_complete(fewer, rest);
        let m = choose|m: int| 0 <= m < starting.len() && starting[m] == rest;
        assert(seq![avail[at]] + rest =~= p);
        assert(all[m] == p);
    } else {
        lemma_arrangements_from_complete(avail, first + 1, at, p);
        let m = choose|m: int| 0 <= m < later.len() && later[m] == p;
        assert(all[starting.len() + m] == p);
    }
}

proof fn lemma_arrangements_sorted(avail: Seq<usize>)
    requires
        strictly_increasing(avail),
    ensures
        lex_sorted(arrangements(avail)),
    decreases avail.len(), 1int, 0int,
{
    if avail.len() > 0 {
        lemma_arrangements_from_sorted(avail, 0);
    }
}

proof fn lemma_arrangements_from_sorted(avail: Seq<usize>, first: nat)
    requires
        strictly_increasing(avail),
    ensures
        lex_sorted(arrangements_from(avail, first)),
    decreases avail.len(), 0int, avail.len() - first,
{
    if first < avail.len() {
        let head = avail[first as int];
        let fewer = avail.remove(first as int);
        let starting = arrangements(fewer);
        let later = arrangements_from(avail, first + 1);
        let all = arrangements_from(avail, first);
        lemma_remove_keeps_order(avail, first as int);
        lemma_arrangements_sorted(fewer);
        lemma_arrangements_from_sorted(avail, first + 1);
        lemma_arrangements_from_valid(avail, first + 1);
        assert forall|i: int, j: int| 0 <= i < j < all.len() implies lex_less(
            #[trigger] all[i],
            #[trigger] all[j],
        ) by {
            if j < starting.len() {
                assert(lex_less(starting[i], starting[j]));
                let at = choose|at: int| first_difference(starting[i], starting[j], at);
                assert(first_difference(all[i], all[j], at + 1)) by {
                    assert forall|a: int| 0 <= a < at + 1 implies all[i][a] == all[j][a] by {
                        if a > 0 {
                            assert(all[i][a] == starting[i][a - 1]);
                            assert(all[j][a] == starting[j][a - 1]);
                        }
                    }
                    assert(all[i][at + 1] == starting[i][at]);
                    assert(all[j][at + 1] == starting[j][at]);
                }
            } else if i < starting.len() {
                let other = later[j - starting.len()];
                assert(all[j] == other);
                assert(is_arrangement(other, avail));
                assert(other[0] >= avail[(first + 1) as int]);
                assert(all[i][0] == head);
                assert(first_difference(all[i], all[j], 0));
            } else {
                assert(lex_less(later[i - starting.len()], later[j - starting.len()]));
            }
        }
    }
}

proof fn lemma_arrangements_count(avail: Seq<usize>)
    ensures
        arrangements(avail).len() == factorial(avail.len()),
    decreases avail.len(), 1int, 0int,
{
    if avail.len() > 0 {
        lemma_arrangements_from_count(avail, 0);
    }
}

proof fn lemma_arrangements_from_count(avail: Seq<usize>, first: nat)
    requires
        first <= avail.len(),
        avail.len() > 0,
    ensures
        arrangements_from(avail, first).len() == (avail.len() - first) * factorial(
            (avail.len() - 1) as nat,
        ),
    decreases avail.len(), 0int, avail.len() - first,
{
    let f = factorial((avail.len() - 1) as nat) as int;
    if first < avail.len() {
        let fewer = avail.remove(first as int);
        lemma_arrangements_count(fewer);
        lemma_arrangements_from_count(avail, first + 1);
        let left = avail.len() - first;
        assert(arrangements(fewer).len() == f);
        assert(arrangements_from(avail, first + 1).len() == (left - 1) * f);
        assert((left - 1) * f + f == left * f) by (nonlinear_arith);
    } else {
        assert(0 * f == 0);
    }
}

/// `permutations(n)` lists every order of the positions below `n`, and
/// nothing else, in lexicographic order; no other list does. There are `n!`
/// of them.
pub proof fn lemma_permutations_enumerate(n: nat)
    requires
        n <= usize::MAX,
    ensures
        enumerates_permutations(permutations(n), n),
        forall|all: Seq<Seq<usize>>| #[trigger]
            enumerates_permutations(all, n) ==> all == permutations(n),
        permutations(n).len() == factorial(n),
{
    let avail = positions(n);
    let own = permutations(n);
    assert(strictly_increasing(avail));
    lemma_arrangements_valid(avail);
    lemma_arrangements_sorted(avail);
    lemma_arrangements_count(avail);
    assert forall|p: Seq<usize>| is_arrangement(p, avail) <==> is_permutation(p, n) by {
        if is_arrangement(p, avail) {
            assert forall|i: int| 0 <= i < p.len() implies #[trigger] p[i] < n by {
                assert(avail.contains(p[i]));
            }
        }
        if is_permutation(p, n) {
            assert forall|i: int| 0 <= i < p.len() implies avail.contains(#[trigger] p[i]) by {
                assert(avail[p[i] as int] == p[i]);
            }
        }
    }
    assert forall|p: Seq<usize>| #[trigger] is_permutation(p, n) implies own.contains(p) by {
        lemma_arrangements_complete(avail, p);
    }
    assert forall|all: Seq<Seq<usize>>| #[trigger]
        enumerates_permutations(all, n) implies all == own by {
        assert forall|i: int| 0 <= i < own.len() implies all.contains(#[trigger] own[i]) by {
            assert(is_permutation(own[i], n));
        }
        assert forall|i: int| 0 <= i < all.len() implies own.contains(#[trigger] all[i]) by {
            assert(is_permutation(all[i], n));
        }
        lemma_lex_sorted_unique(all, own);
    }
}

/// Every order in which the positions below `n` can be listed, in
/// lexicographic order.
pub fn index_permutations(n: usize) -> (all: Vec<Vec<usize>>)
    ensures
        rows(all) == permutations(n as nat),
        all.len() == factorial(n as nat),
{
    let all = range_permutations(n);
    proof {
        let listed = rows(all);
        assert forall|p: Seq<usize>| #[trigger] is_permutation(p, n as nat) implies listed.contains(
            p,
        ) by {
            let i = choose|i: int| 0 <= i < all.len() && #[trigger] all[i]@ == p;
            assert(listed[i] == p);
        }
        assert(enumerates_permutations(listed, n as nat));
        lemma_permutations_enumerate(n as nat);
    }
    all
}

} // verus!
