use scrim_maker::combinatorics::{index_combinations, index_permutations};
use scrim_maker::duos::{all_distinct, append_ids};

#[test]
fn combinations_of_two_out_of_four_come_in_lexicographic_order() {
    let all = index_combinations(4, 2);
    assert_eq!(
        all,
        vec![vec![0, 1], vec![0, 2], vec![0, 3], vec![1, 2], vec![1, 3], vec![2, 3]]
    );
}

#[test]
fn combinations_of_three_out_of_five() {
    let all = index_combinations(5, 3);
    assert_eq!(all.len(), 10);
    assert_eq!(all[0], vec![0, 1, 2]);
    assert_eq!(all[1], vec![0, 1, 3]);
    assert_eq!(all[9], vec![2, 3, 4]);
}

#[test]
fn picking_nothing_gives_the_empty_combination_alone() {
    assert_eq!(index_combinations(3, 0), vec![Vec::<usize>::new()]);
    assert_eq!(index_combinations(0, 0), vec![Vec::<usize>::new()]);
}

#[test]
fn picking_more_than_there_is_gives_nothing() {
    assert_eq!(index_combinations(2, 3), Vec::<Vec<usize>>::new());
    assert_eq!(index_combinations(0, 1), Vec::<Vec<usize>>::new());
}

#[test]
fn picking_all_gives_one_combination() {
    assert_eq!(index_combinations(3, 3), vec![vec![0, 1, 2]]);
}

#[test]
fn permutations_of_three_come_in_lexicographic_order() {
    let all = index_permutations(3);
    assert_eq!(
        all,
        vec![
            vec![0, 1, 2],
            vec![0, 2, 1],
            vec![1, 0, 2],
            vec![1, 2, 0],
            vec![2, 0, 1],
            vec![2, 1, 0]
        ]
    );
}

#[test]
fn permutations_of_two() {
    assert_eq!(index_permutations(2), vec![vec![0, 1], vec![1, 0]]);
}

#[test]
fn permutations_of_one_and_of_none() {
    assert_eq!(index_permutations(1), vec![vec![0]]);
    assert_eq!(index_permutations(0), vec![Vec::<usize>::new()]);
}

#[test]
fn there_are_factorial_many_permutations() {
    assert_eq!(index_permutations(4).len(), 24);
    assert_eq!(index_permutations(5).len(), 120);
}

#[test]
fn permutations_of_four_are_sorted_and_differ() {
    let all = index_permutations(4);
    for i in 1..all.len() {
        assert!(all[i - 1] < all[i]);
    }
    assert_eq!(all[0], vec![0, 1, 2, 3]);
    assert_eq!(all[23], vec![3, 2, 1, 0]);
}

#[test]
fn identifiers_are_distinct_or_not() {
    assert!(all_distinct(&vec![1, 2, 3, 4]));
    assert!(all_distinct(&vec![]));
    assert!(all_distinct(&vec![7]));
    assert!(!all_distinct(&vec![1, 2, 1]));
    assert!(!all_distinct(&vec![5, 5]));
    assert!(!all_distinct(&vec![1, 2, 3, 4, 5, 6, 7, 8, 9, 9]));
}

#[test]
fn identifiers_of_duos_are_appended_in_order() {
    let mut ids = vec![9];
    append_ids(&vec![(1, 2), (3, 4)], &mut ids);
    assert_eq!(ids, vec![9, 1, 2, 3, 4]);
    append_ids(&vec![], &mut ids);
    assert_eq!(ids, vec![9, 1, 2, 3, 4]);
}

fn binomial(n: usize, k: usize) -> usize {
    if k > n {
        return 0;
    }
    let mut result: usize = 1;
    for i in 0..k {
        result = result * (n - i) / (i + 1);
    }
    result
}

#[test]
fn combinations_are_complete_sorted_and_increasing() {
    for n in 0..9 {
        for k in 0..10 {
            let all = index_combinations(n, k);
            assert_eq!(all.len(), binomial(n, k), "{} choose {}", n, k);
            for c in &all {
                assert_eq!(c.len(), k);
                for i in 0..c.len() {
                    assert!(c[i] < n);
                    if i > 0 {
                        assert!(c[i - 1] < c[i]);
                    }
                }
            }
            for i in 1..all.len() {
                assert!(all[i - 1] < all[i]);
            }
        }
    }
}

#[test]
fn permutations_are_complete_sorted_and_without_repetition() {
    let mut count: usize = 1;
    for n in 0..8 {
        if n > 0 {
            count *= n;
        }
        let all = index_permutations(n);
        assert_eq!(all.len(), count);
        for p in &all {
            let mut seen = vec![false; n];
            assert_eq!(p.len(), n);
            for position in p {
                assert!(!seen[*position]);
                seen[*position] = true;
            }
        }
        for i in 1..all.len() {
            assert!(all[i - 1] < all[i]);
        }
    }
}
