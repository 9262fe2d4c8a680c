//! For one role, the ways to staff every team: `n` duos out of the role's
//! duos, with no player in two of them.

use crate::combinatorics::{
    combinations, enumerates_combinations, index_combinations, is_combination,
    lemma_combinations_enumerate, rows,
};
use crate::duos::{all_distinct, append_ids, duo_ids, players_distinct, Duo, PlayerId};
use vstd::prelude::*;

verus! {

/// The duos at the positions that `picks` names, in that order.
pub open spec fn select(duos: Seq<Duo>, picks: Seq<usize>) -> Seq<Duo> {
    Seq::new(picks.len(), |i: int| duos[picks[i] as int])
}

/// `select` with the duos fixed.
pub open spec fn selector(duos: Seq<Duo>) -> spec_fn(Seq<usize>) -> Seq<Duo> {
    |picks: Seq<usize>| select(duos, picks)
}

/// `players_distinct` as a predicate to filter by.
pub open spec fn with_distinct_players() -> spec_fn(Seq<Duo>) -> bool {
    |combination: Seq<Duo>| players_distinct(combination)
}

/// Every choice of `n` of the duos, each choice in the order of `duos` and
/// all choices in lexicographic order of the positions taken, without the
/// choices in which a player occurs twice.
pub open spec fn role_combinations(duos: Seq<Duo>, n: nat) -> Seq<Seq<Duo>> {
    combinations(duos.len(), n).map_values(selector(duos)).filter(with_distinct_players())
}

/// Every combination of a role holds `n` of the role's duos, and no player
/// twice.
pub proof fn lemma_role_combinations_distinct(duos: Seq<Duo>, n: nat)
    requires
        duos.len() <= usize::MAX,
    ensures
        forall|i: int|
            0 <= i < role_combinations(duos, n).len() ==> {
                &&& (#[trigger] role_combinations(duos, n)[i]).len() == n
                &&& duo_ids(role_combinations(duos, n)[i]).len() == 2 * n
                &&& players_distinct(role_combinations(duos, n)[i])
                &&& forall|j: int|
                    0 <= j < n ==> duos.contains(#[trigger] role_combinations(duos, n)[i][j])
            },
{
    let picked = combinations(duos.len(), n);
    let chosen = picked.map_values(selector(duos));
    let kept = role_combinations(duos, n);
    lemma_combinations_enumerate(duos.len(), n);
    assert forall|i: int| 0 <= i < kept.len() implies {
        &&& (#[trigger] kept[i]).len() == n
        &&& duo_ids(kept[i]).len() == 2 * n
        &&& players_distinct(kept[i])
        &&& forall|j: int| 0 <= j < n ==> duos.contains(#[trigger] kept[i][j])
    } by {
        chosen.lemma_filter_pred(with_distinct_players(), i);
        assert(kept.contains(kept[i]));
        chosen.lemma_filter_contains_rev(with_distinct_players(), kept[i]);
        let at = choose|at: int| 0 <= at < chosen.len() && chosen[at] == kept[i];
        assert(is_combination(picked[at], duos.len(), n));
        assert forall|j: int| 0 <= j < n implies duos.contains(#[trigger] kept[i][j]) by {
            assert(kept[i][j] == duos[picked[at][j] as int]);
        }
    }
}

/// The duos of `duos` at the positions in `picks`.
fn pick_duos(duos: &Vec<Duo>, picks: &Vec<usize>) -> (picked: Vec<Duo>)
    requires
        forall|i: int| 0 <= i < picks.len() ==> picks[i] < duos.len(),
    ensures
        picked@ == select(duos@, picks@),
{
    let mut picked: Vec<Duo> = Vec::new();
    let mut i: usize = 0;
    while i < picks.len()
        invariant
            i <= picks.len(),
            forall|j: int| 0 <= j < picks.len() ==> picks[j] < duos.len(),
            picked@ == select(duos@, picks@.take(i as int)),
        decreases picks.len() - i,
    {
        picked.push(duos[picks[i]]);
        i += 1;
        proof {
            assert(picked@ =~= select(duos@, picks@.take(i as int)));
        }
    }
    proof {
        assert(picks@.take(picks.len() as int) =~= picks@);
    }
    picked
}

/// The ways to choose `number_of_teams` of the duos so that no player is in
/// two of them.
pub fn expand_role_combinations(duos: &Vec<Duo>, number_of_teams: usize) -> (found: Vec<Vec<Duo>>)
    ensures
        rows(found) == role_combinations(duos@, number_of_teams as nat),
        forall|i: int|
            0 <= i < found.len() ==> (#[trigger] found[i]).len() == number_of_teams
                && players_distinct(found[i]@),
{
    let picks = index_combinations(duos.len(), number_of_teams);
    let ghost all = combinations(duos.len() as nat, number_of_teams as nat);
    let ghost chosen = all.map_values(selector(duos@));
    let mut found: Vec<Vec<Duo>> = Vec::new();
    let mut i: usize = 0;
    proof {
        lemma_combinations_enumerate(duos.len() as nat, number_of_teams as nat);
        assert(chosen.take(0).filter(with_distinct_players()) =~= Seq::<Seq<Duo>>::empty()) by {
            reveal(Seq::filter);
        }
        assert(rows(found) =~= Seq::<Seq<Duo>>::empty());
    }
    while i < picks.len()
        invariant
            i <= picks.len(),
            rows(picks) == all,
            chosen == all.map_values(selector(duos@)),
            enumerates_combinations(all, duos.len() as nat, number_of_teams as nat),
            rows(found) == chosen.take(i as int).filter(with_distinct_players()),
            forall|j: int|
                0 <= j < found.len() ==> (#[trigger] found[j]).len() == number_of_teams
                    && players_distinct(found[j]@),
        decreases picks.len() - i,
    {
        proof {
            assert(rows(picks)[i as int] == picks[i as int]@);
            assert(is_combination(all[i as int], duos.len() as nat, number_of_teams as nat));
        }
        let combination = pick_duos(duos, &picks[i]);
        let mut ids: Vec<PlayerId> = Vec::new();
        append_ids(&combination, &mut ids);
        let keep = all_distinct(&ids);
        proof {
            assert(ids@ =~= duo_ids(combination@));
            assert(combination@ == chosen[i as int]);
            chosen.lemma_take_succ_push(i as int);
            chosen.take(i as int).lemma_filter_push(chosen[i as int], with_distinct_players());
            assert(keep == with_distinct_players()(chosen[i as int]));
        }
        let ghost before = rows(found);
        if keep {
            found.push(combination);
            proof {
                assert(rows(found) =~= before.push(combination@));
            }
        }
        i += 1;
    }
    proof {
        assert(chosen.take(picks.len() as int) =~= chosen);
    }
    found
}

} // verus!
