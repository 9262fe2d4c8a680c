//! Giving the duos of a lineup to teams.
//!
//! Tank duo `i` always plays in team `i`. The damage duos and the support
//! duos are each tried in every order, so a lineup for `n` teams yields
//! `n! * n!` sets of teams.

use crate::combinatorics::{
    enumerates_permutations, factorial, index_permutations, is_permutation,
    lemma_permutations_enumerate, permutations, rows,
};
use crate::error::ConfigError;
use crate::lineup::{Lineup, LineupView};
use crate::matchup::TeamSlots;
use crate::text::{append_number, decimal_digits};
use vstd::prelude::*;

verus! {

/// Team `i` where the damage duos are handed out in `damage_order` and the
/// support duos in `support_order`.
pub open spec fn team_at(
    lineup: LineupView,
    names: Seq<String>,
    damage_order: Seq<usize>,
    support_order: Seq<usize>,
    i: int,
) -> TeamSlots {
    TeamSlots {
        name: names[i],
        tank_1: lineup.tanks[i].0,
        tank_2: lineup.tanks[i].1,
        damage_1: lineup.damage[damage_order[i] as int].0,
        damage_2: lineup.damage[damage_order[i] as int].1,
        support_1: lineup.supports[support_order[i] as int].0,
        support_2: lineup.supports[support_order[i] as int].1,
    }
}

/// The teams where the damage duos are handed out in `damage_order` and the
/// support duos in `support_order`.
pub open spec fn assignment(
    lineup: LineupView,
    names: Seq<String>,
    damage_order: Seq<usize>,
    support_order: Seq<usize>,
) -> Seq<TeamSlots> {
    Seq::new(
        lineup.tanks.len(),
        |i: int| team_at(lineup, names, damage_order, support_order, i),
    )
}

/// `assignment` with all but the order of the supports fixed.
pub open spec fn assigned_with(
    lineup: LineupView,
    names: Seq<String>,
    damage_order: Seq<usize>,
) -> spec_fn(Seq<usize>) -> Seq<TeamSlots> {
    |support_order: Seq<usize>| assignment(lineup, names, damage_order, support_order)
}

/// The assignments of one damage order with every support order.
pub open spec fn assignments_of_order(lineup: LineupView, names: Seq<String>) -> spec_fn(
    Seq<usize>,
) -> Seq<Seq<TeamSlots>> {
    |damage_order: Seq<usize>|
        permutations(lineup.tanks.len()).map_values(assigned_with(lineup, names, damage_order))
}

/// Every way to hand the damage duos and the support duos to the teams: the
/// damage orders in lexicographic order, and for each of them the support
/// orders in lexicographic order.
pub open spec fn slot_assignments(lineup: LineupView, names: Seq<String>) -> Seq<Seq<TeamSlots>> {
    permutations(lineup.tanks.len()).flat_map(assignments_of_order(lineup, names))
}

/// What keeps a lineup from being handed to teams, if anything does.
pub open spec fn assign_error(lineup: LineupView, names: Seq<String>) -> Option<ConfigError> {
    if !lineup.staffs(lineup.tanks.len()) {
        Some(ConfigError::UnevenLineup)
    } else if names.len() < lineup.tanks.len() {
        Some(ConfigError::MissingTeamNames)
    } else {
        None
    }
}

fn assign_slots(
    lineup: &Lineup,
    names: &Vec<String>,
    damage_order: &Vec<usize>,
    support_order: &Vec<usize>,
) -> (teams: Vec<TeamSlots>)
    requires
        lineup@.staffs(lineup@.tanks.len()),
        names.len() >= lineup@.tanks.len(),
        is_permutation(damage_order@, lineup@.tanks.len()),
        is_permutation(support_order@, lineup@.tanks.len()),
    ensures
        teams@ == assignment(lineup@, names@, damage_order@, support_order@),
{
    let n: usize = lineup.tanks.len();
    let mut teams: Vec<TeamSlots> = Vec::new();
    let mut i: usize = 0;
    while i < n
        invariant
            i <= n,
            n == lineup@.tanks.len(),
            lineup@.staffs(n as nat),
            names.len() >= n,
            is_permutation(damage_order@, n as nat),
            is_permutation(support_order@, n as nat),
            teams.len() == i,
            forall|k: int|
                0 <= k < i ==> teams[k] == team_at(
                    lineup@,
                    names@,
                    damage_order@,
                    support_order@,
                    k,
                ),
        decreases n - i,
    {
        let tank = lineup.tanks[i];
        let damage = lineup.damage[damage_order[i]];
        let support = lineup.supports[support_order[i]];
        teams.push(
            TeamSlots {
                name: names[i].clone(),
                tank_1: tank.0,
                tank_2: tank.1,
                damage_1: damage.0,
                damage_2: damage.1,
                support_1: support.0,
                support_2: support.1,
            },
        );
        i += 1;
    }
    proof {
        assert(teams@ =~= assignment(lineup@, names@, damage_order@, support_order@));
    }
    teams
}

/// Every set of teams that the lineup yields, with team `i` named
/// `team_names[i]`.
///
/// Fails where the lineup does not hold the same number of duos in each
/// role, or where there are fewer names than teams.
pub fn create_assignments(lineup: &Lineup, team_names: &Vec<String>) -> (found: Result<
    Vec<Vec<TeamSlots>>,
    ConfigError,
>)
    ensures
        match found {
            Ok(all) => {
                &&& assign_error(lineup@, team_names@) is None
                &&& rows(all) == slot_assignments(lineup@, team_names@)
                &&& all.len() == factorial(lineup@.tanks.len()) * factorial(lineup@.tanks.len())
                &&& forall|k: int| 0 <= k < all.len() ==> (#[trigger] all[k]).len() == lineup@.tanks.len()
            },
            Err(error) => assign_error(lineup@, team_names@) == Some(error),
        },
{
    let n: usize = lineup.tanks.len();
    if lineup.damage.len() != n || lineup.supports.len() != n {
        return Err(ConfigError::UnevenLineup);
    }
    if team_names.len() < n {
        return Err(ConfigError::MissingTeamNames);
    }
    let orders = index_permutations(n);
    let ghost perms = permutations(n as nat);
    let ghost by_order = assignments_of_order(lineup@, team_names@);
    let mut all: Vec<Vec<TeamSlots>> = Vec::new();
    let mut d: usize = 0;
    proof {
        lemma_permutations_enumerate(n as nat);
        assert(perms.take(0).flat_map(by_order) =~= Seq::<Seq<TeamSlots>>::empty());
        assert(rows(all) =~= Seq::<Seq<TeamSlots>>::empty());
        assert(0 * orders.len() == 0);
    }
    while d < orders.len()
        invariant
            d <= orders.len(),
            n == lineup@.tanks.len(),
            lineup@.staffs(n as nat),
            team_names.len() >= n,
            rows(orders) == perms,
            perms == permutations(n as nat),
            enumerates_permutations(perms, n as nat),
            by_order == assignments_of_order(lineup@, team_names@),
            rows(all) == perms.take(d as int).flat_map(by_order),
            all.len() == d * orders.len(),
            forall|k: int| 0 <= k < all.len() ==> (#[trigger] all[k]).len() == n,
        decreases orders.len() - d,
    {
        let ghost done = perms.take(d as int).flat_map(by_order);
        let ghost with_order = assigned_with(lineup@, team_names@, perms[d as int]);
        let ghost row = perms.map_values(with_order);
        let mut s: usize = 0;
        proof {
            assert(rows(orders)[d as int] == orders[d as int]@);
            assert(is_permutation(perms[d as int], n as nat));
            assert(rows(all) =~= done + row.take(0));
        }
        while s < orders.len()
            invariant
                d < orders.len(),
                s <= orders.len(),
                n == lineup@.tanks.len(),
                lineup@.staffs(n as nat),
                team_names.len() >= n,
                rows(orders) == perms,
                enumerates_permutations(perms, n as nat),
                is_permutation(orders[d as int]@, n as nat),
                orders[d as int]@ == perms[d as int],
                with_order == assigned_with(lineup@, team_names@, perms[d as int]),
                row == perms.map_values(with_order),
                rows(all) == done + row.take(s as int),
                all.len() == d * orders.len() + s,
                forall|k: int| 0 <= k < all.len() ==> (#[trigger] all[k]).len() == n,
            decreases orders.len() - s,
        {
            proof {
                assert(rows(orders)[s as int] == orders[s as int]@);
                assert(is_permutation(perms[s as int], n as nat));
            }
            let teams = assign_slots(lineup, team_names, &orders[d], &orders[s]);
            let ghost before = rows(all);
            all.push(teams);
            proof {
                assert(teams@ == row[s as int]);
                assert(rows(all) =~= before.push(teams@));
                assert(done + row.take(s + 1) =~= (done + row.take(s as int)).push(row[s as int]));
            }
            s += 1;
        }
        proof {
            assert(row.take(orders.len() as int) =~= row);
            perms.lemma_flat_map_take_append(by_order, d as int);
            assert(by_order(perms[d as int]) == row);
            assert(d * orders.len() + orders.len() == (d + 1) * orders.len()) by (nonlinear_arith);
        }
        d += 1;
    }
    proof {
        assert(perms.take(orders.len() as int) =~= perms);
    }
    Ok(all)
}

/// The name that team `i` has where none was chosen for it: the first team
/// is the Naughty Tomatoes, and each other team is called by its number,
/// counted from 1.
pub open spec fn default_team_name(i: nat) -> Seq<char> {
    if i == 0 {
        "Naughty Tomatoes"@
    } else {
        "Team "@ + decimal_digits(i + 1)
    }
}

/// Names for the teams. There is always the name of the first team, also
/// where there is no team.
pub fn default_team_names(number_of_teams: usize) -> (names: Vec<String>)
    ensures
        names.len() == if number_of_teams == 0 {
            1
        } else {
            number_of_teams as int
        },
        forall|i: int| 0 <= i < names.len() ==> (#[trigger] names[i])@ == default_team_name(i as nat),
{
    let mut names: Vec<String> = Vec::new();
    names.push(String::from_str("Naughty Tomatoes"));
    while names.len() < number_of_teams
        invariant
            names.len() >= 1,
            names.len() <= number_of_teams || names.len() == 1,
            forall|i: int|
                0 <= i < names.len() ==> (#[trigger] names[i])@ == default_team_name(i as nat),
        decreases number_of_teams - names.len(),
    {
        let mut name = String::from_str("Team ");
        append_number(&mut name, (names.len() + 1) as u64);
        names.push(name);
    }
    names
}

} // verus!
