//! From identifiers back to players: the teams of a scrim candidate with the
//! players that their slots name.

use crate::combinatorics::{is_permutation, lemma_permutations_enumerate, permutations};
use crate::duos::PlayerId;
use crate::error::LookupError;
use crate::generate::staffed_from;
use crate::lineup::LineupView;
use crate::matchup::TeamSlots;
use crate::sequences::lemma_flat_map_member;
use crate::slots::{assigned_with, assignments_of_order, slot_assignments, team_at};
use crate::types::Position;
use crate::player::Player;
use crate::roster::{names_player, player_of, Roster};
use crate::team::Team;
use vstd::prelude::*;

verus! {

/// The identifiers in the slots of the teams, team by team.
pub open spec fn slot_ids(teams: Seq<TeamSlots>) -> Seq<PlayerId> {
    Seq::new((6 * teams.len()) as nat, |i: int| teams[i / 6].player_ids()[i % 6])
}

/// The identifier at `at` names no player, and all before it name one.
pub open spec fn is_first_unknown(ids: Seq<PlayerId>, players: Seq<Player>, at: int) -> bool {
    &&& 0 <= at < ids.len()
    &&& !names_player(players, ids[at])
    &&& forall|j: int| 0 <= j < at ==> names_player(players, #[trigger] ids[j])
}

/// The team with the players that the slots name.
pub open spec fn team_of(slots: TeamSlots, players: Seq<Player>) -> Team {
    Team {
        name: slots.name,
        tank_1: Some(player_of(players, slots.tank_1)),
        tank_2: Some(player_of(players, slots.tank_2)),
        damage_1: Some(player_of(players, slots.damage_1)),
        damage_2: Some(player_of(players, slots.damage_2)),
        support_1: Some(player_of(players, slots.support_1)),
        support_2: Some(player_of(players, slots.support_2)),
    }
}

fn copy_of(players: &Roster, id: PlayerId) -> (found: Result<Player, LookupError>)
    ensures
        match found {
            Ok(player) => names_player(players@, id) && player == player_of(players@, id),
            Err(error) => !names_player(players@, id) && error == (LookupError { id }),
        },
{
    match players.get(id) {
        Ok(player) => Ok(player.clone()),
        Err(error) => Err(error),
    }
}

/// The team with the players that the slots name.
///
/// Fails on the first slot, in the order tanks, damage players, supports,
/// whose identifier names no player of the roster.
pub fn build_team(slots: &TeamSlots, players: &Roster) -> (built: Result<Team, LookupError>)
    ensures
        match built {
            Ok(team) => {
                &&& forall|i: int| 0 <= i < 6 ==> names_player(players@, #[trigger] slots.player_ids()[i])
                &&& team == team_of(*slots, players@)
            },
            Err(error) => exists|at: int|
                is_first_unknown(slots.player_ids(), players@, at) && #[trigger] slots.player_ids()[at]
                    == error.id,
        },
{
    let ghost ids = slots.player_ids();
    let tank_1 = match copy_of(players, slots.tank_1) {
        Ok(player) => player,
        Err(error) => {
            proof {
                assert(is_first_unknown(ids, players@, 0) && ids[0] == error.id);
            }
            return Err(error);
        },
    };
    let tank_2 = match copy_of(players, slots.tank_2) {
        Ok(player) => player,
        Err(error) => {
            proof {
                assert(is_first_unknown(ids, players@, 1) && ids[1] == error.id);
            }
            return Err(error);
        },
    };
    let damage_1 = match copy_of(players, slots.damage_1) {
        Ok(player) => player,
        Err(error) => {
            proof {
                assert(is_first_unknown(ids, players@, 2) && ids[2] == error.id);
            }
            return Err(error);
        },
    };
    let damage_2 = match copy_of(players, slots.damage_2) {
        Ok(player) => player,
        Err(error) => {
            proof {
                assert(is_first_unknown(ids, players@, 3) && ids[3] == error.id);
            }
            return Err(error);
        },
    };
    let support_1 = match copy_of(players, slots.support_1) {
        Ok(player) => player,
        Err(error) => {
            proof {
                assert(is_first_unknown(ids, players@, 4) && ids[4] == error.id);
            }
            return Err(error);
        },
    };
    let support_2 = match copy_of(players, slots.support_2) {
        Ok(player) => player,
        Err(error) => {
            proof {
                assert(is_first_unknown(ids, players@, 5) && ids[5] == error.id);
            }
            return Err(error);
        },
    };
    Ok(Team::new(slots.name.clone(), tank_1, tank_2, damage_1, damage_2, support_1, support_2))
}

/// The teams with the players that their slots name.
///
/// Fails on the first slot, team by team, whose identifier names no player
/// of the roster.
pub fn build_teams(teams: &Vec<TeamSlots>, players: &Roster) -> (built: Result<
    Vec<Team>,
    LookupError,
>)
    ensures
        match built {
            Ok(all) => {
                &&& forall|i: int|
                    0 <= i < slot_ids(teams@).len() ==> names_player(
                        players@,
                        #[trigger] slot_ids(teams@)[i],
                    )
                &&& all.len() == teams.len()
                &&& forall|k: int| 0 <= k < all.len() ==> #[trigger] all[k] == team_of(teams[k], players@)
            },
            Err(error) => exists|at: int|
                is_first_unknown(slot_ids(teams@), players@, at) && #[trigger] slot_ids(teams@)[at]
                    == error.id,
        },
{
    let ghost ids = slot_ids(teams@);
    let mut all: Vec<Team> = Vec::new();
    let mut k: usize = 0;
    while k < teams.len()
        invariant
            k <= teams.len(),
            ids == slot_ids(teams@),
            all.len() == k,
            forall|i: int| 0 <= i < 6 * k ==> names_player(players@, #[trigger] ids[i]),
            forall|j: int| 0 <= j < k ==> #[trigger] all[j] == team_of(teams[j], players@),
        decreases teams.len() - k,
    {
        match build_team(&teams[k], players) {
            Ok(team) => {
                proof {
                    assert forall|i: int| 0 <= i < 6 * (k + 1) implies names_player(
                        players@,
                        #[trigger] ids[i],
                    ) by {
                        if i >= 6 * k {
                            assert(ids[i] == teams[k as int].player_ids()[i - 6 * k]);
                        }
                    }
                }
                all.push(team);
            },
            Err(error) => {
                proof {
                    let own = teams[k as int].player_ids();
                    let slot = choose|slot: int|
                        is_first_unknown(own, players@, slot) && #[trigger] own[slot] == error.id;
                    let at = 6 * k + slot;
                    assert(ids[at] == own[slot]);
                    assert forall|j: int| 0 <= j < at implies names_player(
                        players@,
                        #[trigger] ids[j],
                    ) by {
                        if j >= 6 * k {
                            assert(ids[j] == own[j - 6 * k]);
                        }
                    }
                    assert(is_first_unknown(ids, players@, at) && ids[at] == error.id);
                }
                return Err(error);
            },
        }
        k += 1;
    }
    Ok(all)
}

/// The teams of a lineup whose duos are duos of the roster can all be built:
/// however the duos are handed to the teams, every slot names a player of
/// the roster.
pub proof fn lemma_assignments_name_players(
    lineup: LineupView,
    names: Seq<String>,
    players: Seq<Player>,
    k: int,
)
    requires
        lineup.staffs(lineup.tanks.len()),
        lineup.tanks.len() <= usize::MAX,
        staffed_from(lineup.tanks, players, Position::Tank),
        staffed_from(lineup.damage, players, Position::Damage),
        staffed_from(lineup.supports, players, Position::Support),
        0 <= k < slot_assignments(lineup, names).len(),
    ensures
        slot_assignments(lineup, names)[k].len() == lineup.tanks.len(),
        forall|i: int|
            0 <= i < slot_ids(slot_assignments(lineup, names)[k]).len() ==> names_player(
                players,
                #[trigger] slot_ids(slot_assignments(lineup, names)[k])[i],
            ),
{
    let n = lineup.tanks.len();
    let orders = permutations(n);
    let all = slot_assignments(lineup, names);
    let teams = all[k];
    lemma_permutations_enumerate(n);
    assert(all.contains(teams));
    let d = lemma_flat_map_member(orders, assignments_of_order(lineup, names), teams);
    let row = orders.map_values(assigned_with(lineup, names, orders[d]));
    let s = choose|s: int| 0 <= s < row.len() && row[s] == teams;
    assert(is_permutation(orders[d], n));
    assert(is_permutation(orders[s], n));
    assert forall|i: int| 0 <= i < slot_ids(teams).len() implies names_player(
        players,
        #[trigger] slot_ids(teams)[i],
    ) by {
        let t = i / 6;
        assert(teams[t] == team_at(lineup, names, orders[d], orders[s], t));
        let tank = lineup.tanks[t];
        let damage = lineup.damage[orders[d][t] as int];
        let support = lineup.supports[orders[s][t] as int];
        assert(names_player(players, tank.0) && names_player(players, tank.1));
        assert(names_player(players, damage.0) && names_player(players, damage.1));
        assert(names_player(players, support.0) && names_player(players, support.1));
    }
}

} // verus!
