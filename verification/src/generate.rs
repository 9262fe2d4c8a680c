//! From a roster to its lineups: the duos of each role, the combinations of
//! each role, and the lineups that the combinations form.

use crate::combinatorics::{lemma_pairs_count, rows};
use crate::duos::{
    duo_ids, duos_of, eligible_ids, eligible_players, lemma_duos_of, lemma_eligible_ids, make_duos,
    Duo, PlayerId, RoleDuos,
};
use crate::error::ConfigError;
use crate::joiner::{join_roles, lemma_no_combination_no_matchup, matchups};
use crate::lineup::{lemma_disjoint_lineup_size, lineup_views, Lineup, LineupView};
use crate::player::Player;
use crate::role_combinations::{
    expand_role_combinations, lemma_role_combinations_distinct, role_combinations,
};
use crate::roster::{names_player, player_of, teams_of, Roster, MAX_PLAYERS};
use crate::types::Position;
use vstd::prelude::*;

verus! {

/// The lineups for `n` teams that can be formed from the duos of the three
/// roles.
pub open spec fn matchups_of_duos(
    tank: Seq<Duo>,
    damage: Seq<Duo>,
    support: Seq<Duo>,
    n: nat,
) -> Seq<LineupView> {
    matchups(
        role_combinations(tank, n),
        role_combinations(damage, n),
        role_combinations(support, n),
    )
}

/// The lineups of a roster: every way to staff a sixth as many teams as
/// there are players, two players to each role of a team, no player twice.
pub open spec fn roster_matchups(players: Seq<Player>) -> Seq<LineupView> {
    matchups_of_duos(
        duos_of(players, Position::Tank),
        duos_of(players, Position::Damage),
        duos_of(players, Position::Support),
        teams_of(players.len()),
    )
}

/// Every duo of the combination is a duo of players of the roster who are
/// eligible for the role.
pub open spec fn staffed_from(
    combination: Seq<Duo>,
    players: Seq<Player>,
    position: Position,
) -> bool {
    forall|j: int|
        0 <= j < combination.len() ==> {
            &&& names_player(players, (#[trigger] combination[j]).0)
            &&& names_player(players, combination[j].1)
            &&& player_of(players, combination[j].0).plays(position)
            &&& player_of(players, combination[j].1).plays(position)
        }
}

/// A role with fewer than `2 * n` eligible players has no combination for
/// `n` teams.
pub proof fn lemma_too_few_players_no_combination(
    players: Seq<Player>,
    position: Position,
    n: nat,
)
    requires
        players.len() <= MAX_PLAYERS,
        eligible_ids(players, position).len() < 2 * n,
    ensures
        role_combinations(duos_of(players, position), n).len() == 0,
{
    let eligible = eligible_ids(players, position);
    let duos = duos_of(players, position);
    let found = role_combinations(duos, n);
    lemma_eligible_ids(players, position);
    lemma_pairs_count(eligible.len());
    assert(duos.len() <= usize::MAX) by {
        assert(eligible.len() * (eligible.len() - 1) <= 255 * 254) by (nonlinear_arith)
            requires
                0 <= eligible.len() <= 255,
        ;
    }
    if found.len() > 0 {
        lemma_role_combinations_distinct(duos, n);
        lemma_duos_of(players, position);
        let ids = duo_ids(found[0]);
        assert forall|id: PlayerId| ids.to_set().contains(id) implies eligible.to_set().contains(
            id,
        ) by {
            let at = choose|at: int| 0 <= at < ids.len() && ids[at] == id;
            assert(duos.contains(found[0][at / 2]));
            let k = choose|k: int| 0 <= k < duos.len() && duos[k] == found[0][at / 2];
            assert(eligible.contains(duos[k].0));
            assert(eligible.contains(duos[k].1));
        }
        ids.unique_seq_to_set();
        eligible.lemma_cardinality_of_set();
        vstd::set_lib::lemma_len_subset(ids.to_set(), eligible.to_set());
    }
}

/// A roster in which a role has fewer than two eligible players for each
/// team has no lineup.
pub proof fn lemma_too_few_players_no_matchup(players: Seq<Player>, position: Position)
    requires
        players.len() <= MAX_PLAYERS,
        eligible_ids(players, position).len() < 2 * teams_of(players.len()),
    ensures
        roster_matchups(players).len() == 0,
{
    let n = teams_of(players.len());
    lemma_too_few_players_no_combination(players, position, n);
    lemma_no_combination_no_matchup(
        role_combinations(duos_of(players, Position::Tank), n),
        role_combinations(duos_of(players, Position::Damage), n),
        role_combinations(duos_of(players, Position::Support), n),
    );
}

/// The lineups for `number_of_teams` teams that can be formed from the duos.
/// Each of them names `6 * number_of_teams` players, all different.
pub fn create_matchups(player_duos: &RoleDuos, number_of_teams: usize) -> (lineups: Vec<Lineup>)
    ensures
        lineup_views(lineups) == matchups_of_duos(
            player_duos.tank@,
            player_duos.damage@,
            player_duos.support@,
            number_of_teams as nat,
        ),
        forall|k: int|
            0 <= k < lineups.len() ==> {
                &&& (#[trigger] lineups[k])@.staffs(number_of_teams as nat)
                &&& lineups[k]@.is_disjoint()
                &&& lineups[k]@.player_ids().len() == 6 * number_of_teams
                &&& lineups[k]@.player_ids().to_set().len() == 6 * number_of_teams
                &&& forall|j: int|
                    0 <= j < number_of_teams ==> player_duos.tank@.contains(
                        #[trigger] lineups[k]@.tanks[j],
                    )
                &&& forall|j: int|
                    0 <= j < number_of_teams ==> player_duos.damage@.contains(
                        #[trigger] lineups[k]@.damage[j],
                    )
                &&& forall|j: int|
                    0 <= j < number_of_teams ==> player_duos.support@.contains(
                        #[trigger] lineups[k]@.supports[j],
                    )
            },
{
    let tanks = expand_role_combinations(&player_duos.tank, number_of_teams);
    let damage = expand_role_combinations(&player_duos.damage, number_of_teams);
    let supports = expand_role_combinations(&player_duos.support, number_of_teams);
    let lineups = join_roles(&tanks, &damage, &supports);
    proof {
        let n = number_of_teams as nat;
        assert(player_duos.tank@.len() == player_duos.tank.len());
        assert(player_duos.damage@.len() == player_duos.damage.len());
        assert(player_duos.support@.len() == player_duos.support.len());
        lemma_role_combinations_distinct(player_duos.tank@, n);
        lemma_role_combinations_distinct(player_duos.damage@, n);
        lemma_role_combinations_distinct(player_duos.support@, n);
        assert forall|k: int| 0 <= k < lineups.len() implies {
            &&& (#[trigger] lineups[k])@.staffs(n)
            &&& lineups[k]@.is_disjoint()
            &&& lineups[k]@.player_ids().len() == 6 * n
            &&& lineups[k]@.player_ids().to_set().len() == 6 * n
            &&& forall|j: int|
                0 <= j < n ==> player_duos.tank@.contains(#[trigger] lineups[k]@.tanks[j])
            &&& forall|j: int|
                0 <= j < n ==> player_duos.damage@.contains(#[trigger] lineups[k]@.damage[j])
            &&& forall|j: int|
                0 <= j < n ==> player_duos.support@.contains(#[trigger] lineups[k]@.supports[j])
        } by {
            let lineup = lineups[k]@;
            let t = choose|t: int| 0 <= t < rows(tanks).len() && rows(tanks)[t] == lineup.tanks;
            let d = choose|d: int| 0 <= d < rows(damage).len() && rows(damage)[d] == lineup.damage;
            let s = choose|s: int|
                0 <= s < rows(supports).len() && rows(supports)[s] == lineup.supports;
            assert(role_combinations(player_duos.tank@, n)[t].len() == n);
            assert(role_combinations(player_duos.damage@, n)[d].len() == n);
            assert(role_combinations(player_duos.support@, n)[s].len() == n);
            lemma_disjoint_lineup_size(lineup, n);
        }
    }
    lineups
}

/// The lineups of a roster. Each of them names every player of the roster
/// once, in a role for which the player is eligible.
///
/// Fails, before anything is generated, where the players cannot all be put
/// in teams of six. Where a role has fewer than two eligible players for
/// each team, there is no lineup.
pub fn roster_lineups(players: &Roster) -> (found: Result<Vec<Lineup>, ConfigError>)
    ensures
        match found {
            Ok(lineups) => {
                &&& players@.len() % 6 == 0
                &&& lineup_views(lineups) == roster_matchups(players@)
                &&& forall|k: int|
                    0 <= k < lineups.len() ==> {
                        &&& (#[trigger] lineups[k])@.staffs(teams_of(players@.len()))
                        &&& lineups[k]@.is_disjoint()
                        &&& lineups[k]@.player_ids().len() == players@.len()
                        &&& lineups[k]@.player_ids().to_set().len() == players@.len()
                        &&& staffed_from(lineups[k]@.tanks, players@, Position::Tank)
                        &&& staffed_from(lineups[k]@.damage, players@, Position::Damage)
                        &&& staffed_from(lineups[k]@.supports, players@, Position::Support)
                    }
                &&& forall|position: Position|
                    eligible_ids(players@, position).len() < 2 * teams_of(players@.len())
                        ==> lineups.len() == 0
            },
            Err(error) => players@.len() % 6 != 0 && error == ConfigError::RosterNotDivisibleBySix,
        },
{
    let number_of_teams: usize = match players.number_of_teams() {
        Ok(count) => count,
        Err(error) => {
            return Err(error);
        },
    };
    // `len` tells that the roster holds no more players than identifiers.
    let count: usize = players.len();
    let player_duos = make_duos(players);
    let lineups = create_matchups(&player_duos, number_of_teams);
    proof {
        assert(player_duos.of(Position::Tank) == duos_of(players@, Position::Tank));
        assert(player_duos.of(Position::Damage) == duos_of(players@, Position::Damage));
        assert(player_duos.of(Position::Support) == duos_of(players@, Position::Support));
        lemma_duos_of(players@, Position::Tank);
        lemma_duos_of(players@, Position::Damage);
        lemma_duos_of(players@, Position::Support);
        assert forall|k: int| 0 <= k < lineups.len() implies {
            &&& staffed_from((#[trigger] lineups[k])@.tanks, players@, Position::Tank)
            &&& staffed_from(lineups[k]@.damage, players@, Position::Damage)
            &&& staffed_from(lineups[k]@.supports, players@, Position::Support)
        } by {
            let lineup = lineups[k]@;
            assert(lineup.staffs(number_of_teams as nat));
            assert forall|j: int| 0 <= j < lineup.tanks.len() implies {
                &&& names_player(players@, (#[trigger] lineup.tanks[j]).0)
                &&& names_player(players@, lineup.tanks[j].1)
                &&& player_of(players@, lineup.tanks[j].0).plays(Position::Tank)
                &&& player_of(players@, lineup.tanks[j].1).plays(Position::Tank)
            } by {
                let duos = duos_of(players@, Position::Tank);
                assert(duos.contains(lineup.tanks[j]));
                let at = choose|at: int| 0 <= at < duos.len() && duos[at] == lineup.tanks[j];
            }
            assert forall|j: int| 0 <= j < lineup.damage.len() implies {
                &&& names_player(players@, (#[trigger] lineup.damage[j]).0)
                &&& names_player(players@, lineup.damage[j].1)
                &&& player_of(players@, lineup.damage[j].0).plays(Position::Damage)
                &&& player_of(players@, lineup.damage[j].1).plays(Position::Damage)
            } by {
                let duos = duos_of(players@, Position::Damage);
                assert(duos.contains(lineup.damage[j]));
                let at = choose|at: int| 0 <= at < duos.len() && duos[at] == lineup.damage[j];
            }
            assert forall|j: int| 0 <= j < lineup.supports.len() implies {
                &&& names_player(players@, (#[trigger] lineup.supports[j]).0)
                &&& names_player(players@, lineup.supports[j].1)
                &&& player_of(players@, lineup.supports[j].0).plays(Position::Support)
                &&& player_of(players@, lineup.supports[j].1).plays(Position::Support)
            } by {
                let duos = duos_of(players@, Position::Support);
                assert(duos.contains(lineup.supports[j]));
                let at = choose|at: int| 0 <= at < duos.len() && duos[at] == lineup.supports[j];
            }
        }
        assert forall|position: Position|
            eligible_ids(players@, position).len() < 2 * teams_of(
                players@.len(),
            ) implies lineups.len() == 0 by {
            lemma_too_few_players_no_matchup(players@, position);
        }
    }
    Ok(lineups)
}

/// The role has fewer eligible players than `n` teams need.
pub open spec fn is_short(players: Seq<Player>, position: Position, n: nat) -> bool {
    eligible_ids(players, position).len() < 2 * n
}

/// The first role, in the order tank, damage, support, that has fewer
/// eligible players than the teams need, if there is one. With such a role
/// the roster has no lineup.
pub fn short_role(players: &Roster, number_of_teams: usize) -> (short: Option<Position>)
    ensures
        match short {
            Some(Position::Tank) => is_short(players@, Position::Tank, number_of_teams as nat),
            Some(Position::Damage) => {
                &&& !is_short(players@, Position::Tank, number_of_teams as nat)
                &&& is_short(players@, Position::Damage, number_of_teams as nat)
            },
            Some(Position::Support) => {
                &&& !is_short(players@, Position::Tank, number_of_teams as nat)
                &&& !is_short(players@, Position::Damage, number_of_teams as nat)
                &&& is_short(players@, Position::Support, number_of_teams as nat)
            },
            None => forall|position: Position|
                !is_short(players@, position, number_of_teams as nat),
        },
{
    if has_too_few(players, Position::Tank, number_of_teams) {
        Some(Position::Tank)
    } else if has_too_few(players, Position::Damage, number_of_teams) {
        Some(Position::Damage)
    } else if has_too_few(players, Position::Support, number_of_teams) {
        Some(Position::Support)
    } else {
        proof {
            assert forall|position: Position|
                !is_short(players@, position, number_of_teams as nat) by {
                match position {
                    Position::Tank => {},
                    Position::Damage => {},
                    Position::Support => {},
                }
            }
        }
        None
    }
}

fn has_too_few(players: &Roster, position: Position, number_of_teams: usize) -> (short: bool)
    ensures
        short == is_short(players@, position, number_of_teams as nat),
{
    // `len` tells that the roster holds no more players than identifiers.
    let count: usize = players.len();
    let eligible = eligible_players(players, position);
    proof {
        lemma_eligible_ids(players@, position);
    }
    if number_of_teams > MAX_PLAYERS {
        true
    } else {
        eligible.len() < 2 * number_of_teams
    }
}

} // verus!
