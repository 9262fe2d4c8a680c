//! Teams of five: one tank to a team in place of a tank duo. A tank stands
//! in the duos of its role as a duo with nobody, written with the
//! identifier 0 in the second place.

use crate::combinatorics::{
    combinations, enumerates_combinations, enumerates_permutations, factorial, index_combinations,
    index_permutations, is_combination, is_permutation, lemma_combinations_enumerate,
    lemma_permutations_enumerate, permutations, rows,
};
use crate::duos::{
    all_distinct, append_ids, duo_ids, eligible_ids, eligible_players, role_duos, Duo, PlayerId,
    RoleDuos,
};
use crate::error::{ConfigError, LookupError};
use crate::joiner::{all_pairs, pair_damage_support, pair_is_disjoint, pair_views, RolePair};
use crate::lineup::copy_duos;
use crate::matchup_ow2::OW2TeamSlots;
use crate::player::Player;
use crate::resolve::is_first_unknown;
use crate::role_combinations::{
    expand_role_combinations, lemma_role_combinations_distinct, role_combinations,
};
use crate::roster::{names_player, player_of, Roster};
use crate::team_ow2::OW2Team;
use crate::types::Position;
use vstd::prelude::*;

verus! {

/// One tank for each team, and a damage and a support combination.
#[derive(Debug, PartialEq, Eq)]
pub struct OW2Lineup {
    pub tanks: Vec<PlayerId>,
    pub damage: Vec<Duo>,
    pub supports: Vec<Duo>,
}

/// What a lineup of teams of five holds, as sequences.
pub struct OW2LineupView {
    pub tanks: Seq<PlayerId>,
    pub damage: Seq<Duo>,
    pub supports: Seq<Duo>,
}

impl OW2LineupView {
    /// The players of the lineup: the tanks, then the damage players, then
    /// the supports.
    pub open spec fn player_ids(self) -> Seq<PlayerId> {
        self.tanks + duo_ids(self.damage) + duo_ids(self.supports)
    }

    /// No player has two places in the lineup.
    pub open spec fn is_disjoint(self) -> bool {
        self.player_ids().no_duplicates()
    }

    /// Every role is staffed for `n` teams.
    pub open spec fn staffs(self, n: nat) -> bool {
        &&& self.tanks.len() == n
        &&& self.damage.len() == n
        &&& self.supports.len() == n
    }
}

impl View for OW2Lineup {
    type V = OW2LineupView;

    open spec fn view(&self) -> OW2LineupView {
        OW2LineupView { tanks: self.tanks@, damage: self.damage@, supports: self.supports@ }
    }
}

/// The lineups of a vector, each by its view.
pub open spec fn ow2_lineup_views(lineups: Vec<OW2Lineup>) -> Seq<OW2LineupView> {
    Seq::new(lineups@.len(), |i: int| lineups@[i]@)
}

/// Makes of a tank a duo with nobody.
pub open spec fn alone() -> spec_fn(PlayerId) -> Duo {
    |id: PlayerId| (id, 0u8)
}

/// The duos of the tank role where a team has one tank: each eligible
/// player alone.
pub open spec fn single_tanks(players: Seq<Player>) -> Seq<Duo> {
    eligible_ids(players, Position::Tank).map_values(alone())
}

/// The first players of the duos at the positions picked.
pub open spec fn firsts_of(duos: Seq<Duo>) -> spec_fn(Seq<usize>) -> Seq<PlayerId> {
    |picks: Seq<usize>| Seq::new(picks.len(), |i: int| duos[picks[i] as int].0)
}

/// Every choice of `n` of the tanks, each choice in the order of `tanks` and
/// all choices in lexicographic order of the positions taken.
pub open spec fn tank_combinations(tanks: Seq<Duo>, n: nat) -> Seq<Seq<PlayerId>> {
    combinations(tanks.len(), n).map_values(firsts_of(tanks))
}

/// Completes a pair to a lineup with the given tanks.
pub open spec fn ow2_lineup_with(tanks: Seq<PlayerId>) -> spec_fn(RolePair) -> OW2LineupView {
    |pair: RolePair| OW2LineupView { tanks: tanks, damage: pair.0, supports: pair.1 }
}

/// `OW2LineupView::is_disjoint` as a predicate to filter by.
pub open spec fn ow2_lineup_is_disjoint() -> spec_fn(OW2LineupView) -> bool {
    |lineup: OW2LineupView| lineup.is_disjoint()
}

/// The disjoint lineups that a choice of tanks forms with the pairs, in the
/// order of the pairs.
pub open spec fn ow2_lineups_of_tanks(pairs: Seq<RolePair>) -> spec_fn(Seq<PlayerId>) -> Seq<
    OW2LineupView,
> {
    |tanks: Seq<PlayerId>| pairs.map_values(ow2_lineup_with(tanks)).filter(ow2_lineup_is_disjoint())
}

/// The disjoint lineups that the choices of tanks form with the pairs: those
/// of the first choice, then those of the second, and so on.
pub open spec fn single_tanks_joined(tanks: Seq<Seq<PlayerId>>, pairs: Seq<RolePair>) -> Seq<
    OW2LineupView,
> {
    tanks.flat_map(ow2_lineups_of_tanks(pairs))
}

/// The lineups for `n` teams of five that can be formed from the duos: every
/// choice of `n` tanks with every damage and every support combination for
/// `n` teams, where no player occurs twice, in lexicographic order of the
/// places that the three have in their lists.
pub open spec fn ow2_matchups(
    tank: Seq<Duo>,
    damage: Seq<Duo>,
    support: Seq<Duo>,
    n: nat,
) -> Seq<OW2LineupView> {
    single_tanks_joined(
        tank_combinations(tank, n),
        all_pairs(role_combinations(damage, n), role_combinations(support, n)),
    )
}

/// The duos of each role where a team has one tank.
pub fn make_ow2_duos(players: &Roster) -> (duos: RoleDuos)
    ensures
        duos.tank@ == single_tanks(players@),
        duos.damage@ == crate::duos::duos_of(players@, Position::Damage),
        duos.support@ == crate::duos::duos_of(players@, Position::Support),
{
    let ids = eligible_players(players, Position::Tank);
    let mut tank: Vec<Duo> = Vec::new();
    let mut i: usize = 0;
    while i < ids.len()
        invariant
            i <= ids.len(),
            tank@ == ids@.take(i as int).map_values(alone()),
        decreases ids.len() - i,
    {
        proof {
            ids@.lemma_map_take_succ(alone(), i as int);
        }
        tank.push((ids[i], 0));
        i += 1;
    }
    proof {
        assert(ids@.take(ids.len() as int) =~= ids@);
    }
    RoleDuos {
        tank,
        damage: role_duos(players, Position::Damage),
        support: role_duos(players, Position::Support),
    }
}

/// Every way to choose `number_of_teams` of the tanks.
pub fn expand_tank_combinations(tanks: &Vec<Duo>, number_of_teams: usize) -> (found: Vec<
    Vec<PlayerId>,
>)
    ensures
        rows(found) == tank_combinations(tanks@, number_of_teams as nat),
        forall|k: int| 0 <= k < found.len() ==> (#[trigger] found[k]).len() == number_of_teams,
{
    let picks = index_combinations(tanks.len(), number_of_teams);
    let ghost all = combinations(tanks.len() as nat, number_of_teams as nat);
    let mut found: Vec<Vec<PlayerId>> = Vec::new();
    let mut i: usize = 0;
    proof {
        lemma_combinations_enumerate(tanks.len() as nat, number_of_teams as nat);
        assert(rows(found) =~= all.take(0).map_values(firsts_of(tanks@)));
    }
    while i < picks.len()
        invariant
            i <= picks.len(),
            rows(picks) == all,
            enumerates_combinations(all, tanks.len() as nat, number_of_teams as nat),
            rows(found) == all.take(i as int).map_values(firsts_of(tanks@)),
            forall|k: int| 0 <= k < found.len() ==> (#[trigger] found[k]).len() == number_of_teams,
        decreases picks.len() - i,
    {
        proof {
            assert(rows(picks)[i as int] == picks[i as int]@);
            assert(is_combination(all[i as int], tanks.len() as nat, number_of_teams as nat));
        }
        let pick = &picks[i];
        let mut chosen: Vec<PlayerId> = Vec::new();
        let mut j: usize = 0;
        while j < pick.len()
            invariant
                j <= pick.len(),
                pick@ == all[i as int],
                is_combination(all[i as int], tanks.len() as nat, number_of_teams as nat),
                chosen.len() == j,
                forall|k: int| 0 <= k < j ==> chosen[k] == tanks[pick[k] as int].0,
            decreases pick.len() - j,
        {
            chosen.push(tanks[pick[j]].0);
            j += 1;
        }
        let ghost before = rows(found);
        proof {
            assert(chosen@ =~= firsts_of(tanks@)(all[i as int]));
            all.lemma_map_take_succ(firsts_of(tanks@), i as int);
        }
        found.push(chosen);
        proof {
            assert(rows(found) =~= before.push(chosen@));
        }
        i += 1;
    }
    proof {
        assert(all.take(picks.len() as int) =~= all);
    }
    found
}

fn copy_ids(ids: &Vec<PlayerId>) -> (copy: Vec<PlayerId>)
    ensures
        copy@ == ids@,
{
    let mut copy: Vec<PlayerId> = Vec::new();
    let mut i: usize = 0;
    while i < ids.len()
        invariant
            i <= ids.len(),
            copy@ == ids@.take(i as int),
        decreases ids.len() - i,
    {
        copy.push(ids[i]);
        i += 1;
        proof {
            assert(copy@ =~= ids@.take(i as int));
        }
    }
    proof {
        assert(ids@.take(ids.len() as int) =~= ids@);
    }
    copy
}

/// The lineups that the choices of tanks form with the pairs without using
/// a player twice.
pub fn join_single_tanks(tanks: &Vec<Vec<PlayerId>>, pairs: &Vec<(Vec<Duo>, Vec<Duo>)>) -> (lineups:
    Vec<OW2Lineup>)
    ensures
        ow2_lineup_views(lineups) == single_tanks_joined(rows(*tanks), pair_views(*pairs)),
        forall|k: int| 0 <= k < lineups.len() ==> (#[trigger] lineups[k])@.is_disjoint(),
        forall|k: int|
            0 <= k < lineups.len() ==> rows(*tanks).contains((#[trigger] lineups[k])@.tanks)
                && pair_views(*pairs).contains((lineups[k]@.damage, lineups[k]@.supports)),
{
    let ghost t = rows(*tanks);
    let ghost x = pair_views(*pairs);
    let ghost q = ow2_lineup_is_disjoint();
    let mut lineups: Vec<OW2Lineup> = Vec::new();
    let mut i: usize = 0;
    proof {
        assert(single_tanks_joined(t.take(0), x) =~= Seq::<OW2LineupView>::empty());
        assert(ow2_lineup_views(lineups) =~= Seq::<OW2LineupView>::empty());
    }
    while i < tanks.len()
        invariant
            i <= tanks.len(),
            t == rows(*tanks),
            x == pair_views(*pairs),
            q == ow2_lineup_is_disjoint(),
            ow2_lineup_views(lineups) == single_tanks_joined(t.take(i as int), x),
            forall|k: int| 0 <= k < lineups.len() ==> (#[trigger] lineups[k])@.is_disjoint(),
            forall|k: int|
                0 <= k < lineups.len() ==> t.contains((#[trigger] lineups[k])@.tanks) && x.contains(
                    (lineups[k]@.damage, lineups[k]@.supports),
                ),
        decreases tanks.len() - i,
    {
        let ghost done = single_tanks_joined(t.take(i as int), x);
        let ghost row = x.map_values(ow2_lineup_with(t[i as int]));
        let mut j: usize = 0;
        proof {
            assert(row.take(0).filter(q) =~= Seq::<OW2LineupView>::empty()) by {
                reveal(Seq::filter);
            }
            assert(ow2_lineup_views(lineups) =~= done + row.take(0).filter(q));
        }
        while j < pairs.len()
            invariant
                i < tanks.len(),
                j <= pairs.len(),
                t == rows(*tanks),
                x == pair_views(*pairs),
                q == ow2_lineup_is_disjoint(),
                row == x.map_values(ow2_lineup_with(t[i as int])),
                ow2_lineup_views(lineups) == done + row.take(j as int).filter(q),
                forall|k: int| 0 <= k < lineups.len() ==> (#[trigger] lineups[k])@.is_disjoint(),
                forall|k: int|
                    0 <= k < lineups.len() ==> t.contains((#[trigger] lineups[k])@.tanks)
                        && x.contains((lineups[k]@.damage, lineups[k]@.supports)),
            decreases pairs.len() - j,
        {
            let mut ids: Vec<PlayerId> = copy_ids(&tanks[i]);
            append_ids(&pairs[j].0, &mut ids);
            append_ids(&pairs[j].1, &mut ids);
            let keep = all_distinct(&ids);
            proof {
                assert(x[j as int] == (pairs[j as int].0@, pairs[j as int].1@));
                assert(row[j as int] == OW2LineupView {
                    tanks: tanks[i as int]@,
                    damage: pairs[j as int].0@,
                    supports: pairs[j as int].1@,
                });
                assert(ids@ =~= row[j as int].player_ids());
                row.lemma_take_succ_push(j as int);
                row.take(j as int).lemma_filter_push(row[j as int], q);
            }
            let ghost before = ow2_lineup_views(lineups);
            if keep {
                let lineup = OW2Lineup {
                    tanks: copy_ids(&tanks[i]),
                    damage: copy_duos(&pairs[j].0),
                    supports: copy_duos(&pairs[j].1),
                };
                lineups.push(lineup);
                proof {
                    assert(ow2_lineup_views(lineups) =~= before.push(row[j as int]));
                    assert(done + row.take(j as int).filter(q).push(row[j as int]) =~= (done
                        + row.take(j as int).filter(q)).push(row[j as int]));
                    assert(t[i as int] == tanks[i as int]@);
                }
            }
            j += 1;
        }
        proof {
            assert(row.take(pairs.len() as int) =~= row);
            t.lemma_flat_map_take_append(ow2_lineups_of_tanks(x), i as int);
        }
        i += 1;
    }
    proof {
        assert(t.take(tanks.len() as int) =~= t);
    }
    lineups
}

/// A lineup without a repeated player has a damage and support pair without
/// one.
proof fn lemma_disjoint_ow2_lineup_has_disjoint_pair(tanks: Seq<PlayerId>, pair: RolePair)
    requires
        ow2_lineup_is_disjoint()(ow2_lineup_with(tanks)(pair)),
    ensures
        pair_is_disjoint()(pair),
{
    let whole = tanks + duo_ids(pair.0) + duo_ids(pair.1);
    let part = duo_ids(pair.0) + duo_ids(pair.1);
    let shift = tanks.len() as int;
    assert forall|i: int, j: int| 0 <= i < part.len() && 0 <= j < part.len() && i != j implies part[i]
        != part[j] by {
        assert(part[i] == whole[shift + i]);
        assert(part[j] == whole[shift + j]);
    }
}

proof fn lemma_disjoint_pairs_suffice_ow2(pairs: Seq<RolePair>, tanks: Seq<PlayerId>)
    ensures
        ow2_lineups_of_tanks(pairs.filter(pair_is_disjoint()))(tanks) == ow2_lineups_of_tanks(
            pairs,
        )(tanks),
    decreases pairs.len(),
{
    let p = pair_is_disjoint();
    let f = ow2_lineup_with(tanks);
    let q = ow2_lineup_is_disjoint();
    if pairs.len() == 0 {
        assert(pairs.filter(p) =~= pairs) by {
            reveal(Seq::filter);
        }
    } else {
        let init = pairs.drop_last();
        let last = pairs.last();
        lemma_disjoint_pairs_suffice_ow2(init, tanks);
        assert(pairs =~= init.push(last));
        init.lemma_filter_push(last, p);
        init.lemma_push_map_commute(f, last);
        init.map_values(f).lemma_filter_push(f(last), q);
        if p(last) {
            init.filter(p).lemma_push_map_commute(f, last);
            init.filter(p).map_values(f).lemma_filter_push(f(last), q);
        } else {
            if q(f(last)) {
                lemma_disjoint_ow2_lineup_has_disjoint_pair(tanks, last);
            }
        }
    }
}

/// The lineups for `number_of_teams` teams of five that can be formed from
/// the duos, where each tank stands alone in its duo. Each lineup names
/// `5 * number_of_teams` players, all different.
pub fn create_ow2_matchups(player_duos: &RoleDuos, number_of_teams: usize) -> (lineups: Vec<
    OW2Lineup,
>)
    ensures
        ow2_lineup_views(lineups) == ow2_matchups(
            player_duos.tank@,
            player_duos.damage@,
            player_duos.support@,
            number_of_teams as nat,
        ),
        forall|k: int|
            0 <= k < lineups.len() ==> {
                &&& (#[trigger] lineups[k])@.staffs(number_of_teams as nat)
                &&& lineups[k]@.is_disjoint()
                &&& lineups[k]@.player_ids().len() == 5 * number_of_teams
            },
{
    let tanks = expand_tank_combinations(&player_duos.tank, number_of_teams);
    let damage = expand_role_combinations(&player_duos.damage, number_of_teams);
    let supports = expand_role_combinations(&player_duos.support, number_of_teams);
    let pairs = pair_damage_support(&damage, &supports);
    let lineups = join_single_tanks(&tanks, &pairs);
    proof {
        let n = number_of_teams as nat;
        let every = all_pairs(rows(damage), rows(supports));
        let narrow = ow2_lineups_of_tanks(every.filter(pair_is_disjoint()));
        let wide = ow2_lineups_of_tanks(every);
        assert forall|i: int| 0 <= i < rows(tanks).len() implies narrow(rows(tanks)[i]) == wide(
            rows(tanks)[i],
        ) by {
            lemma_disjoint_pairs_suffice_ow2(every, rows(tanks)[i]);
        }
        assert(rows(tanks).map_values(narrow) =~= rows(tanks).map_values(wide));
        assert(player_duos.damage@.len() == player_duos.damage.len());
        assert(player_duos.support@.len() == player_duos.support.len());
        lemma_role_combinations_distinct(player_duos.damage@, n);
        lemma_role_combinations_distinct(player_duos.support@, n);
        assert forall|k: int| 0 <= k < lineups.len() implies {
            &&& (#[trigger] lineups[k])@.staffs(n)
            &&& lineups[k]@.player_ids().len() == 5 * n
        } by {
            let lineup = lineups[k]@;
            let pair = (lineup.damage, lineup.supports);
            let t = choose|t: int| 0 <= t < rows(tanks).len() && rows(tanks)[t] == lineup.tanks;
            assert(rows(tanks)[t] == tanks[t]@);
            every.lemma_filter_contains_rev(pair_is_disjoint(), pair);
            crate::joiner::lemma_pair_members(rows(damage), rows(supports), pair);
            let d = choose|d: int| 0 <= d < rows(damage).len() && rows(damage)[d] == lineup.damage;
            let s = choose|s: int|
                0 <= s < rows(supports).len() && rows(supports)[s] == lineup.supports;
            assert(role_combinations(player_duos.damage@, n)[d].len() == n);
            assert(role_combinations(player_duos.support@, n)[s].len() == n);
        }
    }
    lineups
}

/// Team `i` where the damage duos are handed out in `damage_order` and the
/// support duos in `support_order`.
pub open spec fn ow2_team_at(
    lineup: OW2LineupView,
    names: Seq<String>,
    damage_order: Seq<usize>,
    support_order: Seq<usize>,
    i: int,
) -> OW2TeamSlots {
    OW2TeamSlots {
        name: names[i],
        tank: lineup.tanks[i],
        damage_1: lineup.damage[damage_order[i] as int].0,
        damage_2: lineup.damage[damage_order[i] as int].1,
        support_1: lineup.supports[support_order[i] as int].0,
        support_2: lineup.supports[support_order[i] as int].1,
    }
}

/// The teams where the damage duos are handed out in `damage_order` and the
/// support duos in `support_order`.
pub open spec fn ow2_assignment(
    lineup: OW2LineupView,
    names: Seq<String>,
    damage_order: Seq<usize>,
    support_order: Seq<usize>,
) -> Seq<OW2TeamSlots> {
    Seq::new(
        lineup.tanks.len(),
        |i: int| ow2_team_at(lineup, names, damage_order, support_order, i),
    )
}

/// `ow2_assignment` with all but the order of the supports fixed.
pub open spec fn ow2_assigned_with(
    lineup: OW2LineupView,
    names: Seq<String>,
    damage_order: Seq<usize>,
) -> spec_fn(Seq<usize>) -> Seq<OW2TeamSlots> {
    |support_order: Seq<usize>| ow2_assignment(lineup, names, damage_order, support_order)
}

/// The assignments of one damage order with every support order.
pub open spec fn ow2_assignments_of_order(lineup: OW2LineupView, names: Seq<String>) -> spec_fn(
    Seq<usize>,
) -> Seq<Seq<OW2TeamSlots>> {
    |damage_order: Seq<usize>|
        permutations(lineup.tanks.len()).map_values(ow2_assigned_with(lineup, names, damage_order))
}

/// Every way to hand the damage duos and the support duos to the teams: the
/// damage orders in lexicographic order, and for each of them the support
/// orders in lexicographic order. Tank `i` plays in team `i`.
pub open spec fn ow2_slot_assignments(lineup: OW2LineupView, names: Seq<String>) -> Seq<
    Seq<OW2TeamSlots>,
> {
    permutations(lineup.tanks.len()).flat_map(ow2_assignments_of_order(lineup, names))
}

/// What keeps a lineup from being handed to teams, if anything does.
pub open spec fn ow2_assign_error(lineup: OW2LineupView, names: Seq<String>) -> Option<
    ConfigError,
> {
    if !lineup.staffs(lineup.tanks.len()) {
        Some(ConfigError::UnevenLineup)
    } else if names.len() < lineup.tanks.len() {
        Some(ConfigError::MissingTeamNames)
    } else {
        None
    }
}

fn assign_ow2_slots(
    lineup: &OW2Lineup,
    names: &Vec<String>,
    damage_order: &Vec<usize>,
    support_order: &Vec<usize>,
) -> (teams: Vec<OW2TeamSlots>)
    requires
        lineup@.staffs(lineup@.tanks.len()),
        names.len() >= lineup@.tanks.len(),
        is_permutation(damage_order@, lineup@.tanks.len()),
        is_permutation(support_order@, lineup@.tanks.len()),
    ensures
        teams@ == ow2_assignment(lineup@, names@, damage_order@, support_order@),
{
    let n: usize = lineup.tanks.len();
    let mut teams: Vec<OW2TeamSlots> = Vec::new();
    let mut i: usize = 0;
    while i < n
        invariant
            i <= n,
            n == lineup@.tanks.len(),
            lineup@.staffs(n as nat),
            names.len() >= n,
            is_permutation(damage_order@, n as nat),
            is_permutation(support_order@, n as nat),
            teams.len() == i,
            forall|k: int|
                0 <= k < i ==> teams[k] == ow2_team_at(
                    lineup@,
                    names@,
                    damage_order@,
                    support_order@,
                    k,
                ),
        decreases n - i,
    {
        let damage = lineup.damage[damage_order[i]];
        let support = lineup.supports[support_order[i]];
        teams.push(
            OW2TeamSlots {
                name: names[i].clone(),
                tank: lineup.tanks[i],
                damage_1: damage.0,
                damage_2: damage.1,
                support_1: support.0,
                support_2: support.1,
            },
        );
        i += 1;
    }
    proof {
        assert(teams@ =~= ow2_assignment(lineup@, names@, damage_order@, support_order@));
    }
    teams
}

/// Every set of teams of five that the lineup yields, with team `i` named
/// `team_names[i]`.
///
/// Fails where the lineup does not staff each role for the same number of
/// teams, or where there are fewer names than teams.
pub fn create_ow2_assignments(lineup: &OW2Lineup, team_names: &Vec<String>) -> (found: Result<
    Vec<Vec<OW2TeamSlots>>,
    ConfigError,
>)
    ensures
        match found {
            Ok(all) => {
                &&& ow2_assign_error(lineup@, team_names@) is None
                &&& rows(all) == ow2_slot_assignments(lineup@, team_names@)
                &&& all.len() == factorial(lineup@.tanks.len()) * factorial(lineup@.tanks.len())
                &&& forall|k: int| 0 <= k < all.len() ==> (#[trigger] all[k]).len() == lineup@.tanks.len()
            },
            Err(error) => ow2_assign_error(lineup@, team_names@) == Some(error),
        },
{
    let n: usize = lineup.tanks.len();
    if lineup.damage.len() != n || lineup.supports.len() != n {
        return Err(ConfigError::UnevenLineup);
    }
    if team_names.len() < n {
        return Err(ConfigError::MissingTeamNames);
    }
    let orders = index_permutations(n);
    let ghost perms = permutations(n as nat);
    let ghost by_order = ow2_assignments_of_order(lineup@, team_names@);
    let mut all: Vec<Vec<OW2TeamSlots>> = Vec::new();
    let mut d: usize = 0;
    proof {
        lemma_permutations_enumerate(n as nat);
        assert(perms.take(0).flat_map(by_order) =~= Seq::<Seq<OW2TeamSlots>>::empty());
        assert(rows(all) =~= Seq::<Seq<OW2TeamSlots>>::empty());
        assert(0 * orders.len() == 0);
    }
    while d < orders.len()
        invariant
            d <= orders.len(),
            n == lineup@.tanks.len(),
            lineup@.staffs(n as nat),
            team_names.len() >= n,
            rows(orders) == perms,
            perms == permutations(n as nat),
            enumerates_permutations(perms, n as nat),
            by_order == ow2_assignments_of_order(lineup@, team_names@),
            rows(all) == perms.take(d as int).flat_map(by_order),
            all.len() == d * orders.len(),
            forall|k: int| 0 <= k < all.len() ==> (#[trigger] all[k]).len() == n,
        decreases orders.len() - d,
    {
        let ghost done = perms.take(d as int).flat_map(by_order);
        let ghost with_order = ow2_assigned_with(lineup@, team_names@, perms[d as int]);
        let ghost row = perms.map_values(with_order);
        let mut s: usize = 0;
        proof {
            assert(rows(orders)[d as int] == orders[d as int]@);
            assert(is_permutation(perms[d as int], n as nat));
            assert(rows(all) =~= done + row.take(0));
        }
        while s < orders.len()
            invariant
                d < orders.len(),
                s <= orders.len(),
                n == lineup@.tanks.len(),
                lineup@.staffs(n as nat),
                team_names.len() >= n,
                rows(orders) == perms,
                enumerates_permutations(perms, n as nat),
                is_permutation(orders[d as int]@, n as nat),
                orders[d as int]@ == perms[d as int],
                with_order == ow2_assigned_with(lineup@, team_names@, perms[d as int]),
                row == perms.map_values(with_order),
                rows(all) == done + row.take(s as int),
                all.len() == d * orders.len() + s,
                forall|k: int| 0 <= k < all.len() ==> (#[trigger] all[k]).len() == n,
            decreases orders.len() - s,
        {
            proof {
                assert(rows(orders)[s as int] == orders[s as int]@);
                assert(is_permutation(perms[s as int], n as nat));
            }
            let teams = assign_ow2_slots(lineup, team_names, &orders[d], &orders[s]);
            let ghost before = rows(all);
            all.push(teams);
            proof {
                assert(teams@ == row[s as int]);
                assert(rows(all) =~= before.push(teams@));
                assert(done + row.take(s + 1) =~= (done + row.take(s as int)).push(row[s as int]));
            }
            s += 1;
        }
        proof {
            assert(row.take(orders.len() as int) =~= row);
            perms.lemma_flat_map_take_append(by_order, d as int);
            assert(by_order(perms[d as int]) == row);
            assert(d * orders.len() + orders.len() == (d + 1) * orders.len()) by (nonlinear_arith);
        }
        d += 1;
    }
    proof {
        assert(perms.take(orders.len() as int) =~= perms);
    }
    Ok(all)
}

/// The team of five with the players that the slots name.
pub open spec fn ow2_team_of(slots: OW2TeamSlots, players: Seq<Player>) -> OW2Team {
    OW2Team {
        name: slots.name,
        tank: Some(player_of(players, slots.tank)),
        damage_1: Some(player_of(players, slots.damage_1)),
        damage_2: Some(player_of(players, slots.damage_2)),
        support_1: Some(player_of(players, slots.support_1)),
        support_2: Some(player_of(players, slots.support_2)),
    }
}

fn copy_of(players: &Roster, id: PlayerId) -> (found: Result<Player, LookupError>)
    ensures
        match found {
            Ok(player) => names_player(players@, id) && player == player_of(players@, id),
            Err(error) => !names_player(players@, id) && error == (LookupError { id }),
        },
{
    match players.get(id) {
        Ok(player) => Ok(player.clone()),
        Err(error) => Err(error),
    }
}

/// The team of five with the players that the slots name.
///
/// Fails on the first slot, in the order tank, damage players, supports,
/// whose identifier names no player of the roster.
pub fn build_ow2_team(slots: &OW2TeamSlots, players: &Roster) -> (built: Result<
    OW2Team,
    LookupError,
>)
    ensures
        match built {
            Ok(team) => {
                &&& forall|i: int| 0 <= i < 5 ==> names_player(players@, #[trigger] slots.player_ids()[i])
                &&& team == ow2_team_of(*slots, players@)
            },
            Err(error) => exists|at: int|
                is_first_unknown(slots.player_ids(), players@, at) && #[trigger] slots.player_ids()[at]
                    == error.id,
        },
{
    let ghost ids = slots.player_ids();
    let tank = match copy_of(players, slots.tank) {
        Ok(player) => player,
        Err(error) => {
            proof {
                assert(is_first_unknown(ids, players@, 0) && ids[0] == error.id);
            }
            return Err(error);
        },
    };
    let damage_1 = match copy_of(players, slots.damage_1) {
        Ok(player) => player,
        Err(error) => {
            proof {
                assert(is_first_unknown(ids, players@, 1) && ids[1] == error.id);
            }
            return Err(error);
        },
    };
    let damage_2 = match copy_of(players, slots.damage_2) {
        Ok(player) => player,
        Err(error) => {
            proof {
                assert(is_first_unknown(ids, players@, 2) && ids[2] == error.id);
            }
            return Err(error);
        },
    };
    let support_1 = match copy_of(players, slots.support_1) {
        Ok(player) => player,
        Err(error) => {
            proof {
                assert(is_first_unknown(ids, players@, 3) && ids[3] == error.id);
            }
            return Err(error);
        },
    };
    let support_2 = match copy_of(players, slots.support_2) {
        Ok(player) => player,
        Err(error) => {
            proof {
                assert(is_first_unknown(ids, players@, 4) && ids[4] == error.id);
            }
            return Err(error);
        },
    };
    Ok(OW2Team::new(slots.name.clone(), tank, damage_1, damage_2, support_1, support_2))
}

/// The identifiers in the slots of the teams of five, team by team.
pub open spec fn ow2_slot_ids(teams: Seq<OW2TeamSlots>) -> Seq<PlayerId> {
    Seq::new((5 * teams.len()) as nat, |i: int| teams[i / 5].player_ids()[i % 5])
}

/// The teams of five with the players that their slots name.
///
/// Fails on the first slot, team by team, whose identifier names no player
/// of the roster.
pub fn build_ow2_teams(teams: &Vec<OW2TeamSlots>, players: &Roster) -> (built: Result<
    Vec<OW2Team>,
    LookupError,
>)
    ensures
        match built {
            Ok(all) => {
                &&& forall|i: int|
                    0 <= i < ow2_slot_ids(teams@).len() ==> names_player(
                        players@,
                        #[trigger] ow2_slot_ids(teams@)[i],
                    )
                &&& all.len() == teams.len()
                &&& forall|k: int|
                    0 <= k < all.len() ==> #[trigger] all[k] == ow2_team_of(teams[k], players@)
            },
            Err(error) => exists|at: int|
                is_first_unknown(ow2_slot_ids(teams@), players@, at) && #[trigger] ow2_slot_ids(
                    teams@,
                )[at] == error.id,
        },
{
    let ghost ids = ow2_slot_ids(teams@);
    let mut all: Vec<OW2Team> = Vec::new();
    let mut k: usize = 0;
    while k < teams.len()
        invariant
            k <= teams.len(),
            ids == ow2_slot_ids(teams@),
            all.len() == k,
            forall|i: int| 0 <= i < 5 * k ==> names_player(players@, #[trigger] ids[i]),
            forall|j: int| 0 <= j < k ==> #[trigger] all[j] == ow2_team_of(teams[j], players@),
        decreases teams.len() - k,
    {
        match build_ow2_team(&teams[k], players) {
            Ok(team) => {
                proof {
                    assert forall|i: int| 0 <= i < 5 * (k + 1) implies names_player(
                        players@,
                        #[trigger] ids[i],
                    ) by {
                        if i >= 5 * k {
                            assert(ids[i] == teams[k as int].player_ids()[i - 5 * k]);
                        }
                    }
                }
                all.push(team);
            },
            Err(error) => {
                proof {
                    let own = teams[k as int].player_ids();
                    let slot = choose|slot: int|
                        is_first_unknown(own, players@, slot) && #[trigger] own[slot] == error.id;
                    let at = 5 * k + slot;
                    assert(ids[at] == own[slot]);
                    assert forall|j: int| 0 <= j < at implies names_player(
                        players@,
                        #[trigger] ids[j],
                    ) by {
                        if j >= 5 * k {
                            assert(ids[j] == own[j - 5 * k]);
                        }
                    }
                    assert(is_first_unknown(ids, players@, at) && ids[at] == error.id);
                }
                return Err(error);
            },
        }
        k += 1;
    }
    Ok(all)
}

} // verus!
