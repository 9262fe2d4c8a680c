//! Duos: pairs of players who share a role on one team.

use crate::combinatorics::{
    combinations, enumerates_combinations, index_combinations, is_combination,
    lemma_combinations_enumerate, rows,
};
use crate::external::count_unique;
use crate::player::Player;
use crate::roster::{names_player, player_of, Roster, MAX_PLAYERS};
use crate::types::Position;
use vstd::prelude::*;

verus! {

/// A player's identifier: the player's place in the roster, counted from 1.
pub type PlayerId = u8;

/// Two players for the two slots that a team has in one role.
pub type Duo = (PlayerId, PlayerId);

/// The identifiers that the duos hold, duo by duo: the first player of a duo,
/// then the second.
pub open spec fn duo_ids(duos: Seq<Duo>) -> Seq<PlayerId> {
    Seq::new(
        (2 * duos.len()) as nat,
        |i: int|
            if i % 2 == 0 {
                duos[i / 2].0
            } else {
                duos[i / 2].1
            },
    )
}

/// No player occurs twice among the duos.
pub open spec fn players_distinct(duos: Seq<Duo>) -> bool {
    duo_ids(duos).no_duplicates()
}

/// One more duo adds its two identifiers at the end.
pub proof fn lemma_duo_ids_push(duos: Seq<Duo>, duo: Duo)
    ensures
        duo_ids(duos.push(duo)) == duo_ids(duos).push(duo.0).push(duo.1),
{
    assert(duo_ids(duos.push(duo)) =~= duo_ids(duos).push(duo.0).push(duo.1));
}

/// Appends the identifiers of `duos` to `ids`.
pub fn append_ids(duos: &Vec<Duo>, ids: &mut Vec<PlayerId>)
    ensures
        final(ids)@ == old(ids)@ + duo_ids(duos@),
{
    let ghost before = ids@;
    let mut i: usize = 0;
    while i < duos.len()
        invariant
            i <= duos.len(),
            ids@ == before + duo_ids(duos@.take(i as int)),
        decreases duos.len() - i,
    {
        let duo = duos[i];
        proof {
            lemma_duo_ids_push(duos@.take(i as int), duo);
            assert(duos@.take(i + 1) =~= duos@.take(i as int).push(duo));
            assert(before + duo_ids(duos@.take(i as int)).push(duo.0).push(duo.1) =~= (before
                + duo_ids(duos@.take(i as int))).push(duo.0).push(duo.1));
        }
        ids.push(duo.0);
        ids.push(duo.1);
        i += 1;
    }
    proof {
        assert(duos@.take(duos.len() as int) =~= duos@);
    }
}

/// Whether no identifier occurs twice in `ids`.
pub fn all_distinct(ids: &Vec<PlayerId>) -> (distinct: bool)
    ensures
        distinct == ids@.no_duplicates(),
{
    let count: usize = count_unique(ids);
    proof {
        if ids@.no_duplicates() {
            ids@.unique_seq_to_set();
        }
        if count == ids.len() {
            ids@.lemma_no_dup_set_cardinality();
        }
    }
    count == ids.len()
}

/// The identifiers of a roster of `count` players, in order.
pub open spec fn all_ids(count: nat) -> Seq<PlayerId> {
    Seq::new(count, |i: int| (i + 1) as PlayerId)
}

/// Picks the players who are eligible for the role.
pub open spec fn plays_role(players: Seq<Player>, position: Position) -> spec_fn(PlayerId) -> bool {
    |id: PlayerId| player_of(players, id).plays(position)
}

/// The players who are eligible for the role, in the order of the roster.
pub open spec fn eligible_ids(players: Seq<Player>, position: Position) -> Seq<PlayerId> {
    all_ids(players.len()).filter(plays_role(players, position))
}

/// Makes a duo of the two players at the positions picked.
pub open spec fn duo_at(ids: Seq<PlayerId>) -> spec_fn(Seq<usize>) -> Duo {
    |picks: Seq<usize>| (ids[picks[0] as int], ids[picks[1] as int])
}

/// Every pair of the identifiers, each pair in the order of `ids` and the
/// pairs in lexicographic order of the two places taken.
pub open spec fn pairs_of(ids: Seq<PlayerId>) -> Seq<Duo> {
    combinations(ids.len(), 2).map_values(duo_at(ids))
}

/// The duos of a role: every pair of players who are eligible for it.
pub open spec fn duos_of(players: Seq<Player>, position: Position) -> Seq<Duo> {
    pairs_of(eligible_ids(players, position))
}

/// The duos of each role.
#[derive(Debug, PartialEq, Eq)]
pub struct RoleDuos {
    pub tank: Vec<Duo>,
    pub damage: Vec<Duo>,
    pub support: Vec<Duo>,
}

impl RoleDuos {
    /// The duos of the role.
    pub open spec fn of(self, position: Position) -> Seq<Duo> {
        match position {
            Position::Tank => self.tank@,
            Position::Damage => self.damage@,
            Position::Support => self.support@,
        }
    }

    /// The duos of the role.
    pub fn get(&self, position: Position) -> (duos: &Vec<Duo>)
        ensures
            duos@ == self.of(position),
    {
        match position {
            Position::Tank => &self.tank,
            Position::Damage => &self.damage,
            Position::Support => &self.support,
        }
    }
}

/// The eligible players of a role are players of the roster, each named
/// once, in ascending order.
pub proof fn lemma_eligible_ids(players: Seq<Player>, position: Position)
    requires
        players.len() <= MAX_PLAYERS,
    ensures
        eligible_ids(players, position).len() <= players.len(),
        forall|i: int|
            0 <= i < eligible_ids(players, position).len() ==> {
                &&& names_player(players, #[trigger] eligible_ids(players, position)[i])
                &&& player_of(players, eligible_ids(players, position)[i]).plays(position)
            },
        forall|i: int, j: int|
            0 <= i < j < eligible_ids(players, position).len() ==> eligible_ids(players, position)[i]
                < eligible_ids(players, position)[j],
{
    let every = all_ids(players.len());
    let wanted = plays_role(players, position);
    lemma_filter_of_prefix(every, wanted, every.len() as int);
    assert(every.take(every.len() as int) =~= every);
    let found = eligible_ids(players, position);
    assert forall|i: int| 0 <= i < found.len() implies {
        &&& names_player(players, #[trigger] found[i])
        &&& player_of(players, found[i]).plays(position)
    } by {
        every.lemma_filter_pred(wanted, i);
    }
}

/// Filtering the first `count` identifiers keeps them in ascending order and
/// keeps none above `count`.
proof fn lemma_filter_of_prefix(every: Seq<PlayerId>, wanted: spec_fn(PlayerId) -> bool, count: int)
    requires
        every.len() <= MAX_PLAYERS,
        every == all_ids(every.len()),
        0 <= count <= every.len(),
    ensures
        every.take(count).filter(wanted).len() <= count,
        forall|i: int|
            0 <= i < every.take(count).filter(wanted).len() ==> 1 <= #[trigger] every.take(
                count,
            ).filter(wanted)[i] <= count,
        forall|i: int, j: int|
            0 <= i < j < every.take(count).filter(wanted).len() ==> every.take(count).filter(
                wanted,
            )[i] < every.take(count).filter(wanted)[j],
    decreases count,
{
    if count == 0 {
        assert(every.take(0).filter(wanted) =~= Seq::<PlayerId>::empty()) by {
            reveal(Seq::filter);
        }
    } else {
        lemma_filter_of_prefix(every, wanted, count - 1);
        every.lemma_take_succ_push(count - 1);
        every.take(count - 1).lemma_filter_push(every[count - 1], wanted);
        assert(every[count - 1] == count);
    }
}

/// The players who are eligible for the role, in the order of the roster.
pub fn eligible_players(players: &Roster, position: Position) -> (ids: Vec<PlayerId>)
    ensures
        ids@ == eligible_ids(players@, position),
{
    let count: usize = players.len();
    let ghost every = all_ids(players@.len());
    let ghost wanted = plays_role(players@, position);
    let mut ids: Vec<PlayerId> = Vec::new();
    let mut id: PlayerId = 0;
    proof {
        assert(every.take(0).filter(wanted) =~= Seq::<PlayerId>::empty()) by {
            reveal(Seq::filter);
        }
    }
    while (id as usize) < count
        invariant
            id <= count,
            count == players@.len(),
            count <= MAX_PLAYERS,
            every == all_ids(players@.len()),
            wanted == plays_role(players@, position),
            ids@ == every.take(id as int).filter(wanted),
        decreases count - id,
    {
        proof {
            every.lemma_take_succ_push(id as int);
            every.take(id as int).lemma_filter_push(every[id as int], wanted);
        }
        id += 1;
        match players.get(id) {
            Ok(player) => {
                if player.plays_position(position) {
                    ids.push(id);
                }
            },
            Err(_) => {},
        }
    }
    proof {
        assert(every.take(count as int) =~= every);
    }
    ids
}

/// Every pair of the identifiers, in lexicographic order of the two places
/// taken.
pub fn make_pairs(ids: &Vec<PlayerId>) -> (duos: Vec<Duo>)
    ensures
        duos@ == pairs_of(ids@),
{
    let picks = index_combinations(ids.len(), 2);
    let ghost all = combinations(ids.len() as nat, 2);
    let mut duos: Vec<Duo> = Vec::new();
    let mut i: usize = 0;
    proof {
        lemma_combinations_enumerate(ids.len() as nat, 2);
    }
    while i < picks.len()
        invariant
            i <= picks.len(),
            rows(picks) == all,
            enumerates_combinations(all, ids.len() as nat, 2),
            duos@ == all.take(i as int).map_values(duo_at(ids@)),
        decreases picks.len() - i,
    {
        proof {
            assert(rows(picks)[i as int] == picks[i as int]@);
            assert(is_combination(all[i as int], ids.len() as nat, 2));
            all.lemma_map_take_succ(duo_at(ids@), i as int);
        }
        let pick = &picks[i];
        duos.push((ids[pick[0]], ids[pick[1]]));
        i += 1;
    }
    proof {
        assert(all.take(picks.len() as int) =~= all);
    }
    duos
}

/// The duos of a role: every pair of players who are eligible for it. Both
/// players of a duo are players of the roster, and the first stands before
/// the second there.
pub fn role_duos(players: &Roster, position: Position) -> (duos: Vec<Duo>)
    ensures
        duos@ == duos_of(players@, position),
        forall|k: int|
            0 <= k < duos.len() ==> {
                &&& (#[trigger] duos[k]).0 < duos[k].1
                &&& names_player(players@, duos[k].0)
                &&& names_player(players@, duos[k].1)
                &&& player_of(players@, duos[k].0).plays(position)
                &&& player_of(players@, duos[k].1).plays(position)
            },
{
    // `len` tells that the roster holds no more players than identifiers.
    let count: usize = players.len();
    let ids = eligible_players(players, position);
    let duos = make_pairs(&ids);
    proof {
        lemma_duos_of(players@, position);
        assert forall|k: int| 0 <= k < duos.len() implies {
            &&& (#[trigger] duos[k]).0 < duos[k].1
            &&& names_player(players@, duos[k].0)
            &&& names_player(players@, duos[k].1)
            &&& player_of(players@, duos[k].0).plays(position)
            &&& player_of(players@, duos[k].1).plays(position)
        } by {
            assert(duos[k] == duos_of(players@, position)[k]);
        }
    }
    duos
}

/// Every duo of a role holds two different players of the roster, both
/// eligible for the role.
pub proof fn lemma_duos_of(players: Seq<Player>, position: Position)
    requires
        players.len() <= MAX_PLAYERS,
    ensures
        forall|k: int|
            0 <= k < duos_of(players, position).len() ==> {
                &&& (#[trigger] duos_of(players, position)[k]).0 < duos_of(players, position)[k].1
                &&& names_player(players, duos_of(players, position)[k].0)
                &&& names_player(players, duos_of(players, position)[k].1)
                &&& player_of(players, duos_of(players, position)[k].0).plays(position)
                &&& player_of(players, duos_of(players, position)[k].1).plays(position)
                &&& eligible_ids(players, position).contains(duos_of(players, position)[k].0)
                &&& eligible_ids(players, position).contains(duos_of(players, position)[k].1)
            },
{
    let ids = eligible_ids(players, position);
    let duos = duos_of(players, position);
    let picks = combinations(ids.len(), 2);
    lemma_eligible_ids(players, position);
    lemma_combinations_enumerate(ids.len(), 2);
    assert forall|k: int| 0 <= k < duos.len() implies {
        &&& (#[trigger] duos[k]).0 < duos[k].1
        &&& names_player(players, duos[k].0)
        &&& names_player(players, duos[k].1)
        &&& player_of(players, duos[k].0).plays(position)
        &&& player_of(players, duos[k].1).plays(position)
        &&& ids.contains(duos[k].0)
        &&& ids.contains(duos[k].1)
    } by {
        assert(is_combination(picks[k], ids.len(), 2));
        assert(picks[k][0] < picks[k][1]);
        assert(duos[k] == (ids[picks[k][0] as int], ids[picks[k][1] as int]));
    }
}

/// The duos of each role.
pub fn make_duos(players: &Roster) -> (duos: RoleDuos)
    ensures
        forall|position: Position| #[trigger] duos.of(position) == duos_of(players@, position),
{
    RoleDuos {
        tank: role_duos(players, Position::Tank),
        damage: role_duos(players, Position::Damage),
        support: role_duos(players, Position::Support),
    }
}

} // verus!
