//! A team by its players.

use crate::player::Player;
use crate::text::{append_decimal, comes_before, decimal, text_before};
use crate::types::Position;
use vstd::prelude::*;

verus! {

/// A slot of a team was empty where a player was needed.
#[derive(Debug, Clone, Copy, PartialEq, Eq, Structural)]
pub struct MissingPlayer {}

/// Six players under a name: two tanks, two damage players, two supports.
#[derive(Debug, PartialEq)]
pub struct Team {
    pub name: String,
    pub tank_1: Option<Player>,
    pub tank_2: Option<Player>,
    pub damage_1: Option<Player>,
    pub damage_2: Option<Player>,
    pub support_1: Option<Player>,
    pub support_2: Option<Player>,
}

/// A copy of the slot.
pub(crate) fn copy_slot(slot: &Option<Player>) -> (copy: Option<Player>)
    ensures
        copy == *slot,
{
    match slot {
        Some(player) => Some(player.clone()),
        None => None,
    }
}

impl Clone for Team {
    fn clone(&self) -> (copy: Self)
        ensures
            copy == *self,
    {
        Team {
            name: self.name.clone(),
            tank_1: copy_slot(&self.tank_1),
            tank_2: copy_slot(&self.tank_2),
            damage_1: copy_slot(&self.damage_1),
            damage_2: copy_slot(&self.damage_2),
            support_1: copy_slot(&self.support_1),
            support_2: copy_slot(&self.support_2),
        }
    }
}

/// The rating that a slot shows: that of its player in the role, and 0
/// where it is empty.
pub open spec fn shown_sr(slot: Option<Player>, position: Position) -> i16 {
    match slot {
        Some(player) => player.sr(position),
        None => 0,
    }
}

/// The name that a slot shows: that of its player, and the dummy's where it
/// is empty.
pub open spec fn shown_name(slot: Option<Player>) -> Seq<char> {
    match slot {
        Some(player) => player.name@,
        None => Player::dummy_name(),
    }
}

/// A line of the team's description: the label, the rating, a dash and the
/// name.
pub open spec fn slot_line(label: Seq<char>, slot: Option<Player>, position: Position) -> Seq<
    char,
> {
    label + decimal(shown_sr(slot, position) as int) + " - "@ + shown_name(slot) + "\n"@
}

/// Two names, each followed by a comma, the one first that comes first in
/// the order of names; where neither does, the first.
pub open spec fn sorted_pair(first: Seq<char>, second: Seq<char>) -> Seq<char> {
    if text_before(second, first) {
        second + ","@ + first + ","@
    } else {
        first + ","@ + second + ","@
    }
}

/// Appends the line of a slot to `text`.
pub(crate) fn append_slot_line(text: &mut String, label: &str, slot: &Option<Player>, position: Position)
    ensures
        final(text)@ == old(text)@ + slot_line(label@, *slot, position),
{
    let ghost before = text@;
    text.append(label);
    match slot {
        Some(player) => {
            append_decimal(text, player.get_sr(position));
            text.append(" - ");
            text.append(player.name.as_str());
        },
        None => {
            let dummy = Player::create_dummy();
            append_decimal(text, dummy.get_sr(position));
            text.append(" - ");
            text.append(dummy.name.as_str());
        },
    }
    text.append("\n");
    proof {
        assert(text@ =~= before + slot_line(label@, *slot, position));
    }
}

/// Appends the names of the two players to `text`, in the order of names.
pub(crate) fn append_sorted_pair(text: &mut String, first: &Player, second: &Player)
    ensures
        final(text)@ == old(text)@ + sorted_pair(first.name@, second.name@),
{
    let ghost before = text@;
    if comes_before(second.name.as_str(), first.name.as_str()) {
        text.append(second.name.as_str());
        text.append(",");
        text.append(first.name.as_str());
        text.append(",");
    } else {
        text.append(first.name.as_str());
        text.append(",");
        text.append(second.name.as_str());
        text.append(",");
    }
    proof {
        assert(text@ =~= before + sorted_pair(first.name@, second.name@));
    }
}

impl Team {
    /// A team with every slot filled.
    pub fn new(
        name: String,
        tank_1: Player,
        tank_2: Player,
        damage_1: Player,
        damage_2: Player,
        support_1: Player,
        support_2: Player,
    ) -> (team: Team)
        ensures
            team.name == name,
            team.tank_1 == Some(tank_1),
            team.tank_2 == Some(tank_2),
            team.damage_1 == Some(damage_1),
            team.damage_2 == Some(damage_2),
            team.support_1 == Some(support_1),
            team.support_2 == Some(support_2),
    {
        Team {
            name,
            tank_1: Some(tank_1),
            tank_2: Some(tank_2),
            damage_1: Some(damage_1),
            damage_2: Some(damage_2),
            support_1: Some(support_1),
            support_2: Some(support_2),
        }
    }

    /// Every slot holds a player.
    pub open spec fn is_complete(&self) -> bool {
        &&& self.tank_1 is Some
        &&& self.tank_2 is Some
        &&& self.damage_1 is Some
        &&& self.damage_2 is Some
        &&& self.support_1 is Some
        &&& self.support_2 is Some
    }

    /// The slots in their order: tanks, damage players, supports.
    pub open spec fn slots(&self) -> Seq<Option<Player>> {
        seq![
            self.tank_1,
            self.tank_2,
            self.damage_1,
            self.damage_2,
            self.support_1,
            self.support_2,
        ]
    }

    /// The players of a complete team, in the order of the slots.
    pub open spec fn players(&self) -> Seq<Player> {
        seq![
            self.tank_1->0,
            self.tank_2->0,
            self.damage_1->0,
            self.damage_2->0,
            self.support_1->0,
            self.support_2->0,
        ]
    }

    /// The ratings that count for a complete team: of each player, the one
    /// in the role that the player fills.
    pub open spec fn player_srs(&self) -> Seq<i16> {
        seq![
            self.tank_1->0.tank_sr,
            self.tank_2->0.tank_sr,
            self.damage_1->0.damage_sr,
            self.damage_2->0.damage_sr,
            self.support_1->0.support_sr,
            self.support_2->0.support_sr,
        ]
    }

    /// The ratings that count for the team, in the order of the slots.
    ///
    /// Fails where a slot is empty.
    pub fn get_all_player_srs(&self) -> (srs: Result<Vec<i16>, MissingPlayer>)
        ensures
            srs is Ok == self.is_complete(),
            srs matches Ok(all) ==> all@ == self.player_srs(),
    {
        match (
            &self.tank_1,
            &self.tank_2,
            &self.damage_1,
            &self.damage_2,
            &self.support_1,
            &self.support_2,
        ) {
            (Some(tank_1), Some(tank_2), Some(damage_1), Some(damage_2), Some(support_1), Some(support_2)) => {
                let mut all_player_srs: Vec<i16> = Vec::new();
                all_player_srs.push(tank_1.get_sr(Position::Tank));
                all_player_srs.push(tank_2.get_sr(Position::Tank));
                all_player_srs.push(damage_1.get_sr(Position::Damage));
                all_player_srs.push(damage_2.get_sr(Position::Damage));
                all_player_srs.push(support_1.get_sr(Position::Support));
                all_player_srs.push(support_2.get_sr(Position::Support));
                proof {
                    assert(all_player_srs@ =~= self.player_srs());
                }
                Ok(all_player_srs)
            },
            _ => Err(MissingPlayer {  }),
        }
    }

    /// The players of the team, in the order of the slots.
    ///
    /// Fails where a slot is empty.
    pub fn get_all_players(&self) -> (players: Result<Vec<Player>, MissingPlayer>)
        ensures
            players is Ok == self.is_complete(),
            players matches Ok(all) ==> all@ == self.players(),
    {
        match (
            &self.tank_1,
            &self.tank_2,
            &self.damage_1,
            &self.damage_2,
            &self.support_1,
            &self.support_2,
        ) {
            (Some(tank_1), Some(tank_2), Some(damage_1), Some(damage_2), Some(support_1), Some(support_2)) => {
                let mut all_players: Vec<Player> = Vec::new();
                all_players.push(tank_1.clone());
                all_players.push(tank_2.clone());
                all_players.push(damage_1.clone());
                all_players.push(damage_2.clone());
                all_players.push(support_1.clone());
                all_players.push(support_2.clone());
                proof {
                    assert(all_players@ =~= self.players());
                }
                Ok(all_players)
            },
            _ => Err(MissingPlayer {  }),
        }
    }

    /// The team's description: its name, the two statistics as they were
    /// handed in, and a line for each slot.
    pub open spec fn full_text(&self, average_sr: Seq<char>, standard_deviation: Seq<char>) -> Seq<
        char,
    > {
        "Team "@ + self.name@ + "\n"@ + "Average SR "@ + average_sr + "\n"@
            + "Standard deviation "@ + standard_deviation + "\n"@ + slot_line(
            "Tank:    "@,
            self.tank_1,
            Position::Tank,
        ) + slot_line("Tank:    "@, self.tank_2, Position::Tank) + slot_line(
            "Damage:  "@,
            self.damage_1,
            Position::Damage,
        ) + slot_line("Damage:  "@, self.damage_2, Position::Damage) + slot_line(
            "Support: "@,
            self.support_1,
            Position::Support,
        ) + slot_line("Support: "@, self.support_2, Position::Support)
    }

    /// The team's description. The average rating and the standard
    /// deviation are not computed here: the caller hands them in as they
    /// are to be printed.
    pub fn to_full_String(&self, average_sr: &str, standard_deviation: &str) -> (text: String)
        ensures
            text@ == self.full_text(average_sr@, standard_deviation@),
    {
        let mut s = String::new();
        s.append("Team ");
        s.append(self.name.as_str());
        s.append("\n");
        s.append("Average SR ");
        s.append(average_sr);
        s.append("\n");
        s.append("Standard deviation ");
        s.append(standard_deviation);
        s.append("\n");
        let ghost head = s@;
        proof {
            assert(head =~= "Team "@ + self.name@ + "\n"@ + "Average SR "@ + average_sr@ + "\n"@
                + "Standard deviation "@ + standard_deviation@ + "\n"@);
        }
        append_slot_line(&mut s, "Tank:    ", &self.tank_1, Position::Tank);
        append_slot_line(&mut s, "Tank:    ", &self.tank_2, Position::Tank);
        append_slot_line(&mut s, "Damage:  ", &self.damage_1, Position::Damage);
        append_slot_line(&mut s, "Damage:  ", &self.damage_2, Position::Damage);
        append_slot_line(&mut s, "Support: ", &self.support_1, Position::Support);
        append_slot_line(&mut s, "Support: ", &self.support_2, Position::Support);
        s
    }

    /// The names of a complete team, role by role, each followed by a
    /// comma, and the two names of a role in the order of names.
    pub open spec fn id_text(&self) -> Seq<char> {
        sorted_pair(self.tank_1->0.name@, self.tank_2->0.name@) + sorted_pair(
            self.damage_1->0.name@,
            self.damage_2->0.name@,
        ) + sorted_pair(self.support_1->0.name@, self.support_2->0.name@)
    }

    /// A text that names the team's players and does not depend on the
    /// order of the two players of a role.
    ///
    /// Fails where a slot is empty.
    pub fn get_ID(&self) -> (id: Result<String, MissingPlayer>)
        ensures
            id is Ok == self.is_complete(),
            id matches Ok(text) ==> text@ == self.id_text(),
    {
        match (
            &self.tank_1,
            &self.tank_2,
            &self.damage_1,
            &self.damage_2,
            &self.support_1,
            &self.support_2,
        ) {
            (Some(tank_1), Some(tank_2), Some(damage_1), Some(damage_2), Some(support_1), Some(support_2)) => {
                let mut s = String::new();
                append_sorted_pair(&mut s, tank_1, tank_2);
                append_sorted_pair(&mut s, damage_1, damage_2);
                append_sorted_pair(&mut s, support_1, support_2);
                Ok(s)
            },
            _ => Err(MissingPlayer {  }),
        }
    }
}

} // verus!
