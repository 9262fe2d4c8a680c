//! A team of five: one tank, two damage players, two supports.

use crate::player::Player;
use crate::team::{
    append_slot_line, append_sorted_pair, copy_slot, slot_line, sorted_pair,
};
use crate::types::Position;
use vstd::prelude::*;

verus! {

/// Five players under a name: one tank, two damage players, two supports.
#[derive(Debug, PartialEq)]
pub struct OW2Team {
    pub name: String,
    pub tank: Option<Player>,
    pub damage_1: Option<Player>,
    pub damage_2: Option<Player>,
    pub support_1: Option<Player>,
    pub support_2: Option<Player>,
}

impl Clone for OW2Team {
    fn clone(&self) -> (copy: Self)
        ensures
            copy == *self,
    {
        OW2Team {
            name: self.name.clone(),
            tank: copy_slot(&self.tank),
            damage_1: copy_slot(&self.damage_1),
            damage_2: copy_slot(&self.damage_2),
            support_1: copy_slot(&self.support_1),
            support_2: copy_slot(&self.support_2),
        }
    }
}

impl OW2Team {
    /// A team with every slot filled.
    pub fn new(
        name: String,
        tank: Player,
        damage_1: Player,
        damage_2: Player,
        support_1: Player,
        support_2: Player,
    ) -> (team: OW2Team)
        ensures
            team.name == name,
            team.tank == Some(tank),
            team.damage_1 == Some(damage_1),
            team.damage_2 == Some(damage_2),
            team.support_1 == Some(support_1),
            team.support_2 == Some(support_2),
    {
        OW2Team {
            name,
            tank: Some(tank),
            damage_1: Some(damage_1),
            damage_2: Some(damage_2),
            support_1: Some(support_1),
            support_2: Some(support_2),
        }
    }

    /// Every slot holds a player.
    pub open spec fn is_complete(&self) -> bool {
        &&& self.tank is Some
        &&& self.damage_1 is Some
        &&& self.damage_2 is Some
        &&& self.support_1 is Some
        &&& self.support_2 is Some
    }

    /// The players of a complete team, in the order of the slots.
    pub open spec fn players(&self) -> Seq<Player> {
        seq![
            self.tank->0,
            self.damage_1->0,
            self.damage_2->0,
            self.support_1->0,
            self.support_2->0,
        ]
    }

    /// The ratings that count for a complete team: of each player, the one
    /// in the role that the player fills.
    pub open spec fn player_srs(&self) -> Seq<i16> {
        seq![
            self.tank->0.tank_sr,
            self.damage_1->0.damage_sr,
            self.damage_2->0.damage_sr,
            self.support_1->0.support_sr,
            self.support_2->0.support_sr,
        ]
    }

    /// The ratings that count for the team, in the order of the slots.
    pub fn get_all_player_srs(&self) -> (srs: Vec<i16>)
        requires
            self.is_complete(),
        ensures
            srs@ == self.player_srs(),
    {
        let mut all_player_srs: Vec<i16> = Vec::new();
        all_player_srs.push(self.tank.as_ref().unwrap().get_sr(Position::Tank));
        all_player_srs.push(self.damage_1.as_ref().unwrap().get_sr(Position::Damage));
        all_player_srs.push(self.damage_2.as_ref().unwrap().get_sr(Position::Damage));
        all_player_srs.push(self.support_1.as_ref().unwrap().get_sr(Position::Support));
        all_player_srs.push(self.support_2.as_ref().unwrap().get_sr(Position::Support));
        proof {
            assert(all_player_srs@ =~= self.player_srs());
        }
        all_player_srs
    }

    /// The players of the team, in the order of the slots.
    pub fn _get_all_players(&self) -> (players: Vec<Player>)
        requires
            self.is_complete(),
        ensures
            players@ == self.players(),
    {
        let mut all_players: Vec<Player> = Vec::new();
        all_players.push(self.tank.as_ref().unwrap().clone());
        all_players.push(self.damage_1.as_ref().unwrap().clone());
        all_players.push(self.damage_2.as_ref().unwrap().clone());
        all_players.push(self.support_1.as_ref().unwrap().clone());
        all_players.push(self.support_2.as_ref().unwrap().clone());
        proof {
            assert(all_players@ =~= self.players());
        }
        all_players
    }

    /// The team's description: its name, the two statistics as they were
    /// handed in, and a line for each slot.
    pub open spec fn full_text(&self, average_sr: Seq<char>, standard_deviation: Seq<char>) -> Seq<
        char,
    > {
        "OW2Team "@ + self.name@ + "\n"@ + "Average SR "@ + average_sr + "\n"@
            + "Standard deviation "@ + standard_deviation + "\n"@ + slot_line(
            "Tank:    "@,
            self.tank,
            Position::Tank,
        ) + slot_line("Damage:  "@, self.damage_1, Position::Damage) + slot_line(
            "Damage:  "@,
            self.damage_2,
            Position::Damage,
        ) + slot_line("Support: "@, self.support_1, Position::Support) + slot_line(
            "Support: "@,
            self.support_2,
            Position::Support,
        )
    }

    /// The team's description. The average rating and the standard
    /// deviation are not computed here: the caller hands them in as they
    /// are to be printed.
    pub fn _to_full_string(&self, average_sr: &str, standard_deviation: &str) -> (text: String)
        ensures
            text@ == self.full_text(average_sr@, standard_deviation@),
    {
        let mut s = String::new();
        s.append("OW2Team ");
        s.append(self.name.as_str());
        s.append("\n");
        s.append("Average SR ");
        s.append(average_sr);
        s.append("\n");
        s.append("Standard deviation ");
        s.append(standard_deviation);
        s.append("\n");
        let ghost head = s@;
        proof {
            assert(head =~= "OW2Team "@ + self.name@ + "\n"@ + "Average SR "@ + average_sr@ + "\n"@
                + "Standard deviation "@ + standard_deviation@ + "\n"@);
        }
        append_slot_line(&mut s, "Tank:    ", &self.tank, Position::Tank);
        append_slot_line(&mut s, "Damage:  ", &self.damage_1, Position::Damage);
        append_slot_line(&mut s, "Damage:  ", &self.damage_2, Position::Damage);
        append_slot_line(&mut s, "Support: ", &self.support_1, Position::Support);
        append_slot_line(&mut s, "Support: ", &self.support_2, Position::Support);
        s
    }

    /// The names of a complete team, role by role, each followed by a
    /// comma, and the two names of a role in the order of names.
    pub open spec fn id_text(&self) -> Seq<char> {
        self.tank->0.name@ + ","@ + sorted_pair(self.damage_1->0.name@, self.damage_2->0.name@)
            + sorted_pair(self.support_1->0.name@, self.support_2->0.name@)
    }

    /// A text that names the team's players and does not depend on the
    /// order of the two players of a role.
    pub fn _get_id(&self) -> (id: String)
        requires
            self.is_complete(),
        ensures
            id@ == self.id_text(),
    {
        let mut s = String::new();
        s.append(self.tank.as_ref().unwrap().name.as_str());
        s.append(",");
        let ghost head = s@;
        proof {
            assert(head =~= self.tank->0.name@ + ","@);
        }
        append_sorted_pair(
            &mut s,
            self.damage_1.as_ref().unwrap(),
            self.damage_2.as_ref().unwrap(),
        );
        append_sorted_pair(
            &mut s,
            self.support_1.as_ref().unwrap(),
            self.support_2.as_ref().unwrap(),
        );
        s
    }
}

} // verus!
