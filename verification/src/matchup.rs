//! A scrim candidate: the teams by the identifiers of their players, and the
//! balance rating that the teams were given.

use crate::duos::PlayerId;
use vstd::prelude::*;

verus! {

/// How many teams meet in a scrim.
#[derive(Debug, Clone, Copy, PartialEq, Eq, Structural)]
pub enum MatchupKind {
    TwoWayScrim,
    ThreeWayScrim,
}

/// A team by name and by the identifiers of its six players.
#[derive(Debug, PartialEq, Eq)]
pub struct TeamSlots {
    pub name: String,
    pub tank_1: PlayerId,
    pub tank_2: PlayerId,
    pub damage_1: PlayerId,
    pub damage_2: PlayerId,
    pub support_1: PlayerId,
    pub support_2: PlayerId,
}

impl Clone for TeamSlots {
    fn clone(&self) -> (copy: Self)
        ensures
            copy == *self,
    {
        TeamSlots {
            name: self.name.clone(),
            tank_1: self.tank_1,
            tank_2: self.tank_2,
            damage_1: self.damage_1,
            damage_2: self.damage_2,
            support_1: self.support_1,
            support_2: self.support_2,
        }
    }
}

impl TeamSlots {
    /// The six players: tanks, damage players, supports.
    pub open spec fn player_ids(self) -> Seq<PlayerId> {
        seq![
            self.tank_1,
            self.tank_2,
            self.damage_1,
            self.damage_2,
            self.support_1,
            self.support_2,
        ]
    }
}

/// A matchup with its duos given to teams, and the rating of the teams'
/// balance. A lower rating is a better balance.
#[derive(Debug, PartialEq, Eq)]
pub struct Matchup {
    pub kind: MatchupKind,
    pub teams: Vec<TeamSlots>,
    pub rating: i16,
}

/// Two teams make a two-way scrim; any other number counts as a three-way
/// scrim.
pub open spec fn kind_of(number_of_teams: nat) -> MatchupKind {
    if number_of_teams == 2 {
        MatchupKind::TwoWayScrim
    } else {
        MatchupKind::ThreeWayScrim
    }
}

impl Matchup {
    /// The teams with their rating.
    pub fn new(teams: Vec<TeamSlots>, rating: i16) -> (matchup: Matchup)
        ensures
            matchup.teams == teams,
            matchup.rating == rating,
            matchup.kind == kind_of(teams@.len()),
    {
        let kind = if teams.len() == 2 {
            MatchupKind::TwoWayScrim
        } else {
            MatchupKind::ThreeWayScrim
        };
        Matchup { kind, teams, rating }
    }
}

} // verus!
