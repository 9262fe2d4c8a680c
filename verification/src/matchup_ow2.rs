//! A scrim candidate of teams of five: the teams by the identifiers of
//! their players, and the balance rating that the teams were given.

use crate::duos::PlayerId;
use crate::search::Rated;
use vstd::prelude::*;

verus! {

/// How many teams meet in a scrim.
#[derive(Debug, Clone, Copy, PartialEq, Eq, Structural)]
pub enum MatchupKind {
    TwoWayScrim,
    ThreeWayScrim,
}

/// A team of five by name and by the identifiers of its players.
#[derive(Debug, PartialEq, Eq)]
pub struct OW2TeamSlots {
    pub name: String,
    pub tank: PlayerId,
    pub damage_1: PlayerId,
    pub damage_2: PlayerId,
    pub support_1: PlayerId,
    pub support_2: PlayerId,
}

impl Clone for OW2TeamSlots {
    fn clone(&self) -> (copy: Self)
        ensures
            copy == *self,
    {
        OW2TeamSlots {
            name: self.name.clone(),
            tank: self.tank,
            damage_1: self.damage_1,
            damage_2: self.damage_2,
            support_1: self.support_1,
            support_2: self.support_2,
        }
    }
}

impl OW2TeamSlots {
    /// The five players: tank, damage players, supports.
    pub open spec fn player_ids(self) -> Seq<PlayerId> {
        seq![self.tank, self.damage_1, self.damage_2, self.support_1, self.support_2]
    }
}

/// Teams of five with the rating of their balance. A lower rating is a
/// better balance.
#[derive(Debug, PartialEq, Eq)]
pub struct OW2Matchup {
    pub kind: MatchupKind,
    pub teams: Vec<OW2TeamSlots>,
    pub rating: i16,
}

/// Two teams make a two-way scrim; any other number counts as a three-way
/// scrim.
pub open spec fn kind_of(number_of_teams: nat) -> MatchupKind {
    if number_of_teams == 2 {
        MatchupKind::TwoWayScrim
    } else {
        MatchupKind::ThreeWayScrim
    }
}

impl OW2Matchup {
    /// The teams with their rating.
    pub fn new(teams: Vec<OW2TeamSlots>, rating: i16) -> (matchup: OW2Matchup)
        ensures
            matchup.teams == teams,
            matchup.rating == rating,
            matchup.kind == kind_of(teams@.len()),
    {
        let kind = if teams.len() == 2 {
            MatchupKind::TwoWayScrim
        } else {
            MatchupKind::ThreeWayScrim
        };
        OW2Matchup { kind, teams, rating }
    }
}

impl Rated for OW2Matchup {
    open spec fn rating(&self) -> i16 {
        self.rating
    }

    fn get_rating(&self) -> (rating: i16) {
        self.rating
    }
}

} // verus!
