//! What can go wrong.

use crate::duos::PlayerId;
use vstd::prelude::*;

verus! {

/// The run cannot start, or cannot go on, with what it was given.
#[derive(Debug, Clone, Copy, PartialEq, Eq, Structural)]
pub enum ConfigError {
    /// The number of players is not a multiple of six.
    RosterNotDivisibleBySix,
    /// There are more players than identifiers.
    TooManyPlayers,
    /// A lineup does not hold the same number of duos in each role.
    UnevenLineup,
    /// There are fewer team names than teams.
    MissingTeamNames,
    /// The work was to be split between no workers at all.
    NoWorkers,
}

/// A line of the roster text that does not describe a player.
#[derive(Debug, Clone, Copy, PartialEq, Eq, Structural)]
pub enum ParseError {
    /// The line has fewer than five fields.
    TooFewFields,
    /// One of the three ratings is not a number that a rating can hold.
    BadRating,
}

/// An identifier that names no player of the roster.
#[derive(Debug, Clone, Copy, PartialEq, Eq, Structural)]
pub struct LookupError {
    pub id: PlayerId,
}

} // verus!
