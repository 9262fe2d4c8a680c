//! A swap of two players between two teams.

use crate::player::Player;
use crate::team::Team;
use crate::types::Position;
use vstd::prelude::*;

verus! {

/// Two players who change places, the teams and roles they come from, and
/// what the swap does to the rating.
#[derive(Debug)]
pub struct Change {
    pub team_1: Team,
    pub team_2: Team,
    pub player_1: Player,
    pub player_2: Player,
    pub player_1_pos: Position,
    pub player_2_pos: Position,
    pub sr_change: i16,
}

} // verus!
