//! Lineups: for each role, the duos that staff the teams, before a duo is
//! given to a team.

use crate::duos::{duo_ids, Duo, PlayerId};
use vstd::prelude::*;

verus! {

/// A matchup before its duos are given to teams: one role combination per
/// role. A lineup that the generator hands out names every one of its
/// players once, whatever roles the player could fill.
#[derive(Debug, PartialEq, Eq)]
pub struct Lineup {
    pub tanks: Vec<Duo>,
    pub damage: Vec<Duo>,
    pub supports: Vec<Duo>,
}

/// What a lineup holds, as sequences.
pub struct LineupView {
    pub tanks: Seq<Duo>,
    pub damage: Seq<Duo>,
    pub supports: Seq<Duo>,
}

impl LineupView {
    /// The players of the lineup: the tanks, then the damage players, then
    /// the supports.
    pub open spec fn player_ids(self) -> Seq<PlayerId> {
        duo_ids(self.tanks) + duo_ids(self.damage) + duo_ids(self.supports)
    }

    /// No player has two places in the lineup.
    pub open spec fn is_disjoint(self) -> bool {
        self.player_ids().no_duplicates()
    }

    /// Every role is staffed for `n` teams.
    pub open spec fn staffs(self, n: nat) -> bool {
        &&& self.tanks.len() == n
        &&& self.damage.len() == n
        &&& self.supports.len() == n
    }
}

impl View for Lineup {
    type V = LineupView;

    open spec fn view(&self) -> LineupView {
        LineupView { tanks: self.tanks@, damage: self.damage@, supports: self.supports@ }
    }
}

/// The lineups of a vector, each by its view.
pub open spec fn lineup_views(lineups: Vec<Lineup>) -> Seq<LineupView> {
    Seq::new(lineups@.len(), |i: int| lineups@[i]@)
}

/// A copy of the duos.
pub fn copy_duos(duos: &Vec<Duo>) -> (copy: Vec<Duo>)
    ensures
        copy@ == duos@,
{
    let mut copy: Vec<Duo> = Vec::new();
    let mut i: usize = 0;
    while i < duos.len()
        invariant
            i <= duos.len(),
            copy@ == duos@.take(i as int),
        decreases duos.len() - i,
    {
        copy.push(duos[i]);
        i += 1;
        proof {
            assert(copy@ =~= duos@.take(i as int));
        }
    }
    proof {
        assert(duos@.take(duos.len() as int) =~= duos@);
    }
    copy
}

impl Clone for Lineup {
    fn clone(&self) -> (copy: Self)
        ensures
            copy@ == self@,
    {
        Lineup {
            tanks: copy_duos(&self.tanks),
            damage: copy_duos(&self.damage),
            supports: copy_duos(&self.supports),
        }
    }
}

/// A disjoint lineup for `n` teams names `6 * n` players, all different.
pub proof fn lemma_disjoint_lineup_size(lineup: LineupView, n: nat)
    requires
        lineup.staffs(n),
        lineup.is_disjoint(),
    ensures
        lineup.player_ids().len() == 6 * n,
        lineup.player_ids().to_set().len() == 6 * n,
{
    lineup.player_ids().unique_seq_to_set();
}

} // verus!
