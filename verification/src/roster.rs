//! The roster: the players of a run, each known to the rest of the library
//! by an identifier.

use crate::duos::PlayerId;
use crate::error::{ConfigError, LookupError};
use crate::player::{describes, parse_error, Player};
use vstd::prelude::*;

verus! {

/// The most players that a roster can hold: one for each identifier.
pub const MAX_PLAYERS: usize = 255;

/// The number of players on a team.
pub const TEAM_SIZE: usize = 6;

/// The players of a run. A player's identifier is the player's place in the
/// roster, counted from 1.
#[derive(Debug)]
pub struct Roster {
    players: Vec<Player>,
}

impl View for Roster {
    type V = Seq<Player>;

    closed spec fn view(&self) -> Seq<Player> {
        self.players@
    }
}

/// `id` names a player among `players`.
pub open spec fn names_player(players: Seq<Player>, id: PlayerId) -> bool {
    1 <= id <= players.len()
}

/// The player that `id` names.
pub open spec fn player_of(players: Seq<Player>, id: PlayerId) -> Player {
    players[id - 1]
}

/// The number of teams that the players fill: a sixth of their number.
pub open spec fn teams_of(number_of_players: nat) -> nat {
    number_of_players / (TEAM_SIZE as nat)
}

impl Roster {
    #[verifier::type_invariant]
    spec fn fits_identifiers(self) -> bool {
        self.players.len() <= MAX_PLAYERS
    }

    /// A roster of the players, in their order.
    ///
    /// Fails where there are more players than identifiers.
    pub fn new(players: Vec<Player>) -> (made: Result<Roster, ConfigError>)
        ensures
            match made {
                Ok(roster) => players.len() <= MAX_PLAYERS && roster@ == players@,
                Err(error) => players.len() > MAX_PLAYERS && error == ConfigError::TooManyPlayers,
            },
    {
        if players.len() > MAX_PLAYERS {
            Err(ConfigError::TooManyPlayers)
        } else {
            Ok(Roster { players })
        }
    }

    /// The number of players.
    pub fn len(&self) -> (count: usize)
        ensures
            count == self@.len(),
            count <= MAX_PLAYERS,
    {
        proof {
            use_type_invariant(self);
        }
        self.players.len()
    }

    /// The player that `id` names.
    ///
    /// Fails where `id` names no player.
    pub fn get(&self, id: PlayerId) -> (found: Result<&Player, LookupError>)
        ensures
            match found {
                Ok(player) => names_player(self@, id) && *player == player_of(self@, id),
                Err(error) => !names_player(self@, id) && error == (LookupError { id }),
            },
    {
        if id == 0 || id as usize > self.players.len() {
            Err(LookupError { id })
        } else {
            Ok(&self.players[(id - 1) as usize])
        }
    }

    /// The number of teams that the roster fills.
    ///
    /// Fails where the players cannot all be put in teams of six.
    pub fn number_of_teams(&self) -> (teams: Result<usize, ConfigError>)
        ensures
            match teams {
                Ok(count) => self@.len() % TEAM_SIZE as nat == 0 && count == teams_of(self@.len()),
                Err(error) => self@.len() % TEAM_SIZE as nat != 0 && error
                    == ConfigError::RosterNotDivisibleBySix,
            },
    {
        if self.players.len() % TEAM_SIZE != 0 {
            Err(ConfigError::RosterNotDivisibleBySix)
        } else {
            Ok(self.players.len() / TEAM_SIZE)
        }
    }
}

/// The texts of the lines.
pub open spec fn texts(lines: Seq<String>) -> Seq<Seq<char>> {
    Seq::new(lines.len(), |i: int| lines[i]@)
}

/// The line is a comment: it begins with `#`.
pub open spec fn is_comment(line: Seq<char>) -> bool {
    line.len() > 0 && line[0] == '#'
}

/// Picks the lines that describe a player.
pub open spec fn is_player_line() -> spec_fn(Seq<char>) -> bool {
    |line: Seq<char>| !is_comment(line) && parse_error(line) is None
}

/// Picks the places of the lines that are neither a comment nor the
/// description of a player.
pub open spec fn is_rejected(lines: Seq<Seq<char>>) -> spec_fn(int) -> bool {
    |at: int| !is_comment(lines[at]) && parse_error(lines[at]) is Some
}

/// The lines that describe a player, in their order.
pub open spec fn player_lines(lines: Seq<Seq<char>>) -> Seq<Seq<char>> {
    lines.filter(is_player_line())
}

/// The places of the lines that were skipped though they are no comments,
/// in ascending order.
pub open spec fn rejected_lines(lines: Seq<Seq<char>>) -> Seq<int> {
    Seq::new(lines.len(), |at: int| at).filter(is_rejected(lines))
}

/// What reading a roster text gives: the players, or why there is no roster,
/// and the places of the lines that were skipped.
pub struct RosterReading {
    pub roster: Result<Roster, ConfigError>,
    pub rejected: Vec<usize>,
}

fn starts_comment(line: &str) -> (comment: bool)
    ensures
        comment == is_comment(line@),
{
    if line.unicode_len() == 0 {
        false
    } else {
        line.get_char(0) == '#'
    }
}

/// The roster that the lines describe. A line that begins with `#` is a
/// comment. Of the other lines, each that describes a player adds that
/// player to the roster, and each that does not is skipped and reported by
/// its place.
///
/// There is no roster where the lines describe more players than there are
/// identifiers.
pub fn read_players(lines: &Vec<String>) -> (reading: RosterReading)
    ensures
        match reading.roster {
            Ok(roster) => {
                &&& player_lines(texts(lines@)).len() <= MAX_PLAYERS
                &&& roster@.len() == player_lines(texts(lines@)).len()
                &&& forall|k: int|
                    0 <= k < roster@.len() ==> describes(
                        player_lines(texts(lines@))[k],
                        #[trigger] roster@[k],
                    )
            },
            Err(error) => player_lines(texts(lines@)).len() > MAX_PLAYERS && error
                == ConfigError::TooManyPlayers,
        },
        reading.rejected@.len() == rejected_lines(texts(lines@)).len(),
        forall|k: int|
            0 <= k < reading.rejected@.len() ==> #[trigger] reading.rejected@[k] == rejected_lines(
                texts(lines@),
            )[k],
{
    let ghost all = texts(lines@);
    let ghost places = Seq::new(all.len(), |at: int| at);
    let mut players: Vec<Player> = Vec::new();
    let mut rejected: Vec<usize> = Vec::new();
    let mut at: usize = 0;
    proof {
        reveal(Seq::filter);
        assert(all.take(0).filter(is_player_line()) =~= Seq::<Seq<char>>::empty());
        assert(places.take(0).filter(is_rejected(all)) =~= Seq::<int>::empty());
    }
    while at < lines.len()
        invariant
            at <= lines.len(),
            all == texts(lines@),
            places == Seq::new(all.len(), |at: int| at),
            players.len() == all.take(at as int).filter(is_player_line()).len(),
            forall|k: int|
                0 <= k < players.len() ==> describes(
                    all.take(at as int).filter(is_player_line())[k],
                    #[trigger] players[k],
                ),
            rejected.len() == places.take(at as int).filter(is_rejected(all)).len(),
            forall|k: int|
                0 <= k < rejected.len() ==> #[trigger] rejected[k] == places.take(at as int).filter(
                    is_rejected(all),
                )[k],
        decreases lines.len() - at,
    {
        proof {
            all.lemma_take_succ_push(at as int);
            all.take(at as int).lemma_filter_push(all[at as int], is_player_line());
            places.lemma_take_succ_push(at as int);
            places.take(at as int).lemma_filter_push(places[at as int], is_rejected(all));
            assert(all[at as int] == lines[at as int]@);
        }
        if !starts_comment(lines[at].as_str()) {
            match Player::new(lines[at].clone()) {
                Ok(player) => {
                    players.push(player);
                },
                Err(_) => {
                    rejected.push(at);
                },
            }
        }
        at += 1;
    }
    proof {
        assert(all.take(lines.len() as int) =~= all);
        assert(places.take(lines.len() as int) =~= places);
    }
    RosterReading { roster: Roster::new(players), rejected }
}

} // verus!
