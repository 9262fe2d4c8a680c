//! A player: a display name, one skill rating per role, and the roles the
//! player is willing to fill.

use crate::error::ParseError;
use crate::text::{
    chars_of, fields, has_char, parse_rating, rating_of, split_fields,
};
use crate::types::Position;
use vstd::prelude::*;

verus! {

/// A player of the roster. The ratings and the eligibility are set when the
/// roster is read and do not change.
#[derive(Debug, PartialEq)]
pub struct Player {
    pub name: String,
    pub tank_sr: i16,
    pub damage_sr: i16,
    pub support_sr: i16,
    pub plays_tank: bool,
    pub plays_damage: bool,
    pub plays_support: bool,
}

impl Clone for Player {
    fn clone(&self) -> (copy: Self)
        ensures
            copy == *self,
    {
        Player {
            name: self.name.clone(),
            tank_sr: self.tank_sr,
            damage_sr: self.damage_sr,
            support_sr: self.support_sr,
            plays_tank: self.plays_tank,
            plays_damage: self.plays_damage,
            plays_support: self.plays_support,
        }
    }
}

/// The word that stands for a truth value.
pub open spec fn bool_text(value: bool) -> Seq<char> {
    if value {
        "true"@
    } else {
        "false"@
    }
}

fn append_bool(text: &mut String, value: bool)
    ensures
        final(text)@ == old(text)@ + bool_text(value),
{
    if value {
        text.append("true");
    } else {
        text.append("false");
    }
}

/// What keeps a line from describing a player, if anything does.
pub open spec fn parse_error(line: Seq<char>) -> Option<ParseError> {
    let found = fields(line);
    if found.len() < 5 {
        Some(ParseError::TooFewFields)
    } else if rating_of(found[1]) is None || rating_of(found[2]) is None || rating_of(found[3])
        is None {
        Some(ParseError::BadRating)
    } else {
        None
    }
}

/// The line describes the player: its fields are the name, the ratings as
/// tank, as damage player and as support, and the roles, where `t`, `d` and
/// `s` each mark a role for which the player is eligible. Fields after the
/// fifth do not count.
pub open spec fn describes(line: Seq<char>, player: Player) -> bool {
    let found = fields(line);
    &&& found.len() >= 5
    &&& player.name@ == found[0]
    &&& rating_of(found[1]) == Some(player.tank_sr)
    &&& rating_of(found[2]) == Some(player.damage_sr)
    &&& rating_of(found[3]) == Some(player.support_sr)
    &&& player.plays_tank == found[4].contains('t')
    &&& player.plays_damage == found[4].contains('d')
    &&& player.plays_support == found[4].contains('s')
}

impl Player {
    /// The player that a line of the roster text describes.
    ///
    /// Fails where the line has fewer than five fields, or where one of its
    /// ratings is not a number that a rating can hold.
    pub fn new(player_string: String) -> (parsed: Result<Player, ParseError>)
        ensures
            match parsed {
                Ok(player) => parse_error(player_string@) is None && describes(
                    player_string@,
                    player,
                ),
                Err(error) => parse_error(player_string@) == Some(error),
            },
    {
        let line = chars_of(player_string.as_str());
        let split = split_fields(&line);
        if split.len() < 5 {
            return Err(ParseError::TooFewFields);
        }
        proof {
            assert(crate::text::bounded(line@, split[0]) == fields(line@)[0]);
            assert(crate::text::bounded(line@, split[1]) == fields(line@)[1]);
            assert(crate::text::bounded(line@, split[2]) == fields(line@)[2]);
            assert(crate::text::bounded(line@, split[3]) == fields(line@)[3]);
            assert(crate::text::bounded(line@, split[4]) == fields(line@)[4]);
        }
        let tank_sr = parse_rating(&line, split[1].0, split[1].1);
        let damage_sr = parse_rating(&line, split[2].0, split[2].1);
        let support_sr = parse_rating(&line, split[3].0, split[3].1);
        match (tank_sr, damage_sr, support_sr) {
            (Some(tank_sr), Some(damage_sr), Some(support_sr)) => {
                let name = String::from_str(
                    player_string.as_str().substring_char(split[0].0, split[0].1),
                );
                Ok(
                    Player {
                        name,
                        tank_sr,
                        damage_sr,
                        support_sr,
                        plays_tank: has_char(&line, split[4].0, split[4].1, 't'),
                        plays_damage: has_char(&line, split[4].0, split[4].1, 'd'),
                        plays_support: has_char(&line, split[4].0, split[4].1, 's'),
                    },
                )
            },
            _ => Err(ParseError::BadRating),
        }
    }

    /// The name that stands where a player is missing.
    pub open spec fn dummy_name() -> Seq<char> {
        "---"@
    }

    /// A stand-in for a missing player: rated 0 and eligible for nothing.
    pub fn create_dummy() -> (dummy: Player)
        ensures
            dummy.name@ == Self::dummy_name(),
            dummy.tank_sr == 0,
            dummy.damage_sr == 0,
            dummy.support_sr == 0,
            !dummy.plays_tank,
            !dummy.plays_damage,
            !dummy.plays_support,
    {
        Player {
            name: String::from_str("---"),
            tank_sr: 0,
            damage_sr: 0,
            support_sr: 0,
            plays_tank: false,
            plays_damage: false,
            plays_support: false,
        }
    }

    /// The player's name on a line, and on a line each whether the player
    /// is eligible for a role.
    pub open spec fn description(&self) -> Seq<char> {
        self.name@ + "\n"@ + "plays_tank: "@ + bool_text(self.plays_tank) + "\n"@
            + "plays_damage: "@ + bool_text(self.plays_damage) + "\n"@ + "plays_support: "@
            + bool_text(self.plays_support) + "\n"@
    }

    /// The player's description.
    pub fn to_string(&self) -> (text: String)
        ensures
            text@ == self.description(),
    {
        let mut s = String::new();
        s.append(self.name.as_str());
        s.append("\n");
        s.append("plays_tank: ");
        append_bool(&mut s, self.plays_tank);
        s.append("\n");
        s.append("plays_damage: ");
        append_bool(&mut s, self.plays_damage);
        s.append("\n");
        s.append("plays_support: ");
        append_bool(&mut s, self.plays_support);
        s.append("\n");
        proof {
            assert(s@ =~= self.description());
        }
        s
    }

    /// The rating this player has in `pos`.
    pub open spec fn sr(&self, pos: Position) -> i16 {
        match pos {
            Position::Tank => self.tank_sr,
            Position::Damage => self.damage_sr,
            Position::Support => self.support_sr,
        }
    }

    /// Whether this player is eligible for `pos`.
    pub open spec fn plays(&self, pos: Position) -> bool {
        match pos {
            Position::Tank => self.plays_tank,
            Position::Damage => self.plays_damage,
            Position::Support => self.plays_support,
        }
    }

    /// The rating this player has in `pos`.
    pub fn get_sr(&self, pos: Position) -> (sr: i16)
        ensures
            sr == self.sr(pos),
    {
        match pos {
            Position::Tank => self.tank_sr,
            Position::Damage => self.damage_sr,
            Position::Support => self.support_sr,
        }
    }

    /// Whether this player is eligible for `pos`.
    pub fn plays_position(&self, pos: Position) -> (plays: bool)
        ensures
            plays == self.plays(pos),
    {
        match pos {
            Position::Tank => self.plays_tank,
            Position::Damage => self.plays_damage,
            Position::Support => self.plays_support,
        }
    }
}

} // verus!
