//! Team building for practice matches: a pool of players, each with a skill
//! rating per role, is split into teams of six (two players per role), and
//! the candidate splits are ranked by how evenly skill is spread.
//!
//! The way from a roster to a ranking:
//!
//! - `roster` reads the players and gives each an identifier;
//! - `duos` pairs the players who are eligible for a role;
//! - `role_combinations` chooses, for one role, a duo for every team;
//! - `joiner` puts a combination of each role together to a lineup in which
//!   no player occurs twice, and `generate` does all of this for a roster;
//! - `slots` hands the duos of a lineup to teams in every possible way;
//! - `resolve` finds the players behind the identifiers, so that the caller
//!   can rate the balance of the teams;
//! - `search` keeps, for each worker, the candidates near the best it has
//!   seen, and ranks what all workers kept; `coordinator` leads a search
//!   through its phases.
//!
//! The rating itself is computed outside this library, in floating point,
//! and handed in with each candidate.

pub mod change;
pub mod combinatorics;
pub mod coordinator;
pub mod duos;
mod external;
pub mod error;
pub mod generate;
pub mod generate_ow2;
pub mod joiner;
pub mod lineup;
pub mod matchup;
pub mod matchup_ow2;
pub mod player;
pub mod resolve;
pub mod role_combinations;
pub mod roster;
pub mod search;
pub mod sequences;
pub mod slots;
pub mod team;
pub mod team_ow2;
pub mod text;
pub mod types;

pub use change::Change;
pub use matchup::Matchup;
pub use matchup_ow2::OW2Matchup;
pub use player::Player;
pub use team::Team;
pub use team_ow2::OW2Team;
pub use types::Position;
