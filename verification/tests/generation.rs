use scrim_maker::duos::{eligible_players, make_duos, make_pairs, role_duos, RoleDuos};
use scrim_maker::error::ConfigError;
use scrim_maker::generate::{create_matchups, roster_lineups, short_role};
use scrim_maker::joiner::{join_roles, join_tanks, pair_damage_support};
use scrim_maker::lineup::Lineup;
use scrim_maker::resolve::build_teams;
use scrim_maker::role_combinations::expand_role_combinations;
use scrim_maker::roster::Roster;
use scrim_maker::slots::{create_assignments, default_team_names};
use scrim_maker::{Player, Position};

fn player(name: &str, tank: i16, damage: i16, support: i16, roles: &str) -> Player {
    Player {
        name: name.to_string(),
        tank_sr: tank,
        damage_sr: damage,
        support_sr: support,
        plays_tank: roles.contains('t'),
        plays_damage: roles.contains('d'),
        plays_support: roles.contains('s'),
    }
}

fn roster(players: Vec<Player>) -> Roster {
    match Roster::new(players) {
        Ok(roster) => roster,
        Err(error) => panic!("no roster: {:?}", error),
    }
}

fn six_players() -> Roster {
    roster(vec![
        player("A", 3000, 0, 0, "t"),
        player("B", 2900, 0, 0, "t"),
        player("C", 0, 3100, 0, "d"),
        player("D", 0, 2950, 0, "d"),
        player("E", 0, 0, 3050, "s"),
        player("F", 0, 0, 2980, "s"),
    ])
}

fn all_ids(lineup: &Lineup) -> Vec<u8> {
    let mut ids = Vec::new();
    for duo in lineup.tanks.iter().chain(lineup.damage.iter()).chain(lineup.supports.iter()) {
        ids.push(duo.0);
        ids.push(duo.1);
    }
    ids
}

#[test]
fn eligible_players_are_listed_in_roster_order() {
    let players = roster(vec![
        player("A", 1, 1, 1, "t"),
        player("B", 1, 1, 1, "d"),
        player("C", 1, 1, 1, "ts"),
        player("D", 1, 1, 1, "tds"),
        player("E", 1, 1, 1, ""),
        player("F", 1, 1, 1, "s"),
    ]);
    assert_eq!(eligible_players(&players, Position::Tank), vec![1, 3, 4]);
    assert_eq!(eligible_players(&players, Position::Damage), vec![2, 4]);
    assert_eq!(eligible_players(&players, Position::Support), vec![3, 4, 6]);
}

#[test]
fn pairs_come_in_lexicographic_order() {
    assert_eq!(make_pairs(&vec![1, 3, 4]), vec![(1, 3), (1, 4), (3, 4)]);
    assert_eq!(make_pairs(&vec![2, 9]), vec![(2, 9)]);
    assert_eq!(make_pairs(&vec![2]), vec![]);
    assert_eq!(make_pairs(&vec![]), vec![]);
    assert_eq!(
        make_pairs(&vec![1, 2, 3, 4]),
        vec![(1, 2), (1, 3), (1, 4), (2, 3), (2, 4), (3, 4)]
    );
}

#[test]
fn duos_hold_two_different_eligible_players() {
    let players = roster(vec![
        player("A", 1, 1, 1, "t"),
        player("B", 1, 1, 1, "td"),
        player("C", 1, 1, 1, "ts"),
        player("D", 1, 1, 1, "tds"),
        player("E", 1, 1, 1, "d"),
        player("F", 1, 1, 1, "s"),
    ]);
    for position in [Position::Tank, Position::Damage, Position::Support] {
        let duos = role_duos(&players, position);
        for duo in &duos {
            assert_ne!(duo.0, duo.1);
            for id in [duo.0, duo.1] {
                match players.get(id) {
                    Ok(found) => assert!(found.plays_position(position)),
                    Err(error) => panic!("unknown player {:?}", error),
                }
            }
        }
    }
    assert_eq!(role_duos(&players, Position::Tank).len(), 6);
    assert_eq!(role_duos(&players, Position::Damage), vec![(2, 4), (2, 5), (4, 5)]);
    assert_eq!(role_duos(&players, Position::Support), vec![(3, 4), (3, 6), (4, 6)]);
}

#[test]
fn a_role_without_players_has_no_duos() {
    let players = roster(vec![player("A", 1, 1, 1, "t"), player("B", 1, 1, 1, "t")]);
    assert_eq!(role_duos(&players, Position::Damage), vec![]);
    let duos = make_duos(&players);
    assert_eq!(
        duos,
        RoleDuos { tank: vec![(1, 2)], damage: vec![], support: vec![] }
    );
}

#[test]
fn role_combinations_use_no_player_twice() {
    let duos = vec![(1, 2), (1, 3), (2, 3), (3, 4)];
    assert_eq!(expand_role_combinations(&duos, 2), vec![vec![(1, 2), (3, 4)]]);
}

#[test]
fn role_combinations_of_four_players_for_two_teams() {
    let duos = make_pairs(&vec![1, 2, 3, 4]);
    assert_eq!(
        expand_role_combinations(&duos, 2),
        vec![
            vec![(1, 2), (3, 4)],
            vec![(1, 3), (2, 4)],
            vec![(1, 4), (2, 3)],
        ]
    );
}

#[test]
fn role_combinations_for_one_team_are_the_duos() {
    let duos = vec![(1, 2), (1, 3), (2, 3)];
    assert_eq!(
        expand_role_combinations(&duos, 1),
        vec![vec![(1, 2)], vec![(1, 3)], vec![(2, 3)]]
    );
}

#[test]
fn role_combinations_for_no_team() {
    assert_eq!(expand_role_combinations(&vec![(1, 2)], 0), vec![Vec::<(u8, u8)>::new()]);
}

#[test]
fn every_role_combination_spans_distinct_players() {
    let duos = make_pairs(&vec![1, 2, 3, 4, 5, 6]);
    let found = expand_role_combinations(&duos, 3);
    assert_eq!(found.len(), 15);
    for combination in &found {
        assert_eq!(combination.len(), 3);
        let mut ids: Vec<u8> = Vec::new();
        for duo in combination {
            ids.push(duo.0);
            ids.push(duo.1);
        }
        ids.sort();
        assert_eq!(ids, vec![1, 2, 3, 4, 5, 6]);
    }
}

#[test]
fn too_few_players_for_a_role_give_no_combination() {
    let duos = make_pairs(&vec![1, 2, 3]);
    assert_eq!(expand_role_combinations(&duos, 2), Vec::<Vec<(u8, u8)>>::new());
    assert_eq!(expand_role_combinations(&vec![], 1), Vec::<Vec<(u8, u8)>>::new());
}

#[test]
fn damage_and_support_are_paired_where_they_share_no_player() {
    let damage = vec![vec![(1, 2)], vec![(3, 4)]];
    let supports = vec![vec![(2, 5)], vec![(5, 6)], vec![(4, 6)]];
    assert_eq!(
        pair_damage_support(&damage, &supports),
        vec![
            (vec![(1, 2)], vec![(5, 6)]),
            (vec![(1, 2)], vec![(4, 6)]),
            (vec![(3, 4)], vec![(2, 5)]),
            (vec![(3, 4)], vec![(5, 6)]),
        ]
    );
}

#[test]
fn tanks_join_the_pairs_that_leave_them_room() {
    let tanks = vec![vec![(1, 7)], vec![(8, 9)]];
    let pairs = vec![(vec![(1, 2)], vec![(5, 6)]), (vec![(3, 4)], vec![(5, 6)])];
    assert_eq!(
        join_tanks(&tanks, &pairs),
        vec![
            Lineup { tanks: vec![(1, 7)], damage: vec![(3, 4)], supports: vec![(5, 6)] },
            Lineup { tanks: vec![(8, 9)], damage: vec![(1, 2)], supports: vec![(5, 6)] },
            Lineup { tanks: vec![(8, 9)], damage: vec![(3, 4)], supports: vec![(5, 6)] },
        ]
    );
}

#[test]
fn joined_roles_come_in_lexicographic_order() {
    let tanks = vec![vec![(1, 2)], vec![(3, 4)]];
    let damage = vec![vec![(5, 6)], vec![(1, 5)]];
    let supports = vec![vec![(7, 8)], vec![(3, 7)]];
    assert_eq!(
        join_roles(&tanks, &damage, &supports),
        vec![
            Lineup { tanks: vec![(1, 2)], damage: vec![(5, 6)], supports: vec![(7, 8)] },
            Lineup { tanks: vec![(1, 2)], damage: vec![(5, 6)], supports: vec![(3, 7)] },
            Lineup { tanks: vec![(3, 4)], damage: vec![(5, 6)], supports: vec![(7, 8)] },
            Lineup { tanks: vec![(3, 4)], damage: vec![(1, 5)], supports: vec![(7, 8)] },
        ]
    );
}

#[test]
fn a_multi_role_player_is_used_once() {
    let players = roster(vec![
        player("A", 1, 1, 1, "tds"),
        player("B", 1, 1, 1, "tds"),
        player("C", 1, 1, 1, "tds"),
        player("D", 1, 1, 1, "tds"),
        player("E", 1, 1, 1, "tds"),
        player("F", 1, 1, 1, "tds"),
    ]);
    let lineups = match roster_lineups(&players) {
        Ok(lineups) => lineups,
        Err(error) => panic!("no lineups: {:?}", error),
    };
    assert_eq!(lineups.len(), 90);
    for lineup in &lineups {
        let mut ids = all_ids(lineup);
        assert_eq!(ids.len(), 6);
        ids.sort();
        assert_eq!(ids, vec![1, 2, 3, 4, 5, 6]);
    }
    assert_eq!(
        lineups[0],
        Lineup { tanks: vec![(1, 2)], damage: vec![(3, 4)], supports: vec![(5, 6)] }
    );
}

#[test]
fn six_players_with_fixed_roles_give_one_lineup() {
    let lineups = roster_lineups(&six_players());
    assert_eq!(
        lineups,
        Ok(vec![Lineup { tanks: vec![(1, 2)], damage: vec![(3, 4)], supports: vec![(5, 6)] }])
    );
}

#[test]
fn six_players_give_one_team_with_the_ratings_of_their_roles() {
    let players = six_players();
    let lineups = match roster_lineups(&players) {
        Ok(lineups) => lineups,
        Err(error) => panic!("no lineups: {:?}", error),
    };
    assert_eq!(lineups.len(), 1);
    let assignments = match create_assignments(&lineups[0], &default_team_names(1)) {
        Ok(assignments) => assignments,
        Err(error) => panic!("no assignments: {:?}", error),
    };
    assert_eq!(assignments.len(), 1);
    let teams = match build_teams(&assignments[0], &players) {
        Ok(teams) => teams,
        Err(error) => panic!("unknown player: {:?}", error),
    };
    assert_eq!(teams.len(), 1);
    assert_eq!(teams[0].name, "Naughty Tomatoes");
    assert_eq!(teams[0].get_all_player_srs(), Ok(vec![3000, 2900, 3100, 2950, 3050, 2980]));
}

#[test]
fn every_assignment_of_a_roster_finds_its_players() {
    let mut players = Vec::new();
    for (i, roles) in ["t", "t", "td", "t", "d", "d", "ds", "d", "s", "s", "s", "tds"].iter().enumerate() {
        players.push(player(&format!("Player {}", i), 1, 1, 1, roles));
    }
    let players = roster(players);
    let lineups = match roster_lineups(&players) {
        Ok(lineups) => lineups,
        Err(error) => panic!("no lineups: {:?}", error),
    };
    assert!(!lineups.is_empty());
    let names = default_team_names(2);
    for lineup in &lineups {
        let assignments = match create_assignments(lineup, &names) {
            Ok(assignments) => assignments,
            Err(error) => panic!("no assignments: {:?}", error),
        };
        assert_eq!(assignments.len(), 4);
        for teams in &assignments {
            assert!(build_teams(teams, &players).is_ok());
        }
    }
}

#[test]
fn one_combination_per_role_gives_one_lineup() {
    let duos = RoleDuos {
        tank: vec![(1, 2), (3, 4)],
        damage: vec![(5, 6), (7, 8)],
        support: vec![(9, 10), (11, 12)],
    };
    assert_eq!(
        create_matchups(&duos, 2),
        vec![Lineup {
            tanks: vec![(1, 2), (3, 4)],
            damage: vec![(5, 6), (7, 8)],
            supports: vec![(9, 10), (11, 12)],
        }]
    );
}

#[test]
fn twelve_players_give_lineups_of_twelve_distinct_players() {
    let mut players = Vec::new();
    for i in 0..4 {
        players.push(player(&format!("T{}", i), 1, 1, 1, "t"));
    }
    for i in 0..4 {
        players.push(player(&format!("D{}", i), 1, 1, 1, "d"));
    }
    for i in 0..4 {
        players.push(player(&format!("S{}", i), 1, 1, 1, "s"));
    }
    let lineups = match roster_lineups(&roster(players)) {
        Ok(lineups) => lineups,
        Err(error) => panic!("no lineups: {:?}", error),
    };
    assert_eq!(lineups.len(), 27);
    for lineup in &lineups {
        assert_eq!(lineup.tanks.len(), 2);
        assert_eq!(lineup.damage.len(), 2);
        assert_eq!(lineup.supports.len(), 2);
        let mut ids = all_ids(lineup);
        ids.sort();
        assert_eq!(ids, vec![1, 2, 3, 4, 5, 6, 7, 8, 9, 10, 11, 12]);
    }
}

#[test]
fn a_roster_that_does_not_fill_teams_of_six_is_refused() {
    let mut players = Vec::new();
    for i in 0..7 {
        players.push(player(&format!("Player {}", i), 1, 1, 1, "tds"));
    }
    let players = roster(players);
    assert_eq!(players.number_of_teams(), Err(ConfigError::RosterNotDivisibleBySix));
    assert_eq!(roster_lineups(&players), Err(ConfigError::RosterNotDivisibleBySix));
}

#[test]
fn rosters_of_one_to_five_players_are_refused() {
    for count in 1..6 {
        let mut players = Vec::new();
        for i in 0..count {
            players.push(player(&format!("Player {}", i), 1, 1, 1, "tds"));
        }
        assert_eq!(
            roster_lineups(&roster(players)),
            Err(ConfigError::RosterNotDivisibleBySix)
        );
    }
}

#[test]
fn the_number_of_teams_is_a_sixth_of_the_players() {
    let mut players = Vec::new();
    for i in 0..18 {
        players.push(player(&format!("Player {}", i), 1, 1, 1, "tds"));
    }
    assert_eq!(roster(players).number_of_teams(), Ok(3));
    assert_eq!(six_players().number_of_teams(), Ok(1));
    assert_eq!(roster(vec![]).number_of_teams(), Ok(0));
}

#[test]
fn a_role_with_too_few_players_leaves_no_lineup() {
    let players = roster(vec![
        player("A", 1, 1, 1, "t"),
        player("B", 1, 1, 1, "d"),
        player("C", 1, 1, 1, "d"),
        player("D", 1, 1, 1, "d"),
        player("E", 1, 1, 1, "s"),
        player("F", 1, 1, 1, "s"),
    ]);
    let duos = make_duos(&players);
    assert_eq!(expand_role_combinations(&duos.tank, 1), Vec::<Vec<(u8, u8)>>::new());
    assert_eq!(roster_lineups(&players), Ok(vec![]));
}

#[test]
fn an_empty_role_list_leaves_no_lineup() {
    let some = vec![vec![(1, 2)]];
    let none: Vec<Vec<(u8, u8)>> = vec![];
    assert_eq!(join_roles(&none, &some, &some), vec![]);
    assert_eq!(join_roles(&some, &none, &some), vec![]);
    assert_eq!(join_roles(&some, &some, &none), vec![]);
}

#[test]
fn a_roster_holds_no_more_players_than_identifiers() {
    let mut players = Vec::new();
    for i in 0..255 {
        players.push(player(&format!("Player {}", i), 1, 1, 1, ""));
    }
    let full = roster(players.clone());
    assert_eq!(full.len(), 255);
    match full.get(255) {
        Ok(last) => assert_eq!(last.name, "Player 254"),
        Err(error) => panic!("unknown player {:?}", error),
    }
    players.push(player("late", 1, 1, 1, ""));
    match Roster::new(players) {
        Ok(_) => panic!("a roster of 256 players"),
        Err(error) => assert_eq!(error, ConfigError::TooManyPlayers),
    }
}

#[test]
fn the_first_role_that_is_short_of_players_is_named() {
    assert_eq!(short_role(&six_players(), 1), None);
    assert_eq!(short_role(&six_players(), 0), None);
    assert_eq!(short_role(&six_players(), 2), Some(Position::Tank));
    assert_eq!(short_role(&six_players(), usize::MAX), Some(Position::Tank));
    let players = roster(vec![
        player("A", 1, 1, 1, "t"),
        player("B", 1, 1, 1, "t"),
        player("C", 1, 1, 1, "t"),
        player("D", 1, 1, 1, "d"),
        player("E", 1, 1, 1, "ds"),
        player("F", 1, 1, 1, "s"),
    ]);
    assert_eq!(short_role(&players, 1), None);
    let players = roster(vec![
        player("A", 1, 1, 1, "t"),
        player("B", 1, 1, 1, "t"),
        player("C", 1, 1, 1, "t"),
        player("D", 1, 1, 1, "t"),
        player("E", 1, 1, 1, "d"),
        player("F", 1, 1, 1, "s"),
    ]);
    assert_eq!(short_role(&players, 1), Some(Position::Damage));
    let players = roster(vec![
        player("A", 1, 1, 1, "t"),
        player("B", 1, 1, 1, "t"),
        player("C", 1, 1, 1, "d"),
        player("D", 1, 1, 1, "d"),
        player("E", 1, 1, 1, "d"),
        player("F", 1, 1, 1, "s"),
    ]);
    assert_eq!(short_role(&players, 1), Some(Position::Support));
    assert_eq!(roster_lineups(&players), Ok(vec![]));
}
