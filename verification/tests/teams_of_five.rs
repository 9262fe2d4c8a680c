use scrim_maker::duos::RoleDuos;
use scrim_maker::error::{ConfigError, LookupError};
use scrim_maker::generate_ow2::{
    build_ow2_team, build_ow2_teams, create_ow2_assignments, create_ow2_matchups,
    expand_tank_combinations, join_single_tanks, make_ow2_duos, OW2Lineup,
};
use scrim_maker::matchup_ow2::{MatchupKind, OW2Matchup, OW2TeamSlots};
use scrim_maker::roster::Roster;
use scrim_maker::search::{merge_results, retain_near_best};
use scrim_maker::{OW2Team, Player};

fn player(name: &str, roles: &str) -> Player {
    Player {
        name: name.to_string(),
        tank_sr: 1,
        damage_sr: 2,
        support_sr: 3,
        plays_tank: roles.contains('t'),
        plays_damage: roles.contains('d'),
        plays_support: roles.contains('s'),
    }
}

fn roster(roles: &[&str]) -> Roster {
    let players = roles.iter().enumerate().map(|(i, r)| player(&format!("Player {}", i + 1), r)).collect();
    match Roster::new(players) {
        Ok(roster) => roster,
        Err(error) => panic!("no roster: {:?}", error),
    }
}

fn five(name: &str, ids: [u8; 5]) -> OW2TeamSlots {
    OW2TeamSlots {
        name: name.to_string(),
        tank: ids[0],
        damage_1: ids[1],
        damage_2: ids[2],
        support_1: ids[3],
        support_2: ids[4],
    }
}

#[test]
fn a_tank_stands_alone_in_its_duo() {
    let players = roster(&["t", "d", "td", "d", "s", "ts"]);
    assert_eq!(
        make_ow2_duos(&players),
        RoleDuos {
            tank: vec![(1, 0), (3, 0), (6, 0)],
            damage: vec![(2, 3), (2, 4), (3, 4)],
            support: vec![(5, 6)],
        }
    );
}

#[test]
fn tanks_are_chosen_in_lexicographic_order() {
    let tanks = vec![(1, 0), (3, 0), (6, 0)];
    assert_eq!(expand_tank_combinations(&tanks, 2), vec![vec![1, 3], vec![1, 6], vec![3, 6]]);
    assert_eq!(expand_tank_combinations(&tanks, 1), vec![vec![1], vec![3], vec![6]]);
    assert_eq!(expand_tank_combinations(&tanks, 3), vec![vec![1, 3, 6]]);
    assert_eq!(expand_tank_combinations(&tanks, 4), Vec::<Vec<u8>>::new());
    assert_eq!(expand_tank_combinations(&tanks, 0), vec![Vec::<u8>::new()]);
}

#[test]
fn single_tanks_join_the_pairs_that_leave_them_room() {
    let tanks = vec![vec![1], vec![7]];
    let pairs = vec![(vec![(1, 2)], vec![(5, 6)]), (vec![(3, 4)], vec![(5, 6)])];
    assert_eq!(
        join_single_tanks(&tanks, &pairs),
        vec![
            OW2Lineup { tanks: vec![1], damage: vec![(3, 4)], supports: vec![(5, 6)] },
            OW2Lineup { tanks: vec![7], damage: vec![(1, 2)], supports: vec![(5, 6)] },
            OW2Lineup { tanks: vec![7], damage: vec![(3, 4)], supports: vec![(5, 6)] },
        ]
    );
}

#[test]
fn lineups_of_five_use_no_player_twice() {
    let players = roster(&["t", "td", "d", "d", "s", "s"]);
    let duos = make_ow2_duos(&players);
    assert_eq!(
        create_ow2_matchups(&duos, 1),
        vec![
            OW2Lineup { tanks: vec![1], damage: vec![(2, 3)], supports: vec![(5, 6)] },
            OW2Lineup { tanks: vec![1], damage: vec![(2, 4)], supports: vec![(5, 6)] },
            OW2Lineup { tanks: vec![1], damage: vec![(3, 4)], supports: vec![(5, 6)] },
            OW2Lineup { tanks: vec![2], damage: vec![(3, 4)], supports: vec![(5, 6)] },
        ]
    );
}

#[test]
fn lineups_of_five_for_two_teams_name_ten_players() {
    let players = roster(&["t", "t", "t", "d", "d", "d", "d", "s", "s", "s", "s", "tds"]);
    let lineups = create_ow2_matchups(&make_ow2_duos(&players), 2);
    assert!(!lineups.is_empty());
    for lineup in &lineups {
        assert_eq!(lineup.tanks.len(), 2);
        assert_eq!(lineup.damage.len(), 2);
        assert_eq!(lineup.supports.len(), 2);
        let mut ids: Vec<u8> = lineup.tanks.clone();
        for duo in lineup.damage.iter().chain(lineup.supports.iter()) {
            ids.push(duo.0);
            ids.push(duo.1);
        }
        ids.sort();
        ids.dedup();
        assert_eq!(ids.len(), 10);
    }
    assert_eq!(
        lineups[0],
        OW2Lineup {
            tanks: vec![1, 2],
            damage: vec![(4, 5), (6, 7)],
            supports: vec![(8, 9), (10, 11)],
        }
    );
}

#[test]
fn too_few_tanks_leave_no_lineup_of_five() {
    let players = roster(&["t", "d", "d", "d", "d", "s", "s", "s", "s", "s", "s", "s"]);
    assert_eq!(create_ow2_matchups(&make_ow2_duos(&players), 2), vec![]);
}

#[test]
fn two_teams_of_five_get_four_assignments() {
    let lineup = OW2Lineup {
        tanks: vec![1, 2],
        damage: vec![(5, 6), (7, 8)],
        supports: vec![(9, 10), (11, 12)],
    };
    let names = vec!["red".to_string(), "blue".to_string()];
    assert_eq!(
        create_ow2_assignments(&lineup, &names),
        Ok(vec![
            vec![five("red", [1, 5, 6, 9, 10]), five("blue", [2, 7, 8, 11, 12])],
            vec![five("red", [1, 5, 6, 11, 12]), five("blue", [2, 7, 8, 9, 10])],
            vec![five("red", [1, 7, 8, 9, 10]), five("blue", [2, 5, 6, 11, 12])],
            vec![five("red", [1, 7, 8, 11, 12]), five("blue", [2, 5, 6, 9, 10])],
        ])
    );
}

#[test]
fn an_uneven_lineup_of_five_is_refused() {
    let lineup = OW2Lineup { tanks: vec![1, 2], damage: vec![(5, 6)], supports: vec![(9, 10)] };
    assert_eq!(
        create_ow2_assignments(&lineup, &vec!["a".to_string(), "b".to_string()]),
        Err(ConfigError::UnevenLineup)
    );
    let lineup = OW2Lineup { tanks: vec![1], damage: vec![(5, 6)], supports: vec![(9, 10)] };
    assert_eq!(create_ow2_assignments(&lineup, &vec![]), Err(ConfigError::MissingTeamNames));
}

#[test]
fn candidates_of_five_are_searched_like_the_others() {
    let ratings = [30, 31, 33, 12, 13, 14, 12];
    let candidates: Vec<OW2Matchup> = ratings
        .iter()
        .enumerate()
        .map(|(i, r)| OW2Matchup::new(vec![five("a", [i as u8, 0, 0, 0, 0])], *r))
        .collect();
    let kept = retain_near_best(candidates);
    let tags: Vec<(u8, i16)> = kept.iter().map(|c| (c.teams[0].tank, c.rating)).collect();
    assert_eq!(tags, vec![(0, 30), (1, 31), (3, 12), (4, 13), (6, 12)]);
    let ranking = merge_results(vec![kept]);
    let tags: Vec<(u8, i16)> = ranking.iter().map(|c| (c.teams[0].tank, c.rating)).collect();
    assert_eq!(tags, vec![(3, 12), (6, 12), (4, 13), (0, 30), (1, 31)]);
}

#[test]
fn two_teams_of_five_make_a_two_way_scrim() {
    let two = OW2Matchup::new(vec![five("a", [0; 5]), five("b", [0; 5])], 3);
    assert_eq!(two.kind, MatchupKind::TwoWayScrim);
    assert_eq!(two.rating, 3);
    assert_eq!(OW2Matchup::new(vec![five("a", [0; 5])], 3).kind, MatchupKind::ThreeWayScrim);
    assert_eq!(
        OW2Matchup::new(vec![five("a", [0; 5]), five("b", [0; 5]), five("c", [0; 5])], 3).kind,
        MatchupKind::ThreeWayScrim
    );
}

#[test]
fn slots_of_five_are_filled_from_the_roster() {
    let players = roster(&["t", "d", "d", "s", "s", "tds"]);
    let expected = OW2Team::new(
        "x".to_string(),
        player("Player 6", "tds"),
        player("Player 2", "d"),
        player("Player 3", "d"),
        player("Player 4", "s"),
        player("Player 5", "s"),
    );
    assert_eq!(build_ow2_team(&five("x", [6, 2, 3, 4, 5]), &players), Ok(expected.clone()));
    assert_eq!(
        build_ow2_teams(&vec![five("x", [6, 2, 3, 4, 5])], &players),
        Ok(vec![expected])
    );
    assert_eq!(
        build_ow2_team(&five("x", [6, 2, 0, 4, 9]), &players),
        Err(LookupError { id: 0 })
    );
    assert_eq!(
        build_ow2_teams(&vec![five("x", [6, 2, 3, 4, 5]), five("y", [1, 2, 3, 4, 7])], &players),
        Err(LookupError { id: 7 })
    );
}
