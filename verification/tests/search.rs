use scrim_maker::duos::RoleDuos;
use scrim_maker::error::ConfigError;
use scrim_maker::generate::create_matchups;
use scrim_maker::lineup::Lineup;
use scrim_maker::matchup::{Matchup, MatchupKind, TeamSlots};
use scrim_maker::search::{
    is_near_best, merge_results, rank_by_rating, retain_near_best, split_for_workers, ChunkSearch,
    NO_RATING_YET,
};
use scrim_maker::slots::{create_assignments, default_team_names};

fn team(name: &str, ids: [u8; 6]) -> TeamSlots {
    TeamSlots {
        name: name.to_string(),
        tank_1: ids[0],
        tank_2: ids[1],
        damage_1: ids[2],
        damage_2: ids[3],
        support_1: ids[4],
        support_2: ids[5],
    }
}

fn candidate(tag: u8, rating: i16) -> Matchup {
    Matchup::new(vec![team("a", [tag, 0, 0, 0, 0, 0]), team("b", [0; 6])], rating)
}

fn tags(candidates: &Vec<Matchup>) -> Vec<(u8, i16)> {
    candidates.iter().map(|c| (c.teams[0].tank_1, c.rating)).collect()
}

fn numbered(count: u8) -> Vec<Lineup> {
    (0..count)
        .map(|i| Lineup { tanks: vec![(i, i)], damage: vec![], supports: vec![] })
        .collect()
}

fn sizes(chunks: &Vec<Vec<Lineup>>) -> Vec<usize> {
    chunks.iter().map(|c| c.len()).collect()
}

#[test]
fn one_team_gets_the_only_assignment() {
    let lineup = Lineup { tanks: vec![(1, 2)], damage: vec![(3, 4)], supports: vec![(5, 6)] };
    let names = default_team_names(1);
    assert_eq!(
        create_assignments(&lineup, &names),
        Ok(vec![vec![team("Naughty Tomatoes", [1, 2, 3, 4, 5, 6])]])
    );
}

#[test]
fn two_teams_get_four_assignments() {
    let lineup = Lineup {
        tanks: vec![(1, 2), (3, 4)],
        damage: vec![(5, 6), (7, 8)],
        supports: vec![(9, 10), (11, 12)],
    };
    let names = vec!["red".to_string(), "blue".to_string()];
    assert_eq!(
        create_assignments(&lineup, &names),
        Ok(vec![
            vec![team("red", [1, 2, 5, 6, 9, 10]), team("blue", [3, 4, 7, 8, 11, 12])],
            vec![team("red", [1, 2, 5, 6, 11, 12]), team("blue", [3, 4, 7, 8, 9, 10])],
            vec![team("red", [1, 2, 7, 8, 9, 10]), team("blue", [3, 4, 5, 6, 11, 12])],
            vec![team("red", [1, 2, 7, 8, 11, 12]), team("blue", [3, 4, 5, 6, 9, 10])],
        ])
    );
}

#[test]
fn three_teams_get_thirty_six_assignments() {
    let lineup = Lineup {
        tanks: vec![(1, 2), (3, 4), (5, 6)],
        damage: vec![(7, 8), (9, 10), (11, 12)],
        supports: vec![(13, 14), (15, 16), (17, 18)],
    };
    let found = match create_assignments(&lineup, &default_team_names(3)) {
        Ok(found) => found,
        Err(error) => panic!("no assignments: {:?}", error),
    };
    assert_eq!(found.len(), 36);
    for teams in &found {
        assert_eq!(teams.len(), 3);
        assert_eq!((teams[0].tank_1, teams[0].tank_2), (1, 2));
        assert_eq!((teams[1].tank_1, teams[1].tank_2), (3, 4));
        assert_eq!((teams[2].tank_1, teams[2].tank_2), (5, 6));
        let mut ids: Vec<u8> = Vec::new();
        for t in teams {
            ids.extend([t.tank_1, t.tank_2, t.damage_1, t.damage_2, t.support_1, t.support_2]);
        }
        ids.sort();
        assert_eq!(ids, (1..=18).collect::<Vec<u8>>());
    }
    for i in 0..found.len() {
        for j in 0..i {
            assert_ne!(found[i], found[j]);
        }
    }
    assert_eq!(found[35][0], team("Naughty Tomatoes", [1, 2, 11, 12, 17, 18]));
    assert_eq!(found[35][1], team("Team 2", [3, 4, 9, 10, 15, 16]));
    assert_eq!(found[35][2], team("Team 3", [5, 6, 7, 8, 13, 14]));
}

#[test]
fn assignments_can_be_made_again() {
    let lineup = Lineup {
        tanks: vec![(1, 2), (3, 4)],
        damage: vec![(5, 6), (7, 8)],
        supports: vec![(9, 10), (11, 12)],
    };
    let names = default_team_names(2);
    assert_eq!(create_assignments(&lineup, &names), create_assignments(&lineup, &names));
}

#[test]
fn no_team_gets_the_empty_assignment() {
    let lineup = Lineup { tanks: vec![], damage: vec![], supports: vec![] };
    assert_eq!(create_assignments(&lineup, &vec![]), Ok(vec![vec![]]));
}

#[test]
fn an_uneven_lineup_is_refused() {
    let lineup = Lineup { tanks: vec![(1, 2)], damage: vec![], supports: vec![(5, 6)] };
    assert_eq!(
        create_assignments(&lineup, &default_team_names(1)),
        Err(ConfigError::UnevenLineup)
    );
    let lineup = Lineup { tanks: vec![(1, 2)], damage: vec![(3, 4)], supports: vec![(5, 6), (7, 8)] };
    assert_eq!(
        create_assignments(&lineup, &default_team_names(1)),
        Err(ConfigError::UnevenLineup)
    );
}

#[test]
fn too_few_team_names_are_refused() {
    let lineup = Lineup {
        tanks: vec![(1, 2), (3, 4)],
        damage: vec![(5, 6), (7, 8)],
        supports: vec![(9, 10), (11, 12)],
    };
    assert_eq!(
        create_assignments(&lineup, &vec!["only".to_string()]),
        Err(ConfigError::MissingTeamNames)
    );
}

#[test]
fn teams_are_named_by_default() {
    assert_eq!(default_team_names(0), vec!["Naughty Tomatoes"]);
    assert_eq!(default_team_names(1), vec!["Naughty Tomatoes"]);
    assert_eq!(default_team_names(3), vec!["Naughty Tomatoes", "Team 2", "Team 3"]);
    let many = default_team_names(12);
    assert_eq!(many.len(), 12);
    assert_eq!(many[9], "Team 10");
    assert_eq!(many[11], "Team 12");
}

#[test]
fn two_teams_make_a_two_way_scrim() {
    assert_eq!(candidate(1, 5).kind, MatchupKind::TwoWayScrim);
    let three = Matchup::new(vec![team("a", [0; 6]), team("b", [0; 6]), team("c", [0; 6])], 7);
    assert_eq!(three.kind, MatchupKind::ThreeWayScrim);
    assert_eq!(three.rating, 7);
    assert_eq!(three.teams.len(), 3);
    assert_eq!(Matchup::new(vec![team("a", [0; 6])], 0).kind, MatchupKind::ThreeWayScrim);
    assert_eq!(Matchup::new(vec![], 0).kind, MatchupKind::ThreeWayScrim);
}

#[test]
fn near_the_best_means_below_eleven_tenths_of_it() {
    assert!(is_near_best(100, 109));
    assert!(!is_near_best(100, 110));
    assert!(!is_near_best(100, 111));
    assert!(is_near_best(100, 0));
    assert!(is_near_best(11, 12));
    assert!(!is_near_best(10, 11));
    assert!(is_near_best(1, 1));
    assert!(!is_near_best(1, 2));
    assert!(!is_near_best(0, 0));
    assert!(is_near_best(NO_RATING_YET, i16::MAX));
    assert!(is_near_best(NO_RATING_YET, 0));
}

#[test]
fn a_worker_keeps_what_is_near_its_best() {
    let ratings = [100, 109, 110, 90, 99, 98, 90, 200];
    let candidates: Vec<Matchup> =
        ratings.iter().enumerate().map(|(i, r)| candidate(i as u8, *r)).collect();
    let kept = retain_near_best(candidates);
    assert_eq!(tags(&kept), vec![(0, 100), (1, 109), (3, 90), (5, 98), (6, 90)]);
}

#[test]
fn a_worker_keeps_nothing_after_a_perfect_candidate() {
    let ratings = [5, 0, 0, 3, 0];
    let candidates: Vec<Matchup> =
        ratings.iter().enumerate().map(|(i, r)| candidate(i as u8, *r)).collect();
    assert_eq!(tags(&retain_near_best(candidates)), vec![(0, 5), (1, 0)]);
}

#[test]
fn a_worker_without_candidates_keeps_nothing() {
    assert_eq!(retain_near_best(Vec::<Matchup>::new()), vec![]);
}

#[test]
fn offers_are_answered_one_by_one() {
    let mut search = ChunkSearch::new();
    assert_eq!(search.best_rating, NO_RATING_YET);
    assert!(search.offer(candidate(0, 50)));
    assert_eq!(search.best_rating, 50);
    assert!(search.offer(candidate(1, 54)));
    assert_eq!(search.best_rating, 50);
    assert!(!search.offer(candidate(2, 55)));
    assert!(search.offer(candidate(3, 20)));
    assert_eq!(search.best_rating, 20);
    assert!(!search.offer(candidate(4, 50)));
    assert_eq!(tags(&search.into_kept()), vec![(0, 50), (1, 54), (3, 20)]);
}

#[test]
fn the_worst_rating_is_kept_when_it_comes_first() {
    let kept = retain_near_best(vec![candidate(0, i16::MAX), candidate(1, i16::MAX)]);
    assert_eq!(tags(&kept), vec![(0, i16::MAX), (1, i16::MAX)]);
}

#[test]
fn ranking_is_ascending_and_keeps_ties_in_order() {
    let ratings = [30, 10, 20, 10, 30, 0, 20, 10];
    let candidates: Vec<Matchup> =
        ratings.iter().enumerate().map(|(i, r)| candidate(i as u8, *r)).collect();
    assert_eq!(
        tags(&rank_by_rating(candidates)),
        vec![(5, 0), (1, 10), (3, 10), (7, 10), (2, 20), (6, 20), (0, 30), (4, 30)]
    );
}

#[test]
fn ranking_of_few() {
    assert_eq!(rank_by_rating(Vec::<Matchup>::new()), vec![]);
    assert_eq!(tags(&rank_by_rating(vec![candidate(1, 4)])), vec![(1, 4)]);
    assert_eq!(
        tags(&rank_by_rating(vec![candidate(1, 4), candidate(2, -3)])),
        vec![(2, -3), (1, 4)]
    );
}

#[test]
fn ranking_of_many() {
    let mut candidates = Vec::new();
    for i in 0..200u32 {
        candidates.push(candidate((i % 256) as u8, ((i * 37) % 23) as i16));
    }
    let ranking = rank_by_rating(candidates);
    assert_eq!(ranking.len(), 200);
    for i in 1..ranking.len() {
        assert!(ranking[i - 1].rating <= ranking[i].rating);
        if ranking[i - 1].rating == ranking[i].rating {
            assert!(ranking[i - 1].teams[0].tank_1 < ranking[i].teams[0].tank_1);
        }
    }
}

#[test]
fn batches_are_merged_best_first() {
    let batches = vec![
        vec![candidate(0, 40), candidate(1, 10)],
        vec![],
        vec![candidate(2, 10), candidate(3, 5)],
        vec![candidate(4, 40)],
    ];
    assert_eq!(
        tags(&merge_results(batches)),
        vec![(3, 5), (1, 10), (2, 10), (0, 40), (4, 40)]
    );
    assert_eq!(merge_results(Vec::<Vec<Matchup>>::new()), vec![]);
}

#[test]
fn four_assignments_are_searched_and_the_best_comes_first() {
    let duos = RoleDuos {
        tank: vec![(1, 2), (3, 4)],
        damage: vec![(5, 6), (7, 8)],
        support: vec![(9, 10), (11, 12)],
    };
    let lineups = create_matchups(&duos, 2);
    assert_eq!(lineups.len(), 1);
    let chunks = match split_for_workers(lineups, 1) {
        Ok(chunks) => chunks,
        Err(error) => panic!("no chunks: {:?}", error),
    };
    assert_eq!(chunks.len(), 1);
    let names = default_team_names(2);
    let ratings = [40, 10, 30, 20];
    let mut batches = Vec::new();
    for chunk in &chunks {
        let mut search = ChunkSearch::new();
        for lineup in chunk {
            let assignments = match create_assignments(lineup, &names) {
                Ok(found) => found,
                Err(error) => panic!("no assignments: {:?}", error),
            };
            assert_eq!(assignments.len(), 4);
            for (teams, rating) in assignments.into_iter().zip(ratings) {
                search.offer(Matchup::new(teams, rating));
            }
        }
        batches.push(search.into_kept());
    }
    let ranking = merge_results(batches);
    assert_eq!(ranking.len(), 2);
    assert_eq!(ranking[0].rating, 10);
    assert_eq!(ranking[0].teams[0], team("Naughty Tomatoes", [1, 2, 5, 6, 11, 12]));
    assert_eq!(ranking[0].teams[1], team("Team 2", [3, 4, 7, 8, 9, 10]));
    assert_eq!(ranking[1].rating, 40);
}

#[test]
fn chunks_hold_the_lineups_in_order_whatever_the_numbers() {
    for count in 0..40u8 {
        for workers in 1..20usize {
            let chunks = match split_for_workers(numbered(count), workers) {
                Ok(chunks) => chunks,
                Err(error) => panic!("no chunks: {:?}", error),
            };
            let share = count as usize / workers;
            let size = if share == 0 { 1 } else { share };
            for (i, chunk) in chunks.iter().enumerate() {
                if i + 1 < chunks.len() {
                    assert_eq!(chunk.len(), size);
                } else {
                    assert!(0 < chunk.len() && chunk.len() <= size);
                }
            }
            let flat: Vec<Lineup> = chunks.into_iter().flatten().collect();
            assert_eq!(flat, numbered(count));
        }
    }
}

#[test]
fn lineups_are_split_in_runs_of_a_rounded_down_share() {
    let chunks = match split_for_workers(numbered(10), 3) {
        Ok(chunks) => chunks,
        Err(error) => panic!("no chunks: {:?}", error),
    };
    assert_eq!(sizes(&chunks), vec![3, 3, 3, 1]);
    let flat: Vec<Lineup> = chunks.into_iter().flatten().collect();
    assert_eq!(flat, numbered(10));
}

#[test]
fn lineups_that_divide_evenly_give_a_chunk_per_worker() {
    match split_for_workers(numbered(12), 4) {
        Ok(chunks) => assert_eq!(sizes(&chunks), vec![3, 3, 3, 3]),
        Err(error) => panic!("no chunks: {:?}", error),
    }
    match split_for_workers(numbered(5), 1) {
        Ok(chunks) => assert_eq!(sizes(&chunks), vec![5]),
        Err(error) => panic!("no chunks: {:?}", error),
    }
}

#[test]
fn fewer_lineups_than_workers_give_chunks_of_one() {
    match split_for_workers(numbered(2), 16) {
        Ok(chunks) => {
            assert_eq!(sizes(&chunks), vec![1, 1]);
            assert_eq!(chunks[1][0], numbered(2)[1]);
        },
        Err(error) => panic!("no chunks: {:?}", error),
    }
}

#[test]
fn no_lineups_give_no_chunks() {
    assert_eq!(split_for_workers(Vec::<Lineup>::new(), 16), Ok(vec![]));
}

#[test]
fn no_workers_are_refused() {
    assert_eq!(split_for_workers(numbered(3), 0), Err(ConfigError::NoWorkers));
    assert_eq!(split_for_workers(Vec::<Lineup>::new(), 0), Err(ConfigError::NoWorkers));
}
