use scrim_maker::coordinator::{Coordinator, DispatchError, Phase, ProtocolError};
use scrim_maker::error::ConfigError;
use scrim_maker::lineup::Lineup;
use scrim_maker::matchup::{Matchup, TeamSlots};

fn candidate(tag: u8, rating: i16) -> Matchup {
    let team = TeamSlots {
        name: "t".to_string(),
        tank_1: tag,
        tank_2: 0,
        damage_1: 0,
        damage_2: 0,
        support_1: 0,
        support_2: 0,
    };
    Matchup::new(vec![team], rating)
}

fn tags(candidates: &Vec<Matchup>) -> Vec<(u8, i16)> {
    candidates.iter().map(|c| (c.teams[0].tank_1, c.rating)).collect()
}

fn numbered(count: u8) -> Vec<Lineup> {
    (0..count)
        .map(|i| Lineup { tanks: vec![(i, i)], damage: vec![], supports: vec![] })
        .collect()
}

#[test]
fn a_search_goes_through_its_phases() {
    let mut search: Coordinator<Matchup> = Coordinator::new();
    assert_eq!(search.current_phase(), Phase::Idle);
    let chunks = match search.dispatch(numbered(5), 2) {
        Ok(chunks) => chunks,
        Err(error) => panic!("{:?}", error),
    };
    assert_eq!(chunks.iter().map(|c| c.len()).collect::<Vec<usize>>(), vec![2, 2, 1]);
    assert_eq!(search.current_phase(), Phase::Dispatched);
    assert_eq!(search.collect(2, vec![candidate(5, 7)]), Ok(()));
    assert_eq!(search.current_phase(), Phase::Collecting);
    assert_eq!(search.collect(0, vec![candidate(1, 9), candidate(2, 7)]), Ok(()));
    assert_eq!(search.current_phase(), Phase::Collecting);
    assert_eq!(search.collect(1, vec![candidate(3, 7), candidate(4, 3)]), Ok(()));
    assert_eq!(search.current_phase(), Phase::Merged);
    match search.take_ranking() {
        Ok(ranking) => assert_eq!(tags(&ranking), vec![(4, 3), (2, 7), (3, 7), (5, 7), (1, 9)]),
        Err(error) => panic!("{:?}", error),
    }
    assert_eq!(search.current_phase(), Phase::Done);
}

#[test]
fn the_ranking_does_not_depend_on_who_reports_first() {
    let mut rankings = Vec::new();
    for order in [[0, 1, 2], [2, 1, 0], [1, 2, 0]] {
        let mut search: Coordinator<Matchup> = Coordinator::new();
        assert!(search.dispatch(numbered(3), 3).is_ok());
        for chunk in order {
            let kept = vec![candidate(chunk as u8, 4), candidate(10 + chunk as u8, 2)];
            assert_eq!(search.collect(chunk, kept), Ok(()));
        }
        rankings.push(search.take_ranking().map(|ranking| tags(&ranking)));
    }
    assert_eq!(
        rankings[0],
        Ok(vec![(10, 2), (11, 2), (12, 2), (0, 4), (1, 4), (2, 4)])
    );
    assert_eq!(rankings[1], rankings[0]);
    assert_eq!(rankings[2], rankings[0]);
}

#[test]
fn steps_out_of_turn_are_refused() {
    let mut search: Coordinator<Matchup> = Coordinator::new();
    assert_eq!(search.collect(0, vec![]), Err(ProtocolError::WrongPhase));
    assert_eq!(search.take_ranking().err(), Some(ProtocolError::WrongPhase));
    assert_eq!(
        search.dispatch(numbered(2), 0).err(),
        Some(DispatchError::Config(ConfigError::NoWorkers))
    );
    assert_eq!(search.current_phase(), Phase::Idle);
    assert!(search.dispatch(numbered(2), 2).is_ok());
    assert_eq!(
        search.dispatch(numbered(2), 2).err(),
        Some(DispatchError::Protocol(ProtocolError::WrongPhase))
    );
    assert_eq!(search.take_ranking().err(), Some(ProtocolError::WrongPhase));
    assert_eq!(search.collect(2, vec![]), Err(ProtocolError::UnknownChunk));
    assert_eq!(search.collect(1, vec![candidate(1, 1)]), Ok(()));
    assert_eq!(search.collect(1, vec![candidate(2, 0)]), Err(ProtocolError::ReportedTwice));
    assert_eq!(search.take_ranking().err(), Some(ProtocolError::WrongPhase));
    assert_eq!(search.current_phase(), Phase::Collecting);
    assert_eq!(search.collect(0, vec![]), Ok(()));
    assert_eq!(search.collect(0, vec![]), Err(ProtocolError::WrongPhase));
    assert_eq!(search.take_ranking().map(|ranking| tags(&ranking)), Ok(vec![(1, 1)]));
    assert_eq!(search.take_ranking().err(), Some(ProtocolError::WrongPhase));
    assert_eq!(
        search.dispatch(numbered(2), 2).err(),
        Some(DispatchError::Protocol(ProtocolError::WrongPhase))
    );
}

#[test]
fn a_search_without_lineups_is_merged_at_once() {
    let mut search: Coordinator<Matchup> = Coordinator::new();
    assert_eq!(search.dispatch(Vec::<Lineup>::new(), 16), Ok(vec![]));
    assert_eq!(search.current_phase(), Phase::Merged);
    assert_eq!(search.take_ranking(), Ok(vec![]));
    assert_eq!(search.current_phase(), Phase::Done);
}

#[test]
fn a_failed_worker_ends_the_search() {
    let mut search: Coordinator<Matchup> = Coordinator::new();
    assert!(search.dispatch(numbered(4), 2).is_ok());
    assert_eq!(search.collect(0, vec![candidate(1, 1)]), Ok(()));
    search.abort();
    assert_eq!(search.current_phase(), Phase::Done);
    assert_eq!(search.collect(1, vec![]), Err(ProtocolError::WrongPhase));
    assert_eq!(search.take_ranking().err(), Some(ProtocolError::WrongPhase));
}
