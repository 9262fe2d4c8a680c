use scrim_maker::error::{ConfigError, LookupError, ParseError};
use scrim_maker::matchup::TeamSlots;
use scrim_maker::resolve::{build_team, build_teams};
use scrim_maker::roster::{read_players, Roster};
use scrim_maker::team::MissingPlayer;
use scrim_maker::text::{chars_of, comes_before, split_fields};
use scrim_maker::{OW2Team, Player, Position, Team};

fn parsed(line: &str) -> Result<Player, ParseError> {
    Player::new(line.to_string())
}

fn named(name: &str, tank: i16, damage: i16, support: i16) -> Player {
    Player {
        name: name.to_string(),
        tank_sr: tank,
        damage_sr: damage,
        support_sr: support,
        plays_tank: true,
        plays_damage: true,
        plays_support: true,
    }
}

fn six() -> Vec<Player> {
    vec![
        named("Zed", 3000, 1, 2),
        named("Amy", 2900, 3, 4),
        named("Cid", 5, 3100, 6),
        named("Dot", 7, 2950, 8),
        named("Eve", 9, 10, 3050),
        named("Eva", 11, 12, -2980),
    ]
}

fn full_team() -> Team {
    let p = six();
    Team::new(
        "Owls".to_string(),
        p[0].clone(),
        p[1].clone(),
        p[2].clone(),
        p[3].clone(),
        p[4].clone(),
        p[5].clone(),
    )
}

fn slots(ids: [u8; 6]) -> TeamSlots {
    TeamSlots {
        name: "Owls".to_string(),
        tank_1: ids[0],
        tank_2: ids[1],
        damage_1: ids[2],
        damage_2: ids[3],
        support_1: ids[4],
        support_2: ids[5],
    }
}

fn roster() -> Roster {
    match Roster::new(six()) {
        Ok(roster) => roster,
        Err(error) => panic!("no roster: {:?}", error),
    }
}

#[test]
fn a_line_describes_a_player() {
    assert_eq!(
        parsed("Alice - 3000 - 2900 - 3100 - td"),
        Ok(Player {
            name: "Alice".to_string(),
            tank_sr: 3000,
            damage_sr: 2900,
            support_sr: 3100,
            plays_tank: true,
            plays_damage: true,
            plays_support: false,
        })
    );
}

#[test]
fn role_flags_are_independent() {
    for (flags, expected) in [
        ("", (false, false, false)),
        ("t", (true, false, false)),
        ("d", (false, true, false)),
        ("s", (false, false, true)),
        ("tds", (true, true, true)),
        ("sdt", (true, true, true)),
        ("xsx", (false, false, true)),
        ("TDS", (false, false, false)),
    ] {
        match parsed(&format!("Bob - 1 - 2 - 3 - {}", flags)) {
            Ok(player) => {
                assert_eq!((player.plays_tank, player.plays_damage, player.plays_support), expected)
            },
            Err(error) => panic!("{:?}", error),
        }
    }
}

#[test]
fn a_name_may_hold_dashes_and_other_letters() {
    match parsed("Jean-Luc Ömer - -5 - +7 - 0 - s - ignored - too") {
        Ok(player) => {
            assert_eq!(player.name, "Jean-Luc Ömer");
            assert_eq!((player.tank_sr, player.damage_sr, player.support_sr), (-5, 7, 0));
            assert!(player.plays_support);
            assert!(!player.plays_tank);
        },
        Err(error) => panic!("{:?}", error),
    }
}

#[test]
fn an_empty_name_is_a_name() {
    match parsed(" - 1 - 2 - 3 - t") {
        Ok(player) => assert_eq!(player.name, ""),
        Err(error) => panic!("{:?}", error),
    }
}

#[test]
fn a_line_with_fewer_than_five_fields_is_refused() {
    assert_eq!(parsed(""), Err(ParseError::TooFewFields));
    assert_eq!(parsed("Bob"), Err(ParseError::TooFewFields));
    assert_eq!(parsed("Bob - 1 - 2 - 3"), Err(ParseError::TooFewFields));
    assert_eq!(parsed("Bob - 1 - 2 - 3 -t"), Err(ParseError::TooFewFields));
    assert_eq!(parsed("Bob-1-2-3-t"), Err(ParseError::TooFewFields));
    assert_eq!(parsed("Bob - x - y - z"), Err(ParseError::TooFewFields));
}

#[test]
fn a_line_that_ends_in_a_delimiter_has_an_empty_last_field() {
    match parsed("Bob - 1 - 2 - 3 - ") {
        Ok(player) => assert!(!player.plays_tank && !player.plays_damage && !player.plays_support),
        Err(error) => panic!("{:?}", error),
    }
}

#[test]
fn delimiters_do_not_overlap() {
    assert_eq!(parsed("Bob - - 1 - 2 - 3 - t"), Err(ParseError::BadRating));
    assert_eq!(parsed("Bob - 1 - - 3 - t"), Err(ParseError::TooFewFields));
    match parsed("Bob - 1 - 2 - 3 - - t") {
        Ok(player) => assert!(player.plays_tank),
        Err(error) => panic!("{:?}", error),
    }
}

#[test]
fn fields_are_split_as_the_standard_library_splits() {
    for line in [
        "",
        " - ",
        "a",
        "a - b",
        "a - b - c - d - e",
        " - a - ",
        "a -  - b",
        "a - - b",
        "a - - - b",
        " -  - ",
        "  -  ",
        "--- - ---",
        "a -b - c",
        "ä - ö - ü",
        " - - - - - - ",
    ] {
        let chars = chars_of(line);
        assert_eq!(chars, line.chars().collect::<Vec<char>>());
        let found: Vec<String> = split_fields(&chars)
            .iter()
            .map(|bounds| chars[bounds.0..bounds.1].iter().collect::<String>())
            .collect();
        let expected: Vec<String> = line.split(" - ").map(|field| field.to_string()).collect();
        assert_eq!(found, expected, "for {:?}", line);
    }
}

#[test]
fn a_rating_that_is_no_number_is_refused() {
    assert_eq!(parsed("Bob - x - 2 - 3 - t"), Err(ParseError::BadRating));
    assert_eq!(parsed("Bob - 1 - - 3 - t - x"), Err(ParseError::BadRating));
    assert_eq!(parsed("Bob - 1 - 2 - 3.5 - t"), Err(ParseError::BadRating));
    assert_eq!(parsed("Bob - 1 - 2 -  3 - t"), Err(ParseError::BadRating));
    assert_eq!(parsed("Bob - + - 2 - 3 - t"), Err(ParseError::BadRating));
    assert_eq!(parsed("Bob - 1 - -- - 3 - t"), Err(ParseError::BadRating));
    assert_eq!(parsed("Bob - 1 - 2 - --3 - t"), Err(ParseError::BadRating));
    assert_eq!(parsed("Bob - 1 - 2 - 3a - t"), Err(ParseError::BadRating));
    assert_eq!(parsed("Bob - 1 - 2 - ٣ - t"), Err(ParseError::BadRating));
}

#[test]
fn a_rating_must_fit() {
    assert_eq!(parsed("Bob - 32768 - 2 - 3 - t"), Err(ParseError::BadRating));
    assert_eq!(parsed("Bob - 1 - -32769 - 3 - t"), Err(ParseError::BadRating));
    assert_eq!(parsed("Bob - 1 - 2 - 99999999999999999999999 - t"), Err(ParseError::BadRating));
    match parsed("Bob - 32767 - -32768 - 0000000000000000000000000123 - t") {
        Ok(player) => {
            assert_eq!((player.tank_sr, player.damage_sr, player.support_sr), (32767, -32768, 123))
        },
        Err(error) => panic!("{:?}", error),
    }
    match parsed("Bob - -0 - +0 - +32767 - t") {
        Ok(player) => {
            assert_eq!((player.tank_sr, player.damage_sr, player.support_sr), (0, 0, 32767))
        },
        Err(error) => panic!("{:?}", error),
    }
}

#[test]
fn the_library_reads_ratings_as_the_standard_library_does() {
    for text in [
        "0", "7", "-7", "+7", "007", "32767", "32768", "-32768", "-32769", "", "+", "-", "1 ",
        " 1", "1_0", "0x10", "1e3", "--1", "+-1", "65535", "100000", "-00000", "९",
    ] {
        let expected = text.parse::<i16>().ok();
        let line = format!("n - {} - 1 - 1 - t", text);
        let found = parsed(&line).ok().map(|player| player.tank_sr);
        if text.contains(" - ") {
            continue;
        }
        assert_eq!(found, expected, "for {:?}", text);
    }
}

#[test]
fn a_roster_text_is_read_line_by_line() {
    let lines: Vec<String> = [
        "# Name - Tank - Damage - Support - Roles",
        "Alice - 3000 - 2900 - 3100 - td",
        "not a player",
        "#Bob - 1 - 2 - 3 - t",
        "",
        "Carl - 1 - two - 3 - s",
        "Dora - 10 - 20 - 30 - s",
    ]
    .iter()
    .map(|line| line.to_string())
    .collect();
    let reading = read_players(&lines);
    assert_eq!(reading.rejected, vec![2, 4, 5]);
    let roster = match reading.roster {
        Ok(roster) => roster,
        Err(error) => panic!("no roster: {:?}", error),
    };
    assert_eq!(roster.len(), 2);
    match (roster.get(1), roster.get(2)) {
        (Ok(first), Ok(second)) => {
            assert_eq!(first.name, "Alice");
            assert_eq!(second.name, "Dora");
            assert_eq!(second.get_sr(Position::Support), 30);
        },
        other => panic!("{:?}", other),
    }
    assert_eq!(roster.get(0).err(), Some(LookupError { id: 0 }));
    assert_eq!(roster.get(3).err(), Some(LookupError { id: 3 }));
}

#[test]
fn a_roster_text_with_too_many_players_gives_no_roster() {
    let mut lines = Vec::new();
    for i in 0..256 {
        lines.push(format!("P{} - 1 - 2 - 3 - t", i));
    }
    let reading = read_players(&lines);
    assert_eq!(reading.roster.err(), Some(ConfigError::TooManyPlayers));
    assert_eq!(reading.rejected, Vec::<usize>::new());
    lines.pop();
    assert_eq!(read_players(&lines).roster.map(|roster| roster.len()), Ok(255));
}

#[test]
fn an_empty_roster_text_gives_an_empty_roster() {
    assert_eq!(read_players(&vec![]).roster.map(|roster| roster.len()), Ok(0));
}

#[test]
fn a_player_has_a_rating_and_an_eligibility_per_role() {
    let player = Player {
        name: "Ana".to_string(),
        tank_sr: 1,
        damage_sr: -2,
        support_sr: 3,
        plays_tank: false,
        plays_damage: true,
        plays_support: false,
    };
    assert_eq!(player.get_sr(Position::Tank), 1);
    assert_eq!(player.get_sr(Position::Damage), -2);
    assert_eq!(player.get_sr(Position::Support), 3);
    assert!(!player.plays_position(Position::Tank));
    assert!(player.plays_position(Position::Damage));
    assert!(!player.plays_position(Position::Support));
    assert_eq!(
        player.to_string(),
        "Ana\nplays_tank: false\nplays_damage: true\nplays_support: false\n"
    );
}

#[test]
fn the_dummy_is_rated_zero_and_plays_nothing() {
    let dummy = Player::create_dummy();
    assert_eq!(dummy.name, "---");
    assert_eq!((dummy.tank_sr, dummy.damage_sr, dummy.support_sr), (0, 0, 0));
    assert!(!dummy.plays_tank && !dummy.plays_damage && !dummy.plays_support);
    assert_eq!(
        dummy.to_string(),
        "---\nplays_tank: false\nplays_damage: false\nplays_support: false\n"
    );
}

#[test]
fn a_team_lists_the_ratings_that_count() {
    assert_eq!(
        full_team().get_all_player_srs(),
        Ok(vec![3000, 2900, 3100, 2950, 3050, -2980])
    );
    assert_eq!(full_team().get_all_players(), Ok(six()));
}

#[test]
fn a_team_with_an_empty_slot_lists_nothing() {
    let mut team = full_team();
    team.damage_2 = None;
    assert_eq!(team.get_all_player_srs(), Err(MissingPlayer {}));
    assert_eq!(team.get_all_players(), Err(MissingPlayer {}));
    assert_eq!(team.get_ID(), Err(MissingPlayer {}));
}

#[test]
fn a_team_is_identified_by_its_sorted_names() {
    assert_eq!(full_team().get_ID(), Ok("Amy,Zed,Cid,Dot,Eva,Eve,".to_string()));
    let mut swapped = full_team();
    std::mem::swap(&mut swapped.tank_1, &mut swapped.tank_2);
    std::mem::swap(&mut swapped.support_1, &mut swapped.support_2);
    assert_eq!(swapped.get_ID(), full_team().get_ID());
}

#[test]
fn a_team_is_described_in_full() {
    assert_eq!(
        full_team().to_full_String("1503.5", "42"),
        "Team Owls\nAverage SR 1503.5\nStandard deviation 42\n\
         Tank:    3000 - Zed\nTank:    2900 - Amy\n\
         Damage:  3100 - Cid\nDamage:  2950 - Dot\n\
         Support: 3050 - Eve\nSupport: -2980 - Eva\n"
    );
}

#[test]
fn an_empty_slot_is_described_by_the_dummy() {
    let mut team = full_team();
    team.tank_2 = None;
    team.support_1 = None;
    assert_eq!(
        team.to_full_String("", ""),
        "Team Owls\nAverage SR \nStandard deviation \n\
         Tank:    3000 - Zed\nTank:    0 - ---\n\
         Damage:  3100 - Cid\nDamage:  2950 - Dot\n\
         Support: 0 - ---\nSupport: -2980 - Eva\n"
    );
}

#[test]
fn ratings_are_written_in_decimal() {
    for rating in [0, 1, 9, 10, 11, 99, 100, 101, 4999, 32767, -1, -10, -32768] {
        let mut team = full_team();
        team.tank_1 = Some(named("x", rating, 0, 0));
        let text = team.to_full_String("a", "b");
        assert!(text.contains(&format!("\nTank:    {} - x\n", rating)), "{}", text);
    }
}

#[test]
fn names_are_ordered_like_strings() {
    let names = ["", "a", "A", "ab", "abc", "abd", "b", "Zed", "zed", "é", "e", "ee", "日本", "z"];
    for a in names {
        for b in names {
            assert_eq!(comes_before(a, b), a < b, "{:?} before {:?}", a, b);
        }
    }
}

#[test]
fn a_team_of_five_lists_and_names_its_players() {
    let p = six();
    let team = OW2Team::new(
        "Five".to_string(),
        p[0].clone(),
        p[3].clone(),
        p[2].clone(),
        p[4].clone(),
        p[5].clone(),
    );
    assert_eq!(team.get_all_player_srs(), vec![3000, 2950, 3100, 3050, -2980]);
    assert_eq!(
        team._get_all_players(),
        vec![p[0].clone(), p[3].clone(), p[2].clone(), p[4].clone(), p[5].clone()]
    );
    assert_eq!(team._get_id(), "Zed,Cid,Dot,Eva,Eve,");
    assert_eq!(
        team._to_full_string("3.25", "1"),
        "OW2Team Five\nAverage SR 3.25\nStandard deviation 1\n\
         Tank:    3000 - Zed\n\
         Damage:  2950 - Dot\nDamage:  3100 - Cid\n\
         Support: 3050 - Eve\nSupport: -2980 - Eva\n"
    );
}

#[test]
fn slots_are_filled_from_the_roster() {
    assert_eq!(build_team(&slots([1, 2, 3, 4, 5, 6]), &roster()), Ok(full_team()));
    let p = six();
    let mixed = Team::new(
        "Owls".to_string(),
        p[5].clone(),
        p[5].clone(),
        p[0].clone(),
        p[1].clone(),
        p[2].clone(),
        p[3].clone(),
    );
    assert_eq!(build_team(&slots([6, 6, 1, 2, 3, 4]), &roster()), Ok(mixed));
}

#[test]
fn an_unknown_identifier_is_reported() {
    assert_eq!(build_team(&slots([1, 2, 3, 4, 5, 7]), &roster()), Err(LookupError { id: 7 }));
    assert_eq!(build_team(&slots([1, 0, 3, 4, 9, 7]), &roster()), Err(LookupError { id: 0 }));
    assert_eq!(build_team(&slots([255, 0, 3, 4, 9, 7]), &roster()), Err(LookupError { id: 255 }));
    assert_eq!(
        build_teams(&vec![slots([1, 2, 3, 4, 5, 6]), slots([1, 2, 3, 8, 5, 9])], &roster()),
        Err(LookupError { id: 8 })
    );
}

#[test]
fn teams_are_built_in_order() {
    let built = build_teams(&vec![slots([1, 2, 3, 4, 5, 6]), slots([2, 1, 4, 3, 6, 5])], &roster());
    match built {
        Ok(teams) => {
            assert_eq!(teams.len(), 2);
            assert_eq!(teams[0], full_team());
            assert_eq!(teams[1].get_all_player_srs(), Ok(vec![2900, 3000, 2950, 3100, -2980, 3050]));
        },
        Err(error) => panic!("{:?}", error),
    }
    assert_eq!(build_teams(&vec![], &roster()), Ok(vec![]));
}
