use racetoturin::curated::{Curated, CuratedPlayer};
use racetoturin::model::RaceRow;
use racetoturin::qualification::{select, Provisional, SeatBasis};

fn row(rank: u32, code: &str, points: u32) -> RaceRow {
    RaceRow {
        rank,
        movement: Some(0),
        player_code: code.to_string(),
        player_name: format!("Player {code}"),
        country: "USA".to_string(),
        race_points: points,
        results: Vec::new(),
        tournaments_played: None,
        titles: None,
    }
}

fn table() -> Vec<RaceRow> {
    (1..=12)
        .map(|i| row(i, &format!("p{i:03}"), 10_000 - i * 500))
        .collect()
}

fn curated_with(champs: &[&str], withdrawals: &[&str]) -> Curated {
    let player = |code: &&str| CuratedPlayer {
        code: code.to_string(),
        name: code.to_string(),
        source: None,
    };
    Curated {
        season: 2026,
        ruleset: "test".to_string(),
        notice: String::new(),
        slam_champions: champs.iter().map(player).collect(),
        official_qualifiers: Vec::new(),
        withdrawals: withdrawals.iter().map(player).collect(),
    }
}

#[test]
fn ordinary_case_seat_eight_by_rank() {
    let selection = select(&table(), &curated_with(&["p001"], &[]));
    assert_eq!(selection.eighth_basis, SeatBasis::RaceRank);
    assert_eq!(selection.eighth_code.as_deref(), Some("p008"));
    assert_eq!(selection.alternate_code.as_deref(), Some("p009"));
    assert_eq!(selection.state("p001"), Provisional::TopSeven);
    assert_eq!(selection.state("p008"), Provisional::Eighth);
    assert_eq!(selection.state("p009"), Provisional::FirstAlternate);
    assert_eq!(selection.state("p010"), Provisional::NotSelected);
}

#[test]
fn ordinary_margins_have_correct_signs() {
    let selection = select(&table(), &curated_with(&[], &[]));
    // p008 has 6000, p009 has 5500: cushion +500 / deficit -500.
    assert_eq!(selection.margin("p008"), Some(500));
    assert_eq!(selection.margin("p009"), Some(-500));
    assert_eq!(selection.margin("p001"), Some(4000));
    assert_eq!(selection.margin("p010"), Some(-1000));
}

#[test]
fn slam_champion_ranked_8_to_20_takes_seat_eight() {
    let selection = select(&table(), &curated_with(&["p010"], &[]));
    assert_eq!(selection.eighth_basis, SeatBasis::GrandSlamChampion);
    assert_eq!(selection.eighth_code.as_deref(), Some("p010"));
    assert_eq!(selection.state("p010"), Provisional::Eighth);
    // Rank 8 by points is now the first alternate, not selected.
    assert_eq!(selection.alternate_code.as_deref(), Some("p008"));
    assert_eq!(selection.state("p008"), Provisional::FirstAlternate);
    // No contiguous points line exists: margins are suppressed.
    assert!(selection.margins.len() == 0);
}

#[test]
fn champion_already_in_top_seven_triggers_no_provision() {
    let selection = select(&table(), &curated_with(&["p003"], &[]));
    assert_eq!(selection.eighth_basis, SeatBasis::RaceRank);
    assert_eq!(selection.eighth_code.as_deref(), Some("p008"));
}

#[test]
fn champion_ranked_below_20_is_not_eligible() {
    let rows: Vec<RaceRow> = (1..=22)
        .map(|i| row(i, &format!("p{i:03}"), 10_000 - i * 100))
        .collect();
    let selection = select(&rows, &curated_with(&["p021"], &[]));
    assert_eq!(selection.eighth_basis, SeatBasis::RaceRank);
}

#[test]
fn two_champions_first_takes_seat_second_is_alternate() {
    let selection = select(&table(), &curated_with(&["p012", "p010"], &[]));
    assert_eq!(selection.eighth_basis, SeatBasis::GrandSlamChampion);
    // Ordered by rank, not curated-file order.
    assert_eq!(selection.eighth_code.as_deref(), Some("p010"));
    assert_eq!(selection.alternate_code.as_deref(), Some("p012"));
    assert_eq!(selection.state("p012"), Provisional::FirstAlternate);
    assert_eq!(selection.state("p008"), Provisional::NotSelected);
}

#[test]
fn withdrawal_shifts_seats_down() {
    let selection = select(&table(), &curated_with(&[], &["p003"]));
    assert_eq!(selection.state("p003"), Provisional::Withdrawn);
    assert_eq!(selection.state("p008"), Provisional::TopSeven);
    assert_eq!(selection.eighth_code.as_deref(), Some("p009"));
    assert_eq!(selection.alternate_code.as_deref(), Some("p010"));
    assert!(selection.margin("p003").is_none());
}

#[test]
fn short_tables_do_not_panic() {
    let rows: Vec<RaceRow> = (1..=3).map(|i| row(i, &format!("p{i:03}"), 1000)).collect();
    let selection = select(&rows, &curated_with(&[], &[]));
    assert_eq!(selection.eighth_code, None);
    assert_eq!(selection.alternate_code, None);
    assert!(selection.margins.len() == 0);
}

#[test]
fn everyone_active_has_exactly_one_seat() {
    let selection = select(&table(), &curated_with(&["p009", "p011"], &["p002", "p012"]));
    let mut seats: Vec<(String, Provisional)> = Vec::new();
    for r in &table() {
        seats.push((r.player_code.clone(), selection.state(&r.player_code)));
    }
    let count = |p: Provisional| seats.iter().filter(|(_, s)| *s == p).count();
    assert_eq!(count(Provisional::TopSeven), 7);
    assert_eq!(count(Provisional::Eighth), 1);
    assert_eq!(count(Provisional::FirstAlternate), 1);
    assert_eq!(count(Provisional::Withdrawn), 2);
    assert_eq!(count(Provisional::NotSelected), 1);
    assert_eq!(selection.state("p009"), Provisional::Eighth);
    assert_eq!(selection.state("p011"), Provisional::FirstAlternate);
}

#[test]
fn a_withdrawn_champion_takes_no_seat() {
    let selection = select(&table(), &curated_with(&["p010"], &["p010"]));
    assert_eq!(selection.state("p010"), Provisional::Withdrawn);
    assert_eq!(selection.eighth_basis, SeatBasis::RaceRank);
    assert_eq!(selection.eighth_code.as_deref(), Some("p008"));
}

#[test]
fn codes_are_collected_once_each() {
    let mut curated = curated_with(&["a", "b", "a"], &["c"]);
    curated.official_qualifiers = curated.slam_champions.clone();
    assert_eq!(curated.slam_champion_codes().len(), 2);
    assert!(curated.slam_champion_codes().contains("b"));
    assert!(curated.official_qualifier_codes().contains("a"));
    assert!(!curated.official_qualifier_codes().contains("c"));
    assert!(curated.withdrawal_codes().contains("c"));
}
