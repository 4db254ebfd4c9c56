use racetoturin::atp::{ids, profile_url, IdTable};
use racetoturin::canonical::{canonical, frame_all};
use racetoturin::calendar::{seconds_between, CalendarDate, Timestamp};
use racetoturin::curated::{Curated, CuratedPlayer};
use racetoturin::model::{Played, RaceRow, Slot, Snapshot, TournamentResult};
use racetoturin::qualification::select;
use racetoturin::source::{
    display_name, event_name, parse, parse_at, parse_standings, Problem, SourceError, PARSER_VERSION,
};
use racetoturin::storage::{
    content_hash, derive_movement, load, load_current, publish_if_changed, store,
    Publishing, RaceRecord, ResultRecord, StoredSnapshot,
};
use racetoturin::web::{
    build_fresh, build_index, build_ledger, build_methodology, build_rows, build_summary,
    css_version, health_report, humanize_age, is_servable, plural, shared_link_text,
    signed_thousands, thousands, version_of, wikipedia_url, AppState, RowView, APP_CSS,
    CACHE_IMMUTABLE, CACHE_PAGE, READY, ROBOTS,
};
use racetoturin::wikidata::{player_titles, wanted};
use racetoturin::{load_state, Settings};

const FIXTURE: &str = r##"{{Short description|Tennis tournament}}
'''2026 ATP Finals''' is held in [[Turin]].

== Qualification ==
=== Singles ===
{|class="sortable wikitable nowrap"
! # !! Player !! Date
|-
| 1 || align=left | {{flagicon|ITA}} [[Jannik Sinner]] || {{dts|10 July}}<ref>{{cite web|url=https://www.atptour.com/en/news/sinner-qualifies-turin|title=Sinner qualifies}}</ref>
|-
| 2 || align=left | {{flagicon|GER}} [[Alexander Zverev]] || {{dts|6 August}}<ref>{{cite web |url=https://www.atptour.com/en/news/zverev-qualifies-turin |title=Zverev qualifies}}</ref>
|}

=== Doubles ===
{|class="sortable wikitable nowrap"
! # !! Team !! Date
|-
| 1 || align=left | [[Marcelo Arévalo]] || {{dts|12 July}}<ref>{{cite web|url=https://example.org/doubles}}</ref>
|}

== Standings ==
''Updated {{as of|2026|8|16|lc=yes}}.''

{|class="wikitable nowrap" style=font-size:90%;text-align:center
! rowspan="2" | Rank
! rowspan="2" | Player
! colspan="4" | [[Grand Slam (tennis)|Grand Slam]]
! colspan="8" | [[ATP Masters 1000]]
! colspan=6 | Best other
! rowspan="2" | Total<br/>points
! rowspan="2" | Tourn
! rowspan="2" | Titles
|-
! AO !! FO !! WIM !! USO
! IW !! MIA !! MAD !! ROM !! CAN !! CIN !! SHA !! PAR
! 1 !! 2 !! 3 !! 4 !! 5 !! 6
|-
| 1
| align="left" | {{flagicon|ITA}} [[Jannik Sinner]]
| bgcolor=#ffebcd | <!--Australian Open--> [[2026 Australian Open – Men's singles|SF]]<br/>800
| bgcolor=#ffebcd | <!--French Open--> [[2026 French Open – Men's singles|F]]<br/>1,300
| bgcolor=#ffebcd | <!--Wimbledon--> [[2026 Wimbledon Championships – Men's singles|W]]<br/>2,000
| <!--US Open-->
| bgcolor=#ffebcd | <!--Indian Wells--> [[2026 BNP Paribas Open – Men's singles|W]]<br/>1,000
| bgcolor=#ffebcd | <!--Miami--> [[2026 Miami Open – Men's singles|F]]<br/>650
| bgcolor=#ffebcd | <!--Madrid--> [[2026 Mutua Madrid Open – Men's singles|W]]<br/>1,000
| bgcolor=#ffebcd | <!--Rome--> [[2026 Italian Open – Men's singles|W]]<br/>1,000
| <!--Canada--> A
| <!--Cincinnati--> A
| <!--Shanghai-->
| <!--Paris-->
| <!---1---> [[2026 Qatar ExxonMobil Open – Singles|QF]]<br/>100
| <!---2---> [[2026 Monte-Carlo Masters – Singles|R16]]<br/>100
| <!---3--->
| <!---4--->
| <!---5--->
| <!---6--->
! 7,950
! 12
! 5
|-
| 2
| align="left" | {{flagicon|GER}} [[Alexander Zverev]]
| bgcolor=#ffebcd | <!--Australian Open--> [[2026 Australian Open – Men's singles|F]]<br/>1,300
| bgcolor=#ffebcd | <!--French Open--> [[2026 French Open – Men's singles|W]]<br/>2,000
| bgcolor=#ffebcd | <!--Wimbledon--> [[2026 Wimbledon Championships – Men's singles|SF]]<br/>800
| <!--US Open-->
| bgcolor=#ffebcd | <!--Indian Wells--> [[2026 BNP Paribas Open – Men's singles|SF]]<br/>400
| bgcolor=#ffebcd | <!--Miami--> [[2026 Miami Open – Men's singles|SF]]<br/>400
| bgcolor=#ffebcd | <!--Madrid--> [[2026 Mutua Madrid Open – Men's singles|F]]<br/>650
| bgcolor=#ffebcd | <!--Rome--> [[2026 Italian Open – Men's singles|QF]]<br/>200
| bgcolor=#ffebcd | <!--Canada--> [[2026 National Bank Open – Men's singles|QF]]<br/>200
| <!--Cincinnati--> A
| <!--Shanghai-->
| <!--Paris-->
| <!---1---> [[2026 BMW Open – Singles|W]]<br/>500
| <!---2---> [[2026 Halle Open – Singles|QF]]<br/>100
| <!---3---> [[2026 United Cup|RR]]<br/>100
| <!---4--->
| <!---5--->
| <!---6--->
! 6,650
! 14
! 2
|-
| 3
| align="left" | {{flagicon|ESP}} [[Carlos Alcaraz]]
| bgcolor=#ffebcd | <!--Australian Open--> [[2026 Australian Open – Men's singles|W]]<br/>2,000
| <!--French Open--> A
| bgcolor=#ffebcd | <!--Wimbledon--> [[2026 Wimbledon Championships – Men's singles|SF]]<br/>800
| <!--US Open-->
| bgcolor=#ffebcd | <!--Indian Wells--> [[2026 BNP Paribas Open – Men's singles|SF]]<br/>400
| bgcolor=#ffebcd | <!--Miami--> [[2026 Miami Open – Men's singles|R16]]<br/>100
| bgcolor=#ffebcd | <!--Madrid--> [[2026 Mutua Madrid Open – Men's singles|QF]]<br/>200
| bgcolor=#ffebcd | <!--Rome--> [[2026 Italian Open – Men's singles|SF]]<br/>400
| <!--Canada--> A
| <!--Cincinnati--> A
| <!--Shanghai-->
| <!--Paris-->
| <!---1---> [[2026 Barcelona Open – Singles|SF]]<br/>200
| <!---2---> [[2026 Rotterdam Open – Singles|QF]]<br/>150
| <!---3---> [[2026 Queen's Club Championships – Singles|R16]]<br/>200
| <!---4--->
| <!---5--->
| <!---6--->
! 4,450
! 9
! 2
|-
| 4
| align="left" | {{flagicon|USA}} [[Ben Shelton]]
| bgcolor=#ffebcd | <!--Australian Open--> [[2026 Australian Open – Men's singles|QF]]<br/>400
| bgcolor=#ffebcd | <!--French Open--> [[2026 French Open – Men's singles|QF]]<br/>400
| bgcolor=#ffebcd | <!--Wimbledon--> [[2026 Wimbledon Championships – Men's singles|QF]]<br/>400
| <!--US Open-->
| bgcolor=#ffebcd | <!--Indian Wells--> [[2026 BNP Paribas Open – Men's singles|SF]]<br/>400
| bgcolor=#afeeee | <!--Miami--> ''[[2026 ASB Classic – Singles|QF]]<br/>50''
| bgcolor=#afeeee | <!--Madrid--> ''[[2026 Mexican Open – Singles|SF]]<br/>200''
| bgcolor=#ffebcd | <!--Rome--> [[2026 Italian Open – Men's singles|QF]]<br/>200
| bgcolor=#ffebcd | <!--Canada--> [[2026 National Bank Open – Men's singles|W]]<br/>1,000
| <!--Cincinnati--> A
| <!--Shanghai-->
| <!--Paris-->
| <!---1---> [[2026 Dallas Open – Singles|F]]<br/>300
| <!---2---> [[2026 Houston Open – Singles|SF]]<br/>100
| <!---3---> [[2026 Stuttgart Open – Singles|SF]]<br/>200
| <!---4--->
| <!---5--->
| <!---6--->
! 3,650
! 15
! 1
|-
| 5
| align="left" | {{flagicon|USA}} [[Taylor Fritz]]
| bgcolor=#ffebcd | <!--Australian Open--> [[2026 Australian Open – Men's singles|R16]]<br/>200
| bgcolor=#ffebcd | <!--French Open--> [[2026 French Open – Men's singles|R16]]<br/>200
| bgcolor=#ffebcd | <!--Wimbledon--> [[2026 Wimbledon Championships – Men's singles|SF]]<br/>800
| <!--US Open-->
| bgcolor=#ffebcd | <!--Indian Wells--> [[2026 BNP Paribas Open – Men's singles|QF]]<br/>200
| bgcolor=#ffebcd | <!--Miami--> [[2026 Miami Open – Men's singles|QF]]<br/>200
| bgcolor=#ffebcd | <!--Madrid--> [[2026 Mutua Madrid Open – Men's singles|SF]]<br/>400
| bgcolor=#ffebcd | <!--Rome--> [[2026 Italian Open – Men's singles|R16]]<br/>100
| bgcolor=#ffebcd | <!--Canada--> [[2026 National Bank Open – Men's singles|QF]]<br/>200
| <!--Cincinnati--> A
| <!--Shanghai-->
| <!--Paris-->
| <!---1---> [[2026 Eastbourne Open – Singles|W]]<br/>250
| <!---2---> [[2026 Stuttgart Open – Singles|F]]<br/>165
| <!---3---> [[2026 Washington Open – Singles|SF]]<br/>200
| <!---4---> [[2026 Delray Beach Open – Singles|QF]]<br/>185
| <!---5---> [[2026 United Cup|RR]]<br/>100
| <!---6--->
! 3,200
! 16
! 1
|-
| 6
| align="left" | {{flagicon|ITA}} [[Flavio Cobolli]]
| bgcolor=#ffebcd | <!--Australian Open--> [[2026 Australian Open – Men's singles|R16]]<br/>200
| bgcolor=#ffebcd | <!--French Open--> [[2026 French Open – Men's singles|QF]]<br/>400
| bgcolor=#ffebcd | <!--Wimbledon--> [[2026 Wimbledon Championships – Men's singles|QF]]<br/>400
| <!--US Open-->
| bgcolor=#ffebcd | <!--Indian Wells--> [[2026 BNP Paribas Open – Men's singles|R16]]<br/>100
| bgcolor=#ffebcd | <!--Miami--> [[2026 Miami Open – Men's singles|R16]]<br/>100
| bgcolor=#ffebcd | <!--Madrid--> [[2026 Mutua Madrid Open – Men's singles|QF]]<br/>200
| bgcolor=#ffebcd | <!--Rome--> [[2026 Italian Open – Men's singles|SF]]<br/>400
| bgcolor=#ffebcd | <!--Canada--> [[2026 National Bank Open – Men's singles|R32]]<br/>50
| bgcolor=#ffebcd | <!--Cincinnati--> [[2026 Cincinnati Open – Men's singles|R32]]<br/>50
| <!--Shanghai-->
| <!--Paris-->
| <!---1---> [[2026 Hamburg Open – Singles|W]]<br/>500
| <!---2---> [[2026 Monte-Carlo Masters – Singles|QF]]<br/>200
| <!---3---> [[2026 Rio Open – Singles|SF]]<br/>200
| <!---4---> [[2026 Argentina Open – Singles|QF]]<br/>50
| <!---5---> [[2026 Barcelona Open – Singles|QF]]<br/>100
| <!---6---> [[2026 Halle Open – Singles|R16]]<br/>50
! 3,000
! 19
! 1
|-
| 7
| align="left" | {{flagicon|}} [[Daniil Medvedev]]
| bgcolor=#ffebcd | <!--Australian Open--> [[2026 Australian Open – Men's singles|QF]]<br/>400
| bgcolor=#ffebcd | <!--French Open--> [[2026 French Open – Men's singles|R128]]<br/>10
| bgcolor=#ffebcd | <!--Wimbledon--> [[2026 Wimbledon Championships – Men's singles|R16]]<br/>200
| <!--US Open-->
| bgcolor=#ffebcd | <!--Indian Wells--> [[2026 BNP Paribas Open – Men's singles|F]]<br/>650
| bgcolor=#ffebcd | <!--Miami--> [[2026 Miami Open – Men's singles|R16]]<br/>100
| bgcolor=#ffebcd | <!--Madrid--> [[2026 Mutua Madrid Open – Men's singles|R16]]<br/>100
| bgcolor=#ffebcd | <!--Rome--> [[2026 Italian Open – Men's singles|SF]]<br/>400
| bgcolor=#ffebcd | <!--Canada--> [[2026 National Bank Open – Men's singles|R16]]<br/>100
| <!--Cincinnati--> A
| <!--Shanghai-->
| <!--Paris-->
| <!---1---> [[2026 Dubai Tennis Championships – Singles|SF]]<br/>200
| <!---2---> [[2026 Halle Open – Singles|SF]]<br/>200
| <!---3---> [[2026 Brisbane International – Singles|F]]<br/>165
| <!---4---> [[2026 Rotterdam Open – Singles|R16]]<br/>55
| <!---5--->
| <!---6--->
! 2,580
! 15
! 0
|-
| 8
| align="left" | {{flagicon|SRB}} [[Novak Djokovic]]
| bgcolor=#ffebcd | <!--Australian Open--> [[2026 Australian Open – Men's singles|SF]]<br/>800
| bgcolor=#ffebcd | <!--French Open--> [[2026 French Open – Men's singles|R16]]<br/>200
| bgcolor=#ffebcd | <!--Wimbledon--> [[2026 Wimbledon Championships – Men's singles|SF]]<br/>800
| <!--US Open-->
| bgcolor=#ffebcd | <!--Indian Wells--> [[2026 BNP Paribas Open – Men's singles|QF]]<br/>200
| <!--Miami--> A
| <!--Madrid--> A
| bgcolor=#ffebcd | <!--Rome--> [[2026 Italian Open – Men's singles|QF]]<br/>200
| <!--Canada--> A
| bgcolor=#ffebcd | <!--Cincinnati--> [[2026 Cincinnati Open – Men's singles|R16]]<br/>120
| <!--Shanghai-->
| <!--Paris-->
| <!---1--->
| <!---2--->
| <!---3--->
| <!---4--->
| <!---5--->
| <!---6--->
! 2,320
! 6
! 0
|-
| colspan=23 | '''Alternates'''
|-
| 9
| align="left" | {{flagicon|CAN}} [[Félix Auger-Aliassime]]
| bgcolor=#ffebcd | <!--Australian Open--> [[2026 Australian Open – Men's singles|R16]]<br/>200
| bgcolor=#ffebcd | <!--French Open--> [[2026 French Open – Men's singles|R16]]<br/>200
| bgcolor=#ffebcd | <!--Wimbledon--> [[2026 Wimbledon Championships – Men's singles|QF]]<br/>400
| <!--US Open-->
| bgcolor=#ffebcd | <!--Indian Wells--> [[2026 BNP Paribas Open – Men's singles|R16]]<br/>100
| bgcolor=#ffebcd | <!--Miami--> [[2026 Miami Open – Men's singles|QF]]<br/>200
| bgcolor=#ffebcd | <!--Madrid--> [[2026 Mutua Madrid Open – Men's singles|R16]]<br/>100
| bgcolor=#ffebcd | <!--Rome--> [[2026 Italian Open – Men's singles|QF]]<br/>200
| bgcolor=#ffebcd | <!--Canada--> [[2026 National Bank Open – Men's singles|QF]]<br/>200
| <!--Cincinnati--> A
| <!--Shanghai-->
| <!--Paris-->
| <!---1---> [[2026 Adelaide International – Singles|W]]<br/>250
| <!---2---> [[2026 Montpellier Open – Singles|F]]<br/>165
| <!---3---> [[2026 Rotterdam Open – Singles|SF]]<br/>200
| <!---4---> [[2026 Lyon Open – Singles|SF]]<br/>100
| <!---5--->
| <!---6--->
! 2,315
! 16
! 1
|-
| 10
| align="left" | {{flagicon|ESP}} [[Rafael Jódar]]
| bgcolor=#ffebcd | <!--Australian Open--> [[2026 Australian Open – Men's singles|R32]]<br/>100
| bgcolor=#ffebcd | <!--French Open--> [[2026 French Open – Men's singles|QF]]<br/>400
| bgcolor=#ffebcd | <!--Wimbledon--> [[2026 Wimbledon Championships – Men's singles|R16]]<br/>200
| <!--US Open-->
| bgcolor=#ffebcd | <!--Indian Wells--> [[2026 BNP Paribas Open – Men's singles|R32]]<br/>50
| bgcolor=#ffebcd | <!--Miami--> [[2026 Miami Open – Men's singles|R16]]<br/>100
| bgcolor=#ffebcd | <!--Madrid--> [[2026 Mutua Madrid Open – Men's singles|SF]]<br/>400
| bgcolor=#ffebcd | <!--Rome--> [[2026 Italian Open – Men's singles|R16]]<br/>100
| bgcolor=#ffebcd | <!--Canada--> [[2026 National Bank Open – Men's singles|R16]]<br/>100
| <!--Cincinnati--> A
| <!--Shanghai-->
| <!--Paris-->
| <!---1---> [[2026 Estoril Open – Singles|W]]<br/>250
| <!---2---> [[2026 Barcelona Open – Singles|SF]]<br/>200
| <!---3---> [[2026 Swedish Open – Singles|F]]<br/>165
| <!---4---> [[2026 Generali Open – Singles|SF]]<br/>135
| <!---5--->
| <!---6--->
! 2,200
! 17
! 1
|-
| 11
| align="left" | {{flagicon|CZE}} [[Jakub Menšík]]
| bgcolor=#ffebcd | <!--Australian Open--> [[2026 Australian Open – Men's singles|QF]]<br/>400
| bgcolor=#ffebcd | <!--French Open--> [[2026 French Open – Men's singles|R32]]<br/>100
| bgcolor=#ffebcd | <!--Wimbledon--> [[2026 Wimbledon Championships – Men's singles|R16]]<br/>200
| <!--US Open-->
| bgcolor=#ffebcd | <!--Indian Wells--> [[2026 BNP Paribas Open – Men's singles|R16]]<br/>100
| bgcolor=#ffebcd | <!--Miami--> [[2026 Miami Open – Men's singles|QF]]<br/>200
| bgcolor=#ffebcd | <!--Madrid--> [[2026 Mutua Madrid Open – Men's singles|R16]]<br/>100
| bgcolor=#ffebcd | <!--Rome--> [[2026 Italian Open – Men's singles|R32]]<br/>50
| bgcolor=#ffebcd | <!--Canada--> [[2026 National Bank Open – Men's singles|R16]]<br/>100
| <!--Cincinnati--> A
| <!--Shanghai-->
| <!--Paris-->
| <!---1---> [[2026 Auckland Open – Singles|W]]<br/>250
| <!---2---> [[2026 Dubai Tennis Championships – Singles|SF]]<br/>200
| <!---3---> [[2026 Halle Open – Singles|SF]]<br/>200
| <!---4---> [[2026 Los Cabos Open – Singles|SF]]<br/>200
| <!---5--->
| <!---6--->
! 2,100
! 18
! 1
|-
| 12
| align="left" | {{flagicon|USA}} [[Tommy Paul (tennis)|Tommy Paul]]
| bgcolor=#ffebcd | <!--Australian Open--> [[2026 Australian Open – Men's singles|QF]]<br/>400
| bgcolor=#ffebcd | <!--French Open--> [[2026 French Open – Men's singles|QF]]<br/>400
| bgcolor=#ffebcd | <!--Wimbledon--> [[2026 Wimbledon Championships – Men's singles|R32]]<br/>100
| <!--US Open-->
| bgcolor=#ffebcd | <!--Indian Wells--> [[2026 BNP Paribas Open – Men's singles|R16]]<br/>100
| bgcolor=#ffebcd | <!--Miami--> [[2026 Miami Open – Men's singles|R16]]<br/>100
| bgcolor=#ffebcd | <!--Madrid--> [[2026 Mutua Madrid Open – Men's singles|R16]]<br/>100
| bgcolor=#ffebcd | <!--Rome--> [[2026 Italian Open – Men's singles|QF]]<br/>200
| bgcolor=#ffebcd | <!--Canada--> [[2026 National Bank Open – Men's singles|R32]]<br/>50
| <!--Cincinnati--> A
| <!--Shanghai-->
| <!--Paris-->
| <!---1---> [[2026 Dallas Open – Singles|SF]]<br/>200
| <!---2---> [[2026 Houston Open – Singles|F]]<br/>165
| <!---3---> [[2026 Queen's Club Championships – Singles|QF]]<br/>100
| <!---4---> [[2026 Washington Open – Singles|R16]]<br/>85
| <!---5--->
| <!---6--->
! 2,000
! 16
! 0
|}
"##;

fn fixture() -> Snapshot {
    parse(FIXTURE, "fixtures/race.wikitext", 2026).expect("fixture must parse")
}

fn moment(year: i32, month: u8, day: u8, hour: u8) -> Timestamp {
    Timestamp {
        year,
        month,
        day,
        hour,
        minute: 0,
        second: 0,
        nanosecond: 0,
        offset_seconds: 0,
    }
}

// ---- the article ---------------------------------------------------------

#[test]
fn parses_players_and_skips_the_alternates_separator() {
    let snap = fixture();
    assert_eq!(snap.rows.len(), 12);
    assert!(snap.rows.iter().all(|r| !r.player_name.contains("Alternates")));
    assert_eq!(snap.parser_version, PARSER_VERSION);
}

#[test]
fn identity_is_the_article_title_and_points_come_from_the_total_cell() {
    let snap = fixture();
    assert_eq!(snap.rows[0].player_code, "Jannik Sinner");
    assert_eq!(snap.rows[0].race_points, 7950);
    assert_eq!(snap.rows[0].country, "ITA");
    assert_eq!(snap.rows[1].race_points, 6650);
}

#[test]
fn disambiguated_titles_keep_the_code_but_clean_the_display_name() {
    let snap = fixture();
    let paul = snap
        .rows
        .iter()
        .find(|r| r.player_code.starts_with("Tommy Paul"));
    if let Some(paul) = paul {
        assert_eq!(paul.player_code, "Tommy Paul (tennis)");
        assert_eq!(paul.player_name, "Tommy Paul");
    }
    assert_eq!(display_name("Tommy Paul (tennis)"), "Tommy Paul");
    assert_eq!(display_name("Jannik Sinner"), "Jannik Sinner");
}

#[test]
fn neutral_status_player_has_empty_country_not_an_error() {
    let snap = fixture();
    let med = snap
        .rows
        .iter()
        .find(|r| r.player_code == "Daniil Medvedev")
        .expect("Medvedev is in the fixture");
    assert_eq!(med.country, "");
    assert_eq!(med.race_points, 2580);
}

#[test]
fn reads_the_articles_stated_as_of_date() {
    let snap = fixture();
    assert_eq!(snap.source_as_of.date().to_text(), "2026-08-16");
}

#[test]
fn ingests_official_qualifiers_with_their_sources() {
    let snap = fixture();
    assert_eq!(snap.qualifiers.len(), 2);
    let sinner = &snap.qualifiers[0];
    assert_eq!(sinner.player_code, "Jannik Sinner");
    assert_eq!(sinner.qualified_on.to_text(), "2026-07-10");
    assert!(sinner.source_url.starts_with("https://"));
    let zverev = &snap.qualifiers[1];
    assert_eq!(zverev.player_code, "Alexander Zverev");
    assert_eq!(zverev.qualified_on.to_text(), "2026-08-06");
    assert_eq!(zverev.source_url, "https://www.atptour.com/en/news/zverev-qualifies-turin");
}

/// The invariant the whole feature rests on, and the reason a breakdown can be
/// trusted at all: the source's per-tournament cells account for the total it
/// states, to the point.
#[test]
fn every_rows_ledger_accounts_for_its_stated_total() {
    let snap = fixture();
    for row in &snap.rows {
        assert!(
            !row.results.is_empty(),
            "{} has no ledger, so its cells did not reconcile",
            row.player_name
        );
        assert_eq!(
            row.ledger_points(),
            row.race_points,
            "{} ledger does not sum to its total",
            row.player_name
        );
    }
}

/// A cell is identified by its own wikilink, not by the column it sits in.
#[test]
fn a_substituted_result_names_the_event_played_and_the_slot_it_replaced() {
    let snap = fixture();
    let shelton = snap
        .rows
        .iter()
        .find(|r| r.player_code == "Ben Shelton")
        .expect("Shelton is in the fixture");

    let subs: Vec<&TournamentResult> = shelton.results.iter().filter(|r| r.substituted).collect();
    assert_eq!(subs.len(), 2, "Shelton has two substituted Masters slots");
    assert_eq!(subs[0].slot, Slot::Mandatory1000);
    assert_eq!(subs[0].slot_label, "Miami", "the slot the result replaces");
    assert_eq!(subs[0].event_name, "ASB Classic", "the event actually played");
    assert_eq!(subs[0].round, "QF");
    assert_eq!(subs[0].points, 50);

    // And an ordinary Masters cell is not marked as a substitution.
    let indian_wells = shelton
        .results
        .iter()
        .find(|r| r.slot_label == "Indian Wells")
        .expect("the Indian Wells column is present");
    assert!(!indian_wells.substituted);
    assert_eq!(indian_wells.event_name, "BNP Paribas Open");
}

/// Skipping an event that has happened and waiting for one that has not are
/// different facts about a mandatory slot, so the parser keeps them apart.
#[test]
fn absent_and_not_yet_played_are_distinct() {
    let snap = fixture();
    let djokovic = snap
        .rows
        .iter()
        .find(|r| r.player_code == "Novak Djokovic")
        .expect("Djokovic is in the fixture");

    let slot = |label: &str| {
        djokovic
            .results
            .iter()
            .find(|r| r.slot_label == label)
            .unwrap_or_else(|| panic!("no {label} slot"))
    };
    // "A" in the source: the event happened, he did not play it.
    assert_eq!(slot("Miami").played, Played::Absent);
    assert_eq!(slot("Miami").points, 0);
    // Empty in the source: the event has not been played yet.
    assert_eq!(slot("Shanghai").played, Played::Pending);
    assert_eq!(slot("US Open").played, Played::Pending);
    assert_eq!(slot("Rome").played, Played::Result);

    // Unused "best other" columns say only that a player has fewer than six
    // counting results, which is not worth a ledger entry.
    assert!(
        !djokovic.results.iter().any(|r| r.slot == Slot::BestOther),
        "Djokovic's six empty best-other columns must not become entries"
    );
}

/// Column blocks come from the header's `colspan` groups.
#[test]
fn ledger_blocks_are_read_from_the_header_colspans() {
    let snap = fixture();
    let count = |row: &RaceRow, slot: Slot| row.results.iter().filter(|r| r.slot == slot).count();
    for row in &snap.rows {
        assert_eq!(count(row, Slot::GrandSlam), 4, "{}", row.player_name);
        assert_eq!(count(row, Slot::Mandatory1000), 8, "{}", row.player_name);
        assert!(count(row, Slot::BestOther) <= 6, "{}", row.player_name);
    }
}

/// Only a player's best results count, so the ledger is routinely shorter than
/// the season played.
#[test]
fn reads_the_tournaments_played_and_titles_counts() {
    let snap = fixture();
    let cobolli = snap
        .rows
        .iter()
        .find(|r| r.player_code == "Flavio Cobolli")
        .expect("Cobolli is in the fixture");
    assert_eq!(cobolli.tournaments_played, Some(19));
    assert_eq!(cobolli.titles, Some(1));
    // Fifteen of those nineteen carry points toward the total.
    assert_eq!(cobolli.counting_results(), 15);
    assert!(cobolli.counting_results() < cobolli.tournaments_played.unwrap() as usize);
}

/// A breakdown that does not add up is dropped on its own.
#[test]
fn an_unreconciled_ledger_is_dropped_without_losing_the_row() {
    // Inflate one of Sinner's cells, leaving his stated total alone.
    let text = FIXTURE.replace(
        "[[2026 Qatar ExxonMobil Open – Singles|QF]]<br/>100",
        "[[2026 Qatar ExxonMobil Open – Singles|QF]]<br/>110",
    );
    let snap = parse(&text, "test", 2026).expect("the snapshot itself still publishes");

    let sinner = &snap.rows[0];
    assert_eq!(sinner.player_code, "Jannik Sinner");
    assert_eq!(sinner.race_points, 7950, "the stated total is untouched");
    assert!(
        sinner.results.is_empty(),
        "a breakdown that does not sum to the total must not be shown"
    );
    // Every other row is unaffected: the check is per row, not per article.
    assert!(snap.rows[1..].iter().all(|r| !r.results.is_empty()));
}

#[test]
fn event_names_drop_the_season_and_the_draw_suffix() {
    assert_eq!(event_name("2026 Australian Open – Men's singles"), "Australian Open");
    assert_eq!(event_name("2026 Monte-Carlo Masters – Singles"), "Monte-Carlo Masters");
    assert_eq!(event_name("2026 United Cup"), "United Cup");
    // Nothing to strip, and a hyphenated name must survive intact.
    assert_eq!(event_name("Monte-Carlo Masters"), "Monte-Carlo Masters");
}

#[test]
fn rejects_article_without_the_standings_table() {
    let html = FIXTURE.replace("{|class=\"wikitable nowrap\"", "{|class=\"other\"");
    let err = parse(&html, "test", 2026).unwrap_err().message();
    assert!(err.contains("standings table"), "unexpected: {err}");
}

#[test]
fn rejects_missing_as_of_date() {
    let text = FIXTURE.replace("{{as of|", "{{whenever|");
    let err = parse(&text, "test", 2026).unwrap_err().message();
    assert!(err.contains("as of"), "unexpected: {err}");
}

#[test]
fn rejects_non_monotonic_points() {
    let text = FIXTURE.replace("! 3,650", "! 9,650");
    let err = parse(&text, "test", 2026).unwrap_err().message();
    assert!(err.contains("non-increasing"), "unexpected: {err}");
}

#[test]
fn rejects_duplicate_players() {
    let text = FIXTURE.replace("[[Carlos Alcaraz]]", "[[Jannik Sinner]]");
    let err = parse(&text, "test", 2026).unwrap_err().message();
    assert!(err.contains("duplicate player"), "unexpected: {err}");
}

#[test]
fn rejects_truncated_table() {
    let cut = FIXTURE.find("[[Rafael Jódar]]").unwrap();
    let text = format!("{}\n|}}\n", &FIXTURE[..cut]);
    let err = parse(&text, "test", 2026).unwrap_err().message();
    assert!(err.contains("row count"), "unexpected: {err}");
}

#[test]
fn never_panics_on_arbitrary_input() {
    for garbage in [
        "",
        "{{as of|2026|8|16}}",
        "{|class=\"wikitable nowrap\" style=font-size:90%;text-align:center\n|}",
        "{{as of|",
        "{{as of|x|y|z}}{|class=\"wikitable nowrap\" style=font-size:90%;text-align:center\n|-\n|-\n| 1\n|}",
        "\u{0}\u{1}[[[[|||}}{{",
    ] {
        assert!(parse(garbage, "test", 2026).is_err());
    }
}

#[test]
fn each_way_an_as_of_date_fails_is_told_apart() {
    let with = |as_of: &str| {
        let text = FIXTURE.replace("{{as of|2026|8|16|lc=yes}}", as_of);
        parse(&text, "test", 2026).unwrap_err().message()
    };
    assert_eq!(with("{{as of|"), "'as of' has no year");
    assert_eq!(with("{{as of|x|8|16}}"), "'as of' has no year");
    assert_eq!(with("{{as of|2026|x|16}}"), "'as of' has no month");
    assert_eq!(with("{{as of|2026|8}}"), "'as of' has no day");
    assert_eq!(with("{{as of|2026|13|16}}"), "'as of' month 13 invalid");
    assert_eq!(with("{{as of|2026|2|30}}"), "'as of' date 2026-February-30 invalid");
    let err = parse("{{as of|2026", "test", 2026).unwrap_err().message();
    assert_eq!(err, "unterminated 'as of' template");
    let err = parse("nothing", "test", 2026).unwrap_err().message();
    assert_eq!(err, "no '{as of}' date found; cannot state source freshness");
}

#[test]
fn rows_without_a_player_a_link_or_a_total_are_errors() {
    let no_player = FIXTURE.replace("{{flagicon|ITA}} [[Flavio Cobolli]]", "Flavio Cobolli");
    let no_player = no_player
        .lines()
        .map(|l| l.to_string())
        .collect::<Vec<_>>();
    // Only the one row loses its links.
    let start = no_player.iter().position(|l| l.contains("Flavio Cobolli")).unwrap();
    let end = start + no_player[start..].iter().position(|l| l == "|-").unwrap();
    let mut lines = no_player.clone();
    for line in &mut lines[start..end] {
        if line.contains("[[") {
            *line = "| none".to_string();
        }
    }
    let err = parse(&lines.join("\n"), "test", 2026).unwrap_err();
    assert!(matches!(err, SourceError::NoPlayerCell { rank: 6 }));
    assert_eq!(err.message(), "rank 6: no player cell");

    let text = FIXTURE.replace("[[Flavio Cobolli]]", "[[ ]]");
    let err = parse(&text, "test", 2026).unwrap_err();
    assert!(matches!(err, SourceError::NoArticleLink { rank: 6 }));
    assert_eq!(err.message(), "rank 6: no article link in player cell");

    let text = FIXTURE.replace("! 3,000\n! 19\n! 1\n", "");
    let err = parse(&text, "test", 2026).unwrap_err();
    assert!(matches!(err, SourceError::NoTotal { rank: 6 }));
    assert_eq!(err.message(), "rank 6: no total-points cell");
}

#[test]
fn every_problem_of_a_candidate_is_reported() {
    let text = FIXTURE
        .replace("|-\n| 4\n", "|-\n| 5\n")
        .replace("[[Alexander Zverev]] ||", "[[Nobody Atall]] ||");
    match parse(&text, "test", 2026).unwrap_err() {
        SourceError::Rejected { problems } => {
            assert_eq!(problems.len(), 2);
            assert!(matches!(problems[0], Problem::RankGap { position: 4, expected: 4, got: 5 }));
            assert_eq!(
                problems[0].message(),
                "rank not contiguous at position 4: expected 4, got 5"
            );
            assert_eq!(
                problems[1].message(),
                "qualifier Nobody Atall is absent from the standings table"
            );
        }
        other => panic!("unexpected: {other:?}"),
    }
    let err = parse(&FIXTURE.replace("! 3,650", "! 9,650"), "test", 2026).unwrap_err();
    assert_eq!(
        err.message(),
        "candidate snapshot rejected: points not non-increasing at rank 4: 9650 > 4450"
    );
    let err = parse(&FIXTURE.replace("[[Carlos Alcaraz]]", "[[Jannik Sinner]]"), "test", 2026);
    assert_eq!(
        err.unwrap_err().message(),
        "candidate snapshot rejected: duplicate player Jannik Sinner"
    );
}

#[test]
fn the_article_alone_decides() {
    let now = moment(2026, 8, 19, 12);
    let a = parse_at(FIXTURE, "one", 2026, now).unwrap();
    let b = parse(FIXTURE, "other", 2026).unwrap();
    assert_eq!(a.generated_at, now);
    assert_eq!(a.source, "one");
    assert_eq!(b.source, "other");
    assert_eq!(a.source_as_of, b.source_as_of);
    assert_eq!(a.rows.len(), b.rows.len());
    for (x, y) in a.rows.iter().zip(&b.rows) {
        assert_eq!(x.player_code, y.player_code);
        assert_eq!(x.race_points, y.race_points);
        assert!(x.movement.is_none());
    }
    assert_eq!(b.generated_at.offset_seconds, 0);
}

// ---- the pages -----------------------------------------------------------

fn curated(champions: &[&str], withdrawals: &[&str]) -> Curated {
    let players = |codes: &[&str]| -> Vec<CuratedPlayer> {
        codes
            .iter()
            .map(|c| CuratedPlayer { code: c.to_string(), name: c.to_string(), source: None })
            .collect()
    };
    Curated {
        season: 2026,
        ruleset: "turin-2026".to_string(),
        notice: "Independent fan project.".to_string(),
        slam_champions: players(champions),
        official_qualifiers: Vec::new(),
        withdrawals: players(withdrawals),
    }
}

fn state_with(snapshot: Snapshot, champions: &[&str], withdrawals: &[&str]) -> AppState {
    load_state(
        snapshot,
        1,
        curated(champions, withdrawals),
        Settings {
            stale_after: 691_200,
            check_stale_after: 86_400,
            base_url: "https://racetotur.in".to_string(),
        },
        true,
    )
    .state
}

fn state() -> AppState {
    let snapshot = parse_at(FIXTURE, "fixtures/race.wikitext", 2026, moment(2026, 8, 19, 12));
    state_with(snapshot.unwrap(), &["Jannik Sinner", "Carlos Alcaraz", "Alexander Zverev"], &[])
}

fn table() -> IdTable {
    ids().expect("the compiled-in map parses")
}

fn named<'a>(rows: &'a [RowView], name: &str) -> &'a RowView {
    rows.iter().find(|r| r.name == name).unwrap_or_else(|| panic!("no row for {name}"))
}

#[test]
fn the_front_page_shows_the_ordinary_cutoff() {
    let state = state();
    let page = build_index(&state, &table(), &moment(2026, 8, 19, 13));
    assert_eq!(page.season, 2026);
    assert_eq!(page.canonical, "https://racetotur.in");
    assert_eq!(page.css_version, css_version());
    assert!(page.any_ledger);
    assert!(!page.slam_provision_active);
    assert_eq!(page.summary.eighth, "Novak Djokovic — by race rank");
    assert_eq!(page.summary.alternate, "Félix Auger-Aliassime");
    assert_eq!(
        page.summary.officials,
        "Jannik Sinner (2026-07-10), Alexander Zverev (2026-08-06)"
    );
    assert_eq!(
        page.summary.top_seven,
        "Jannik Sinner, Alexander Zverev, Carlos Alcaraz, Ben Shelton, Taylor Fritz, \
         Flavio Cobolli, Daniil Medvedev"
    );
    assert_eq!(
        page.summary.basis_sentence,
        "Seat 8 goes to Novak Djokovic by race rank: no eligible 2026 Grand Slam champion is \
         ranked 8–20, so the ordinary 8/9 cutoff applies."
    );
    assert_eq!(
        page.summary_text,
        "Who would qualify for the 2026 ATP Finals in Turin if selection happened now. \
         Seat 8: Novak Djokovic. First alternate: Félix Auger-Aliassime. Standings as of \
         16 August 2026."
    );
    // Djokovic 2,320 over Auger-Aliassime 2,315 is a 5-point cushion.
    assert_eq!(named(&page.rows, "Novak Djokovic").margin, "+5");
    assert_eq!(named(&page.rows, "Novak Djokovic").margin_class, "pos");
    assert_eq!(named(&page.rows, "Félix Auger-Aliassime").margin, "-5");
    assert_eq!(named(&page.rows, "Félix Auger-Aliassime").margin_class, "neg");
    // One strong line under the seventh seat, one ordinary line under the eighth.
    let strong: Vec<usize> =
        (0..page.rows.len()).filter(|i| page.rows[*i].cut_strong_after).collect();
    let ordinary: Vec<usize> =
        (0..page.rows.len()).filter(|i| page.rows[*i].cut_ordinary_after).collect();
    assert_eq!(strong, vec![6]);
    assert_eq!(ordinary, vec![7]);
    assert!(page.rows.iter().all(|r| !r.row_class.contains("slam-pick")));
    // Freshness is stated as the source's own date and never claims "live".
    assert_eq!(page.fresh.accuracy_label, "official weekly");
    assert_eq!(page.fresh.source_human, "16 August 2026");
}

#[test]
fn the_champion_provision_is_displayed_without_a_single_line() {
    let state = state_with(fixture(), &["Rafael Jódar"], &[]);
    let summary = build_summary(&state);
    assert_eq!(summary.eighth, "Rafael Jódar — Grand Slam champion provision");
    assert_eq!(summary.alternate, "Novak Djokovic");
    assert_eq!(
        summary.basis_sentence,
        "Seat 8 goes to Rafael Jódar as a 2026 Grand Slam champion ranked 8–20, not to the \
         player ranked 8 in the race. There is no ordinary 8/9 cutoff this week, so points \
         margins to a single line are not shown."
    );
    let rows = build_rows(&state, &table());
    let pick = named(&rows, "Rafael Jódar");
    assert_eq!(pick.status_label, "8th seat · Slam rule");
    assert_eq!(pick.status_class, "slam");
    assert_eq!(pick.row_class, "has-ledger selected slam-pick");
    assert!(rows.iter().all(|r| r.margin == "–" && !r.cut_ordinary_after));
    assert_eq!(rows.iter().filter(|r| r.cut_strong_after).count(), 1);
}

#[test]
fn status_labels_are_spelled_out() {
    let state = state_with(fixture(), &[], &["Taylor Fritz"]);
    let rows = build_rows(&state, &table());
    let status = |name: &str| {
        let row = named(&rows, name);
        (row.status_label.clone(), row.status_class.clone(), row.row_class.clone())
    };
    let is = |a: &str, b: &str, c: &str| (a.to_string(), b.to_string(), c.to_string());
    assert_eq!(status("Jannik Sinner"), is("Top 7", "in", "has-ledger selected"));
    assert_eq!(status("Novak Djokovic"), is("Top 7", "in", "has-ledger selected"));
    assert_eq!(status("Félix Auger-Aliassime"), is("8th seat", "in", "has-ledger selected"));
    assert_eq!(status("Rafael Jódar"), is("First alternate", "alt", "has-ledger alternate"));
    assert_eq!(status("Taylor Fritz"), is("Withdrawn", "out", "has-ledger withdrawn"));
    assert_eq!(status("Tommy Paul"), is("", "", "has-ledger"));
    assert_eq!(named(&rows, "Taylor Fritz").margin, "–");
    assert_eq!(named(&rows, "Taylor Fritz").margin_class, "");
    // A withdrawal breaks the displayed order, so no line is drawn.
    assert!(rows.iter().all(|r| !r.cut_strong_after && !r.cut_ordinary_after));
    // Official status comes from announcements alone.
    let official: Vec<&str> =
        rows.iter().filter(|r| r.official).map(|r| r.name.as_str()).collect();
    assert_eq!(official, vec!["Jannik Sinner", "Alexander Zverev"]);
}

#[test]
fn names_link_to_their_profiles_or_nowhere() {
    let rows = build_rows(&state(), &table());
    for (name, id) in [
        ("Jannik Sinner", "S0AG"),
        ("Carlos Alcaraz", "A0E2"),
        ("Félix Auger-Aliassime", "AG37"),
        ("Jakub Menšík", "M0NI"),
    ] {
        let expected = format!("https://www.atptour.com/en/players/-/{id}/overview");
        assert_eq!(named(&rows, name).profile_url.as_deref(), Some(expected.as_str()));
    }
    assert_eq!(named(&rows, "Tommy Paul").profile_url, None);
    assert_eq!(profile_url("Someone Not On Wikidata"), None);
}

#[test]
fn breakdowns_say_what_they_account_for() {
    let snap = fixture();
    let ledger = |name: &str| {
        let row = snap.rows.iter().find(|r| r.player_name == name).unwrap();
        build_ledger(row).expect("the row has a ledger")
    };
    let cobolli = ledger("Flavio Cobolli");
    assert_eq!(cobolli.headline, "15 of 19 tournaments count · 1 title");
    assert_eq!(cobolli.sr_intro, "Points breakdown for Flavio Cobolli: ");
    assert_eq!(cobolli.total, "3,000");
    assert_eq!(cobolli.substitution_note, "");
    let titles: Vec<&str> = cobolli.groups.iter().map(|g| g.title.as_str()).collect();
    assert_eq!(titles, vec!["Grand Slam", "Masters 1000 (mandatory)", "Best other"]);
    let djokovic = ledger("Novak Djokovic");
    assert_eq!(djokovic.headline, "6 of 6 tournaments count · no titles");
    assert_eq!(djokovic.groups.len(), 2);
    let sinner = ledger("Jannik Sinner");
    let french = &sinner.groups[0].results[1];
    assert_eq!(french.event, "French Open");
    assert_eq!(
        french.event_url.as_deref(),
        Some("https://en.wikipedia.org/wiki/2026_French_Open_–_Men's_singles")
    );
    assert_eq!(french.round, "F");
    assert_eq!(french.points, "1,300");
    assert_eq!(french.class, "");

    let mut row = snap.rows[0].clone();
    row.tournaments_played = Some(3);
    row.titles = None;
    assert_eq!(build_ledger(&row).unwrap().headline, "9 counting results");
    row.results.truncate(1);
    assert_eq!(build_ledger(&row).unwrap().headline, "1 of 3 tournaments count");
    row.results.clear();
    assert!(build_ledger(&row).is_none());
}

#[test]
fn substitutions_are_labelled() {
    let snap = fixture();
    let shelton = snap.rows.iter().find(|r| r.player_name == "Ben Shelton").unwrap();
    let view = build_ledger(shelton).unwrap();
    let masters = &view.groups[1].results;
    assert_eq!(masters[1].event, "ASB Classic");
    assert_eq!(masters[1].qualifier, "for Miami");
    assert_eq!(masters[1].class, "sub");
    assert_eq!(masters[0].event, "Indian Wells");
    assert_eq!(masters[0].qualifier, "");
    assert_eq!(
        view.substitution_note,
        "Italicised results were counted in place of a mandatory Masters 1000, which the \
         rulebook allows for up to three of them."
    );
    assert!(view.groups.iter().all(|g| g.results.iter().all(|r| r.event != "Miami Open")));
}

#[test]
fn skipped_and_unplayed_events_are_worded_differently() {
    let snap = fixture();
    let djokovic = snap.rows.iter().find(|r| r.player_name == "Novak Djokovic").unwrap();
    let view = build_ledger(djokovic).unwrap();
    let miami = &view.groups[1].results[1];
    assert_eq!(miami.event, "Miami");
    assert_eq!(
        (miami.round.as_str(), miami.points.as_str(), miami.sr_note.as_str(), miami.class.as_str()),
        ("A", "0", "did not play", "absent")
    );
    assert!(miami.event_url.is_none());
    let paris = &view.groups[1].results[7];
    assert_eq!(
        (paris.round.as_str(), paris.points.as_str(), paris.sr_note.as_str(), paris.class.as_str()),
        ("–", "–", "not played yet", "pending")
    );
}

#[test]
fn displayed_breakdowns_add_up_to_their_totals() {
    let rows = build_rows(&state(), &table());
    let mut checked = 0;
    for row in &rows {
        let ledger = row.ledger.as_ref().expect("every player carries a breakdown");
        let sum: u32 = ledger
            .groups
            .iter()
            .flat_map(|g| &g.results)
            .filter_map(|r| r.points.replace(',', "").parse::<u32>().ok())
            .sum();
        assert_eq!(thousands(sum), ledger.total);
        assert_eq!(ledger.total, row.points);
        checked += 1;
    }
    assert_eq!(checked, 12);
}

#[test]
fn a_snapshot_without_breakdowns_offers_none() {
    let mut snapshot = fixture();
    for row in &mut snapshot.rows {
        row.results.clear();
    }
    let state = state_with(snapshot, &[], &[]);
    let now = state.snapshot.generated_at;
    let page = build_index(&state, &table(), &now);
    assert!(!page.any_ledger);
    assert!(page.rows.iter().all(|r| r.ledger.is_none() && !r.row_class.contains("has-ledger")));
    assert_eq!(page.rows[0].points, "7,950");
    assert_eq!(page.summary.eighth, "Novak Djokovic — by race rank");
}

#[test]
fn movement_is_shown_and_spoken() {
    let mut snapshot = fixture();
    snapshot.rows[0].movement = Some(2);
    snapshot.rows[1].movement = Some(-1);
    snapshot.rows[2].movement = Some(0);
    let rows = build_rows(&state_with(snapshot, &[], &[]), &table());
    let seen: Vec<(&str, &str, &str)> = rows[..4]
        .iter()
        .map(|r| (r.movement.as_str(), r.movement_class.as_str(), r.movement_sr.as_str()))
        .collect();
    assert_eq!(
        seen,
        vec![
            ("▲2", "up", "up 2 places"),
            ("▼1", "down", "down 1 places"),
            ("·", "flat", "no change since last update"),
            ("–", "flat", "no previous snapshot"),
        ]
    );
}

#[test]
fn an_empty_table_has_no_eighth_seat() {
    let mut snapshot = fixture();
    snapshot.rows.clear();
    snapshot.qualifiers.clear();
    let state = state_with(snapshot, &[], &[]);
    let summary = build_summary(&state);
    assert_eq!(summary.officials, "None announced yet");
    assert_eq!(summary.top_seven, "");
    assert_eq!(summary.eighth, "—");
    assert_eq!(summary.alternate, "—");
    assert_eq!(summary.basis_sentence, "");
    assert!(shared_link_text(&state, &summary).contains("Seat 8: —. First alternate: —."));
}

#[test]
fn the_two_clocks_are_separate() {
    let state = state();
    // The source is dated the 16th and was collected on the 19th.
    let fresh = build_fresh(&state, &moment(2026, 8, 19, 13));
    assert!(!fresh.is_stale);
    assert!(!fresh.collection_stale);
    assert_eq!(fresh.age, "3 days");
    assert_eq!(fresh.checked_age, "60 min");
    assert_eq!(fresh.source_dt, "2026-08-16T00:00:00Z");
    assert_eq!(fresh.generated_dt, "2026-08-19T12:00:00Z");
    assert_eq!(fresh.generated_human, "19 Aug 2026 12:00 UTC");
    assert_eq!(fresh.ruleset, "turin-2026");
    assert_eq!(fresh.version, 1);
    let report = health_report(&state, &moment(2026, 8, 19, 13));
    assert!(report.fresh);
    assert_eq!(
        report.body,
        "fresh\nchecked_age_seconds=3600\nsource_age_seconds=306000\nsnapshot_version=1\n"
    );

    // Two days without collecting: a warning, though the source still is not old.
    let later = build_fresh(&state, &moment(2026, 8, 21, 13));
    assert!(!later.is_stale);
    assert!(later.collection_stale);
    let report = health_report(&state, &moment(2026, 8, 21, 13));
    assert!(!report.fresh);
    assert!(report.body.starts_with("collection stale\nchecked_age_seconds=176400\n"));

    let stale = build_fresh(&state, &moment(2026, 8, 25, 0));
    assert!(stale.is_stale);
    assert_eq!(stale.accuracy_label, "stale — last known good");
}

#[test]
fn the_methodology_page_names_its_source() {
    let page = build_methodology(&state());
    assert_eq!(page.season, 2026);
    assert_eq!(page.canonical, "https://racetotur.in/methodology");
    assert_eq!(page.notice, "Independent fan project.");
    assert_eq!(page.ruleset, "turin-2026");
    assert_eq!(page.parser_version, PARSER_VERSION);
    assert_eq!(page.source, "fixtures/race.wikitext");
    assert_eq!(page.css_version.len(), 12);
    assert!(page.summary_text.starts_with("Where racetotur.in's standings come from"));
}

#[test]
fn responses_are_cacheable_and_styles_are_versioned() {
    assert!(CACHE_PAGE.contains("max-age=") && CACHE_PAGE.contains("stale-while-revalidate"));
    assert!(CACHE_IMMUTABLE.contains("immutable"));
    assert_eq!(READY, "ready\n");
    assert!(ROBOTS.contains("Disallow: /health/"));
    assert_eq!(version_of("abc"), "ba7816bf8f01");
    assert_eq!(css_version(), version_of(APP_CSS));
    assert_ne!(version_of(APP_CSS), version_of("body {}"));
}

#[test]
fn numbers_and_ages_are_worded() {
    assert_eq!(thousands(0), "0");
    assert_eq!(thousands(999), "999");
    assert_eq!(thousands(1_000), "1,000");
    assert_eq!(thousands(1_050_007), "1,050,007");
    assert_eq!(thousands(u32::MAX), "4,294,967,295");
    assert_eq!(signed_thousands(0), "+0");
    assert_eq!(signed_thousands(12_345), "+12,345");
    assert_eq!(signed_thousands(-500), "-500");
    assert_eq!(humanize_age(-1), "0 s");
    assert_eq!(humanize_age(89), "89 s");
    assert_eq!(humanize_age(90), "1 min");
    assert_eq!(humanize_age(5_399), "89 min");
    assert_eq!(humanize_age(5_400), "1 h");
    assert_eq!(humanize_age(172_799), "47 h");
    assert_eq!(humanize_age(172_800), "2 days");
    assert_eq!(plural(1, "title"), "1 title");
    assert_eq!(plural(0, "title"), "0 titles");
    assert_eq!(plural(3, "title"), "3 titles");
    assert_eq!(wikipedia_url("2026 ATP Finals"), "https://en.wikipedia.org/wiki/2026_ATP_Finals");
}

// ---- storing -------------------------------------------------------------

#[test]
fn a_stored_snapshot_reads_back() {
    let snapshot = fixture();
    let stored = store(&snapshot).expect("a parsed snapshot is storable");
    assert_eq!(stored.rows[0].results[0].slot, "slam");
    assert_eq!(stored.rows[0].results[0].played, "result");
    assert_eq!(stored.meta.source_as_of, "2026-08-16T00:00:00Z");
    let loaded = load(&stored).expect("what was stored reads back");
    assert_eq!(format!("{loaded:?}"), format!("{snapshot:?}"));
}

#[test]
fn what_cannot_be_read_back_is_an_error() {
    let good = store(&fixture()).unwrap();
    let mut bad = good.clone();
    bad.meta.created_at = "yesterday".to_string();
    assert_eq!(load(&bad).unwrap_err().message(), "bad stored timestamp \"yesterday\"");
    let mut bad = good.clone();
    bad.rows[3].results[0].slot = "cup".to_string();
    assert_eq!(load(&bad).unwrap_err().message(), "unknown stored slot \"cup\"");
    let mut bad = good.clone();
    bad.rows[3].results[0].played = "maybe".to_string();
    assert_eq!(load(&bad).unwrap_err().message(), "unknown stored result kind \"maybe\"");
    let mut bad = good.clone();
    bad.qualifiers[0].day = 31;
    bad.qualifiers[0].month = 6;
    assert_eq!(load(&bad).unwrap_err().message(), "bad stored date 2026-6-31");
    let mut unwritable = fixture();
    unwritable.source_as_of.year = -1;
    assert_eq!(store(&unwritable).unwrap_err().message(), "cannot format timestamp");
}

#[test]
fn movement_is_derived_from_the_previous_table() {
    let previous = fixture();
    let mut current = fixture();
    derive_movement(&mut current.rows, &previous.rows);
    assert!(current.rows.iter().all(|r| r.movement == Some(0)));

    // Two players trade places and one is new.
    let mut current = fixture();
    current.rows.swap(4, 5);
    current.rows[4].rank = 5;
    current.rows[5].rank = 6;
    current.rows[11].player_code = "New Entrant".to_string();
    derive_movement(&mut current.rows, &previous.rows);
    assert_eq!(current.rows[4].player_name, "Flavio Cobolli");
    assert_eq!(current.rows[4].movement, Some(1));
    assert_eq!(current.rows[5].movement, Some(-1));
    assert_eq!(current.rows[0].movement, Some(0));
    assert_eq!(current.rows[11].movement, None);
}

#[test]
fn the_canonical_text_frames_every_column() {
    let parts = vec!["a".to_string(), String::new(), "10:é".to_string()];
    assert_eq!(frame_all(&parts), "1:a0:4:10:é");
    assert_eq!(frame_all(&Vec::new()), "");
    // The same characters in other columns are another text.
    assert_ne!(
        frame_all(&vec!["ab".to_string(), "c".to_string()]),
        frame_all(&vec!["a".to_string(), "bc".to_string()])
    );
    let record = RaceRecord {
        rank: 1,
        player_code: "X".to_string(),
        player_name: "X".to_string(),
        country: String::new(),
        race_points: 50,
        tournaments_played: None,
        titles: Some(0),
        results: vec![ResultRecord {
            slot: "other".to_string(),
            slot_label: String::new(),
            played: "result".to_string(),
            event_code: "E".to_string(),
            event_name: "E".to_string(),
            round: "W".to_string(),
            points: 50,
            substituted: true,
        }],
    };
    assert_eq!(
        canonical(&vec![record]),
        "59:1:11:X1:X0:2:500:1:036:33:5:other0:6:result1:E1:E1:W2:501:1"
    );
    assert_eq!(canonical(&Vec::new()), "");
}

/// Publish to a list of stored versions, as the store does.
fn publish(held: &mut Vec<(i64, String, StoredSnapshot)>, snapshot: &Snapshot) -> (i64, bool) {
    let current = held.last().map(|(version, hash, _)| (*version, hash.clone()));
    match publish_if_changed(&current, snapshot).expect("a parsed snapshot can be written") {
        Publishing::Keep(outcome) => (outcome.version, outcome.created),
        Publishing::Write { outcome, hash, stored } => {
            held.push((outcome.version, hash, stored));
            (outcome.version, outcome.created)
        }
    }
}

/// What is current in such a list.
fn current(held: &[(i64, String, StoredSnapshot)]) -> (i64, Snapshot) {
    let (version, _, stored) = held.last().expect("something is stored");
    let previous = match held.len() {
        0 | 1 => None,
        n => Some(held[n - 2].2.rows.clone()),
    };
    let designated = Some((*version, stored.clone()));
    load_current(&designated, &previous).expect("what is stored reads back").unwrap()
}

#[test]
fn rows_equal_in_all_but_movement_are_published_once() {
    let mut held = Vec::new();
    let first = fixture();
    assert_eq!(publish(&mut held, &first), (1, true));
    assert_eq!(held[0].1, content_hash(&first.rows));
    assert_eq!(held[0].1.len(), 64);

    let mut again = fixture();
    again.rows[0].movement = Some(3);
    again.source = "elsewhere".to_string();
    again.generated_at.year += 1;
    assert_eq!(publish(&mut held, &again), (1, false));
    assert_eq!(held.len(), 1);
    let (version, loaded) = current(&held);
    assert_eq!(version, 1);
    assert_eq!(format!("{loaded:?}"), format!("{first:?}"));

    // Any other column makes a new version, down to one entry of a ledger.
    let mut changed = fixture();
    changed.rows[0].results[0].substituted = !changed.rows[0].results[0].substituted;
    assert_eq!(publish(&mut held, &changed), (2, true));
    let mut changed = fixture();
    changed.rows[11].titles = None;
    assert_eq!(publish(&mut held, &changed), (3, true));
    // What was current before the last change is new again.
    assert_eq!(publish(&mut held, &first), (4, true));
    assert_eq!(held.len(), 4);
}

#[test]
fn movement_is_counted_between_the_last_two_stored_tables() {
    let mut held = Vec::new();
    let mut first = fixture();
    first.rows[4].movement = Some(9);
    assert_eq!(publish(&mut held, &first), (1, true));
    let (_, loaded) = current(&held);
    assert!(loaded.rows.iter().all(|r| r.movement.is_none()));

    let mut second = fixture();
    second.rows.swap(4, 5);
    second.rows[4].rank = 5;
    second.rows[5].rank = 6;
    second.rows[5].movement = Some(4);
    second.rows[11].player_code = "New Entrant".to_string();
    assert_eq!(publish(&mut held, &second), (2, true));
    let (version, loaded) = current(&held);
    assert_eq!(version, 2);
    assert_eq!(loaded.rows[4].movement, Some(1));
    assert_eq!(loaded.rows[5].movement, Some(-1));
    assert_eq!(loaded.rows[0].movement, Some(0));
    assert_eq!(loaded.rows[11].movement, None);
}

#[test]
fn ranks_of_any_size_read_back() {
    let mut held = Vec::new();
    let mut first = fixture();
    first.rows[0].rank = u32::MAX;
    assert_eq!(publish(&mut held, &first), (1, true));
    let mut second = fixture();
    second.rows[1].rank = 2_147_483_647;
    assert_eq!(publish(&mut held, &second), (2, true));
    let (version, mut loaded) = current(&held);
    assert_eq!(version, 2);
    // More places than can be counted give no movement; any others do.
    assert_eq!(loaded.rows[0].movement, None);
    assert_eq!(loaded.rows[1].movement, Some(2 - 2_147_483_647));
    assert_eq!(loaded.rows[2].movement, Some(0));
    for row in &mut loaded.rows {
        row.movement = None;
    }
    assert_eq!(format!("{loaded:?}"), format!("{second:?}"));
}

#[test]
fn what_was_current_before_must_be_readable_too() {
    let stored = store(&fixture()).unwrap();
    let mut rows = stored.rows.clone();
    rows[0].results[0].slot = "cup".to_string();
    let designated = Some((1, stored));
    assert_eq!(
        load_current(&designated, &Some(rows)).unwrap_err().message(),
        "unknown stored slot \"cup\""
    );
    assert!(load_current(&designated, &None).unwrap().is_some());
    assert!(load_current(&None, &None).unwrap().is_none());
}

#[test]
fn a_state_whose_rows_cannot_be_shown_still_has_a_summary() {
    let mut snapshot = fixture();
    snapshot.rows[0].movement = Some(i32::MIN);
    snapshot.rows[1].results[0].points = u32::MAX;
    assert!(!is_servable(&snapshot));
    let state = state_with(snapshot, &[], &[]);
    let summary = build_summary(&state);
    assert!(summary.top_seven.starts_with("Jannik Sinner, "));
    assert!(shared_link_text(&state, &summary).contains("Standings as of 16 August 2026."));
    assert_eq!(build_fresh(&state, &state.snapshot.generated_at.clone()).checked_age, "0 s");
    assert!(health_report(&state, &state.snapshot.generated_at.clone()).fresh);
}

#[test]
fn a_separator_put_before_any_row_changes_no_row() {
    let chars = |s: &str| s.chars().collect::<Vec<char>>();
    let plain = format!("{:?}", parse_standings(&chars(FIXTURE)).unwrap());
    let table = FIXTURE.find("{|class=\"wikitable nowrap\"").unwrap();
    let end = table + FIXTURE[table..].find("\n|}").unwrap();
    let marks: Vec<usize> =
        FIXTURE[table..end].match_indices("\n|-").map(|(i, _)| table + i).collect();
    assert!(marks.len() > 12);
    for at in &marks[1..] {
        let mut text = FIXTURE.to_string();
        text.insert_str(*at, "\n|-\n! colspan=\"30\" | Alternates");
        assert_eq!(format!("{:?}", parse_standings(&chars(&text)).unwrap()), plain);
    }
}

#[test]
fn titles_to_ask_about_are_ordered_and_unmapped() {
    let snapshot = fixture();
    let titles = player_titles(&snapshot);
    assert_eq!(titles.len(), 12);
    let mut sorted = titles.clone();
    sorted.sort();
    sorted.dedup();
    assert_eq!(titles, sorted);
    let asked = wanted(&titles, &table());
    assert_eq!(
        asked,
        vec![
            "Ben Shelton",
            "Daniil Medvedev",
            "Flavio Cobolli",
            "Novak Djokovic",
            "Rafael Jódar",
            "Tommy Paul (tennis)",
        ]
    );
}

#[test]
fn the_selection_served_is_that_of_the_rule() {
    let loaded = load_state(
        fixture(),
        7,
        curated(&["Tommy Paul (tennis)"], &[]),
        Settings { stale_after: 1, check_stale_after: 2, base_url: "x".to_string() },
        false,
    );
    assert!(!loaded.created);
    assert_eq!(loaded.state.version, 7);
    let direct = select(&loaded.state.snapshot.rows, &loaded.state.curated);
    assert_eq!(loaded.state.selection.eighth_code, direct.eighth_code);
    assert_eq!(direct.eighth_code.as_deref(), Some("Tommy Paul (tennis)"));
    assert_eq!(
        CalendarDate { year: 2026, month: 7, day: 10 },
        loaded.state.snapshot.qualifiers[0].qualified_on
    );
}

#[test]
fn what_cannot_be_displayed_is_told_beforehand() {
    assert!(is_servable(&fixture()));
    let mut s = fixture();
    s.rows[0].movement = Some(i32::MIN);
    assert!(!is_servable(&s));
    let mut s = fixture();
    s.rows[0].results[0].points = u32::MAX;
    assert!(!is_servable(&s));
    let mut s = fixture();
    s.qualifiers[0].qualified_on = CalendarDate { year: 2026, month: 2, day: 29 };
    assert!(!is_servable(&s));
    let mut s = fixture();
    s.source_as_of.hour = 24;
    assert!(!is_servable(&s));
    assert!(CalendarDate { year: 2028, month: 2, day: 29 }.is_valid());
    assert!(!CalendarDate { year: 2028, month: 13, day: 1 }.is_valid());
    assert!(!CalendarDate { year: 10_000, month: 1, day: 1 }.is_valid());
}

#[test]
fn a_snapshot_is_dated_by_the_clock() {
    let clock = || {
        let since = std::time::SystemTime::now().duration_since(std::time::UNIX_EPOCH);
        since.unwrap().as_secs() as i64
    };
    let before = clock();
    let generated_at = fixture().generated_at;
    let after = clock();
    let seconds = seconds_between(&generated_at, &moment(1970, 1, 1, 0));
    assert!(before <= seconds && seconds <= after);
}
