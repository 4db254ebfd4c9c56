use racetoturin::calendar::Timestamp;
use racetoturin::parser::{
    fits, judge, parse, parse_at, parse_movement, parse_optional_points, parse_points,
    player_code_from_href, Found, HrefError, LiveError, LiveSnapshot, RowCells, Stamp,
    MAX_PAGE_BYTES, PARSER_VERSION,
};
use racetoturin::storage::{
    decide_publication, fmt, live_content_hash, load_live, load_live_current, parse_ts,
    publish_live_if_changed, row_from_db, row_to_db, store_live, LivePublishing, LiveRecord, Publication, StoredMeta,
    MEMORY,
};

/// A page like the live one: twenty players, some of them in an event.
fn fixture_page() -> String {
    let idle = |reason: &str| {
        format!(
            "<td class=\"tournament\"><span class=\"idle\">{reason}</span></td>\
             <td class=\"next\">–</td><td class=\"max\">–</td>"
        )
    };
    let active = |event: &str, round: &str, next: &str, max: &str| {
        format!(
            "<td class=\"tournament\"><a href=\"/en/tournaments/x\">{event}</a> \
             <span class=\"round\">{round}</span></td>\
             <td class=\"next\">{next}</td><td class=\"max\">{max}</td>"
        )
    };
    let mut rows = String::new();
    for i in 1..=20u32 {
        let (code, name, country, points, rest) = match i {
            1 => (
                "A0E2".to_string(),
                "Carlos Alcaraz".to_string(),
                "ESP",
                "8,760".to_string(),
                active("Cincinnati", "SF", "9,010", "9,360"),
            ),
            2 => (
                "z355".to_string(),
                "Alexander Zverev".to_string(),
                "GER",
                "5,140".to_string(),
                idle("Eliminated R32"),
            ),
            3 => (
                "fb98".to_string(),
                "Taylor Fritz".to_string(),
                "USA",
                "4,120".to_string(),
                active("Cincinnati", "QF", "4,320", "4,920"),
            ),
            9 => (
                "ag37".to_string(),
                "Félix Auger-Aliassime".to_string(),
                "CAN",
                "2,315".to_string(),
                idle("Eliminated R16"),
            ),
            n => (
                format!("p{n:03}"),
                format!("Player {n}"),
                "USA",
                format!("{}", 4_000 - if n < 9 { n } else { 1_700 + n }),
                idle("Not entered"),
            ),
        };
        rows.push_str(&format!(
            "<tr class=\"race-row\"><td class=\"rank\"> {i} </td><td class=\"move\">{}</td>\
             <td class=\"player\"><a href=\"/en/players/x/{code}/overview\"> {name} </a>\
             <span class=\"country\">{country}</span></td><td class=\"points\">{points}</td>{rest}</tr>",
            if i % 2 == 0 { "-1" } else { "–" }
        ));
    }
    format!(
        "<html><body><h1>ATP Live Race To Turin</h1>\
         <time id=\"source-as-of\" datetime=\"2026-08-19T18:42:07Z\">now</time>\
         <table class=\"race-table\"><tbody>{rows}</tbody></table></body></html>"
    )
}

fn fixture_snapshot() -> LiveSnapshot {
    parse(&fixture_page(), "fixtures/race.html").expect("fixture must parse")
}

#[test]
fn parses_all_fixture_rows() {
    let snap = fixture_snapshot();
    assert_eq!(snap.rows.len(), 20);
    assert_eq!(snap.parser_version, PARSER_VERSION);
}

#[test]
fn extracts_identity_from_profile_links_not_names() {
    let snap = fixture_snapshot();
    let first = &snap.rows[0];
    assert_eq!(first.player_code, "a0e2");
    assert_eq!(first.player_name, "Carlos Alcaraz");
    assert_eq!(first.country, "ESP");
    assert_eq!(first.live_points, 8760);
}

#[test]
fn active_player_has_event_and_projections() {
    let snap = fixture_snapshot();
    let fritz = snap.rows.iter().find(|r| r.player_code == "fb98").unwrap();
    let event = fritz.event.as_ref().expect("Fritz is active in fixture");
    assert_eq!(event.name, "Cincinnati");
    assert_eq!(event.round, "QF");
    assert_eq!(fritz.next_points, Some(4320));
    assert_eq!(fritz.max_this_week, Some(4920));
    assert!(fritz.unavailable_reason.is_none());
}

#[test]
fn idle_player_gets_reason_instead_of_estimates() {
    let snap = fixture_snapshot();
    let zverev = snap.rows.iter().find(|r| r.player_code == "z355").unwrap();
    assert!(zverev.event.is_none());
    assert_eq!(zverev.next_points, None);
    assert_eq!(zverev.max_this_week, None);
    assert_eq!(zverev.unavailable_reason.as_deref(), Some("Eliminated R32"));
}

#[test]
fn source_timestamp_is_parsed() {
    let snap = fixture_snapshot();
    assert_eq!(snap.source_as_of.year, 2026);
    assert_eq!(snap.source_as_of.hour, 18);
}

fn wrap_rows(rows: &str) -> String {
    format!(
        r#"<html><body><h1>ATP Live Race To Turin</h1>
            <time id="source-as-of" datetime="2026-08-19T18:42:07Z">now</time>
            <table class="race-table"><tbody>{rows}</tbody></table></body></html>"#
    )
}

fn simple_row(rank: u32, code: &str, points: &str) -> String {
    format!(
        r#"<tr class="race-row"><td class="rank">{rank}</td><td class="move">0</td>
            <td class="player"><a href="/en/players/x/{code}/overview">Player {code}</a>
            <span class="country">USA</span></td><td class="points">{points}</td>
            <td class="tournament"><span class="idle">Not entered</span></td>
            <td class="next">–</td><td class="max">–</td></tr>"#
    )
}

fn eight_rows_with(mutator: impl Fn(u32) -> String) -> String {
    (1..=8).map(mutator).collect::<Vec<_>>().join("")
}

#[test]
fn rejects_missing_heading() {
    let html = wrap_rows("").replace("Race To Turin", "Maintenance");
    let err = parse(&html, "test").unwrap_err().message();
    assert!(err.contains("heading"), "unexpected error: {err}");
}

#[test]
fn rejects_duplicate_ranks() {
    let html = wrap_rows(&eight_rows_with(|i| {
        let rank = if i == 5 { 4 } else { i };
        simple_row(rank, &format!("p{i:03}"), &format!("{}", 9000 - i * 100))
    }));
    let err = parse(&html, "test").unwrap_err().message();
    assert!(err.contains("rank not contiguous"), "unexpected error: {err}");
}

#[test]
fn rejects_duplicate_player_codes() {
    let html = wrap_rows(&eight_rows_with(|i| {
        let code = if i == 6 { "p001".to_string() } else { format!("p{i:03}") };
        simple_row(i, &code, &format!("{}", 9000 - i * 100))
    }));
    let err = parse(&html, "test").unwrap_err().message();
    assert!(err.contains("duplicate player code"), "unexpected error: {err}");
}

#[test]
fn rejects_unparseable_points() {
    let html = wrap_rows(&eight_rows_with(|i| {
        let points = if i == 3 { "lots".to_string() } else { format!("{}", 9000 - i * 100) };
        simple_row(i, &format!("p{i:03}"), &points)
    }));
    assert!(parse(&html, "test").is_err());
}

#[test]
fn rejects_points_out_of_order() {
    let html = wrap_rows(&eight_rows_with(|i| {
        let points = if i == 4 { 9500 } else { 9000 - i * 100 };
        simple_row(i, &format!("p{i:03}"), &points.to_string())
    }));
    let err = parse(&html, "test").unwrap_err().message();
    assert!(err.contains("non-increasing"), "unexpected error: {err}");
}

#[test]
fn rejects_short_tables_like_maintenance_pages() {
    let html = wrap_rows(&simple_row(1, "p001", "9000"));
    let err = parse(&html, "test").unwrap_err().message();
    assert!(err.contains("row count"), "unexpected error: {err}");
}

#[test]
fn never_panics_on_arbitrary_html() {
    for garbage in [
        "",
        "<html>",
        "<h1>Race To Turin</h1>",
        "<h1>Race To Turin</h1><table class=\"race-table\"><tbody><tr class=\"race-row\"></tr></tbody></table>",
        "\u{0}\u{1}<<<>>>",
        "<h1>race to turin</h1><time id=\"source-as-of\" datetime=\"junk\"></time>",
    ] {
        assert!(parse(garbage, "test").is_err());
    }
}

#[test]
fn each_missing_part_of_a_page_is_told_apart() {
    let good = fixture_page();
    let message = |html: &str| parse(html, "test").unwrap_err().message();
    assert_eq!(
        message("<p>"),
        "required heading 'Race To Turin' not found; page structure changed or wrong document"
    );
    assert_eq!(
        message(&good.replace("source-as-of", "elsewhere")),
        "source timestamp (time#source-as-of) missing"
    );
    assert_eq!(
        message(&good.replace("2026-08-19T18:42:07Z", "yesterday")),
        "source timestamp is not RFC 3339"
    );
    assert_eq!(message(&good.replace("8,760", "lots")), "row 1 failed to parse");
}

#[test]
fn each_way_a_row_fails_is_told_apart() {
    let cause = |rows: String| match parse(&wrap_rows(&rows), "test").unwrap_err() {
        LiveError::Row { number: 1, cause } => cause.message(),
        other => panic!("unexpected: {other:?}"),
    };
    let row = simple_row(1, "p001", "9000");
    assert_eq!(cause(row.replace("class=\"rank\"", "")), "rank cell missing");
    assert_eq!(cause(row.replace("rank\">1<", "rank\">one<")), "cannot parse rank");
    assert_eq!(cause(row.replace("class=\"player\"", "")), "player link missing");
    assert_eq!(cause(row.replace("Player p001", " ")), "player name empty");
    assert_eq!(cause(row.replace("href=\"/en/players/x/p001/overview\"", "")), "player link has no href");
    assert_eq!(
        cause(row.replace("/players/", "/gamers/")),
        "player href \"/en/gamers/x/p001/overview\" has no /players/ segment"
    );
    assert_eq!(
        cause(row.replace("/x/p001/overview", "/x")),
        "player href \"/en/players/x\" has no code segment"
    );
    assert_eq!(
        cause(row.replace("/x/p001/", "/x/p-1/")),
        "player href \"/en/players/x/p-1/overview\" has implausible code \"p-1\""
    );
    assert_eq!(cause(row.replace("class=\"points\"", "")), "points cell missing");
    assert_eq!(cause(row.replace("9000", "many")), "cannot parse points value \"many\"");
    assert_eq!(
        cause(row.replace("next\">–", "next\">soon")),
        "cannot parse points value \"soon\""
    );
}

#[test]
fn projections_must_add_to_the_points() {
    let html = fixture_page().replace("4,320", "4,000").replace("4,920", "3,999");
    match parse(&html, "test").unwrap_err() {
        LiveError::Rejected { problems } => {
            let texts: Vec<String> = problems.iter().map(|p| p.message()).collect();
            assert_eq!(
                texts,
                vec![
                    "fb98: next_points 4000 < live_points 4120",
                    "fb98: max_this_week 3999 < next_points 4000",
                ]
            );
        }
        other => panic!("unexpected: {other:?}"),
    }
}

#[test]
fn single_values_are_read_as_displayed() {
    let chars = |s: &str| s.chars().collect::<Vec<char>>();
    assert_eq!(parse_points(&chars("8,760")).unwrap(), 8760);
    assert_eq!(parse_points(&chars("8\u{202f}760")).unwrap(), 8760);
    assert!(parse_points(&chars("8 760")).is_err());
    assert!(parse_points(&chars("4294967296")).is_err());
    assert!(parse_points(&chars("")).is_err());
    for refused in ["+8760", "-5", "+", "-", "lots", "8,7+60"] {
        match parse_points(&chars(refused)) {
            Err(e) => assert!(e.message().contains(refused)),
            Ok(n) => panic!("{refused} was read as {n}"),
        }
    }
    assert!(parse_optional_points(&Some(chars("+1,200"))).is_err());
    for blank in ["", " ", "-", "–", " — "] {
        assert_eq!(parse_optional_points(&Some(chars(blank))).unwrap(), None);
        assert_eq!(parse_movement(&Some(chars(blank))), None);
    }
    assert_eq!(parse_optional_points(&None).unwrap(), None);
    assert_eq!(parse_optional_points(&Some(chars(" 1,200 "))).unwrap(), Some(1200));
    assert_eq!(parse_movement(&Some(chars(" -3 "))), Some(-3));
    assert_eq!(parse_movement(&Some(chars("+2"))), Some(2));
    assert_eq!(parse_movement(&Some(chars("up"))), None);
    assert_eq!(player_code_from_href("//en//players/x/S0AG").unwrap(), "s0ag");
    assert!(matches!(player_code_from_href("/"), Err(HrefError::NoPlayersSegment)));
}

#[test]
fn headings_are_found_in_any_case() {
    let html = fixture_page().replace("ATP Live Race To Turin", "RACE TO TURIN");
    assert!(parse(&html, "test").is_ok());
}

#[test]
fn the_parts_of_a_page_decide() {
    let now = Timestamp {
        year: 2026,
        month: 8,
        day: 19,
        hour: 19,
        minute: 0,
        second: 0,
        nanosecond: 0,
        offset_seconds: 0,
    };
    let found = |text: &str| Some(Found { text: text.to_string(), attribute: None });
    let cells: Vec<RowCells> = (1..=8u32)
        .map(|i| RowCells {
            rank: found(&i.to_string()),
            movement: None,
            player: Some(Found {
                text: format!("Player {i}"),
                attribute: Some(format!("/players/x/P{i}")),
            }),
            country: None,
            points: found("100"),
            tournament: found("–"),
            event: None,
            round: None,
            idle: None,
            next: None,
            max: None,
        })
        .collect();
    let headings = vec!["the race to turin".to_string()];
    let snapshot = judge(&headings, Stamp::At(now), &cells, "parts", now).unwrap();
    assert_eq!(snapshot.rows.len(), 8);
    assert_eq!(snapshot.rows[7].player_code, "p8");
    assert_eq!(
        snapshot.rows[0].unavailable_reason.as_deref(),
        Some("not playing this week")
    );
    assert_eq!(snapshot.source, "parts");
    assert!(matches!(
        judge(&Vec::new(), Stamp::At(now), &cells, "parts", now),
        Err(LiveError::NoHeading)
    ));
    assert!(matches!(
        judge(&headings, Stamp::Missing, &cells, "parts", now),
        Err(LiveError::NoTimestamp)
    ));
    assert!(matches!(
        judge(&headings, Stamp::Unreadable, &cells, "parts", now),
        Err(LiveError::BadTimestamp)
    ));
    let at = parse_at(&fixture_page(), "here", now).unwrap();
    assert_eq!(at.generated_at, now);
}

// ---- storing -------------------------------------------------------------

#[test]
fn content_is_published_once_and_versions_move_on() {
    let snapshot = fixture_snapshot();
    let first = live_content_hash(&snapshot.rows);
    assert_eq!(first.len(), 64);
    let mut changed = snapshot.clone();
    changed.rows[0].live_points += 10;
    let second = live_content_hash(&changed.rows);
    assert_ne!(first, second);

    match decide_publication(&None, &first) {
        Publication::Write(outcome) => {
            assert_eq!(outcome.version, 1);
            assert!(outcome.created);
        }
        Publication::Keep(_) => panic!("a fresh store keeps nothing"),
    }
    let current = Some((1, first.clone()));
    // A fresher page with the same rows is not written again.
    let mut fresher = snapshot.clone();
    fresher.generated_at.hour = (fresher.generated_at.hour + 1) % 24;
    fresher.source = "elsewhere".to_string();
    match publish_live_if_changed(&current, &fresher).unwrap() {
        LivePublishing::Keep(outcome) => {
            assert_eq!(outcome.version, 1);
            assert!(!outcome.created);
        }
        LivePublishing::Write { .. } => panic!("identical content must not be written again"),
    }
    match publish_live_if_changed(&current, &changed).unwrap() {
        LivePublishing::Write { outcome, hash, meta, rows } => {
            assert_eq!(outcome.version, 2);
            assert!(outcome.created);
            assert_eq!(hash, second);
            let loaded = load_live(&meta, &rows).unwrap();
            assert_eq!(format!("{loaded:?}"), format!("{changed:?}"));
        }
        LivePublishing::Keep(_) => panic!("changed content must be written"),
    }
    // The page's own movement is part of what a live row shows.
    let mut shifted = snapshot.rows.clone();
    shifted[0].movement = Some(7);
    assert_ne!(first, live_content_hash(&shifted));
    assert_eq!(MEMORY, ":memory:");
}

/// A store of live snapshots: each version with its hash and its columns.
type LiveVersions = Vec<(i64, String, StoredMeta, Vec<LiveRecord>)>;

fn publish(held: &mut LiveVersions, snapshot: &LiveSnapshot) -> (i64, bool) {
    let current = held.last().map(|(version, hash, _, _)| (*version, hash.clone()));
    match publish_live_if_changed(&current, snapshot).unwrap() {
        LivePublishing::Keep(outcome) => (outcome.version, outcome.created),
        LivePublishing::Write { outcome, hash, meta, rows } => {
            held.push((outcome.version, hash, meta, rows));
            (outcome.version, outcome.created)
        }
    }
}

fn current(held: &LiveVersions) -> Option<(i64, LiveSnapshot)> {
    let designated =
        held.last().map(|(version, _, meta, rows)| (*version, meta.clone(), rows.clone()));
    load_live_current(&designated).unwrap()
}

#[test]
fn publish_dedupes_versions_and_roundtrips() {
    let mut held = LiveVersions::new();

    assert_eq!(publish(&mut held, &fixture_snapshot()), (1, true));

    // Identical content: nothing new is written.
    assert_eq!(publish(&mut held, &fixture_snapshot()), (1, false));

    // Changed content: a new immutable version, and the pointer moves.
    let mut changed = fixture_snapshot();
    changed.rows[0].live_points += 10;
    changed.rows[0].next_points = changed.rows[0].next_points.map(|v| v + 10);
    changed.rows[0].max_this_week = changed.rows[0].max_this_week.map(|v| v + 10);
    assert_eq!(publish(&mut held, &changed), (2, true));

    let (version, loaded) = current(&held).unwrap();
    assert_eq!(version, 2);
    assert_eq!(loaded.rows.len(), changed.rows.len());
    assert_eq!(loaded.rows[0].live_points, changed.rows[0].live_points);

    // Option fields and accented names survive the roundtrip.
    let felix = loaded.rows.iter().find(|r| r.player_code == "ag37").unwrap();
    assert_eq!(felix.player_name, "Félix Auger-Aliassime");
    assert_eq!(felix.next_points, None);
    assert_eq!(felix.unavailable_reason.as_deref(), Some("Eliminated R16"));
    let fritz = loaded.rows.iter().find(|r| r.player_code == "fb98").unwrap();
    assert_eq!(fritz.event.as_ref().unwrap().round, "QF");
    assert_eq!(fritz.next_points, Some(4320));
}

#[test]
fn empty_store_has_no_current_snapshot() {
    assert!(current(&LiveVersions::new()).is_none());
}

#[test]
fn a_page_has_a_largest_size() {
    assert_eq!(MAX_PAGE_BYTES, 512 * 1024 * 1024);
    assert!(fits(&fixture_page()));
    assert!(fits(""));
}

#[test]
fn a_live_snapshot_that_cannot_be_written_is_an_error_only_when_it_is_new() {
    let mut snapshot = fixture_snapshot();
    let current = Some((4, live_content_hash(&snapshot.rows)));
    snapshot.source_as_of.year = -1;
    assert!(matches!(
        publish_live_if_changed(&current, &snapshot),
        Ok(LivePublishing::Keep(_))
    ));
    assert_eq!(
        publish_live_if_changed(&None, &snapshot).unwrap_err().message(),
        "cannot format timestamp"
    );
}

#[test]
fn a_live_snapshot_survives_the_round_trip() {
    let snapshot = fixture_snapshot();
    let (meta, records) = store_live(&snapshot).unwrap();
    let loaded = load_live(&meta, &records).unwrap();
    assert_eq!(format!("{loaded:?}"), format!("{snapshot:?}"));
    // Option fields and accented names survive the roundtrip.
    let felix = loaded.rows.iter().find(|r| r.player_code == "ag37").unwrap();
    assert_eq!(felix.player_name, "Félix Auger-Aliassime");
    assert_eq!(felix.next_points, None);
    assert_eq!(felix.unavailable_reason.as_deref(), Some("Eliminated R16"));
    let fritz = loaded.rows.iter().find(|r| r.player_code == "fb98").unwrap();
    assert_eq!(fritz.event.as_ref().unwrap().round, "QF");
    assert_eq!(fritz.next_points, Some(4320));

    let mut bad = meta.clone();
    bad.source_as_of = "never".to_string();
    assert_eq!(
        load_live(&bad, &records).unwrap_err().message(),
        "bad stored timestamp \"never\""
    );
}

#[test]
fn columns_out_of_range_are_clamped() {
    let record = LiveRecord {
        rank: -3,
        movement: None,
        player_code: "x".to_string(),
        player_name: "X".to_string(),
        country: String::new(),
        live_points: 4_294_967_297,
        event_name: Some("Cup".to_string()),
        event_round: None,
        next_points: Some(-1),
        max_this_week: Some(7),
        unavailable_reason: None,
    };
    let row = row_from_db(&record);
    assert_eq!(row.rank, 0);
    assert_eq!(row.live_points, 1);
    assert_eq!(row.event.as_ref().unwrap().round, "");
    assert_eq!(row.next_points, Some(0));
    assert_eq!(row.max_this_week, Some(7));
    assert_eq!(row_to_db(&row).rank, 0);
}

#[test]
fn moments_survive_the_round_trip() {
    for text in ["2026-08-19T18:42:07Z", "2026-08-19T18:42:07.25+02:30", "0001-01-01T00:00:00Z"] {
        let t = parse_ts(text).unwrap();
        assert_eq!(fmt(&t).unwrap(), text);
        assert_eq!(parse_ts(&fmt(&t).unwrap()).unwrap(), t);
    }
    assert!(parse_ts("2026-08-19").is_err());
}
