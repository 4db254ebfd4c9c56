use racetoturin::atp::{
    checked_profile_url, ids, keep_valid, load_table, profile_in, profile_url, url_for, valid_id,
    IdTable, IDS_TOML,
};

#[test]
fn the_compiled_in_map_parses_and_every_id_is_well_formed() {
    let parsed = load_table(IDS_TOML).expect("the compiled-in map must parse");
    assert!(parsed.len() > 0, "the map should not be empty");
    for (title, id) in parsed.entries() {
        assert!(valid_id(id), "{title} has malformed ATP id {id:?}");
    }
    // Nothing was dropped by the validity filter.
    assert_eq!(parsed.len(), ids().unwrap().len());
}

#[test]
fn ids_are_checked_before_they_become_urls() {
    assert!(valid_id("S0AG"));
    assert!(valid_id("A0E2"));
    assert!(!valid_id("s0ag"), "lowercase is not the P536 format");
    assert!(!valid_id("S0A"), "too short");
    assert!(!valid_id("S0AGX"), "too long");
    assert!(!valid_id("0SAG"), "must start with a letter");
    assert!(!valid_id("S0A/"), "no path separators");
    assert!(!valid_id(""));
}

#[test]
fn a_known_player_resolves_and_an_unknown_one_does_not() {
    assert_eq!(
        profile_url("Jannik Sinner").as_deref(),
        Some("https://www.atptour.com/en/players/-/S0AG/overview")
    );
    assert_eq!(profile_url("Not A Real Player"), None);
}

#[test]
fn the_checked_lookup_agrees() {
    assert_eq!(checked_profile_url("Jannik Sinner"), Some(profile_url("Jannik Sinner")));
    assert_eq!(checked_profile_url("Not A Real Player"), Some(None));
}

#[test]
fn an_id_alone_makes_the_address() {
    assert_eq!(url_for("Z355"), "https://www.atptour.com/en/players/-/Z355/overview");
}

#[test]
fn malformed_ids_link_nowhere() {
    let table = load_table("\"A\" = \"S0AG\"\n\"B\" = \"s0ag\"\n").unwrap();
    assert_eq!(table.len(), 2);
    let kept = keep_valid(&table);
    assert_eq!(kept.len(), 1);
    assert_eq!(profile_in(&kept, "A"), Some(url_for("S0AG")));
    assert_eq!(profile_in(&kept, "B"), None);
}

#[test]
fn malformed_documents_give_no_map() {
    assert!(load_table("not toml at all").is_none());
    assert!(load_table("\"A\" = 3\n").is_none());
    assert!(load_table("").unwrap().len() == 0);
}

#[test]
fn a_table_keeps_its_titles_in_order_and_once() {
    let mut table = IdTable::new();
    for title in ["b", "a", "é", "ab", "", "b"] {
        table.insert(title.to_string(), format!("<{title}>"));
    }
    table.insert("a".to_string(), "new".to_string());
    let titles: Vec<&str> = table.entries().iter().map(|(t, _)| t.as_str()).collect();
    let mut sorted = titles.clone();
    sorted.sort();
    assert_eq!(titles, sorted);
    assert_eq!(table.len(), 5);
    assert_eq!(table.get("a").map(String::as_str), Some("new"));
    assert_eq!(table.get("é").map(String::as_str), Some("<é>"));
    assert_eq!(table.get("c"), None);
}
