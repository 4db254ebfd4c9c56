use racetoturin::atp::{load_table, IdTable};
use racetoturin::wikidata::{
    batches, lookup_url, percent_encode, pick_id, quote, read_reply, resolve, top_up, wikitext_in,
    wikitext_url, write_out, Entity, Statement, BATCH,
};

fn statement(rank: &str, id: Option<&str>) -> Statement {
    Statement { rank: Some(rank.to_string()), id: id.map(str::to_string) }
}

#[test]
fn titles_are_encoded_for_a_query() {
    assert_eq!(percent_encode("Jannik Sinner"), "Jannik%20Sinner");
    assert_eq!(percent_encode("Félix Auger-Aliassime"), "F%C3%A9lix%20Auger-Aliassime");
    assert_eq!(percent_encode("Tommy Paul (tennis)"), "Tommy%20Paul%20%28tennis%29");
    assert_eq!(percent_encode("az-AZ_09.~"), "az-AZ_09.~");
    assert_eq!(percent_encode(""), "");
    assert_eq!(
        lookup_url(&vec!["A B".to_string(), "C".to_string()]),
        "https://www.wikidata.org/w/api.php?action=wbgetentities&sites=enwiki&titles=A%20B%7CC\
         &props=claims%7Csitelinks&format=json&formatversion=2"
    );
    assert_eq!(
        wikitext_url("2026_ATP_Finals"),
        "https://en.wikipedia.org/w/api.php?action=parse&format=json&formatversion=2\
         &prop=wikitext&page=2026_ATP_Finals"
    );
}

#[test]
fn keys_and_ids_are_quoted() {
    assert_eq!(quote("plain"), "\"plain\"");
    assert_eq!(quote("a\"b\\c"), "\"a\\\"b\\\\c\"");
}

#[test]
fn superseded_ids_are_passed_over() {
    let pick = |s: Vec<Statement>| pick_id(&s);
    assert_eq!(pick(vec![]), None);
    assert_eq!(pick(vec![statement("deprecated", Some("OLD0"))]), None);
    assert_eq!(
        pick(vec![statement("preferred", Some("NEW0")), statement("normal", Some("OLD0"))]),
        Some("NEW0".to_string())
    );
    assert_eq!(
        pick(vec![statement("normal", Some("AAA0")), statement("normal", Some("BBB0"))]),
        Some("BBB0".to_string())
    );
    assert_eq!(
        pick(vec![
            statement("preferred", Some("AAA0")),
            statement("preferred", Some("BBB0")),
            statement("deprecated", Some("CCC0")),
        ]),
        Some("BBB0".to_string())
    );
    // The statement to go by has no id: nothing else is guessed.
    assert_eq!(
        pick(vec![statement("normal", Some("AAA0")), statement("preferred", None)]),
        None
    );
    assert_eq!(pick(vec![Statement { rank: None, id: Some("AAA0".to_string()) }]), Some("AAA0".to_string()));
}

#[test]
fn entities_without_an_article_or_an_id_are_left_out() {
    let entity = |title: Option<&str>, statements: Vec<Statement>| Entity {
        title: title.map(str::to_string),
        statements,
    };
    let resolved = resolve(&vec![
        entity(Some("A"), vec![statement("normal", Some("AAA0"))]),
        entity(None, vec![statement("normal", Some("BBB0"))]),
        entity(Some("C"), vec![]),
    ]);
    assert_eq!(resolved.len(), 1);
    assert_eq!(resolved.get("A").map(String::as_str), Some("AAA0"));
}

#[test]
fn replies_are_read() {
    let body = r#"{"entities":{"Q1":{"sitelinks":{"enwiki":{"title":"Jannik Sinner"}},
        "claims":{"P536":[
            {"rank":"deprecated","mainsnak":{"datavalue":{"value":"OLD0"}}},
            {"rank":"normal","mainsnak":{"datavalue":{"value":"S0AG"}}}]}},
        "Q2":{"sitelinks":{},"claims":{"P536":[]}},
        "Q3":{"sitelinks":{"enwiki":{"title":"Jakub Menšík \"x\""}},
        "claims":{"P536":[{"rank":"normal","mainsnak":{"datavalue":{"value":7}}}]}}},"success":1}"#;
    let entities = read_reply(body).unwrap();
    assert_eq!(entities.len(), 3);
    assert_eq!(entities[0].title.as_deref(), Some("Jannik Sinner"));
    assert_eq!(entities[0].statements.len(), 2);
    assert_eq!(entities[0].statements[1].id.as_deref(), Some("S0AG"));
    assert_eq!(entities[1].title, None);
    assert_eq!(entities[2].title.as_deref(), Some("Jakub Menšík \"x\""));
    assert_eq!(entities[2].statements[0].id, None);
    let resolved = resolve(&entities);
    assert_eq!(resolved.len(), 1);
    assert_eq!(resolved.get("Jannik Sinner").map(String::as_str), Some("S0AG"));
}

#[test]
fn replies_that_are_none_are_told_apart() {
    let message = |body: &str| read_reply(body).unwrap_err().message();
    assert_eq!(message("<html>"), "Wikidata gave non-JSON");
    assert_eq!(
        message(r#"{"error":{"info":"too many titles"},"entities":{}}"#),
        "Wikidata API error: \"too many titles\""
    );
    assert_eq!(message("{}"), "Wikidata response has no entities");
    assert_eq!(message(r#"{"entities":[]}"#), "Wikidata response has no entities");
    assert_eq!(message("[1,true,null]"), "Wikidata response has no entities");
}

#[test]
fn the_article_is_taken_out_of_its_reply() {
    assert_eq!(
        wikitext_in(r#"{"parse":{"title":"x","wikitext":"{|\n|}é"}}"#).unwrap(),
        "{|\n|}é"
    );
    let message = |body: &str| wikitext_in(body).unwrap_err().message();
    assert_eq!(message("nope"), "API response is not JSON");
    assert_eq!(message(r#"{"parse":{"wikitext":3}}"#), "API response has no parse.wikitext");
    assert_eq!(message(r#"{"error":{}}"#), "API response has no parse.wikitext");
}

#[test]
fn requests_hold_as_many_titles_as_are_taken() {
    let titles: Vec<String> = (0..120).map(|i| format!("t{i}")).collect();
    let requests = batches(&titles);
    let sizes: Vec<usize> = requests.iter().map(Vec::len).collect();
    assert_eq!(sizes, vec![BATCH, BATCH, 20]);
    assert_eq!(requests.concat(), titles);
    assert!(batches(&Vec::new()).is_empty());
    assert_eq!(batches(&titles[..50].to_vec()).len(), 1);
}

#[test]
fn the_map_only_grows_and_nothing_is_guessed() {
    let mut map = IdTable::new();
    map.insert("Jannik Sinner".to_string(), "S0AG".to_string());
    let mut resolved = IdTable::new();
    resolved.insert("Carlos Alcaraz".to_string(), "A0E2".to_string());
    resolved.insert("Bad Id".to_string(), "nope".to_string());
    resolved.insert("Not Asked".to_string(), "N0NE".to_string());
    let titles: Vec<String> =
        ["Bad Id", "Carlos Alcaraz", "Unknown"].iter().map(|t| t.to_string()).collect();
    let unresolved = top_up(&mut map, &titles, &resolved);
    assert_eq!(unresolved, vec!["Bad Id (rejected id \"nope\")", "Unknown"]);
    assert_eq!(map.len(), 2);
    assert_eq!(map.get("Jannik Sinner").map(String::as_str), Some("S0AG"));
    assert_eq!(map.get("Carlos Alcaraz").map(String::as_str), Some("A0E2"));
    assert_eq!(map.get("Not Asked"), None);
}

#[test]
fn the_document_written_reads_back() {
    let mut map = IdTable::new();
    map.insert("Tommy Paul (tennis)".to_string(), "PL56".to_string());
    map.insert("A \"quoted\" \\ title".to_string(), "A0E2".to_string());
    let text = write_out(&map, "https://en.wikipedia.org/wiki/2026_ATP_Finals");
    assert!(text.starts_with("# GENERATED — do not edit by hand.\n#\n"));
    assert!(text.contains("# Titles last read from: https://en.wikipedia.org/wiki/2026_ATP_Finals\n\n"));
    assert!(text.ends_with(
        "\"A \\\"quoted\\\" \\\\ title\" = \"A0E2\"\n\"Tommy Paul (tennis)\" = \"PL56\"\n"
    ));
    let read = load_table(&text).unwrap();
    assert_eq!(read.entries(), map.entries());
}
