use racetoturin::calendar::{fmt_day, fmt_human, fmt_rfc3339, seconds_between, CalendarDate, Timestamp};
use racetoturin::digest::hex_digest;
use racetoturin::fetch::{accept_body, accept_response, FetchError, MAX_BODY_BYTES};
use racetoturin::model::{Played, Slot};
use racetoturin::source::{
    attr_number, cell_points, first_ref_url, first_wikilink_label, first_wikilink_target, flag_code,
    header_cell_numbers, month_from_name, parse_dts, parse_int, parse_ledger, split_slot_label,
    strip_markup,
};
use racetoturin::text::{
    has_alphabetic, parse_i32, parse_u32, parse_u8, split_whitespace, trim, whitespace,
};

fn chars(s: &str) -> Vec<char> {
    s.chars().collect()
}

fn text(s: &[char]) -> String {
    s.iter().collect()
}

fn moment(year: i32, month: u8, day: u8, hour: u8, offset_seconds: i32) -> Timestamp {
    Timestamp {
        year,
        month,
        day,
        hour,
        minute: 5,
        second: 9,
        nanosecond: 0,
        offset_seconds,
    }
}

#[test]
fn whitespace_is_that_of_the_standard_library() {
    for n in 0..=0x10ffff_u32 {
        if let Some(c) = char::from_u32(n) {
            assert_eq!(whitespace(c), c.is_whitespace(), "U+{n:04X}");
        }
    }
}

#[test]
fn words_and_trimming_follow_the_standard_library() {
    for s in ["", " ", "a", " a b ", "\u{3000}x\ty\n", "\u{a0}–\u{2009}"] {
        let c = chars(s);
        assert_eq!(text(trim(&c)), s.trim());
        let words: Vec<String> = split_whitespace(&c).iter().map(|w| text(w)).collect();
        let expected: Vec<&str> = s.split_whitespace().collect();
        assert_eq!(words, expected);
    }
    assert!(has_alphabetic(&chars("12é")));
    assert!(!has_alphabetic(&chars("12–-")));
}

#[test]
fn numbers_are_read_as_the_standard_library_reads_them() {
    for s in
        ["", "+", "-", "0", "007", "+5", "-5", "256", "4294967295", "4294967296", "-2147483648", "1_0", " 1", "٣"]
    {
        let c = chars(s);
        assert_eq!(parse_u8(&c), s.parse::<u8>().ok(), "{s:?}");
        assert_eq!(parse_u32(&c), s.parse::<u32>().ok(), "{s:?}");
        assert_eq!(parse_i32(&c), s.parse::<i32>().ok(), "{s:?}");
    }
}

#[test]
fn markup_is_stripped() {
    let plain = |s: &str| text(&strip_markup(&chars(s)));
    assert_eq!(plain("'''[[x]]'''<!--c--><sup>†</sup>"), "[[x]]†");
    assert_eq!(plain(" ''a''<br/>b<br />c "), "a b c");
    assert_eq!(plain("-->a<!--"), "--a");
    assert_eq!(plain("a>b<c"), "ab");
}

#[test]
fn cells_are_read() {
    assert_eq!(first_wikilink_target(&chars("x [[A b|c]] [[d]]")), Some("A b".to_string()));
    assert_eq!(first_wikilink_target(&chars("[[unclosed")), None);
    assert_eq!(first_wikilink_label(&chars("[[A b|''QF'']]")), Some("QF".to_string()));
    assert_eq!(first_wikilink_label(&chars("[[A b]]")), Some("A b".to_string()));
    assert_eq!(first_wikilink_label(&chars("[[A b|]]")), None);
    assert_eq!(flag_code(&chars("{{flagicon|ita|x}}")), "ITA");
    assert_eq!(flag_code(&chars("{{flagicon|}}")), "");
    assert_eq!(flag_code(&chars("{{flagicon|ITAL}}")), "");
    assert_eq!(parse_int(&chars("T-12")), Some(12));
    assert_eq!(parse_int(&chars("x")), None);
    assert_eq!(header_cell_numbers(&chars("! 7,950\n! 12\n! x1\n!,\n| 5\n ! 3")), vec![7950, 12, 3]);
    assert_eq!(attr_number(&chars("colspan = \"14\" |"), "colspan"), Some(14));
    assert_eq!(attr_number(&chars("colspan 4"), "colspan"), None);
    assert_eq!(cell_points(&chars("[[2026 x|W]]<br/>1,000")), Some(1000));
    assert_eq!(cell_points(&chars("[[2026 x|W]]")), None);
    let body = chars("<!--Miami--> A");
    let (label, rest) = split_slot_label(&body);
    assert_eq!((label.as_str(), text(rest).as_str()), ("Miami", "A"));
    let body = chars("<!---1--->");
    let (label, rest) = split_slot_label(&body);
    assert_eq!((label.as_str(), text(rest).as_str()), ("", ""));
}

#[test]
fn qualifier_dates_and_citations_are_read() {
    let date = |s: &str| parse_dts(&chars(s), 2026).map(|d| d.to_text());
    assert_eq!(date("x {{dts|10 July}} y"), Some("2026-07-10".to_string()));
    assert_eq!(date("{{dts| 6  AUGUST 1999}}"), Some("2026-08-06".to_string()));
    assert_eq!(date("{{dts|31 June}}"), None);
    assert_eq!(date("{{dts|July 10}}"), None);
    assert_eq!(date("{{dts|10}}"), None);
    assert_eq!(date("{{dts|10 July"), None);
    assert_eq!(month_from_name(&chars("December")), Some(12));
    assert_eq!(month_from_name(&chars("Dec")), None);
    let url = |s: &str| first_ref_url(&chars(s));
    assert_eq!(url("a|url=https://x.y/z|t"), Some("https://x.y/z".to_string()));
    assert_eq!(url("url=http://x}}"), Some("http://x".to_string()));
    assert_eq!(url("url= https://x"), None);
    assert_eq!(url("url=ftp://x"), None);
    assert_eq!(url("nothing"), None);
}

#[test]
fn codes_round_trip() {
    for slot in [Slot::GrandSlam, Slot::Mandatory1000, Slot::BestOther] {
        assert_eq!(Slot::from_code(slot.code()), Some(slot));
    }
    for played in [Played::Result, Played::Absent, Played::Pending] {
        assert_eq!(Played::from_code(played.code()), Some(played));
    }
    assert_eq!(Slot::from_code("cup"), None);
    assert_eq!(Played::from_code(""), None);
    assert_eq!(Slot::Mandatory1000.title(), "Masters 1000 (mandatory)");
    assert_eq!(Slot::GrandSlam.code(), "slam");
    assert_eq!(Played::Pending.code(), "pending");
}

#[test]
fn moments_are_written_for_people_and_machines() {
    let t = moment(2026, 8, 6, 7, 0);
    assert_eq!(fmt_day(&t), "06 August 2026");
    assert_eq!(fmt_human(&t), "06 Aug 2026 07:05 UTC");
    assert_eq!(fmt_rfc3339(&t), "2026-08-06T07:05:09Z");
    assert_eq!(fmt_rfc3339(&moment(2026, 8, 6, 7, -5400)), "2026-08-06T07:05:09-01:30");
    let mut fine = t;
    fine.nanosecond = 120_000_000;
    assert_eq!(fmt_rfc3339(&fine), "2026-08-06T07:05:09.12Z");
    // A year that RFC 3339 cannot write falls back to the plain display.
    assert_eq!(fmt_rfc3339(&moment(-44, 3, 15, 7, 0)), "-0044-03-15 7:05:09.0 +00:00:00");
    assert_eq!(fmt_rfc3339(&moment(2026, 8, 6, 7, 61)), "2026-08-06 7:05:09.0 +00:01:01");
    assert_eq!(CalendarDate { year: 2026, month: 7, day: 9 }.to_text(), "2026-07-09");
    assert_eq!(fmt_day(&moment(12, 1, 31, 0, 0)), "31 January 0012");
}

#[test]
fn ages_are_counted_between_moments() {
    let a = moment(2024, 2, 28, 7, 0);
    let b = moment(2024, 3, 1, 7, 0);
    assert_eq!(seconds_between(&b, &a), 2 * 86_400);
    assert_eq!(seconds_between(&a, &b), -2 * 86_400);
    let c = moment(2024, 3, 1, 9, 7200);
    assert_eq!(seconds_between(&c, &b), 0);
    let mut d = b;
    d.nanosecond = 999_999_999;
    assert_eq!(seconds_between(&d, &b), 0);
    assert_eq!(seconds_between(&b, &d), 0);
    assert_eq!(seconds_between(&moment(1970, 1, 1, 0, 0), &moment(1900, 1, 1, 0, 0)), 2_208_988_800);
}

#[test]
fn digests_are_those_of_sha_256() {
    assert_eq!(
        hex_digest(""),
        "e3b0c44298fc1c149afbf4c8996fb92427ae41e4649b934ca495991b7852b855"
    );
    assert_eq!(
        hex_digest("abc"),
        "ba7816bf8f01cfea414140de5dae2223b00361a396177a9cb410ff61f20015ad"
    );
    assert_eq!(
        hex_digest("é"),
        "4a99557e4033c3539de2eb65472017cad5f9557f7a0625a09f1c3f6e2ba69c4c"
    );
}

#[test]
fn responses_are_bounded() {
    assert!(accept_response(true, "200 OK", None, None).is_ok());
    assert!(accept_response(true, "200 OK", None, Some(MAX_BODY_BYTES)).is_ok());
    let err = accept_response(true, "200 OK", None, Some(MAX_BODY_BYTES + 1)).unwrap_err();
    assert_eq!(err.message("u"), "u body of 4194305 bytes exceeds the 4194304-byte cap");
    let err = accept_response(false, "404 Not Found", None, Some(1)).unwrap_err();
    assert_eq!(err.message("https://x"), "https://x returned HTTP 404 Not Found");
    let err = accept_response(false, "429 Too Many Requests", Some("60".to_string()), None);
    assert_eq!(
        err.unwrap_err().message("https://x"),
        "https://x returned HTTP 429 Too Many Requests (Retry-After: 60)"
    );
    assert!(accept_body("é").is_ok());
    let large = "é".repeat(MAX_BODY_BYTES as usize / 2 + 1);
    assert!(matches!(
        accept_body(&large),
        Err(FetchError::TooLarge { bytes: 4_194_306 })
    ));
}

#[test]
fn a_ledger_beyond_the_last_cell_is_empty() {
    let cells: Vec<Vec<char>> =
        vec![chars("1"), chars("[[X]]"), chars("[[2026 Open|W]]<br/>50")];
    let cells: Vec<&[char]> = cells.iter().map(|c| c.as_slice()).collect();
    let groups = vec![(Slot::BestOther, 2)];
    let ledger = parse_ledger(&cells, 1, &groups);
    assert_eq!(ledger.len(), 1);
    assert_eq!(ledger[0].points, 50);
    assert!(parse_ledger(&cells, 2, &groups).is_empty());
    assert!(parse_ledger(&cells, 3, &groups).is_empty());
    assert!(parse_ledger(&cells, 1_000, &groups).is_empty());
    assert!(parse_ledger(&Vec::new(), 0, &groups).is_empty());
}
