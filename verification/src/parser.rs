//! Parser for the ATP live race page: a heading, a source timestamp and one
//! table row per player, each located by a selector rather than by position.

use vstd::hash_set::StringHashSet;
use vstd::prelude::*;
use vstd::slice::slice_to_vec;
use vstd::utf8::encode_utf8;

use crate::calendar::{now_utc, parse_rfc3339, rfc3339_read, Timestamp};
use crate::text::{
    append_number, ascii_digit, ascii_letter, ascii_lowercase, bounded, chars_of, clone_opt,
    contains, debug_quoted, debug_text, decimal, has, is_digit, is_letter, is_lower, join,
    joined, lowered, parse_digits, parse_i32, parse_u32, signed, slices, spells, split,
    split_on, string_of, string_opt, strings, trim, trimmed, unsigned,
};

verus! {

/// Recorded on every snapshot read from the live page.
pub const PARSER_VERSION: &'static str = "live-race-html-1";

/// Fewer rows than this is a maintenance page, never a race table.
pub const MIN_ROWS: usize = 8;

// ---------------------------------------------------------------------------
// What the page is read into
// ---------------------------------------------------------------------------

/// The event a player is in this week.
#[derive(Debug, Clone)]
pub struct EventState {
    pub name: String,
    pub round: String,
}

/// What an `EventState` says.
pub struct EventModel {
    pub name: Seq<char>,
    pub round: Seq<char>,
}

impl View for EventState {
    type V = EventModel;

    open spec fn view(&self) -> EventModel {
        EventModel { name: self.name@, round: self.round@ }
    }
}

/// What an optional event says.
pub open spec fn event_opt(event: Option<EventState>) -> Option<EventModel> {
    match event {
        Some(e) => Some(e@),
        None => None,
    }
}

/// One player's line on the live page.
#[derive(Debug, Clone)]
pub struct LiveRow {
    pub rank: u32,
    pub movement: Option<i32>,
    /// The stable code in the player's profile link.
    pub player_code: String,
    pub player_name: String,
    pub country: String,
    pub live_points: u32,
    pub event: Option<EventState>,
    /// Points after winning the next match, where the page displays them.
    pub next_points: Option<u32>,
    /// Points after winning the event, where the page displays them.
    pub max_this_week: Option<u32>,
    /// Why there are no such points; absent when both are displayed.
    pub unavailable_reason: Option<String>,
}

/// What a `LiveRow` says.
pub struct LiveRowModel {
    pub rank: u32,
    pub movement: Option<i32>,
    pub player_code: Seq<char>,
    pub player_name: Seq<char>,
    pub country: Seq<char>,
    pub live_points: u32,
    pub event: Option<EventModel>,
    pub next_points: Option<u32>,
    pub max_this_week: Option<u32>,
    pub unavailable_reason: Option<Seq<char>>,
}

impl View for LiveRow {
    type V = LiveRowModel;

    open spec fn view(&self) -> LiveRowModel {
        LiveRowModel {
            rank: self.rank,
            movement: self.movement,
            player_code: self.player_code@,
            player_name: self.player_name@,
            country: self.country@,
            live_points: self.live_points,
            event: event_opt(self.event),
            next_points: self.next_points,
            max_this_week: self.max_this_week,
            unavailable_reason: string_opt(self.unavailable_reason),
        }
    }
}

/// What a list of rows says.
pub open spec fn live_rows_model(rows: Seq<LiveRow>) -> Seq<LiveRowModel> {
    rows.map_values(|r: LiveRow| r@)
}

/// The live race at one moment.
#[derive(Debug, Clone)]
pub struct LiveSnapshot {
    pub source_as_of: Timestamp,
    pub generated_at: Timestamp,
    pub source: String,
    pub parser_version: String,
    pub rows: Vec<LiveRow>,
}

/// What a `LiveSnapshot` says.
pub struct LiveSnapshotModel {
    pub source_as_of: Timestamp,
    pub generated_at: Timestamp,
    pub source: Seq<char>,
    pub parser_version: Seq<char>,
    pub rows: Seq<LiveRowModel>,
}

impl View for LiveSnapshot {
    type V = LiveSnapshotModel;

    open spec fn view(&self) -> LiveSnapshotModel {
        LiveSnapshotModel {
            source_as_of: self.source_as_of,
            generated_at: self.generated_at,
            source: self.source@,
            parser_version: self.parser_version@,
            rows: live_rows_model(self.rows@),
        }
    }
}

// ---------------------------------------------------------------------------
// Errors
// ---------------------------------------------------------------------------

/// Why a profile link names no player.
#[derive(Debug, Clone)]
pub enum HrefError {
    NoPlayersSegment,
    NoCodeSegment,
    ImplausibleCode { code: String },
}

/// What an `HrefError` says.
pub enum HrefErrorModel {
    NoPlayersSegment,
    NoCodeSegment,
    ImplausibleCode { code: Seq<char> },
}

impl View for HrefError {
    type V = HrefErrorModel;

    open spec fn view(&self) -> HrefErrorModel {
        match *self {
            HrefError::NoPlayersSegment => HrefErrorModel::NoPlayersSegment,
            HrefError::NoCodeSegment => HrefErrorModel::NoCodeSegment,
            HrefError::ImplausibleCode { code } => HrefErrorModel::ImplausibleCode { code: code@ },
        }
    }
}

/// Why a row of the table is no player's line.
#[derive(Debug, Clone)]
pub enum RowError {
    RankMissing,
    BadRank,
    PlayerLinkMissing,
    NameEmpty,
    NoHref,
    BadHref { href: String, cause: HrefError },
    PointsMissing,
    BadPoints { text: String },
}

/// What a `RowError` says.
pub enum RowErrorModel {
    RankMissing,
    BadRank,
    PlayerLinkMissing,
    NameEmpty,
    NoHref,
    BadHref { href: Seq<char>, cause: HrefErrorModel },
    PointsMissing,
    BadPoints { text: Seq<char> },
}

impl View for RowError {
    type V = RowErrorModel;

    open spec fn view(&self) -> RowErrorModel {
        match *self {
            RowError::RankMissing => RowErrorModel::RankMissing,
            RowError::BadRank => RowErrorModel::BadRank,
            RowError::PlayerLinkMissing => RowErrorModel::PlayerLinkMissing,
            RowError::NameEmpty => RowErrorModel::NameEmpty,
            RowError::NoHref => RowErrorModel::NoHref,
            RowError::BadHref { href, cause } => RowErrorModel::BadHref {
                href: href@,
                cause: cause@,
            },
            RowError::PointsMissing => RowErrorModel::PointsMissing,
            RowError::BadPoints { text } => RowErrorModel::BadPoints { text: text@ },
        }
    }
}

/// A structural invariant that a candidate breaks.
#[derive(Debug, Clone)]
pub enum LiveProblem {
    RowCount { rows: usize },
    RankGap { position: usize, expected: u32, got: u32 },
    DuplicateCode { code: String },
    PointsRise { rank: u32, points: u32, above: u32 },
    NextBelowLive { code: String, next: u32, live: u32 },
    MaxBelowNext { code: String, max: u32, next: u32 },
}

/// What a `LiveProblem` says.
pub enum LiveProblemModel {
    RowCount { rows: nat },
    RankGap { position: nat, expected: u32, got: u32 },
    DuplicateCode { code: Seq<char> },
    PointsRise { rank: u32, points: u32, above: u32 },
    NextBelowLive { code: Seq<char>, next: u32, live: u32 },
    MaxBelowNext { code: Seq<char>, max: u32, next: u32 },
}

impl View for LiveProblem {
    type V = LiveProblemModel;

    open spec fn view(&self) -> LiveProblemModel {
        match *self {
            LiveProblem::RowCount { rows } => LiveProblemModel::RowCount { rows: rows as nat },
            LiveProblem::RankGap { position, expected, got } => LiveProblemModel::RankGap {
                position: position as nat,
                expected,
                got,
            },
            LiveProblem::DuplicateCode { code } => LiveProblemModel::DuplicateCode { code: code@ },
            LiveProblem::PointsRise { rank, points, above } => LiveProblemModel::PointsRise {
                rank,
                points,
                above,
            },
            LiveProblem::NextBelowLive { code, next, live } => LiveProblemModel::NextBelowLive {
                code: code@,
                next,
                live,
            },
            LiveProblem::MaxBelowNext { code, max, next } => LiveProblemModel::MaxBelowNext {
                code: code@,
                max,
                next,
            },
        }
    }
}

/// What a list of problems says.
pub open spec fn live_problems_model(problems: Seq<LiveProblem>) -> Seq<LiveProblemModel> {
    problems.map_values(|p: LiveProblem| p@)
}

/// Why a page is not a publishable snapshot.
#[derive(Debug, Clone)]
pub enum LiveError {
    NoHeading,
    NoTimestamp,
    BadTimestamp,
    /// The row's number, counted from one, and what is wrong with it.
    Row { number: usize, cause: RowError },
    Rejected { problems: Vec<LiveProblem> },
}

/// What a `LiveError` says.
pub enum LiveErrorModel {
    NoHeading,
    NoTimestamp,
    BadTimestamp,
    Row { number: nat, cause: RowErrorModel },
    Rejected { problems: Seq<LiveProblemModel> },
}

impl View for LiveError {
    type V = LiveErrorModel;

    open spec fn view(&self) -> LiveErrorModel {
        match *self {
            LiveError::NoHeading => LiveErrorModel::NoHeading,
            LiveError::NoTimestamp => LiveErrorModel::NoTimestamp,
            LiveError::BadTimestamp => LiveErrorModel::BadTimestamp,
            LiveError::Row { number, cause } => LiveErrorModel::Row {
                number: number as nat,
                cause: cause@,
            },
            LiveError::Rejected { problems } => LiveErrorModel::Rejected {
                problems: live_problems_model(problems@),
            },
        }
    }
}

// ---------------------------------------------------------------------------
// Single values
// ---------------------------------------------------------------------------

/// Between the digits of a number: a comma or a narrow no-break space.
pub open spec fn is_separator(c: char) -> bool {
    c == ',' || c == '\u{202f}'
}

/// `s` without the separators between digits.
pub open spec fn ungrouped(s: Seq<char>) -> Seq<char> {
    s.filter(|c: char| !is_separator(c))
}

/// The points that a text states: digits and the separators between them, and
/// no sign.
pub open spec fn points_of(text: Seq<char>) -> Option<nat> {
    bounded(ungrouped(text), u32::MAX as nat)
}

/// "8,760" / "8760" -> 8760. Rejects anything else.
pub fn parse_points(text: &[char]) -> (r: Result<u32, RowError>)
    ensures
        match r {
            Ok(n) => points_of(text@) == Some(n as nat),
            Err(e) => points_of(text@) is None && e@ == (RowErrorModel::BadPoints { text: text@ }),
        },
{
    let mut cleaned: Vec<char> = Vec::new();
    let mut i: usize = 0;
    assert(ungrouped(text@.take(0)) =~= seq![]);
    while i < text.len()
        invariant
            i <= text@.len(),
            cleaned@ == ungrouped(text@.take(i as int)),
        decreases text@.len() - i,
    {
        let c = text[i];
        proof {
            reveal(Seq::filter);
            assert(text@.take(i + 1).drop_last() =~= text@.take(i as int));
        }
        if c != ',' && c != '\u{202f}' {
            cleaned.push(c);
        }
        i += 1;
    }
    assert(text@.take(i as int) =~= text@);
    match parse_digits(cleaned.as_slice(), u32::MAX as u64) {
        Some(n) => Ok(n as u32),
        None => Err(RowError::BadPoints { text: string_of(text) }),
    }
}

/// What a cell holds in place of a value that the source does not display.
pub open spec fn is_blank(s: Seq<char>) -> bool {
    s == ""@ || s == "-"@ || s == "–"@ || s == "—"@
}

fn blank(s: &[char]) -> (r: bool)
    ensures
        r == is_blank(s@),
{
    spells(s, "") || spells(s, "-") || spells(s, "–") || spells(s, "—")
}

/// The points in a cell that need not have any.
pub open spec fn optional_points(text: Option<Seq<char>>) -> Result<Option<u32>, RowErrorModel> {
    match text {
        None => Ok(None),
        Some(t) => if is_blank(trimmed(t)) {
            Ok(None)
        } else {
            match points_of(trimmed(t)) {
                Some(n) => Ok(Some(n as u32)),
                None => Err(RowErrorModel::BadPoints { text: trimmed(t) }),
            }
        },
    }
}

/// Empty / dash cells mean "not displayed by the source".
pub fn parse_optional_points(text: &Option<Vec<char>>) -> (r: Result<Option<u32>, RowError>)
    ensures
        match r {
            Ok(n) => optional_points(chars_opt(*text)) == Ok::<Option<u32>, RowErrorModel>(n),
            Err(e) => optional_points(chars_opt(*text)) == Err::<Option<u32>, RowErrorModel>(e@),
        },
{
    match text {
        None => Ok(None),
        Some(t) => {
            let v = trim(t.as_slice());
            if blank(v) {
                Ok(None)
            } else {
                match parse_points(v) {
                    Ok(n) => Ok(Some(n)),
                    Err(e) => Err(e),
                }
            }
        },
    }
}

/// What optional characters hold.
pub open spec fn chars_opt(s: Option<Vec<char>>) -> Option<Seq<char>> {
    match s {
        Some(v) => Some(v@),
        None => None,
    }
}

/// The places gained that a cell states.
pub open spec fn movement_of(text: Option<Seq<char>>) -> Option<i32> {
    match text {
        None => None,
        Some(t) => if is_blank(trimmed(t)) {
            None
        } else {
            match signed(trimmed(t), i32::MAX as nat) {
                Some(n) => Some(n as i32),
                None => None,
            }
        },
    }
}

pub fn parse_movement(text: &Option<Vec<char>>) -> (r: Option<i32>)
    ensures
        r == movement_of(chars_opt(*text)),
{
    match text {
        None => None,
        Some(t) => {
            let v = trim(t.as_slice());
            if blank(v) {
                None
            } else {
                parse_i32(v)
            }
        },
    }
}

/// The parts that are not empty.
pub open spec fn filled_parts(parts: Seq<Seq<char>>) -> Seq<Seq<char>> {
    parts.filter(|p: Seq<char>| p.len() > 0)
}

/// Where `word` first stands among the parts, from `from` on.
pub open spec fn index_from(parts: Seq<Seq<char>>, word: Seq<char>, from: int) -> Option<int>
    decreases parts.len() - from,
{
    if from >= parts.len() {
        None
    } else if parts[from] == word {
        Some(from)
    } else {
        index_from(parts, word, from + 1)
    }
}

/// ASCII letters and digits only.
pub open spec fn alphanumeric(s: Seq<char>) -> bool {
    forall|i: int| 0 <= i < s.len() ==> is_letter(#[trigger] s[i]) || is_digit(s[i])
}

/// The player that a profile link names: two segments after `players`, of
/// letters and digits, in lower case.
pub open spec fn code_in(href: Seq<char>) -> Result<Seq<char>, HrefErrorModel> {
    let segments = filled_parts(split_on(href, "/"@));
    match index_from(segments, "players"@, 0) {
        None => Err(HrefErrorModel::NoPlayersSegment),
        Some(i) => if i + 2 >= segments.len() {
            Err(HrefErrorModel::NoCodeSegment)
        } else if !alphanumeric(segments[i + 2]) {
            Err(HrefErrorModel::ImplausibleCode { code: segments[i + 2] })
        } else {
            Ok(lowered(segments[i + 2]))
        },
    }
}

fn only_alphanumeric(s: &[char]) -> (r: bool)
    ensures
        r == alphanumeric(s@),
{
    let mut i: usize = 0;
    while i < s.len()
        invariant
            i <= s@.len(),
            forall|j: int| 0 <= j < i ==> is_letter(#[trigger] s@[j]) || is_digit(s@[j]),
        decreases s@.len() - i,
    {
        if !(ascii_letter(s[i]) || ascii_digit(s[i])) {
            return false;
        }
        i += 1;
    }
    true
}

fn path_segments<'a>(href: &'a [char]) -> (r: Vec<&'a [char]>)
    ensures
        slices(r@) == filled_parts(split_on(href@, "/"@)),
{
    let parts = split(href, "/");
    let ghost all = slices(parts@);
    let mut out: Vec<&[char]> = Vec::new();
    let mut i: usize = 0;
    assert(slices(out@) =~= filled_parts(all.take(0)));
    while i < parts.len()
        invariant
            i <= parts@.len(),
            all == slices(parts@),
            slices(out@) == filled_parts(all.take(i as int)),
        decreases parts@.len() - i,
    {
        let ghost done = out@;
        proof {
            reveal(Seq::filter);
            assert(all.take(i + 1).drop_last() =~= all.take(i as int));
            assert(all.take(i + 1).last() == parts@[i as int]@);
        }
        let p = parts[i];
        if p.len() > 0 {
            out.push(p);
            assert(slices(out@) =~= slices(done).push(p@));
        }
        i += 1;
    }
    assert(all.take(i as int) =~= all);
    out
}

/// Extract the stable ATP player code from a profile href like
/// `/en/players/jannik-sinner/s0ag/overview`.
pub fn player_code_from_href(href: &str) -> (r: Result<String, HrefError>)
    ensures
        match r {
            Ok(code) => code_in(href@) == Ok::<Seq<char>, HrefErrorModel>(code@),
            Err(e) => code_in(href@) == Err::<Seq<char>, HrefErrorModel>(e@),
        },
{
    let text = chars_of(href);
    let segments = path_segments(text.as_slice());
    let ghost all = slices(segments@);
    let end: usize = segments.len();
    let mut i: usize = 0;
    while i < end
        invariant
            i <= end,
            end == segments@.len(),
            all == slices(segments@),
            all == filled_parts(split_on(href@, "/"@)),
            index_from(all, "players"@, 0) == index_from(all, "players"@, i as int),
        decreases end - i,
    {
        assert(all[i as int] == segments@[i as int]@);
        if spells(segments[i], "players") {
            if end - i <= 2 {
                return Err(HrefError::NoCodeSegment);
            }
            let code = segments[i + 2];
            assert(all[i + 2] == code@);
            if !only_alphanumeric(code) {
                return Err(HrefError::ImplausibleCode { code: string_of(code) });
            }
            return Ok(string_of(ascii_lowercase(code).as_slice()));
        }
        i += 1;
    }
    Err(HrefError::NoPlayersSegment)
}

// ---------------------------------------------------------------------------
// One row
// ---------------------------------------------------------------------------

/// An element of the page: its text, and one attribute if it has it.
#[derive(Debug, Clone)]
pub struct Found {
    pub text: String,
    pub attribute: Option<String>,
}

/// What a `Found` says.
pub struct FoundModel {
    pub text: Seq<char>,
    pub attribute: Option<Seq<char>>,
}

impl View for Found {
    type V = FoundModel;

    open spec fn view(&self) -> FoundModel {
        FoundModel { text: self.text@, attribute: string_opt(self.attribute) }
    }
}

/// What a list of elements says.
pub open spec fn found_model(found: Seq<Found>) -> Seq<FoundModel> {
    found.map_values(|f: Found| f@)
}

/// The elements of one table row that a line is read from, each the first of
/// its kind in the row.
#[derive(Debug, Clone)]
pub struct RowCells {
    pub rank: Option<Found>,
    pub movement: Option<Found>,
    /// The link to the player's profile; its attribute is where it leads.
    pub player: Option<Found>,
    pub country: Option<Found>,
    pub points: Option<Found>,
    pub tournament: Option<Found>,
    /// The link to the event the player is in.
    pub event: Option<Found>,
    pub round: Option<Found>,
    /// Why the player is in no event.
    pub idle: Option<Found>,
    pub next: Option<Found>,
    pub max: Option<Found>,
}

/// What `RowCells` say.
pub struct CellsModel {
    pub rank: Option<FoundModel>,
    pub movement: Option<FoundModel>,
    pub player: Option<FoundModel>,
    pub country: Option<FoundModel>,
    pub points: Option<FoundModel>,
    pub tournament: Option<FoundModel>,
    pub event: Option<FoundModel>,
    pub round: Option<FoundModel>,
    pub idle: Option<FoundModel>,
    pub next: Option<FoundModel>,
    pub max: Option<FoundModel>,
}

/// What an optional element says.
pub open spec fn found_opt(found: Option<Found>) -> Option<FoundModel> {
    match found {
        Some(f) => Some(f@),
        None => None,
    }
}

impl View for RowCells {
    type V = CellsModel;

    open spec fn view(&self) -> CellsModel {
        CellsModel {
            rank: found_opt(self.rank),
            movement: found_opt(self.movement),
            player: found_opt(self.player),
            country: found_opt(self.country),
            points: found_opt(self.points),
            tournament: found_opt(self.tournament),
            event: found_opt(self.event),
            round: found_opt(self.round),
            idle: found_opt(self.idle),
            next: found_opt(self.next),
            max: found_opt(self.max),
        }
    }
}

/// What the cells of the rows say.
pub open spec fn cells_model(rows: Seq<RowCells>) -> Seq<CellsModel> {
    rows.map_values(|r: RowCells| r@)
}

/// The text of an element, trimmed.
pub open spec fn text_in(found: Option<FoundModel>) -> Option<Seq<char>> {
    match found {
        Some(f) => Some(trimmed(f.text)),
        None => None,
    }
}

/// A text, or the empty one.
pub open spec fn or_empty(text: Option<Seq<char>>) -> Seq<char> {
    match text {
        Some(t) => t,
        None => seq![],
    }
}

pub fn cell_text(found: &Option<Found>) -> (r: Option<Vec<char>>)
    ensures
        chars_opt(r) == text_in(found_opt(*found)),
{
    match found {
        Some(f) => {
            let text = chars_of(f.text.as_str());
            Some(slice_to_vec(trim(text.as_slice())))
        },
        None => None,
    }
}

fn text_or_empty(found: &Option<Found>) -> (r: String)
    ensures
        r@ == or_empty(text_in(found_opt(*found))),
{
    match cell_text(found) {
        Some(t) => string_of(t.as_slice()),
        None => String::new(),
    }
}

/// The rank that a row states.
pub open spec fn rank_of(cells: CellsModel) -> Result<u32, RowErrorModel> {
    match text_in(cells.rank) {
        None => Err(RowErrorModel::RankMissing),
        Some(t) => match unsigned(t, u32::MAX as nat) {
            None => Err(RowErrorModel::BadRank),
            Some(n) => Ok(n as u32),
        },
    }
}

/// The name and the code of the player that a row links to.
pub open spec fn player_of(cells: CellsModel) -> Result<(Seq<char>, Seq<char>), RowErrorModel> {
    match cells.player {
        None => Err(RowErrorModel::PlayerLinkMissing),
        Some(link) => if trimmed(link.text).len() == 0 {
            Err(RowErrorModel::NameEmpty)
        } else {
            match link.attribute {
                None => Err(RowErrorModel::NoHref),
                Some(href) => match code_in(href) {
                    Err(cause) => Err(RowErrorModel::BadHref { href, cause }),
                    Ok(code) => Ok((trimmed(link.text), code)),
                },
            }
        },
    }
}

/// The points that a row states.
pub open spec fn live_points_of(cells: CellsModel) -> Result<u32, RowErrorModel> {
    match text_in(cells.points) {
        None => Err(RowErrorModel::PointsMissing),
        Some(t) => match points_of(t) {
            None => Err(RowErrorModel::BadPoints { text: t }),
            Some(n) => Ok(n as u32),
        },
    }
}

/// The event that a row links to.
pub open spec fn event_of(cells: CellsModel) -> Option<EventModel> {
    match text_in(cells.event) {
        Some(name) => Some(EventModel { name, round: or_empty(text_in(cells.round)) }),
        None => None,
    }
}

/// Why a row that links to no event has none.
pub open spec fn idle_reason(cells: CellsModel) -> Seq<char> {
    let shown = match text_in(cells.idle) {
        Some(t) => Some(t),
        None => text_in(cells.tournament),
    };
    match shown {
        Some(t) => if is_blank(t) {
            "not playing this week"@
        } else {
            t
        },
        None => "not playing this week"@,
    }
}

/// Why a row has no points to come: it links to no event, and does not display
/// both numbers all the same.
pub open spec fn reason_of(cells: CellsModel, next: Option<u32>, max: Option<u32>) -> Option<
    Seq<char>,
> {
    if event_of(cells) is Some || (next is Some && max is Some) {
        None
    } else {
        Some(idle_reason(cells))
    }
}

/// The line in a row, or the first thing wrong with it.
pub open spec fn line_of(cells: CellsModel) -> Result<LiveRowModel, RowErrorModel> {
    match rank_of(cells) {
        Err(e) => Err(e),
        Ok(rank) => match player_of(cells) {
            Err(e) => Err(e),
            Ok((player_name, player_code)) => match live_points_of(cells) {
                Err(e) => Err(e),
                Ok(live_points) => match optional_points(text_in(cells.next)) {
                    Err(e) => Err(e),
                    Ok(next_points) => match optional_points(text_in(cells.max)) {
                        Err(e) => Err(e),
                        Ok(max_this_week) => Ok(
                            LiveRowModel {
                                rank,
                                movement: movement_of(text_in(cells.movement)),
                                player_code,
                                player_name,
                                country: or_empty(text_in(cells.country)),
                                live_points,
                                event: event_of(cells),
                                next_points,
                                max_this_week,
                                unavailable_reason: reason_of(cells, next_points, max_this_week),
                            },
                        ),
                    },
                },
            },
        },
    }
}

fn read_rank(cells: &RowCells) -> (r: Result<u32, RowError>)
    ensures
        match r {
            Ok(n) => rank_of(cells@) == Ok::<u32, RowErrorModel>(n),
            Err(e) => rank_of(cells@) == Err::<u32, RowErrorModel>(e@),
        },
{
    match cell_text(&cells.rank) {
        None => Err(RowError::RankMissing),
        Some(t) => match parse_u32(t.as_slice()) {
            None => Err(RowError::BadRank),
            Some(n) => Ok(n),
        },
    }
}

fn read_player(cells: &RowCells) -> (r: Result<(String, String), RowError>)
    ensures
        match r {
            Ok((name, code)) => player_of(cells@) == Ok::<(Seq<char>, Seq<char>), RowErrorModel>(
                (name@, code@),
            ),
            Err(e) => player_of(cells@) == Err::<(Seq<char>, Seq<char>), RowErrorModel>(e@),
        },
{
    match &cells.player {
        None => Err(RowError::PlayerLinkMissing),
        Some(link) => {
            let text = chars_of(link.text.as_str());
            let name = trim(text.as_slice());
            if name.len() == 0 {
                return Err(RowError::NameEmpty);
            }
            match &link.attribute {
                None => Err(RowError::NoHref),
                Some(href) => match player_code_from_href(href.as_str()) {
                    Err(cause) => Err(RowError::BadHref { href: href.clone(), cause }),
                    Ok(code) => Ok((string_of(name), code)),
                },
            }
        },
    }
}

fn read_points(cells: &RowCells) -> (r: Result<u32, RowError>)
    ensures
        match r {
            Ok(n) => live_points_of(cells@) == Ok::<u32, RowErrorModel>(n),
            Err(e) => live_points_of(cells@) == Err::<u32, RowErrorModel>(e@),
        },
{
    match cell_text(&cells.points) {
        None => Err(RowError::PointsMissing),
        Some(t) => parse_points(t.as_slice()),
    }
}

fn read_reason(cells: &RowCells) -> (r: String)
    ensures
        r@ == idle_reason(cells@),
{
    let shown = match cell_text(&cells.idle) {
        Some(t) => Some(t),
        None => cell_text(&cells.tournament),
    };
    match shown {
        Some(t) => if blank(t.as_slice()) {
            "not playing this week".to_string()
        } else {
            string_of(t.as_slice())
        },
        None => "not playing this week".to_string(),
    }
}

pub fn parse_row(cells: &RowCells) -> (r: Result<LiveRow, RowError>)
    ensures
        match r {
            Ok(row) => line_of(cells@) == Ok::<LiveRowModel, RowErrorModel>(row@),
            Err(e) => line_of(cells@) == Err::<LiveRowModel, RowErrorModel>(e@),
        },
{
    let rank = match read_rank(cells) {
        Ok(n) => n,
        Err(e) => {
            return Err(e);
        },
    };
    let (player_name, player_code) = match read_player(cells) {
        Ok(p) => p,
        Err(e) => {
            return Err(e);
        },
    };
    let live_points = match read_points(cells) {
        Ok(n) => n,
        Err(e) => {
            return Err(e);
        },
    };
    let event = match cell_text(&cells.event) {
        Some(name) => Some(
            EventState { name: string_of(name.as_slice()), round: text_or_empty(&cells.round) },
        ),
        None => None,
    };
    let next_points = match parse_optional_points(&cell_text(&cells.next)) {
        Ok(n) => n,
        Err(e) => {
            return Err(e);
        },
    };
    let max_this_week = match parse_optional_points(&cell_text(&cells.max)) {
        Ok(n) => n,
        Err(e) => {
            return Err(e);
        },
    };
    let unavailable_reason = if event.is_some() || (next_points.is_some()
        && max_this_week.is_some()) {
        None
    } else {
        Some(read_reason(cells))
    };
    Ok(
        LiveRow {
            rank,
            movement: parse_movement(&cell_text(&cells.movement)),
            player_code,
            player_name,
            country: text_or_empty(&cells.country),
            live_points,
            event,
            next_points,
            max_this_week,
            unavailable_reason,
        },
    )
}

/// The lines in the rows, or the first row that is none.
pub open spec fn lines_in(rows: Seq<CellsModel>) -> Result<Seq<LiveRowModel>, LiveErrorModel>
    decreases rows.len(),
{
    if rows.len() == 0 {
        Ok(seq![])
    } else {
        match lines_in(rows.drop_last()) {
            Err(e) => Err(e),
            Ok(lines) => match line_of(rows.last()) {
                Ok(line) => Ok(lines.push(line)),
                Err(cause) => Err(LiveErrorModel::Row { number: rows.len(), cause }),
            },
        }
    }
}

/// A failure among the first rows is the failure of all of them.
proof fn first_bad_row_stands(rows: Seq<CellsModel>, n: int)
    requires
        0 <= n <= rows.len(),
        lines_in(rows.take(n)) is Err,
    ensures
        lines_in(rows) == lines_in(rows.take(n)),
    decreases rows.len(),
{
    if n == rows.len() {
        assert(rows.take(n) =~= rows);
    } else {
        assert(rows.drop_last().take(n) =~= rows.take(n));
        first_bad_row_stands(rows.drop_last(), n);
    }
}

pub fn parse_rows(cells: &Vec<RowCells>) -> (r: Result<Vec<LiveRow>, LiveError>)
    ensures
        match r {
            Ok(rows) => lines_in(cells_model(cells@)) == Ok::<Seq<LiveRowModel>, LiveErrorModel>(
                live_rows_model(rows@),
            ),
            Err(e) => lines_in(cells_model(cells@)) == Err::<Seq<LiveRowModel>, LiveErrorModel>(
                e@,
            ),
        },
{
    let ghost all = cells_model(cells@);
    let mut rows: Vec<LiveRow> = Vec::new();
    let end: usize = cells.len();
    let mut i: usize = 0;
    assert(live_rows_model(rows@) =~= seq![]);
    while i < end
        invariant
            i <= end,
            end == cells@.len(),
            all == cells_model(cells@),
            lines_in(all.take(i as int)) == Ok::<Seq<LiveRowModel>, LiveErrorModel>(
                live_rows_model(rows@),
            ),
        decreases end - i,
    {
        let ghost taken = all.take(i + 1);
        assert(taken.drop_last() =~= all.take(i as int));
        assert(taken.last() == cells@[i as int]@);
        match parse_row(&cells[i]) {
            Ok(row) => {
                let ghost done = rows@;
                rows.push(row);
                assert(live_rows_model(rows@) =~= live_rows_model(done).push(row@));
            },
            Err(cause) => {
                proof {
                    first_bad_row_stands(all, i + 1);
                }
                return Err(LiveError::Row { number: i + 1, cause });
            },
        }
        i += 1;
    }
    assert(all.take(i as int) =~= all);
    Ok(rows)
}

// ---------------------------------------------------------------------------
// Validation
// ---------------------------------------------------------------------------

/// A row of the list carries the code.
pub open spec fn lists_code(rows: Seq<LiveRowModel>, code: Seq<char>) -> bool {
    exists|i: int| 0 <= i < rows.len() && (#[trigger] rows[i]).player_code == code
}

/// A table too short to be the race.
pub open spec fn live_shortfall(rows: Seq<LiveRowModel>) -> Seq<LiveProblemModel> {
    if rows.len() < MIN_ROWS {
        seq![LiveProblemModel::RowCount { rows: rows.len() }]
    } else {
        seq![]
    }
}

/// The first row from `i` on whose rank is not its position.
pub open spec fn live_gap_from(rows: Seq<LiveRowModel>, i: int) -> Seq<LiveProblemModel>
    decreases rows.len() - i,
{
    if i >= rows.len() {
        seq![]
    } else if rows[i].rank != (i + 1) as u32 {
        seq![
            LiveProblemModel::RankGap {
                position: (i + 1) as nat,
                expected: (i + 1) as u32,
                got: rows[i].rank,
            },
        ]
    } else {
        live_gap_from(rows, i + 1)
    }
}

/// Each row whose player an earlier row has.
pub open spec fn live_duplicates(rows: Seq<LiveRowModel>) -> Seq<LiveProblemModel>
    decreases rows.len(),
{
    if rows.len() == 0 {
        seq![]
    } else if lists_code(rows.drop_last(), rows.last().player_code) {
        live_duplicates(rows.drop_last()).push(
            LiveProblemModel::DuplicateCode { code: rows.last().player_code },
        )
    } else {
        live_duplicates(rows.drop_last())
    }
}

/// Each row with more points than the row above it.
pub open spec fn live_rises(rows: Seq<LiveRowModel>) -> Seq<LiveProblemModel>
    decreases rows.len(),
{
    if rows.len() < 2 {
        seq![]
    } else {
        let above = rows[rows.len() - 2];
        if rows.last().live_points > above.live_points {
            live_rises(rows.drop_last()).push(
                LiveProblemModel::PointsRise {
                    rank: rows.last().rank,
                    points: rows.last().live_points,
                    above: above.live_points,
                },
            )
        } else {
            live_rises(rows.drop_last())
        }
    }
}

/// What a row projects against its own order: less after the next match than
/// now, or less at most than after the next match.
pub open spec fn projection_problems(row: LiveRowModel) -> Seq<LiveProblemModel> {
    match row.next_points {
        None => seq![],
        Some(next) => {
            let low_next = if next < row.live_points {
                seq![
                    LiveProblemModel::NextBelowLive {
                        code: row.player_code,
                        next,
                        live: row.live_points,
                    },
                ]
            } else {
                seq![]
            };
            match row.max_this_week {
                None => low_next,
                Some(max) => if max < next {
                    low_next.push(
                        LiveProblemModel::MaxBelowNext { code: row.player_code, max, next },
                    )
                } else {
                    low_next
                },
            }
        },
    }
}

/// What the rows project against their own order.
pub open spec fn projections(rows: Seq<LiveRowModel>) -> Seq<LiveProblemModel>
    decreases rows.len(),
{
    if rows.len() == 0 {
        seq![]
    } else {
        projections(rows.drop_last()) + projection_problems(rows.last())
    }
}

/// Everything wrong with a candidate, in the order in which it is reported.
pub open spec fn live_problems(rows: Seq<LiveRowModel>) -> Seq<LiveProblemModel> {
    live_shortfall(rows) + live_gap_from(rows, 0) + live_duplicates(rows) + live_rises(rows)
        + projections(rows)
}

fn report_gap(rows: &Vec<LiveRow>, problems: &mut Vec<LiveProblem>)
    ensures
        live_problems_model(final(problems)@) == live_problems_model(old(problems)@)
            + live_gap_from(live_rows_model(rows@), 0),
{
    let ghost all = live_rows_model(rows@);
    let ghost start = problems@;
    let end: usize = rows.len();
    let mut i: usize = 0;
    while i < end
        invariant
            i <= end,
            end == rows@.len(),
            all == live_rows_model(rows@),
            problems@ == start,
            start == old(problems)@,
            live_gap_from(all, 0) == live_gap_from(all, i as int),
        decreases end - i,
    {
        let expected: u32 = #[verifier::truncate]
        ((i + 1) as u32);
        assert(all[i as int] == rows@[i as int]@);
        if rows[i].rank != expected {
            problems.push(LiveProblem::RankGap { position: i + 1, expected, got: rows[i].rank });
            assert(live_problems_model(problems@) =~= live_problems_model(start) + live_gap_from(
                all,
                0,
            ));
            return;
        }
        i += 1;
    }
    assert(live_problems_model(problems@) =~= live_problems_model(start) + live_gap_from(all, 0));
}

fn report_repeats(rows: &Vec<LiveRow>, problems: &mut Vec<LiveProblem>)
    ensures
        live_problems_model(final(problems)@) == live_problems_model(old(problems)@)
            + live_duplicates(live_rows_model(rows@)),
{
    let ghost all = live_rows_model(rows@);
    let ghost start = live_problems_model(problems@);
    let mut codes = StringHashSet::new();
    let mut i: usize = 0;
    assert(live_problems_model(problems@) =~= start + live_duplicates(all.take(0)));
    while i < rows.len()
        invariant
            i <= rows@.len(),
            all == live_rows_model(rows@),
            live_problems_model(problems@) == start + live_duplicates(all.take(i as int)),
            forall|code: Seq<char>| codes@.contains(code) == lists_code(all.take(i as int), code),
        decreases rows@.len() - i,
    {
        let ghost done = problems@;
        let ghost before = all.take(i as int);
        let ghost taken = all.take(i + 1);
        assert(taken.drop_last() =~= before);
        assert(taken.last() == rows@[i as int]@);
        let fresh = codes.insert(rows[i].player_code.clone());
        if !fresh {
            problems.push(LiveProblem::DuplicateCode { code: rows[i].player_code.clone() });
            assert(live_problems_model(problems@) =~= live_problems_model(done).push(
                problems@.last()@,
            ));
        }
        assert(live_problems_model(problems@) =~= start + live_duplicates(taken));
        assert forall|code: Seq<char>| codes@.contains(code) == lists_code(taken, code) by {
            if lists_code(before, code) {
                let k = choose|k: int|
                    0 <= k < before.len() && (#[trigger] before[k]).player_code == code;
                assert(taken[k].player_code == code);
            }
            assert(taken[i as int].player_code == rows@[i as int].player_code@);
            if lists_code(taken, code) {
                let k = choose|k: int|
                    0 <= k < taken.len() && (#[trigger] taken[k]).player_code == code;
                if k < i {
                    assert(before[k].player_code == code);
                }
            }
        }
        i += 1;
    }
    assert(all.take(i as int) =~= all);
}

fn report_live_rises(rows: &Vec<LiveRow>, problems: &mut Vec<LiveProblem>)
    ensures
        live_problems_model(final(problems)@) == live_problems_model(old(problems)@) + live_rises(
            live_rows_model(rows@),
        ),
{
    let ghost all = live_rows_model(rows@);
    let ghost start = live_problems_model(problems@);
    assert(live_problems_model(problems@) =~= start + live_rises(all.take(0)));
    if rows.len() == 0 {
        assert(all.take(0) =~= all);
        return;
    }
    let mut i: usize = 1;
    assert(live_problems_model(problems@) =~= start + live_rises(all.take(1)));
    while i < rows.len()
        invariant
            1 <= i <= rows@.len(),
            all == live_rows_model(rows@),
            live_problems_model(problems@) == start + live_rises(all.take(i as int)),
        decreases rows@.len() - i,
    {
        let ghost done = problems@;
        let ghost taken = all.take(i + 1);
        assert(taken.drop_last() =~= all.take(i as int));
        assert(taken.last() == rows@[i as int]@ && taken[i - 1] == rows@[i - 1]@);
        if rows[i].live_points > rows[i - 1].live_points {
            problems.push(
                LiveProblem::PointsRise {
                    rank: rows[i].rank,
                    points: rows[i].live_points,
                    above: rows[i - 1].live_points,
                },
            );
            assert(live_problems_model(problems@) =~= live_problems_model(done).push(
                problems@.last()@,
            ));
        }
        assert(live_problems_model(problems@) =~= start + live_rises(taken));
        i += 1;
    }
    assert(all.take(i as int) =~= all);
}

fn report_projection(row: &LiveRow, problems: &mut Vec<LiveProblem>)
    ensures
        live_problems_model(final(problems)@) == live_problems_model(old(problems)@)
            + projection_problems(row@),
{
    let ghost start = problems@;
    if let Some(next) = row.next_points {
        if next < row.live_points {
            problems.push(
                LiveProblem::NextBelowLive {
                    code: row.player_code.clone(),
                    next,
                    live: row.live_points,
                },
            );
        }
        if let Some(max) = row.max_this_week {
            if max < next {
                problems.push(
                    LiveProblem::MaxBelowNext { code: row.player_code.clone(), max, next },
                );
            }
        }
    }
    assert(live_problems_model(problems@) =~= live_problems_model(start) + projection_problems(
        row@,
    ));
}

fn report_projections(rows: &Vec<LiveRow>, problems: &mut Vec<LiveProblem>)
    ensures
        live_problems_model(final(problems)@) == live_problems_model(old(problems)@) + projections(
            live_rows_model(rows@),
        ),
{
    let ghost all = live_rows_model(rows@);
    let ghost start = live_problems_model(problems@);
    let mut i: usize = 0;
    assert(live_problems_model(problems@) =~= start + projections(all.take(0)));
    while i < rows.len()
        invariant
            i <= rows@.len(),
            all == live_rows_model(rows@),
            live_problems_model(problems@) == start + projections(all.take(i as int)),
        decreases rows@.len() - i,
    {
        let ghost taken = all.take(i + 1);
        assert(taken.drop_last() =~= all.take(i as int));
        assert(taken.last() == rows@[i as int]@);
        report_projection(&rows[i], problems);
        assert(live_problems_model(problems@) =~= start + projections(taken));
        i += 1;
    }
    assert(all.take(i as int) =~= all);
}

/// Structural invariants; violations quarantine the candidate.
pub fn validate(snapshot: &LiveSnapshot) -> (r: Result<(), LiveError>)
    ensures
        match r {
            Ok(_) => live_problems(snapshot@.rows).len() == 0,
            Err(e) => live_problems(snapshot@.rows).len() > 0 && e@ == (LiveErrorModel::Rejected {
                problems: live_problems(snapshot@.rows),
            }),
        },
{
    let rows = &snapshot.rows;
    let mut problems: Vec<LiveProblem> = Vec::new();
    if rows.len() < MIN_ROWS {
        problems.push(LiveProblem::RowCount { rows: rows.len() });
    }
    assert(live_problems_model(problems@) =~= live_shortfall(snapshot@.rows));
    report_gap(rows, &mut problems);
    report_repeats(rows, &mut problems);
    report_live_rises(rows, &mut problems);
    report_projections(rows, &mut problems);
    assert(live_problems_model(problems@).len() == problems@.len());
    if problems.len() == 0 {
        Ok(())
    } else {
        Err(LiveError::Rejected { problems })
    }
}

/// What the live race promises: enough rows, ranked by their positions, each
/// player once, points falling or level from row to row, and projections that
/// only add to the points a player has.
pub open spec fn live_sound(rows: Seq<LiveRowModel>) -> bool {
    &&& rows.len() >= MIN_ROWS
    &&& forall|i: int| 0 <= i < rows.len() ==> (#[trigger] rows[i]).rank == (i + 1) as u32
    &&& forall|i: int, j: int|
        0 <= i < j < rows.len() ==> (#[trigger] rows[i]).player_code != (
        #[trigger] rows[j]).player_code
    &&& forall|i: int, j: int|
        0 <= i <= j < rows.len() ==> (#[trigger] rows[i]).live_points >= (
        #[trigger] rows[j]).live_points
    &&& forall|i: int| 0 <= i < rows.len() ==> projects_upwards(#[trigger] rows[i])
}

/// Points after the next match are at least those now, and points at most are
/// at least those after the next match.
pub open spec fn projects_upwards(row: LiveRowModel) -> bool {
    row.next_points matches Some(next) ==> {
        &&& next >= row.live_points
        &&& row.max_this_week matches Some(max) ==> max >= next
    }
}

proof fn no_live_gap(rows: Seq<LiveRowModel>, i: int)
    requires
        0 <= i,
    ensures
        live_gap_from(rows, i).len() == 0 <==> forall|k: int|
            i <= k < rows.len() ==> (#[trigger] rows[k]).rank == (k + 1) as u32,
    decreases rows.len() - i,
{
    if i < rows.len() {
        no_live_gap(rows, i + 1);
        if rows[i].rank == (i + 1) as u32 {
            assert(live_gap_from(rows, i) == live_gap_from(rows, i + 1));
        }
    }
}

proof fn no_live_repeats(rows: Seq<LiveRowModel>)
    ensures
        live_duplicates(rows).len() == 0 <==> forall|i: int, j: int|
            0 <= i < j < rows.len() ==> (#[trigger] rows[i]).player_code != (
            #[trigger] rows[j]).player_code,
    decreases rows.len(),
{
    if rows.len() > 0 {
        let front = rows.drop_last();
        let n = rows.len() as int;
        no_live_repeats(front);
        if forall|i: int, j: int|
            0 <= i < j < rows.len() ==> (#[trigger] rows[i]).player_code != (
            #[trigger] rows[j]).player_code {
            assert forall|i: int, j: int| 0 <= i < j < front.len() implies (
            #[trigger] front[i]).player_code != (#[trigger] front[j]).player_code by {
                assert(rows[i].player_code != rows[j].player_code);
            }
            if lists_code(front, rows.last().player_code) {
                let k = choose|k: int|
                    0 <= k < front.len() && (#[trigger] front[k]).player_code
                        == rows.last().player_code;
                assert(rows[k].player_code == rows[n - 1].player_code);
            }
        }
        if live_duplicates(rows).len() == 0 {
            assert forall|i: int, j: int| 0 <= i < j < rows.len() implies (
            #[trigger] rows[i]).player_code != (#[trigger] rows[j]).player_code by {
                assert(front[i] == rows[i]);
                if j < front.len() {
                    assert(front[j] == rows[j]);
                }
            }
        }
    }
}

proof fn no_live_rises(rows: Seq<LiveRowModel>)
    ensures
        live_rises(rows).len() == 0 <==> forall|i: int, j: int|
            0 <= i <= j < rows.len() ==> (#[trigger] rows[i]).live_points >= (
            #[trigger] rows[j]).live_points,
    decreases rows.len(),
{
    if rows.len() >= 2 {
        let front = rows.drop_last();
        let n = rows.len() as int;
        no_live_rises(front);
        if live_rises(rows).len() == 0 {
            assert forall|i: int, j: int| 0 <= i <= j < rows.len() implies (
            #[trigger] rows[i]).live_points >= (#[trigger] rows[j]).live_points by {
                if i < n - 1 {
                    assert(front[i] == rows[i] && front[n - 2] == rows[n - 2]);
                    assert(front[i].live_points >= front[n - 2].live_points);
                    if j < n - 1 {
                        assert(front[j] == rows[j]);
                    }
                }
            }
        }
        if forall|i: int, j: int|
            0 <= i <= j < rows.len() ==> (#[trigger] rows[i]).live_points >= (
            #[trigger] rows[j]).live_points {
            assert(rows[n - 2].live_points >= rows[n - 1].live_points);
            assert forall|i: int, j: int| 0 <= i <= j < front.len() implies (
            #[trigger] front[i]).live_points >= (#[trigger] front[j]).live_points by {
                assert(rows[i].live_points >= rows[j].live_points);
            }
        }
    }
}

proof fn no_bad_projections(rows: Seq<LiveRowModel>)
    ensures
        projections(rows).len() == 0 <==> forall|i: int|
            0 <= i < rows.len() ==> projects_upwards(#[trigger] rows[i]),
    decreases rows.len(),
{
    if rows.len() > 0 {
        let front = rows.drop_last();
        no_bad_projections(front);
        assert(projection_problems(rows.last()).len() == 0 <==> projects_upwards(rows.last()));
        if projections(rows).len() == 0 {
            assert forall|i: int| 0 <= i < rows.len() implies projects_upwards(
                #[trigger] rows[i],
            ) by {
                if i < front.len() {
                    assert(front[i] == rows[i]);
                }
            }
        } else if forall|i: int| 0 <= i < rows.len() ==> projects_upwards(#[trigger] rows[i]) {
            assert(projects_upwards(rows[rows.len() - 1]));
            assert forall|i: int| 0 <= i < front.len() implies projects_upwards(
                #[trigger] front[i],
            ) by {
                assert(rows[i] == front[i]);
            }
        }
    }
}

/// Validation finds nothing wrong with exactly the candidates that keep every
/// structural invariant.
pub proof fn valid_means_live_sound(rows: Seq<LiveRowModel>)
    ensures
        live_problems(rows).len() == 0 <==> live_sound(rows),
{
    no_live_gap(rows, 0);
    no_live_repeats(rows);
    no_live_rises(rows);
    no_bad_projections(rows);
}

// ---------------------------------------------------------------------------
// The page
// ---------------------------------------------------------------------------

/// The bytes of the largest page that is read. The `tendril` crate beneath
/// `scraper` counts a text in 32 bits and grows it by powers of two, so that no
/// text may pass half of that count; a byte of the page becomes at most three
/// bytes of text, where a NUL is replaced.
pub const MAX_PAGE_BYTES: usize = 0x2000_0000;

/// A page that is not too large to be read.
pub open spec fn page_fits(html: Seq<char>) -> bool {
    encode_utf8(html).len() <= MAX_PAGE_BYTES
}

/// Whether a page is not too large to be read.
pub fn fits(html: &str) -> (r: bool)
    ensures
        r == page_fits(html@),
{
    html.as_bytes().len() <= MAX_PAGE_BYTES
}

/// The elements of a page that a selector matches, in the order in which
/// reading the page made them, each with its text and the attribute asked for,
/// as the `scraper` crate finds them.
pub uninterp spec fn selected(
    html: Seq<char>,
    selector: Seq<char>,
    attribute: Seq<char>,
) -> Seq<FoundModel>;

/// For each element that the selector `row` matches, in the order in which
/// reading the page made them, and for each selector of `wanted`, the first
/// element within it that matches, as the `scraper` crate finds them.
pub uninterp spec fn selected_in_rows(
    html: Seq<char>,
    row: Seq<char>,
    wanted: Seq<Seq<char>>,
    attribute: Seq<char>,
) -> Seq<Seq<Option<FoundModel>>>;

/// A text in lower case, as `str::to_lowercase` gives it.
pub uninterp spec fn unicode_lowercase(s: Seq<char>) -> Seq<char>;

/// The selector of a table row.
pub open spec fn row_selector() -> Seq<char> {
    "table.race-table tbody tr.race-row"@
}

/// The selectors of what is read from a row, in the order of `RowCells`.
pub open spec fn cell_selectors() -> Seq<Seq<char>> {
    seq![
        "td.rank"@,
        "td.move"@,
        "td.player a"@,
        "td.player .country"@,
        "td.points"@,
        "td.tournament"@,
        "td.tournament a"@,
        "td.tournament .round"@,
        "td.tournament .idle"@,
        "td.next"@,
        "td.max"@,
    ]
}

/// What a list of borrowed strings holds.
pub open spec fn strs(v: Seq<&str>) -> Seq<Seq<char>> {
    v.map_values(|s: &str| s@)
}

/// What optional elements say, list by list.
pub open spec fn found_rows(rows: Seq<Vec<Option<Found>>>) -> Seq<Seq<Option<FoundModel>>> {
    rows.map_values(|r: Vec<Option<Found>>| found_opts(r@))
}

/// What optional elements say.
pub open spec fn found_opts(found: Seq<Option<Found>>) -> Seq<Option<FoundModel>> {
    found.map_values(|f: Option<Found>| found_opt(f))
}

/// `scraper::Html::parse_document`, then `Html::select` with a selector made by
/// `scraper::Selector::parse`: the elements that match, each with the text that
/// `ElementRef::text` joins and the attribute that `Element::attr` gives. The
/// two selectors admitted are ones that `Selector::parse` accepts, and the pages
/// admitted ones that `parse_document` reads without a panic.
#[verifier::external_body]
fn select(html: &str, selector: &str, attribute: &str) -> (r: Vec<Found>)
    requires
        page_fits(html@),
        selector@ == "h1"@ || selector@ == "time#source-as-of"@,
    ensures
        found_model(r@) == selected(html@, selector@, attribute@),
{
    let doc = scraper::Html::parse_document(html);
    let wanted = scraper::Selector::parse(selector).unwrap();
    let found = doc.select(&wanted).map(|e| Found {
        text: e.text().collect(),
        attribute: e.value().attr(attribute).map(String::from),
    });
    found.collect()
}

/// `scraper::Html::parse_document`, `Html::select` for the rows and
/// `ElementRef::select` within each: the first match of each wanted selector,
/// with the text that `ElementRef::text` joins and the attribute that
/// `Element::attr` gives. The selectors admitted are ones that
/// `Selector::parse` accepts, and the pages admitted ones that `parse_document`
/// reads without a panic.
#[verifier::external_body]
fn select_in_rows(html: &str, row: &str, wanted: &Vec<&str>, attribute: &str) -> (r: Vec<
    Vec<Option<Found>>,
>)
    requires
        page_fits(html@),
        row@ == row_selector(),
        strs(wanted@) == cell_selectors(),
    ensures
        found_rows(r@) == selected_in_rows(html@, row@, strs(wanted@), attribute@),
        forall|i: int| 0 <= i < r@.len() ==> (#[trigger] r@[i])@.len() == wanted@.len(),
{
    let doc = scraper::Html::parse_document(html);
    let row = scraper::Selector::parse(row).unwrap();
    let wanted = wanted.iter().map(|w| scraper::Selector::parse(w).unwrap()).collect::<Vec<_>>();
    let found = |e: scraper::ElementRef| Found {
        text: e.text().collect(),
        attribute: e.value().attr(attribute).map(String::from),
    };
    let first = |e: scraper::ElementRef, w| e.select(w).next().map(found);
    let cells = |e: scraper::ElementRef| wanted.iter().map(|w| first(e, w)).collect();
    doc.select(&row).map(cells).collect()
}

/// `str::to_lowercase`: a text in lower case; an ASCII text changes in its
/// letters alone.
#[verifier::external_body]
fn to_lowercase(s: &str) -> (r: String)
    ensures
        r@ == unicode_lowercase(s@),
        (forall|i: int| 0 <= i < s@.len() ==> (#[trigger] s@[i] as u32) < 128) ==> r@ == lowered(
            s@,
        ),
{
    s.to_lowercase()
}

/// The cells of a row, taken in the order of their selectors.
pub open spec fn cells_of(row: Seq<Option<FoundModel>>) -> CellsModel {
    CellsModel {
        rank: row[0],
        movement: row[1],
        player: row[2],
        country: row[3],
        points: row[4],
        tournament: row[5],
        event: row[6],
        round: row[7],
        idle: row[8],
        next: row[9],
        max: row[10],
    }
}

/// The cells of the rows.
pub open spec fn all_cells(rows: Seq<Seq<Option<FoundModel>>>) -> Seq<CellsModel> {
    rows.map_values(|r: Seq<Option<FoundModel>>| cells_of(r))
}

fn copy_found(found: &Option<Found>) -> (r: Option<Found>)
    ensures
        found_opt(r) == found_opt(*found),
{
    match found {
        Some(f) => Some(Found { text: f.text.clone(), attribute: clone_opt(&f.attribute) }),
        None => None,
    }
}

fn name_cells(row: &Vec<Option<Found>>) -> (r: RowCells)
    requires
        row@.len() == 11,
    ensures
        r@ == cells_of(found_opts(row@)),
{
    RowCells {
        rank: copy_found(&row[0]),
        movement: copy_found(&row[1]),
        player: copy_found(&row[2]),
        country: copy_found(&row[3]),
        points: copy_found(&row[4]),
        tournament: copy_found(&row[5]),
        event: copy_found(&row[6]),
        round: copy_found(&row[7]),
        idle: copy_found(&row[8]),
        next: copy_found(&row[9]),
        max: copy_found(&row[10]),
    }
}

/// The rows of a page, each as its cells.
pub open spec fn cells_on(html: Seq<char>) -> Seq<CellsModel> {
    all_cells(selected_in_rows(html, row_selector(), cell_selectors(), "href"@))
}

fn read_cells(html: &str) -> (r: Vec<RowCells>)
    requires
        page_fits(html@),
    ensures
        cells_model(r@) == cells_on(html@),
{
    let wanted: Vec<&str> = vec![
        "td.rank",
        "td.move",
        "td.player a",
        "td.player .country",
        "td.points",
        "td.tournament",
        "td.tournament a",
        "td.tournament .round",
        "td.tournament .idle",
        "td.next",
        "td.max",
    ];
    assert(strs(wanted@) =~= cell_selectors());
    let rows = select_in_rows(html, "table.race-table tbody tr.race-row", &wanted, "href");
    let mut out: Vec<RowCells> = Vec::new();
    let mut i: usize = 0;
    while i < rows.len()
        invariant
            i <= rows@.len(),
            out@.len() == i,
            forall|k: int| 0 <= k < rows@.len() ==> (#[trigger] rows@[k])@.len() == 11,
            forall|k: int|
                0 <= k < i ==> (#[trigger] out@[k])@ == cells_of(found_opts(rows@[k]@)),
        decreases rows@.len() - i,
    {
        out.push(name_cells(&rows[i]));
        i += 1;
    }
    assert(cells_model(out@) =~= all_cells(found_rows(rows@)));
    out
}

/// One of the headings, in lower case, is that of the race.
pub open spec fn race_heading(headings: Seq<Seq<char>>) -> bool {
    exists|i: int| 0 <= i < headings.len() && has(#[trigger] headings[i], "race to turin"@)
}

pub fn heading_found(headings: &Vec<String>) -> (r: bool)
    ensures
        r == race_heading(strings(headings@)),
{
    let ghost all = strings(headings@);
    let mut i: usize = 0;
    while i < headings.len()
        invariant
            i <= headings@.len(),
            all == strings(headings@),
            forall|k: int| 0 <= k < i ==> has(#[trigger] all[k], "race to turin"@) == false,
        decreases headings@.len() - i,
    {
        let text = chars_of(headings[i].as_str());
        assert(all[i as int] == text@);
        if contains(text.as_slice(), "race to turin") {
            return true;
        }
        i += 1;
    }
    false
}

/// The headings of a page, in lower case.
pub open spec fn headings_on(html: Seq<char>) -> Seq<Seq<char>> {
    selected(html, "h1"@, ""@).map_values(|f: FoundModel| unicode_lowercase(f.text))
}

fn read_headings(html: &str) -> (r: Vec<String>)
    requires
        page_fits(html@),
    ensures
        strings(r@) == headings_on(html@),
{
    let found = select(html, "h1", "");
    let mut out: Vec<String> = Vec::new();
    let mut i: usize = 0;
    while i < found.len()
        invariant
            i <= found@.len(),
            out@.len() == i,
            forall|k: int|
                0 <= k < i ==> (#[trigger] out@[k])@ == unicode_lowercase(found@[k].text@),
        decreases found@.len() - i,
    {
        out.push(to_lowercase(found[i].text.as_str()));
        i += 1;
    }
    assert(strings(out@) =~= found_model(found@).map_values(
        |f: FoundModel| unicode_lowercase(f.text),
    ));
    out
}

/// The machine-readable moment of the first element, if it has one.
pub open spec fn stamp_text(stamps: Seq<FoundModel>) -> Option<Seq<char>> {
    if stamps.len() == 0 {
        None
    } else {
        stamps[0].attribute
    }
}

/// What a page states of its own age: nothing, something that is no moment, or
/// a moment.
#[derive(Debug, Clone, Copy)]
pub enum Stamp {
    Missing,
    Unreadable,
    At(Timestamp),
}

/// What a text says as a stamp.
pub open spec fn stamp_of(text: Option<Seq<char>>) -> Stamp {
    match text {
        None => Stamp::Missing,
        Some(t) => match rfc3339_read(t) {
            None => Stamp::Unreadable,
            Some(at) => Stamp::At(at),
        },
    }
}

/// The stamp of a page.
pub open spec fn stamp_on(html: Seq<char>) -> Stamp {
    stamp_of(stamp_text(selected(html, "time#source-as-of"@, "datetime"@)))
}

fn read_stamp(html: &str) -> (r: Stamp)
    requires
        page_fits(html@),
    ensures
        r == stamp_on(html@),
{
    let stamps = select(html, "time#source-as-of", "datetime");
    assert(found_model(stamps@).len() == stamps@.len());
    if stamps.len() == 0 {
        return Stamp::Missing;
    }
    assert(found_model(stamps@)[0] == stamps@[0]@);
    match &stamps[0].attribute {
        None => Stamp::Missing,
        Some(t) => match parse_rfc3339(t.as_str()) {
            None => Stamp::Unreadable,
            Some(at) => Stamp::At(at),
        },
    }
}

/// What the parts of a page give: a snapshot, or the first reason against one.
pub open spec fn judged(
    headings: Seq<Seq<char>>,
    stamp: Stamp,
    cells: Seq<CellsModel>,
    label: Seq<char>,
    now: Timestamp,
) -> Result<LiveSnapshotModel, LiveErrorModel> {
    if !race_heading(headings) {
        Err(LiveErrorModel::NoHeading)
    } else {
        match stamp {
            Stamp::Missing => Err(LiveErrorModel::NoTimestamp),
            Stamp::Unreadable => Err(LiveErrorModel::BadTimestamp),
            Stamp::At(source_as_of) => match lines_in(cells) {
                Err(e) => Err(e),
                Ok(rows) => if live_problems(rows).len() > 0 {
                    Err(LiveErrorModel::Rejected { problems: live_problems(rows) })
                } else {
                    Ok(
                        LiveSnapshotModel {
                            source_as_of,
                            generated_at: now,
                            source: label,
                            parser_version: PARSER_VERSION@,
                            rows,
                        },
                    )
                },
            },
        }
    }
}

/// Turn the parts of a page into a candidate snapshot and validate it.
pub fn judge(
    headings: &Vec<String>,
    stamp: Stamp,
    cells: &Vec<RowCells>,
    source_label: &str,
    now: Timestamp,
) -> (r: Result<LiveSnapshot, LiveError>)
    ensures
        match r {
            Ok(s) => judged(strings(headings@), stamp, cells_model(cells@), source_label@, now)
                == Ok::<LiveSnapshotModel, LiveErrorModel>(s@),
            Err(e) => judged(strings(headings@), stamp, cells_model(cells@), source_label@, now)
                == Err::<LiveSnapshotModel, LiveErrorModel>(e@),
        },
{
    if !heading_found(headings) {
        return Err(LiveError::NoHeading);
    }
    let source_as_of = match stamp {
        Stamp::Missing => {
            return Err(LiveError::NoTimestamp);
        },
        Stamp::Unreadable => {
            return Err(LiveError::BadTimestamp);
        },
        Stamp::At(at) => at,
    };
    let rows = match parse_rows(cells) {
        Ok(rows) => rows,
        Err(e) => {
            return Err(e);
        },
    };
    let snapshot = LiveSnapshot {
        source_as_of,
        generated_at: now,
        source: source_label.to_string(),
        parser_version: PARSER_VERSION.to_string(),
        rows,
    };
    match validate(&snapshot) {
        Ok(_) => Ok(snapshot),
        Err(e) => Err(e),
    }
}

/// What a page gives: a snapshot, or the first reason against one.
pub open spec fn live_snapshot_in(html: Seq<char>, label: Seq<char>, now: Timestamp) -> Result<
    LiveSnapshotModel,
    LiveErrorModel,
> {
    judged(headings_on(html), stamp_on(html), cells_on(html), label, now)
}

/// Parse a race page read at the moment `now` into a candidate snapshot and
/// validate it. A candidate that fails validation is rejected wholesale — a
/// bad parse must never replace the last verified snapshot.
pub fn parse_at(html: &str, source_label: &str, now: Timestamp) -> (r: Result<
    LiveSnapshot,
    LiveError,
>)
    requires
        page_fits(html@),
    ensures
        match r {
            Ok(s) => live_snapshot_in(html@, source_label@, now) == Ok::<
                LiveSnapshotModel,
                LiveErrorModel,
            >(s@),
            Err(e) => live_snapshot_in(html@, source_label@, now) == Err::<
                LiveSnapshotModel,
                LiveErrorModel,
            >(e@),
        },
{
    judge(&read_headings(html), read_stamp(html), &read_cells(html), source_label, now)
}

/// Parse a race page into a validated snapshot, published now.
pub fn parse(html: &str, source_label: &str) -> (r: Result<LiveSnapshot, LiveError>)
    requires
        page_fits(html@),
    ensures
        match r {
            Ok(s) => {
                &&& s.generated_at.valid()
                &&& s.generated_at.offset_seconds == 0
                &&& live_snapshot_in(html@, source_label@, s.generated_at) == Ok::<
                    LiveSnapshotModel,
                    LiveErrorModel,
                >(s@)
            },
            Err(e) => forall|now: Timestamp|
                #[trigger] live_snapshot_in(html@, source_label@, now) == Err::<
                    LiveSnapshotModel,
                    LiveErrorModel,
                >(e@),
        },
{
    parse_at(html, source_label, now_utc())
}

/// What holds of a line: a name, a code of lower-case letters and digits, and a
/// reason exactly when there is no event and not both projections.
pub open spec fn honest_line(row: LiveRowModel) -> bool {
    &&& row.player_name.len() > 0
    &&& forall|i: int|
        0 <= i < row.player_code.len() ==> is_lower(#[trigger] row.player_code[i]) || is_digit(
            row.player_code[i],
        )
    &&& row.unavailable_reason is None <==> (row.event is Some || (row.next_points is Some
        && row.max_this_week is Some))
}

proof fn lines_are_honest(rows: Seq<CellsModel>)
    ensures
        match lines_in(rows) {
            Ok(lines) => forall|i: int| 0 <= i < lines.len() ==> honest_line(#[trigger] lines[i]),
            Err(_) => true,
        },
    decreases rows.len(),
{
    if rows.len() > 0 {
        lines_are_honest(rows.drop_last());
        if let Ok(lines) = lines_in(rows) {
            let front = lines_in(rows.drop_last())->Ok_0;
            let line = line_of(rows.last())->Ok_0;
            assert(honest_line(line));
            assert forall|i: int| 0 <= i < lines.len() implies honest_line(#[trigger] lines[i]) by {
                if i < front.len() {
                    assert(lines[i] == front[i]);
                }
            }
        }
    }
}

/// A page that parses gives a sound table, and each of its lines names a player
/// by a code of lower-case letters and digits and explains what it does not
/// project.
pub proof fn a_parsed_page_is_trustworthy(
    headings: Seq<Seq<char>>,
    stamp: Stamp,
    cells: Seq<CellsModel>,
    label: Seq<char>,
    now: Timestamp,
)
    ensures
        judged(headings, stamp, cells, label, now) matches Ok(s) ==> {
            &&& race_heading(headings)
            &&& stamp == Stamp::At(s.source_as_of)
            &&& live_sound(s.rows)
            &&& s.rows.len() == cells.len()
            &&& forall|i: int| 0 <= i < s.rows.len() ==> honest_line(#[trigger] s.rows[i])
        },
{
    if let Ok(s) = judged(headings, stamp, cells, label, now) {
        valid_means_live_sound(s.rows);
        lines_are_honest(cells);
        every_row_is_read(cells);
    }
}

/// A candidate is accepted or rejected as a whole: a page gives a snapshot
/// exactly when it has the heading and a readable timestamp, every row of its
/// table is a line, and the lines keep every structural invariant.
pub proof fn rejection_is_wholesale(
    headings: Seq<Seq<char>>,
    stamp: Stamp,
    cells: Seq<CellsModel>,
    label: Seq<char>,
    now: Timestamp,
)
    ensures
        judged(headings, stamp, cells, label, now) is Ok <==> {
            &&& race_heading(headings)
            &&& stamp is At
            &&& lines_in(cells) matches Ok(rows) && live_sound(rows)
        },
{
    if let Ok(rows) = lines_in(cells) {
        valid_means_live_sound(rows);
    }
}

proof fn every_row_is_read(rows: Seq<CellsModel>)
    ensures
        lines_in(rows) matches Ok(lines) ==> lines.len() == rows.len(),
    decreases rows.len(),
{
    if rows.len() > 0 {
        every_row_is_read(rows.drop_last());
    }
}

// ---------------------------------------------------------------------------
// Messages
// ---------------------------------------------------------------------------

/// How a row's error is worded.
pub open spec fn row_error_text(e: RowErrorModel) -> Seq<char> {
    match e {
        RowErrorModel::RankMissing => "rank cell missing"@,
        RowErrorModel::BadRank => "cannot parse rank"@,
        RowErrorModel::PlayerLinkMissing => "player link missing"@,
        RowErrorModel::NameEmpty => "player name empty"@,
        RowErrorModel::NoHref => "player link has no href"@,
        RowErrorModel::BadHref { href, cause } => "player href "@ + debug_quoted(href) + (
        match cause {
            HrefErrorModel::NoPlayersSegment => " has no /players/ segment"@,
            HrefErrorModel::NoCodeSegment => " has no code segment"@,
            HrefErrorModel::ImplausibleCode { code } => " has implausible code "@ + debug_quoted(
                code,
            ),
        }),
        RowErrorModel::PointsMissing => "points cell missing"@,
        RowErrorModel::BadPoints { text } => "cannot parse points value "@ + debug_quoted(text),
    }
}

/// How a problem is worded.
pub open spec fn live_problem_text(p: LiveProblemModel) -> Seq<char> {
    match p {
        LiveProblemModel::RowCount { rows } => "implausible row count "@ + decimal(rows),
        LiveProblemModel::RankGap { position, expected, got } => "rank not contiguous at position "@
            + decimal(position) + ": expected "@ + decimal(expected as nat) + ", got "@ + decimal(
            got as nat,
        ),
        LiveProblemModel::DuplicateCode { code } => "duplicate player code "@ + code,
        LiveProblemModel::PointsRise { rank, points, above } =>
        "points not non-increasing at rank "@ + decimal(rank as nat) + ": "@ + decimal(
            points as nat,
        ) + " > "@ + decimal(above as nat),
        LiveProblemModel::NextBelowLive { code, next, live } => code + ": next_points "@ + decimal(
            next as nat,
        ) + " < live_points "@ + decimal(live as nat),
        LiveProblemModel::MaxBelowNext { code, max, next } => code + ": max_this_week "@ + decimal(
            max as nat,
        ) + " < next_points "@ + decimal(next as nat),
    }
}

/// How the problems are worded, each on its own.
pub open spec fn live_problem_texts(problems: Seq<LiveProblemModel>) -> Seq<Seq<char>> {
    problems.map_values(|p: LiveProblemModel| live_problem_text(p))
}

/// How an error is worded.
pub open spec fn live_error_text(e: LiveErrorModel) -> Seq<char> {
    match e {
        LiveErrorModel::NoHeading =>
        "required heading 'Race To Turin' not found; page structure changed or wrong document"@,
        LiveErrorModel::NoTimestamp => "source timestamp (time#source-as-of) missing"@,
        LiveErrorModel::BadTimestamp => "source timestamp is not RFC 3339"@,
        LiveErrorModel::Row { number, cause } => "row "@ + decimal(number) + " failed to parse"@,
        LiveErrorModel::Rejected { problems } => "candidate snapshot rejected: "@ + joined(
            live_problem_texts(problems),
            "; "@,
        ),
    }
}

impl RowError {
    pub fn message(&self) -> (r: String)
        ensures
            r@ == row_error_text(self@),
    {
        match self {
            RowError::RankMissing => "rank cell missing".to_string(),
            RowError::BadRank => "cannot parse rank".to_string(),
            RowError::PlayerLinkMissing => "player link missing".to_string(),
            RowError::NameEmpty => "player name empty".to_string(),
            RowError::NoHref => "player link has no href".to_string(),
            RowError::BadHref { href, cause } => {
                let mut s = "player href ".to_string();
                s.append(debug_text(href.as_str()).as_str());
                match cause {
                    HrefError::NoPlayersSegment => s.append(" has no /players/ segment"),
                    HrefError::NoCodeSegment => s.append(" has no code segment"),
                    HrefError::ImplausibleCode { code } => {
                        let mut why = " has implausible code ".to_string();
                        why.append(debug_text(code.as_str()).as_str());
                        s.append(why.as_str());
                    },
                }
                s
            },
            RowError::PointsMissing => "points cell missing".to_string(),
            RowError::BadPoints { text } => {
                let mut s = "cannot parse points value ".to_string();
                s.append(debug_text(text.as_str()).as_str());
                s
            },
        }
    }
}

impl LiveProblem {
    pub fn message(&self) -> (r: String)
        ensures
            r@ == live_problem_text(self@),
    {
        match self {
            LiveProblem::RowCount { rows } => {
                let mut s = "implausible row count ".to_string();
                append_number(&mut s, *rows as u64);
                s
            },
            LiveProblem::RankGap { position, expected, got } => {
                let mut s = "rank not contiguous at position ".to_string();
                append_number(&mut s, *position as u64);
                s.append(": expected ");
                append_number(&mut s, *expected as u64);
                s.append(", got ");
                append_number(&mut s, *got as u64);
                s
            },
            LiveProblem::DuplicateCode { code } => {
                let mut s = "duplicate player code ".to_string();
                s.append(code.as_str());
                s
            },
            LiveProblem::PointsRise { rank, points, above } => {
                let mut s = "points not non-increasing at rank ".to_string();
                append_number(&mut s, *rank as u64);
                s.append(": ");
                append_number(&mut s, *points as u64);
                s.append(" > ");
                append_number(&mut s, *above as u64);
                s
            },
            LiveProblem::NextBelowLive { code, next, live } => {
                let mut s = code.clone();
                s.append(": next_points ");
                append_number(&mut s, *next as u64);
                s.append(" < live_points ");
                append_number(&mut s, *live as u64);
                s
            },
            LiveProblem::MaxBelowNext { code, max, next } => {
                let mut s = code.clone();
                s.append(": max_this_week ");
                append_number(&mut s, *max as u64);
                s.append(" < next_points ");
                append_number(&mut s, *next as u64);
                s
            },
        }
    }
}

fn messages(problems: &Vec<LiveProblem>) -> (r: Vec<String>)
    ensures
        strings(r@) == live_problem_texts(live_problems_model(problems@)),
{
    let mut out: Vec<String> = Vec::new();
    let mut i: usize = 0;
    while i < problems.len()
        invariant
            i <= problems@.len(),
            out@.len() == i,
            forall|k: int|
                0 <= k < i ==> (#[trigger] out@[k])@ == live_problem_text(problems@[k]@),
        decreases problems@.len() - i,
    {
        out.push(problems[i].message());
        i += 1;
    }
    assert(strings(out@) =~= live_problem_texts(live_problems_model(problems@)));
    out
}

impl LiveError {
    pub fn message(&self) -> (r: String)
        ensures
            r@ == live_error_text(self@),
    {
        match self {
            LiveError::NoHeading =>
            "required heading 'Race To Turin' not found; page structure changed or wrong document".to_string(),
            LiveError::NoTimestamp => "source timestamp (time#source-as-of) missing".to_string(),
            LiveError::BadTimestamp => "source timestamp is not RFC 3339".to_string(),
            LiveError::Row { number, cause: _ } => {
                let mut s = "row ".to_string();
                append_number(&mut s, *number as u64);
                s.append(" failed to parse");
                s
            },
            LiveError::Rejected { problems } => {
                let mut s = "candidate snapshot rejected: ".to_string();
                s.append(join(&messages(problems), "; ").as_str());
                s
            },
        }
    }
}

} // verus!
